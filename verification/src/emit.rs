//! Structural Verilog for a netlist: a module holding its instances, one per line. Ports are
//! not declared; the nets are implicit wires.

use vstd::prelude::*;

use crate::netlist::{Inst, InstView, Netlist};
use crate::order::{pair_views, Pair};

verus! {

/// One connection: `.PIN(NET)`.
pub open spec fn conn_text(c: Pair) -> Seq<char> {
    "."@ + c.0 + "("@ + c.1 + ")"@
}

/// The connections of an instance, separated by `, `.
pub open spec fn conns_text(cs: Seq<Pair>) -> Seq<char>
    decreases cs.len(),
{
    if cs.len() == 0 {
        Seq::empty()
    } else if cs.len() == 1 {
        conn_text(cs[0])
    } else {
        conns_text(cs.drop_last()) + ", "@ + conn_text(cs.last())
    }
}

/// The line of one instance: `  CELL NAME ( .PIN(NET), ... );` and a line end.
pub open spec fn inst_line(i: InstView) -> Seq<char> {
    "  "@ + i.cell + " "@ + i.name + " ( "@ + conns_text(i.conns) + " );\n"@
}

/// The lines of the instances, in order.
pub open spec fn insts_text(nl: Seq<InstView>) -> Seq<char>
    decreases nl.len(),
{
    if nl.len() == 0 {
        Seq::empty()
    } else {
        insts_text(nl.drop_last()) + inst_line(nl.last())
    }
}

/// The whole module.
pub open spec fn verilog_of(nl: Seq<InstView>) -> Seq<char> {
    "module top;\n"@ + insts_text(nl) + "endmodule\n"@
}

/// Connection lists join with `, `: the text of `a` then `b` is `a`'s text, a `, `, and `b`'s
/// text; one connection alone is just its own text.
pub proof fn lemma_conns_join(a: Seq<Pair>, b: Seq<Pair>)
    requires
        a.len() > 0,
        b.len() > 0,
    ensures
        conns_text(a + b) == conns_text(a) + ", "@ + conns_text(b),
    decreases b.len(),
{
    if b.len() == 1 {
        assert((a + b).drop_last() =~= a);
        assert((a + b).last() == b[0]);
    } else {
        let b2 = b.drop_last();
        lemma_conns_join(a, b2);
        assert((a + b).drop_last() =~= a + b2);
        assert((a + b).last() == b.last());
        assert(conns_text(a + b) =~= conns_text(a) + ", "@ + conns_text(b));
    }
}

/// One connection alone is just its own text.
pub proof fn lemma_conns_single(c: Pair)
    ensures
        conns_text(seq![c]) == conn_text(c),
{
}

/// The instance lines of `a` then `b` are `a`'s lines followed by `b`'s.
pub proof fn lemma_insts_join(a: Seq<InstView>, b: Seq<InstView>)
    ensures
        insts_text(a + b) == insts_text(a) + insts_text(b),
    decreases b.len(),
{
    if b.len() == 0 {
        assert(a + b =~= a);
        assert(insts_text(a) + insts_text(b) =~= insts_text(a));
    } else {
        let b2 = b.drop_last();
        lemma_insts_join(a, b2);
        assert((a + b).drop_last() =~= a + b2);
        assert((a + b).last() == b.last());
        assert(insts_text(a + b) =~= insts_text(a) + insts_text(b));
    }
}

/// The line of one instance.
fn inst_line_string(inst: &Inst) -> (r: String)
    ensures
        r@ == inst_line(inst@),
{
    let ghost cs = pair_views(inst.conns@);
    let mut c = String::new();
    let mut j: usize = 0;
    assert(cs.take(0) =~= Seq::<Pair>::empty());
    while j < inst.conns.len()
        invariant
            j <= inst.conns.len(),
            cs == pair_views(inst.conns@),
            c@ == conns_text(cs.take(j as int)),
        decreases inst.conns.len() - j,
    {
        let ghost before = c@;
        if j > 0 {
            c.append(", ");
        }
        c.append(".");
        c.append(inst.conns[j].0.as_str());
        c.append("(");
        c.append(inst.conns[j].1.as_str());
        c.append(")");
        proof {
            let t = cs.take(j + 1);
            assert(t.drop_last() =~= cs.take(j as int));
            assert(t.last() == cs[j as int]);
            assert(cs[j as int] == (inst.conns@[j as int].0@, inst.conns@[j as int].1@));
            if j == 0 {
                assert(c@ =~= conn_text(cs[0]));
            } else {
                assert(c@ =~= before + ", "@ + conn_text(t.last()));
            }
        }
        j = j + 1;
    }
    assert(cs.take(inst.conns.len() as int) =~= cs);
    let mut r = String::from_str("  ");
    r.append(inst.cell.as_str());
    r.append(" ");
    r.append(inst.name.as_str());
    r.append(" ( ");
    r.append(c.as_str());
    r.append(" );\n");
    assert(r@ =~= inst_line(inst@));
    r
}

/// The netlist as structural Verilog: `module top;`, then `CELL NAME ( .PIN(NET), ... );` per
/// instance, then `endmodule`.
pub fn to_verilog(nl: &Netlist) -> (r: String)
    ensures
        r@ == verilog_of(nl@),
{
    let mut s = String::from_str("module top;\n");
    let mut i: usize = 0;
    assert(nl@.take(0) =~= Seq::<InstView>::empty());
    while i < nl.insts.len()
        invariant
            i <= nl.insts.len(),
            s@ == "module top;\n"@ + insts_text(nl@.take(i as int)),
        decreases nl.insts.len() - i,
    {
        let line = inst_line_string(&nl.insts[i]);
        let ghost before = s@;
        s.append(line.as_str());
        proof {
            let t = nl@.take(i + 1);
            assert(t.drop_last() =~= nl@.take(i as int));
            assert(t.last() == nl.insts@[i as int]@);
            assert(s@ =~= "module top;\n"@ + insts_text(t));
        }
        i = i + 1;
    }
    assert(nl@.take(nl.insts.len() as int) =~= nl@);
    s.append("endmodule\n");
    s
}

} // verus!
