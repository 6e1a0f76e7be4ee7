//! The buffer-insertion rules. Each round finds the driver whose output transition most
//! exceeds the limit, splits its net (a fresh buffer takes over the first half of the sinks),
//! has the split netlist timed, and keeps the insertion when the worst transition dropped and
//! setup did not get worse. The timer runs outside this crate: the rules take its snapshots.

use vstd::prelude::*;

use crate::job::{glob_accepts, glob_match, BufCfg, CfgView};
use crate::text::{debug_str, quoted_between};
use crate::netlist::{
    cell_named, conn_dir, driver_slew, find_cell, find_pin_dir, fits, inst_sinks, is_worst_slew,
    sink_list, sinks_upto, CellView, Inst, InstView, Library, Netlist, PinDir, Timing, TimingView,
};
use crate::order::{pair_order, pair_view, pair_views, sort_pairs, Pair};

pub use crate::optimize::{optimize, BufResult};

verus! {

/// Every instance input pin on `net`, as `(instance, pin)`, sorted (the split order).
pub fn sinks_of(nl: &Netlist, lib: &Library, net: &String) -> (r: Vec<(String, String)>)
    ensures
        pair_views(r@) == sink_list(lib@, nl@, net@).sort_by(pair_order()),
        r@.len() == sink_list(lib@, nl@, net@).len(),
{
    let mut v: Vec<(String, String)> = Vec::new();
    let mut i: usize = 0;
    while i < nl.insts.len()
        invariant
            i <= nl.insts.len(),
            pair_views(v@) == sinks_upto(lib@, nl@, net@, i as int),
        decreases nl.insts.len() - i,
    {
        let inst = &nl.insts[i];
        assert(nl@[i as int] == inst@);
        let ghost before = pair_views(v@);
        match find_cell(lib, &inst.cell) {
            None => {
                proof {
                    assert forall|m: int| 0 <= m <= inst@.conns.len() implies inst_sinks(
                        lib@,
                        inst@,
                        net@,
                        m,
                    ) == Seq::<Pair>::empty() by {
                        lemma_no_sinks_without_cell(lib@, inst@, net@, m);
                    }
                    assert(sinks_upto(lib@, nl@, net@, i + 1) =~= before);
                }
            },
            Some(k) => {
                let cell = &lib.cells[k];
                assert(lib@[k as int] == cell@);
                let mut j: usize = 0;
                while j < inst.conns.len()
                    invariant
                        j <= inst.conns.len(),
                        cell_named(lib@, inst@.cell) == Some(cell@),
                        pair_views(v@) == before + inst_sinks(lib@, inst@, net@, j as int),
                    decreases inst.conns.len() - j,
                {
                    assert(inst@.conns[j as int] == pair_view(inst.conns@[j as int]));
                    let dir = find_pin_dir(cell, &inst.conns[j].0);
                    if inst.conns[j].1 == *net && dir == Some(PinDir::Input) {
                        let ghost pv = pair_views(v@);
                        v.push((inst.name.clone(), inst.conns[j].0.clone()));
                        assert(pair_views(v@) =~= pv.push((inst@.name, inst@.conns[j as int].0)));
                    }
                    j = j + 1;
                }
            },
        }
        i = i + 1;
    }
    let r = sort_pairs(v);
    proof {
        crate::order::lemma_pair_order_total();
        sink_list(lib@, nl@, net@).lemma_sort_by_ensures(pair_order());
        vstd::seq_lib::to_multiset_len(pair_views(r@));
        vstd::seq_lib::to_multiset_len(sink_list(lib@, nl@, net@));
    }
    r
}

/// `(i2, j2)` comes before `(i, j)` in netlist order.
pub open spec fn pos_before(i2: int, j2: int, i: int, j: int) -> bool {
    i2 < i || (i2 == i && j2 < j)
}

/// The worst driver output transition over the design (what the rounds drive down): the
/// largest transition of an output pin the timer knows, and 0 when there is none larger.
pub fn worst_slew(timer: &Timing, nl: &Netlist, lib: &Library) -> (r: i64)
    requires
        fits(timer@, nl@),
    ensures
        is_worst_slew(lib@, nl@, timer@, r as int),
{
    let mut worst: i64 = 0;
    let mut i: usize = 0;
    while i < nl.insts.len()
        invariant
            i <= nl.insts.len(),
            fits(timer@, nl@),
            worst >= 0,
            forall|i2: int, j2: int|
                #![trigger driver_slew(lib@, nl@, timer@, i2, j2)]
                i2 < i ==> (driver_slew(lib@, nl@, timer@, i2, j2) matches Some(s) ==> s <= worst),
            worst == 0 || exists|i2: int, j2: int|
                #![trigger driver_slew(lib@, nl@, timer@, i2, j2)]
                i2 < i && driver_slew(lib@, nl@, timer@, i2, j2) == Some(worst),
        decreases nl.insts.len() - i,
    {
        let inst = &nl.insts[i];
        assert(nl@[i as int] == inst@);
        assert(timer@.slews[i as int] == timer.slews@[i as int]@);
        match find_cell(lib, &inst.cell) {
            None => {
                assert forall|j2: int| #[trigger] driver_slew(lib@, nl@, timer@, i as int, j2) is None by {}
            },
            Some(k) => {
                let cell = &lib.cells[k];
                assert(lib@[k as int] == cell@);
                let row = &timer.slews[i];
                let mut j: usize = 0;
                while j < inst.conns.len()
                    invariant
                        i < nl.insts.len(),
                        inst@ == nl@[i as int],
                        row@ == timer@.slews[i as int],
                        row@.len() == inst.conns.len(),
                        j <= inst.conns.len(),
                        fits(timer@, nl@),
                        cell_named(lib@, inst@.cell) == Some(cell@),
                        worst >= 0,
                        forall|i2: int, j2: int|
                            #![trigger driver_slew(lib@, nl@, timer@, i2, j2)]
                            pos_before(i2, j2, i as int, j as int) ==> (driver_slew(lib@, nl@, timer@, i2, j2) matches Some(s) ==> s <= worst),
                        worst == 0 || exists|i2: int, j2: int|
                            #![trigger driver_slew(lib@, nl@, timer@, i2, j2)]
                            pos_before(i2, j2, i as int, j as int) && driver_slew(lib@, nl@, timer@, i2, j2) == Some(worst),
                    decreases inst.conns.len() - j,
                {
                    assert(inst@.conns[j as int] == pair_view(inst.conns@[j as int]));
                    let dir = find_pin_dir(cell, &inst.conns[j].0);
                    if dir == Some(PinDir::Output) {
                        match row[j] {
                            Some(s) => {
                                if s > worst {
                                    worst = s;
                                    assert(driver_slew(lib@, nl@, timer@, i as int, j as int) == Some(worst));
                                }
                            },
                            None => {},
                        }
                    }
                    assert(driver_slew(lib@, nl@, timer@, i as int, j as int) matches Some(s) ==> s <= worst);
                    j = j + 1;
                }
                assert forall|j2: int| j2 >= inst.conns.len() implies #[trigger] driver_slew(lib@, nl@, timer@, i as int, j2) is None by {}
            },
        }
        i = i + 1;
    }
    assert forall|i2: int, j2: int|
        (#[trigger] driver_slew(lib@, nl@, timer@, i2, j2) matches Some(s) ==> s <= worst) by {
        if i2 >= nl@.len() {
        }
    }
    worst
}

/// Some glob of `globs` accepts the instance name `name`.
pub open spec fn protected(globs: Seq<Seq<char>>, name: Seq<char>) -> bool {
    exists|k: int| 0 <= k < globs.len() && glob_accepts(#[trigger] globs[k], name)
}

/// Connection `j` of instance `i` drives a net that may be relieved: the instance is not
/// `dont_touch`, the pin is an output, the net was not tried since the last insertion, its
/// transition is over `limit`, and the net has at least `min_fanout` sinks.
pub open spec fn eligible(
    lib: Seq<CellView>,
    nl: Seq<InstView>,
    t: TimingView,
    cfg: CfgView,
    limit: int,
    tried: Seq<Seq<char>>,
    i: int,
    j: int,
) -> bool {
    &&& 0 <= i < nl.len()
    &&& 0 <= j < nl[i].conns.len()
    &&& !protected(cfg.dont_touch, nl[i].name)
    &&& conn_dir(lib, nl[i], j) == Some(PinDir::Output)
    &&& !tried.contains(nl[i].conns[j].1)
    &&& t.slews[i][j] matches Some(s) && s > limit
    &&& sink_list(lib, nl, nl[i].conns[j].1).len() >= cfg.min_fanout
}

/// `min_fanout` is an inclusive threshold: with it at `m`, a driver is eligible exactly when
/// its net has at least `m` sinks and it is eligible with no threshold at all.
pub proof fn lemma_fanout_threshold(
    lib: Seq<CellView>,
    nl: Seq<InstView>,
    t: TimingView,
    cfg: CfgView,
    limit: int,
    tried: Seq<Seq<char>>,
    i: int,
    j: int,
    m: int,
)
    requires
        0 <= i < nl.len(),
        0 <= j < nl[i].conns.len(),
        m >= 0,
    ensures
        eligible(lib, nl, t, CfgView { min_fanout: m, ..cfg }, limit, tried, i, j) <==> (sink_list(
            lib,
            nl,
            nl[i].conns[j].1,
        ).len() >= m && eligible(lib, nl, t, CfgView { min_fanout: 0, ..cfg }, limit, tried, i, j)),
{
}

/// The transition at connection `j` of instance `i`.
pub open spec fn slew_at(t: TimingView, i: int, j: int) -> int {
    t.slews[i][j]->Some_0 as int
}

/// `(i, j)` is the net to relieve: eligible, with the largest transition, and the first in
/// netlist order among those with it.
pub open spec fn is_best(
    lib: Seq<CellView>,
    nl: Seq<InstView>,
    t: TimingView,
    cfg: CfgView,
    limit: int,
    tried: Seq<Seq<char>>,
    i: int,
    j: int,
) -> bool {
    &&& eligible(lib, nl, t, cfg, limit, tried, i, j)
    &&& forall|i2: int, j2: int|
        #[trigger] eligible(lib, nl, t, cfg, limit, tried, i2, j2) ==> slew_at(t, i2, j2) <= slew_at(
            t,
            i,
            j,
        )
    &&& forall|i2: int, j2: int|
        #[trigger] eligible(lib, nl, t, cfg, limit, tried, i2, j2) && pos_before(i2, j2, i, j)
            ==> slew_at(t, i2, j2) < slew_at(t, i, j)
}

/// The net chosen to relieve obeys the job's rules: its driver is an output pin of an
/// instance no `dont_touch` glob names, the net was not tried since the last insertion, its
/// transition is over the limit, and it has at least `min_fanout` sinks.
pub proof fn lemma_candidate_rules(
    lib: Seq<CellView>,
    nl: Seq<InstView>,
    t: TimingView,
    cfg: CfgView,
    limit: int,
    tried: Seq<Seq<char>>,
    i: int,
    j: int,
)
    requires
        is_best(lib, nl, t, cfg, limit, tried, i, j),
    ensures
        !protected(cfg.dont_touch, nl[i].name),
        conn_dir(lib, nl[i], j) == Some(PinDir::Output),
        !tried.contains(nl[i].conns[j].1),
        slew_at(t, i, j) > limit,
        sink_list(lib, nl, nl[i].conns[j].1).len() >= cfg.min_fanout,
{
}

/// A net whose driver is over the transition limit: a candidate to relieve.
#[derive(Debug)]
pub struct Cand {
    pub net: String,
    /// The `(instance, input pin)` sinks on the net, sorted.
    pub sinks: Vec<(String, String)>,
    pub slew: i64,
}

/// Whether some glob of `globs` accepts `name`.
fn is_protected(globs: &Vec<String>, name: &String) -> (r: bool)
    ensures
        r == protected(crate::text::views(globs@), name@),
{
    let ghost g = crate::text::views(globs@);
    let mut k: usize = 0;
    while k < globs.len()
        invariant
            k <= globs.len(),
            g == crate::text::views(globs@),
            forall|m: int| 0 <= m < k ==> !glob_accepts(#[trigger] g[m], name@),
        decreases globs.len() - k,
    {
        if glob_match(globs[k].as_str(), name.as_str()) {
            assert(g[k as int] == globs@[k as int]@);
            return true;
        }
        k = k + 1;
    }
    false
}

/// Whether `names` holds `name`.
fn holds_name(names: &Vec<String>, name: &String) -> (r: bool)
    ensures
        r == crate::text::views(names@).contains(name@),
{
    let ghost g = crate::text::views(names@);
    let mut k: usize = 0;
    while k < names.len()
        invariant
            k <= names.len(),
            g == crate::text::views(names@),
            forall|m: int| 0 <= m < k ==> #[trigger] g[m] != name@,
        decreases names.len() - k,
    {
        if names[k] == *name {
            assert(g[k as int] == name@);
            return true;
        }
        k = k + 1;
    }
    false
}

/// The over-limit net with the worst driver transition (at least `min_fanout` instance sinks,
/// driver not `dont_touch`, net not in `tried`), and the sinks on it; `None` when no net is
/// eligible. Ties go to the first in netlist order.
pub fn worst_overslew(
    timer: &Timing,
    nl: &Netlist,
    lib: &Library,
    cfg: &BufCfg,
    limit: i64,
    tried: &Vec<String>,
) -> (r: Option<Cand>)
    requires
        fits(timer@, nl@),
    ensures
        match r {
            None => forall|i: int, j: int|
                !#[trigger] eligible(lib@, nl@, timer@, cfg@, limit as int, crate::text::views(tried@), i, j),
            Some(c) => exists|i: int, j: int|
                #[trigger] is_best(lib@, nl@, timer@, cfg@, limit as int, crate::text::views(tried@), i, j)
                    && c.net@ == nl@[i].conns[j].1 && c.slew as int == slew_at(timer@, i, j)
                    && pair_views(c.sinks@) == sink_list(lib@, nl@, c.net@).sort_by(pair_order()),
        },
{
    let ghost tv = crate::text::views(tried@);
    let ghost lv = lib@;
    let ghost nv = nl@;
    let ghost tm = timer@;
    let ghost cv = cfg@;
    let ghost lim = limit as int;
    let mut best: Option<Cand> = None;
    let ghost mut bi: int = 0;
    let ghost mut bj: int = 0;
    let mut i: usize = 0;
    while i < nl.insts.len()
        invariant
            i <= nl.insts.len(),
            fits(timer@, nl@),
            tv == crate::text::views(tried@),
            lv == lib@,
            nv == nl@,
            tm == timer@,
            cv == cfg@,
            lim == limit as int,
            match best {
                None => forall|i2: int, j2: int|
                    i2 < i ==> !#[trigger] eligible(lv, nv, tm, cv, lim, tv, i2, j2),
                Some(c) => {
                    &&& bi < i
                    &&& eligible(lv, nv, tm, cv, lim, tv, bi, bj)
                    &&& c.net@ == nv[bi].conns[bj].1
                    &&& c.slew as int == slew_at(tm, bi, bj)
                    &&& pair_views(c.sinks@) == sink_list(lv, nv, c.net@).sort_by(pair_order())
                    &&& forall|i2: int, j2: int|
                        #[trigger] eligible(lv, nv, tm, cv, lim, tv, i2, j2) && i2 < i
                            ==> slew_at(tm, i2, j2) <= c.slew
                    &&& forall|i2: int, j2: int|
                        #[trigger] eligible(lv, nv, tm, cv, lim, tv, i2, j2) && pos_before(i2, j2, bi, bj)
                            ==> slew_at(tm, i2, j2) < c.slew
                },
            },
        decreases nl.insts.len() - i,
    {
        let inst = &nl.insts[i];
        assert(nv[i as int] == inst@);
        assert(tm.slews[i as int] == timer.slews@[i as int]@);
        if is_protected(&cfg.dont_touch, &inst.name) {
            assert forall|j2: int| !#[trigger] eligible(lv, nv, tm, cv, lim, tv, i as int, j2) by {}
        } else {
            match find_cell(lib, &inst.cell) {
                None => {
                    assert forall|j2: int| !#[trigger] eligible(lv, nv, tm, cv, lim, tv, i as int, j2) by {}
                },
                Some(k) => {
                    let cell = &lib.cells[k];
                    assert(lib@[k as int] == cell@);
                    let row = &timer.slews[i];
                    let mut j: usize = 0;
                    while j < inst.conns.len()
                        invariant
                            i < nl.insts.len(),
                            inst@ == nv[i as int],
                            row@ == tm.slews[i as int],
                            row@.len() == inst.conns.len(),
                            j <= inst.conns.len(),
                            fits(timer@, nl@),
                            !protected(cv.dont_touch, inst@.name),
                            cell_named(lv, inst@.cell) == Some(cell@),
                            tv == crate::text::views(tried@),
                            lv == lib@,
                            nv == nl@,
                            tm == timer@,
                            cv == cfg@,
                            lim == limit as int,
                            match best {
                                None => forall|i2: int, j2: int|
                                    pos_before(i2, j2, i as int, j as int) ==> !#[trigger] eligible(lv, nv, tm, cv, lim, tv, i2, j2),
                                Some(c) => {
                                    &&& pos_before(bi, bj, i as int, j as int)
                                    &&& eligible(lv, nv, tm, cv, lim, tv, bi, bj)
                                    &&& c.net@ == nv[bi].conns[bj].1
                                    &&& c.slew as int == slew_at(tm, bi, bj)
                                    &&& pair_views(c.sinks@) == sink_list(lv, nv, c.net@).sort_by(pair_order())
                                    &&& forall|i2: int, j2: int|
                                        #[trigger] eligible(lv, nv, tm, cv, lim, tv, i2, j2) && pos_before(i2, j2, i as int, j as int)
                                            ==> slew_at(tm, i2, j2) <= c.slew
                                    &&& forall|i2: int, j2: int|
                                        #[trigger] eligible(lv, nv, tm, cv, lim, tv, i2, j2) && pos_before(i2, j2, bi, bj)
                                            ==> slew_at(tm, i2, j2) < c.slew
                                },
                            },
                        decreases inst.conns.len() - j,
                    {
                        assert(inst@.conns[j as int] == pair_view(inst.conns@[j as int]));
                        let net = &inst.conns[j].1;
                        let dir = find_pin_dir(cell, &inst.conns[j].0);
                        if dir == Some(PinDir::Output) && !holds_name(tried, net) {
                            match row[j] {
                                Some(slew) => {
                                    if slew > limit {
                                        let sinks = sinks_of(nl, lib, net);
                                        if sinks.len() >= cfg.min_fanout {
                                            assert(eligible(lv, nv, tm, cv, lim, tv, i as int, j as int));
                                            let better = match &best {
                                                None => true,
                                                Some(b) => slew > b.slew,
                                            };
                                            if better {
                                                best = Some(Cand { net: net.clone(), sinks, slew });
                                                proof {
                                                    bi = i as int;
                                                    bj = j as int;
                                                }
                                            }
                                        }
                                    }
                                },
                                None => {},
                            }
                        }
                        j = j + 1;
                    }
                },
            }
        }
        i = i + 1;
    }
    proof {
        match &best {
            None => {
                assert forall|i2: int, j2: int|
                    !#[trigger] eligible(lv, nv, tm, cv, lim, tv, i2, j2) by {
                    if i2 < i {
                    }
                }
            },
            Some(c) => {
                assert forall|i2: int, j2: int|
                    #[trigger] eligible(lv, nv, tm, cv, lim, tv, i2, j2) implies slew_at(tm, i2, j2)
                        <= slew_at(tm, bi, bj) by {
                    if i2 < i {
                    }
                }
                assert(is_best(lv, nv, tm, cv, lim, tv, bi, bj));
            },
        }
    }
    best
}

/// How many sinks a split moves: half of them, at least one, never more than there are.
pub open spec fn moved_count(n: int) -> int {
    let h = if n / 2 >= 1 {
        n / 2
    } else {
        1
    };
    if h <= n {
        h
    } else {
        n
    }
}

/// The sinks a split moves onto the buffer's net: the first `moved_count` of them.
pub open spec fn moved_sinks(sinks: Seq<Pair>) -> Seq<Pair> {
    sinks.take(moved_count(sinks.len() as int))
}

/// A split moves half of a net's sinks, rounded down, but at least one: the driver keeps as
/// many as the buffer takes, or one more.
pub proof fn lemma_split_takes_half(n: int)
    requires
        n >= 1,
    ensures
        1 <= moved_count(n) <= n,
        n >= 2 ==> 2 * moved_count(n) <= n <= 2 * moved_count(n) + 1,
        n == 1 ==> moved_count(n) == 1,
{
}

/// The sinks a split moves are the first of them, in the order given.
pub proof fn lemma_moved_sinks_first(sinks: Seq<Pair>)
    ensures
        moved_sinks(sinks).len() == moved_count(sinks.len() as int),
        forall|k: int| 0 <= k < moved_sinks(sinks).len() ==> #[trigger] moved_sinks(sinks)[k] == sinks[k],
{
}

/// An instance after a split: each connection to `net` whose `(instance, pin)` is among
/// `moved` now goes to `bufnet`.
pub open spec fn rewired_inst(inst: InstView, net: Seq<char>, moved: Seq<Pair>, bufnet: Seq<char>) -> InstView {
    InstView {
        cell: inst.cell,
        name: inst.name,
        conns: inst.conns.map_values(
            |c: Pair|
                if c.1 == net && moved.contains((inst.name, c.0)) {
                    (c.0, bufnet)
                } else {
                    c
                },
        ),
    }
}

/// The netlist after inserting buffer `bufname` (cell `buffer`, pins `bin`/`bout`) on `net`:
/// the moved sinks are rewired to `bufnet`, and the buffer is appended, its input on `net`
/// and its output driving `bufnet`.
pub open spec fn split_netlist(
    nl: Seq<InstView>,
    net: Seq<char>,
    moved: Seq<Pair>,
    buffer: Seq<char>,
    bin: Seq<char>,
    bout: Seq<char>,
    bufname: Seq<char>,
    bufnet: Seq<char>,
) -> Seq<InstView> {
    nl.map_values(|inst: InstView| rewired_inst(inst, net, moved, bufnet)).push(
        InstView { cell: buffer, name: bufname, conns: seq![(bin, net), (bout, bufnet)] },
    )
}

/// A copy of an instance.
pub fn copy_inst(inst: &Inst) -> (r: Inst)
    ensures
        r@ == inst@,
{
    let mut conns: Vec<(String, String)> = Vec::new();
    let mut j: usize = 0;
    while j < inst.conns.len()
        invariant
            j <= inst.conns.len(),
            pair_views(conns@) == pair_views(inst.conns@).take(j as int),
        decreases inst.conns.len() - j,
    {
        let ghost before = pair_views(conns@);
        conns.push((inst.conns[j].0.clone(), inst.conns[j].1.clone()));
        assert(pair_views(conns@) =~= before.push(pair_view(inst.conns@[j as int])));
        assert(pair_views(inst.conns@).take(j + 1) =~= pair_views(inst.conns@).take(j as int).push(
            pair_view(inst.conns@[j as int]),
        ));
        j = j + 1;
    }
    assert(pair_views(inst.conns@).take(inst.conns.len() as int) =~= pair_views(inst.conns@));
    Inst { cell: inst.cell.clone(), name: inst.name.clone(), conns }
}

/// A copy of a netlist.
pub fn copy_netlist(nl: &Netlist) -> (r: Netlist)
    ensures
        r@ == nl@,
{
    let mut insts: Vec<Inst> = Vec::new();
    let mut i: usize = 0;
    while i < nl.insts.len()
        invariant
            i <= nl.insts.len(),
            insts@.map_values(|x: Inst| x@) == nl@.take(i as int),
        decreases nl.insts.len() - i,
    {
        let ghost before = insts@.map_values(|x: Inst| x@);
        insts.push(copy_inst(&nl.insts[i]));
        assert(insts@.map_values(|x: Inst| x@) =~= before.push(nl@[i as int]));
        assert(nl@.take(i + 1) =~= nl@.take(i as int).push(nl@[i as int]));
        i = i + 1;
    }
    assert(nl@.take(nl.insts.len() as int) =~= nl@);
    Netlist { insts }
}

/// Whether `(name, pin)` is among the first `count` pairs of `pairs`.
fn among_first(pairs: &Vec<(String, String)>, count: usize, name: &String, pin: &String) -> (r: bool)
    requires
        count <= pairs.len(),
    ensures
        r == pair_views(pairs@).take(count as int).contains((name@, pin@)),
{
    let ghost m = pair_views(pairs@).take(count as int);
    let mut k: usize = 0;
    while k < count
        invariant
            count <= pairs.len(),
            k <= count,
            m == pair_views(pairs@).take(count as int),
            forall|q: int| 0 <= q < k ==> #[trigger] m[q] != (name@, pin@),
        decreases count - k,
    {
        if pairs[k].0 == *name && pairs[k].1 == *pin {
            assert(m[k as int] == (name@, pin@));
            return true;
        }
        assert(m[k as int] == pair_view(pairs@[k as int]));
        k = k + 1;
    }
    false
}

/// Inserts a buffer on `cand.net`: a new buffer instance `bufname` (cell `cfg.buffer`, input
/// pin `bin` on the original net, output pin `bout` driving the fresh net `bufnet`) takes
/// over the first half of the sinks (at least one); the original driver keeps the rest and so
/// sees less load.
pub fn split_net(
    nl: &mut Netlist,
    cand: &Cand,
    cfg: &BufCfg,
    bin: &str,
    bout: &str,
    bufname: &str,
    bufnet: &str,
)
    ensures
        final(nl)@ == split_netlist(
            old(nl)@,
            cand.net@,
            moved_sinks(pair_views(cand.sinks@)),
            cfg.buffer@,
            bin@,
            bout@,
            bufname@,
            bufnet@,
        ),
{
    let half = cand.sinks.len() / 2;
    let take = if half >= 1 {
        half
    } else {
        1
    };
    let count = if take <= cand.sinks.len() {
        take
    } else {
        cand.sinks.len()
    };
    let ghost moved = moved_sinks(pair_views(cand.sinks@));
    assert(moved == pair_views(cand.sinks@).take(count as int));
    let ghost f = |inst: InstView| rewired_inst(inst, cand.net@, moved, bufnet@);
    let mut insts: Vec<Inst> = Vec::new();
    let mut i: usize = 0;
    while i < nl.insts.len()
        invariant
            i <= nl.insts.len(),
            count <= cand.sinks.len(),
            moved == pair_views(cand.sinks@).take(count as int),
            f == (|inst: InstView| rewired_inst(inst, cand.net@, moved, bufnet@)),
            insts@.map_values(|x: Inst| x@) == nl@.take(i as int).map_values(f),
        decreases nl.insts.len() - i,
    {
        let inst = &nl.insts[i];
        assert(nl@[i as int] == inst@);
        let mut conns: Vec<(String, String)> = Vec::new();
        let mut j: usize = 0;
        while j < inst.conns.len()
            invariant
                j <= inst.conns.len(),
                count <= cand.sinks.len(),
                moved == pair_views(cand.sinks@).take(count as int),
                pair_views(conns@) == rewired_inst(inst@, cand.net@, moved, bufnet@).conns.take(j as int),
            decreases inst.conns.len() - j,
        {
            let pin = &inst.conns[j].0;
            let net = &inst.conns[j].1;
            let ghost before = pair_views(conns@);
            let moves = *net == cand.net && among_first(&cand.sinks, count, &inst.name, pin);
            if moves {
                conns.push((pin.clone(), String::from_str(bufnet)));
            } else {
                conns.push((pin.clone(), net.clone()));
            }
            assert(inst@.conns[j as int] == pair_view(inst.conns@[j as int]));
            assert(pair_views(conns@) =~= before.push(
                rewired_inst(inst@, cand.net@, moved, bufnet@).conns[j as int],
            ));
            assert(rewired_inst(inst@, cand.net@, moved, bufnet@).conns.take(j + 1) =~= rewired_inst(
                inst@,
                cand.net@,
                moved,
                bufnet@,
            ).conns.take(j as int).push(rewired_inst(inst@, cand.net@, moved, bufnet@).conns[j as int]));
            j = j + 1;
        }
        let ghost before = insts@.map_values(|x: Inst| x@);
        insts.push(Inst { cell: inst.cell.clone(), name: inst.name.clone(), conns });
        proof {
            let r = rewired_inst(inst@, cand.net@, moved, bufnet@);
            assert(r.conns.take(inst.conns.len() as int) =~= r.conns);
            assert(insts@.map_values(|x: Inst| x@) =~= before.push(f(nl@[i as int])));
            assert(nl@.take(i + 1).map_values(f) =~= nl@.take(i as int).map_values(f).push(
                f(nl@[i as int]),
            ));
        }
        i = i + 1;
    }
    let ghost rewired = insts@.map_values(|x: Inst| x@);
    let mut bconns: Vec<(String, String)> = Vec::new();
    bconns.push((String::from_str(bin), cand.net.clone()));
    bconns.push((String::from_str(bout), String::from_str(bufnet)));
    insts.push(Inst { cell: cfg.buffer.clone(), name: String::from_str(bufname), conns: bconns });
    proof {
        assert(nl@.take(nl@.len() as int) =~= nl@);
        assert(pair_views(bconns@) =~= seq![(bin@, cand.net@), (bout@, bufnet@)]);
        assert(insts@.map_values(|x: Inst| x@) =~= rewired.push(
            InstView { cell: cfg.buffer@, name: bufname@, conns: seq![(bin@, cand.net@), (bout@, bufnet@)] },
        ));
    }
    *nl = Netlist { insts };
}

/// A split moves at least one sink, and on a net with two or more sinks it leaves at least
/// one with the original driver.
pub proof fn lemma_split_sides(n: int)
    requires
        n >= 1,
    ensures
        1 <= moved_count(n) <= n,
        n >= 2 ==> moved_count(n) <= n - 1,
{
}

/// Pin `k` is the cell's first input pin that is not a clock pin.
pub open spec fn is_first_data_input(c: CellView, k: int) -> bool {
    &&& 0 <= k < c.pins.len()
    &&& c.pins[k].dir == PinDir::Input && !c.pins[k].clock
    &&& forall|j: int| 0 <= j < k ==> !(#[trigger] c.pins[j].dir == PinDir::Input && !c.pins[j].clock)
}

/// Pin `k` is the cell's first output pin.
pub open spec fn is_first_output(c: CellView, k: int) -> bool {
    &&& 0 <= k < c.pins.len()
    &&& c.pins[k].dir == PinDir::Output
    &&& forall|j: int| 0 <= j < k ==> #[trigger] c.pins[j].dir != PinDir::Output
}

/// The input and output pin names of the buffer cell `buf`, or why it cannot be used.
pub open spec fn buffer_pins_of(lib: Seq<CellView>, buf: Seq<char>) -> Result<(Seq<char>, Seq<char>), Seq<char>> {
    match cell_named(lib, buf) {
        None => Err("buffer cell "@ + debug_str(buf) + " not in any .lib"@),
        Some(c) => if !exists|k: int| is_first_data_input(c, k) {
            Err("buffer "@ + debug_str(buf) + " has no input pin"@)
        } else if !exists|k: int| is_first_output(c, k) {
            Err("buffer "@ + debug_str(buf) + " has no output pin"@)
        } else {
            Ok(
                (
                    c.pins[choose|k: int| is_first_data_input(c, k)].name,
                    c.pins[choose|k: int| is_first_output(c, k)].name,
                ),
            )
        },
    }
}

/// The (single input, single output) pin names of the buffer cell.
pub fn buffer_pins(lib: &Library, buf: &String) -> (r: Result<(String, String), String>)
    ensures
        match r {
            Ok((i, o)) => buffer_pins_of(lib@, buf@) == Ok::<(Seq<char>, Seq<char>), Seq<char>>((i@, o@)),
            Err(e) => buffer_pins_of(lib@, buf@) == Err::<(Seq<char>, Seq<char>), Seq<char>>(e@),
        },
{
    let k = match find_cell(lib, buf) {
        None => {
            return Err(quoted_between("buffer cell ", buf.as_str(), " not in any .lib"));
        },
        Some(k) => k,
    };
    let cell = &lib.cells[k];
    assert(lib@[k as int] == cell@);
    let ghost c = cell@;
    let mut a: usize = 0;
    while a < cell.pins.len() && !(cell.pins[a].dir == PinDir::Input && !cell.pins[a].clock)
        invariant
            a <= cell.pins.len(),
            c == cell@,
            forall|j: int| 0 <= j < a ==> !(#[trigger] c.pins[j].dir == PinDir::Input && !c.pins[j].clock),
        decreases cell.pins.len() - a,
    {
        assert(c.pins[a as int] == cell.pins@[a as int]@);
        a = a + 1;
    }
    if a == cell.pins.len() {
        proof {
            if exists|q: int| is_first_data_input(c, q) {
                let q = choose|q: int| is_first_data_input(c, q);
                assert(!(c.pins[q].dir == PinDir::Input && !c.pins[q].clock));
            }
        }
        return Err(quoted_between("buffer ", buf.as_str(), " has no input pin"));
    }
    proof {
        assert(c.pins[a as int] == cell.pins@[a as int]@);
        assert(is_first_data_input(c, a as int));
        let q = choose|q: int| is_first_data_input(c, q);
        if q < a {
            assert(!(c.pins[q].dir == PinDir::Input && !c.pins[q].clock));
        }
        if a < q {
            assert(!(c.pins[a as int].dir == PinDir::Input && !c.pins[a as int].clock));
        }
    }
    let mut b: usize = 0;
    while b < cell.pins.len() && cell.pins[b].dir != PinDir::Output
        invariant
            b <= cell.pins.len(),
            c == cell@,
            forall|j: int| 0 <= j < b ==> #[trigger] c.pins[j].dir != PinDir::Output,
        decreases cell.pins.len() - b,
    {
        assert(c.pins[b as int] == cell.pins@[b as int]@);
        b = b + 1;
    }
    if b == cell.pins.len() {
        proof {
            if exists|q: int| is_first_output(c, q) {
                let q = choose|q: int| is_first_output(c, q);
                assert(c.pins[q].dir != PinDir::Output);
            }
        }
        return Err(quoted_between("buffer ", buf.as_str(), " has no output pin"));
    }
    proof {
        assert(c.pins[b as int] == cell.pins@[b as int]@);
        assert(is_first_output(c, b as int));
        let q = choose|q: int| is_first_output(c, q);
        if q < b {
            assert(c.pins[q].dir != PinDir::Output);
        }
        if b < q {
            assert(c.pins[b as int].dir != PinDir::Output);
        }
    }
    Ok((cell.pins[a].name.clone(), cell.pins[b].name.clone()))
}

/// The digit character of `d` (0 to 9).
pub open spec fn digit_char(d: int) -> char {
    (d + 48) as char
}

/// The decimal numeral of `n`.
pub open spec fn decimal(n: nat) -> Seq<char>
    decreases n,
{
    if n < 10 {
        seq![digit_char(n as int)]
    } else {
        decimal(n / 10).push(digit_char((n % 10) as int))
    }
}

/// The name of the `k`-th inserted buffer, `__buf_k`.
pub open spec fn buf_name(k: nat) -> Seq<char> {
    "__buf_"@ + decimal(k)
}

/// The name of the net the `k`-th inserted buffer drives, `__bufn_k`.
pub open spec fn buf_net_name(k: nat) -> Seq<char> {
    "__bufn_"@ + decimal(k)
}

fn digit_str(d: usize) -> (r: &'static str)
    requires
        d < 10,
    ensures
        r@ == seq![digit_char(d as int)],
{
    if d == 0 {
        proof { reveal_strlit("0"); }
        "0"
    } else if d == 1 {
        proof { reveal_strlit("1"); }
        "1"
    } else if d == 2 {
        proof { reveal_strlit("2"); }
        "2"
    } else if d == 3 {
        proof { reveal_strlit("3"); }
        "3"
    } else if d == 4 {
        proof { reveal_strlit("4"); }
        "4"
    } else if d == 5 {
        proof { reveal_strlit("5"); }
        "5"
    } else if d == 6 {
        proof { reveal_strlit("6"); }
        "6"
    } else if d == 7 {
        proof { reveal_strlit("7"); }
        "7"
    } else if d == 8 {
        proof { reveal_strlit("8"); }
        "8"
    } else {
        proof { reveal_strlit("9"); }
        "9"
    }
}

/// The decimal numeral of `n`.
pub fn decimal_string(n: usize) -> (r: String)
    ensures
        r@ == decimal(n as nat),
    decreases n,
{
    if n < 10 {
        String::from_str(digit_str(n))
    } else {
        let head = decimal_string(n / 10);
        head.concat(digit_str(n % 10))
    }
}

proof fn lemma_no_sinks_without_cell(lib: Seq<CellView>, inst: InstView, net: Seq<char>, m: int)
    requires
        cell_named(lib, inst.cell) is None,
    ensures
        inst_sinks(lib, inst, net, m) == Seq::<Pair>::empty(),
    decreases m,
{
    if m > 0 {
        lemma_no_sinks_without_cell(lib, inst, net, m - 1);
    }
}

} // verus!
