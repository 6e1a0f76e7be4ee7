//! The order of strings and of string pairs that Rust's `Ord` gives them (code point by code
//! point, a proper prefix first), and a sort that is proved to produce `Seq::sort_by`.

use vstd::prelude::*;
use vstd::relations::{sorted_by, total_ordering};

use crate::text::chars_of;

verus! {

broadcast use vstd::seq_lib::group_to_multiset_ensures;

/// `a` comes strictly before `b`: at the first difference `a` holds the smaller code point, or
/// `a` is a proper prefix of `b`. (UTF-8 keeps code point order, so this is `String`'s order.)
pub open spec fn chars_before(a: Seq<char>, b: Seq<char>) -> bool
    decreases a.len(),
{
    if a.len() == 0 {
        b.len() > 0
    } else if b.len() == 0 {
        false
    } else if a[0] != b[0] {
        (a[0] as int) < (b[0] as int)
    } else {
        chars_before(a.drop_first(), b.drop_first())
    }
}

/// A pair of strings as plain values.
pub type Pair = (Seq<char>, Seq<char>);

/// `x` is not after `y` in the order of `(String, String)` tuples: first parts first.
pub open spec fn pair_leq(x: Pair, y: Pair) -> bool {
    chars_before(x.0, y.0) || (x.0 == y.0 && (chars_before(x.1, y.1) || x.1 == y.1))
}

/// The tuple order as a relation.
pub open spec fn pair_order() -> spec_fn(Pair, Pair) -> bool {
    |x: Pair, y: Pair| pair_leq(x, y)
}

/// A pair of strings by its views.
pub open spec fn pair_view(p: (String, String)) -> Pair {
    (p.0@, p.1@)
}

pub open spec fn pair_views(s: Seq<(String, String)>) -> Seq<Pair> {
    s.map_values(|p: (String, String)| pair_view(p))
}

proof fn lemma_same_heads(a: Seq<char>, b: Seq<char>)
    requires
        a.len() > 0,
        b.len() > 0,
        a[0] == b[0],
        a.drop_first() == b.drop_first(),
    ensures
        a == b,
{
    assert(a.len() == a.drop_first().len() + 1);
    assert(b.len() == b.drop_first().len() + 1);
    assert(a.len() == b.len());
    assert forall|i: int| 0 <= i < a.len() implies a[i] == b[i] by {
        if i > 0 {
            assert(a[i] == a.drop_first()[i - 1]);
            assert(b[i] == b.drop_first()[i - 1]);
        }
    }
    assert(a =~= b);
}

/// No string comes before itself.
pub proof fn lemma_chars_irreflexive(a: Seq<char>)
    ensures
        !chars_before(a, a),
    decreases a.len(),
{
    if a.len() > 0 {
        lemma_chars_irreflexive(a.drop_first());
    }
}

/// Exactly one of `a` before `b`, `a == b`, `b` before `a` holds.
pub proof fn lemma_chars_trichotomy(a: Seq<char>, b: Seq<char>)
    ensures
        chars_before(a, b) || a == b || chars_before(b, a),
        !(chars_before(a, b) && chars_before(b, a)),
        !chars_before(a, a),
    decreases a.len(),
{
    lemma_chars_irreflexive(a);
    if a.len() > 0 && b.len() > 0 {
        lemma_chars_trichotomy(a.drop_first(), b.drop_first());
        if a[0] != b[0] {
            assert((a[0] as int) != (b[0] as int));
        }
        if a[0] == b[0] && a.drop_first() == b.drop_first() {
            lemma_same_heads(a, b);
        }
    } else if a.len() > 0 {
    } else if b.len() > 0 {
    } else {
        assert(a =~= b);
    }
}

/// The order of strings is transitive.
pub proof fn lemma_chars_transitive(a: Seq<char>, b: Seq<char>, c: Seq<char>)
    requires
        chars_before(a, b),
        chars_before(b, c),
    ensures
        chars_before(a, c),
    decreases a.len(),
{
    if a.len() > 0 && b.len() > 0 && c.len() > 0 && a[0] == b[0] && b[0] == c[0] {
        lemma_chars_transitive(a.drop_first(), b.drop_first(), c.drop_first());
    }
}

/// The order of string pairs is a total order.
pub proof fn lemma_pair_order_total()
    ensures
        total_ordering(pair_order()),
{
    let r = pair_order();
    assert forall|x: Pair| #[trigger] r(x, x) by {
        lemma_chars_trichotomy(x.0, x.0);
    }
    assert forall|x: Pair, y: Pair| #[trigger] r(x, y) && #[trigger] r(y, x) implies x == y by {
        lemma_chars_trichotomy(x.0, y.0);
        lemma_chars_trichotomy(x.1, y.1);
    }
    assert forall|x: Pair, y: Pair, z: Pair| #[trigger] r(x, y) && #[trigger] r(y, z) implies r(
        x,
        z,
    ) by {
        if chars_before(x.0, y.0) && chars_before(y.0, z.0) {
            lemma_chars_transitive(x.0, y.0, z.0);
        }
        if chars_before(x.1, y.1) && chars_before(y.1, z.1) {
            lemma_chars_transitive(x.1, y.1, z.1);
        }
    }
    assert forall|x: Pair, y: Pair| #[trigger] r(x, y) || #[trigger] r(y, x) by {
        lemma_chars_trichotomy(x.0, y.0);
        lemma_chars_trichotomy(x.1, y.1);
    }
}

/// Whether `a` comes strictly before `b`.
pub fn chars_precede(a: &Vec<char>, b: &Vec<char>) -> (r: bool)
    ensures
        r == chars_before(a@, b@),
{
    let mut k: usize = 0;
    assert(a@.skip(0) =~= a@);
    assert(b@.skip(0) =~= b@);
    while k < a.len() && k < b.len() && a[k] == b[k]
        invariant
            k <= a.len(),
            k <= b.len(),
            chars_before(a@, b@) == chars_before(a@.skip(k as int), b@.skip(k as int)),
        decreases a.len() - k,
    {
        assert(a@.skip(k as int).drop_first() =~= a@.skip(k + 1));
        assert(b@.skip(k as int).drop_first() =~= b@.skip(k + 1));
        assert(a@.skip(k as int)[0] == a@[k as int]);
        assert(b@.skip(k as int)[0] == b@[k as int]);
        k = k + 1;
    }
    if k == a.len() {
        k < b.len()
    } else if k == b.len() {
        false
    } else {
        assert(a@.skip(k as int)[0] == a@[k as int]);
        assert(b@.skip(k as int)[0] == b@[k as int]);
        a[k] < b[k]
    }
}

/// Whether the pair `x` is not after `y`.
pub fn pair_not_after(x: &(String, String), y: &(String, String)) -> (r: bool)
    ensures
        r == pair_leq(pair_view(*x), pair_view(*y)),
{
    let x0 = chars_of(x.0.as_str());
    let y0 = chars_of(y.0.as_str());
    if chars_precede(&x0, &y0) {
        return true;
    }
    if x.0 != y.0 {
        return false;
    }
    let x1 = chars_of(x.1.as_str());
    let y1 = chars_of(y.1.as_str());
    chars_precede(&x1, &y1) || x.1 == y.1
}

/// Sorts pairs of strings in tuple order: the result is `Seq::sort_by` of the input.
pub fn sort_pairs(v: Vec<(String, String)>) -> (r: Vec<(String, String)>)
    ensures
        pair_views(r@) == pair_views(v@).sort_by(pair_order()),
{
    proof {
        lemma_pair_order_total();
    }
    let leq = Ghost(pair_order());
    let mut out: Vec<(String, String)> = Vec::new();
    let mut i: usize = 0;
    let n = v.len();
    assert(pair_views(out@) =~= pair_views(v@.take(0)));
    while i < n
        invariant
            n == v.len(),
            i <= n,
            leq@ == pair_order(),
            total_ordering(leq@),
            sorted_by(pair_views(out@), leq@),
            pair_views(out@).to_multiset() == pair_views(v@.take(i as int)).to_multiset(),
        decreases n - i,
    {
        let x = v[i].0.clone();
        let y = v[i].1.clone();
        let item = (x, y);
        assert(pair_view(item) == pair_view(v@[i as int]));
        let mut p: usize = 0;
        while p < out.len() && pair_not_after(&out[p], &item)
            invariant
                p <= out.len(),
                forall|k: int| 0 <= k < p ==> pair_leq(#[trigger] pair_view(out@[k]), pair_view(item)),
            decreases out.len() - p,
        {
            p = p + 1;
        }
        let ghost old_out = pair_views(out@);
        let ghost xv = pair_view(item);
        proof {
            if p < out.len() {
                assert(!pair_leq(pair_view(out@[p as int]), xv));
                assert(leq@(xv, old_out[p as int]) || leq@(old_out[p as int], xv));
            }
        }
        out.insert(p, item);
        proof {
            let nv = pair_views(out@);
            assert(nv =~= old_out.insert(p as int, xv));
            assert forall|a: int, b: int| 0 <= a < b < nv.len() implies #[trigger] leq@(
                nv[a],
                nv[b],
            ) by {
                if b < p {
                    assert(leq@(old_out[a], old_out[b]));
                } else if b == p {
                    assert(nv[a] == old_out[a]);
                    assert(pair_leq(pair_view(out@[a]), xv));
                } else if a < p {
                    assert(nv[b] == old_out[b - 1]);
                    assert(leq@(old_out[a], xv));
                    assert(leq@(xv, old_out[p as int]));
                    if p < b - 1 {
                        assert(leq@(old_out[p as int], old_out[b - 1]));
                    }
                } else if a == p {
                    assert(nv[b] == old_out[b - 1]);
                    assert(leq@(xv, old_out[p as int]));
                    if p < b - 1 {
                        assert(leq@(old_out[p as int], old_out[b - 1]));
                    }
                } else {
                    assert(leq@(old_out[a - 1], old_out[b - 1]));
                }
            }
            assert(pair_views(v@.take(i + 1)) =~= pair_views(v@.take(i as int)).push(xv));
        }
        i = i + 1;
    }
    proof {
        assert(v@.take(n as int) =~= v@);
        pair_views(v@).lemma_sort_by_ensures(leq@);
        vstd::seq_lib::lemma_sorted_unique(pair_views(out@), pair_views(v@).sort_by(leq@), leq@);
    }
    out
}

} // verus!
