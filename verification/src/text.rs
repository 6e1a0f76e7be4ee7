//! Character-sequence helpers shared by the job parser, the glob matcher and the CLI.

use vstd::prelude::*;

verus! {

/// `needle` occurs in `hay` starting at position `at`.
pub open spec fn occurs_at(hay: Seq<char>, needle: Seq<char>, at: int) -> bool {
    0 <= at && at + needle.len() <= hay.len() && hay.subrange(at, at + needle.len()) == needle
}

/// `needle` occurs somewhere in `hay`.
pub open spec fn is_infix(needle: Seq<char>, hay: Seq<char>) -> bool {
    exists|at: int| occurs_at(hay, needle, at)
}

/// `pre` is a prefix of `s`.
pub open spec fn is_prefix(pre: Seq<char>, s: Seq<char>) -> bool {
    pre.len() <= s.len() && s.subrange(0, pre.len() as int) == pre
}

/// `suf` is a suffix of `s`.
pub open spec fn is_suffix(suf: Seq<char>, s: Seq<char>) -> bool {
    suf.len() <= s.len() && s.subrange(s.len() - suf.len(), s.len() as int) == suf
}

/// The characters of a string slice, in order.
pub fn chars_of(s: &str) -> (v: Vec<char>)
    ensures
        v@ == s@,
{
    let mut v: Vec<char> = Vec::new();
    for c in it: s.chars()
        invariant
            v@ == it.seq().take(it.index() as int),
            it.seq() == s@,
    {
        v.push(c);
    }
    v
}


/// `hay[at .. at + (nhi - nlo)]` equals `needle[nlo .. nhi]` (false when it runs off the end).
pub fn matches_at(hay: &Vec<char>, at: usize, needle: &Vec<char>, nlo: usize, nhi: usize) -> (r: bool)
    requires
        nlo <= nhi <= needle.len(),
    ensures
        r == occurs_at(hay@, needle@.subrange(nlo as int, nhi as int), at as int),
{
    let len = nhi - nlo;
    if at > hay.len() || len > hay.len() - at {
        return false;
    }
    let ghost h = hay@.subrange(at as int, at + len);
    let ghost nd = needle@.subrange(nlo as int, nhi as int);
    let mut k: usize = 0;
    while k < len
        invariant
            nlo <= nhi <= needle.len(),
            len == nhi - nlo,
            at + len <= hay.len(),
            k <= len,
            h == hay@.subrange(at as int, at + len),
            nd == needle@.subrange(nlo as int, nhi as int),
            forall|m: int| 0 <= m < k ==> #[trigger] h[m] == nd[m],
        decreases len - k,
    {
        if hay[at + k] != needle[nlo + k] {
            assert(h[k as int] != nd[k as int]);
            return false;
        }
        k = k + 1;
    }
    assert(h =~= nd);
    true
}

/// Whether `needle[nlo .. nhi]` occurs anywhere in `hay`.
pub fn contains_range(hay: &Vec<char>, needle: &Vec<char>, nlo: usize, nhi: usize) -> (r: bool)
    requires
        nlo <= nhi <= needle.len(),
    ensures
        r == is_infix(needle@.subrange(nlo as int, nhi as int), hay@),
{
    let len = nhi - nlo;
    if len > hay.len() {
        assert forall|at: int|
            !occurs_at(hay@, needle@.subrange(nlo as int, nhi as int), at) by {}
        return false;
    }
    let last = hay.len() - len;
    let mut at: usize = 0;
    while at < last
        invariant
            nlo <= nhi <= needle.len(),
            len == nhi - nlo,
            last == hay.len() - len,
            at <= last,
            forall|a: int|
                0 <= a < at ==> !occurs_at(hay@, needle@.subrange(nlo as int, nhi as int), a),
        decreases last - at,
    {
        if matches_at(hay, at, needle, nlo, nhi) {
            return true;
        }
        at = at + 1;
    }
    if matches_at(hay, last, needle, nlo, nhi) {
        return true;
    }
    assert forall|a: int| !occurs_at(hay@, needle@.subrange(nlo as int, nhi as int), a) by {
        if 0 <= a < at {
        }
    }
    false
}

/// Whether two character vectors hold the same characters.
pub fn same_chars(a: &Vec<char>, b: &Vec<char>) -> (r: bool)
    ensures
        r == (a@ == b@),
{
    if a.len() != b.len() {
        return false;
    }
    let r = matches_at(a, 0, b, 0, b.len());
    assert(a@.subrange(0, b@.len() as int) =~= a@);
    assert(b@.subrange(0, b@.len() as int) =~= b@);
    r
}


/// Unicode `White_Space`, the set `char::is_whitespace` tests.
pub open spec fn is_white(c: char) -> bool {
    let u = c as u32;
    (9 <= u <= 13) || u == 32 || u == 0x85 || u == 0xa0 || u == 0x1680 || (0x2000 <= u <= 0x200a)
        || u == 0x2028 || u == 0x2029 || u == 0x202f || u == 0x205f || u == 0x3000
}

pub fn white(c: char) -> (r: bool)
    ensures
        r == is_white(c),
{
    let u = c as u32;
    (9 <= u && u <= 13) || u == 32 || u == 0x85 || u == 0xa0 || u == 0x1680 || (0x2000 <= u && u
        <= 0x200a) || u == 0x2028 || u == 0x2029 || u == 0x202f || u == 0x205f || u == 0x3000
}

/// `s` without its leading white space.
pub open spec fn strip_leading_white(s: Seq<char>) -> Seq<char>
    decreases s.len(),
{
    if s.len() > 0 && is_white(s[0]) {
        strip_leading_white(s.drop_first())
    } else {
        s
    }
}

/// `s` without its trailing white space.
pub open spec fn strip_trailing_white(s: Seq<char>) -> Seq<char>
    decreases s.len(),
{
    if s.len() > 0 && is_white(s.last()) {
        strip_trailing_white(s.drop_last())
    } else {
        s
    }
}

/// `s` without leading and trailing white space (`str::trim`).
pub open spec fn trim(s: Seq<char>) -> Seq<char> {
    strip_trailing_white(strip_leading_white(s))
}

/// The bounds of `trim(t[lo .. hi])` inside `t`.
pub fn trim_range(t: &Vec<char>, lo: usize, hi: usize) -> (r: (usize, usize))
    requires
        lo <= hi <= t.len(),
    ensures
        lo <= r.0 <= r.1 <= hi,
        t@.subrange(r.0 as int, r.1 as int) == trim(t@.subrange(lo as int, hi as int)),
{
    let mut a = lo;
    while a < hi && white(t[a])
        invariant
            lo <= a <= hi <= t.len(),
            strip_leading_white(t@.subrange(lo as int, hi as int)) == strip_leading_white(
                t@.subrange(a as int, hi as int),
            ),
        decreases hi - a,
    {
        assert(t@.subrange(a as int, hi as int).drop_first() =~= t@.subrange(a + 1, hi as int));
        a = a + 1;
    }
    proof {
        let rest = t@.subrange(a as int, hi as int);
        if rest.len() > 0 {
            assert(rest[0] == t@[a as int]);
        }
    }
    let mut b = hi;
    while b > a && white(t[b - 1])
        invariant
            lo <= a <= b <= hi <= t.len(),
            trim(t@.subrange(lo as int, hi as int)) == strip_trailing_white(
                t@.subrange(a as int, b as int),
            ),
        decreases b,
    {
        assert(t@.subrange(a as int, b as int).drop_last() =~= t@.subrange(a as int, b - 1));
        b = b - 1;
    }
    proof {
        let rest = t@.subrange(a as int, b as int);
        if rest.len() > 0 {
            assert(rest.last() == t@[b - 1]);
        }
    }
    (a, b)
}

/// Position `i` holds the first character of `s` that is in `cs`.
pub open spec fn is_first_in(s: Seq<char>, cs: Seq<char>, i: int) -> bool {
    &&& 0 <= i < s.len()
    &&& cs.contains(s[i])
    &&& forall|j: int| 0 <= j < i ==> !cs.contains(#[trigger] s[j])
}

/// The position of the first character of `s` that is in `cs`, if any.
pub open spec fn first_in(s: Seq<char>, cs: Seq<char>) -> Option<int> {
    if exists|i: int| is_first_in(s, cs, i) {
        Some(choose|i: int| is_first_in(s, cs, i))
    } else {
        None
    }
}

/// A position holding the first character of `s` in `cs` is the one `first_in` gives.
pub proof fn lemma_first_in_at(s: Seq<char>, cs: Seq<char>, i: int)
    requires
        is_first_in(s, cs, i),
    ensures
        first_in(s, cs) == Some(i),
{
    let k = choose|k: int| is_first_in(s, cs, k);
    assert(is_first_in(s, cs, k));
    if k < i {
        assert(!cs.contains(s[k]));
    }
    if i < k {
        assert(!cs.contains(s[i]));
    }
}

/// The position of the first `a` or `b` in `t[lo .. hi]`, counted from the start of `t`.
pub fn find_either(t: &Vec<char>, lo: usize, hi: usize, a: char, b: char) -> (r: Option<usize>)
    requires
        lo <= hi <= t.len(),
    ensures
        match r {
            Some(i) => lo <= i < hi && first_in(t@.subrange(lo as int, hi as int), seq![a, b])
                == Some(i - lo),
            None => first_in(t@.subrange(lo as int, hi as int), seq![a, b]) is None,
        },
{
    let ghost s = t@.subrange(lo as int, hi as int);
    let ghost cs = seq![a, b];
    let mut i = lo;
    while i < hi
        invariant
            lo <= i <= hi <= t.len(),
            s == t@.subrange(lo as int, hi as int),
            cs == seq![a, b],
            forall|j: int| 0 <= j < i - lo ==> !cs.contains(#[trigger] s[j]),
        decreases hi - i,
    {
        let c = t[i];
        if c == a || c == b {
            proof {
                assert(s[i - lo] == c);
                assert(cs[0] == a && cs[1] == b);
                assert(cs.contains(c));
                lemma_first_in_at(s, cs, i - lo);
            }
            return Some(i);
        }
        proof {
            assert(s[i - lo] == c);
            if cs.contains(c) {
                let k = choose|k: int| 0 <= k < cs.len() && cs[k] == c;
                assert(k == 0 || k == 1);
            }
        }
        i = i + 1;
    }
    proof {
        if exists|k: int| is_first_in(s, cs, k) {
            let k = choose|k: int| is_first_in(s, cs, k);
            assert(!cs.contains(s[k]));
        }
    }
    None
}

/// Pieces of `t` between the characters of `cs` (`str::split` on a set of characters).
pub open spec fn split_any(t: Seq<char>, cs: Seq<char>) -> Seq<Seq<char>>
    decreases t.len(),
{
    if t.len() == 0 {
        seq![Seq::<char>::empty()]
    } else {
        let prev = split_any(t.drop_last(), cs);
        if cs.contains(t.last()) {
            prev.push(Seq::<char>::empty())
        } else {
            prev.update(prev.len() - 1, prev.last().push(t.last()))
        }
    }
}

/// One step of `split_any` over `t[lo .. i + 1]`, given the pieces of `t[lo .. i]`.
pub proof fn lemma_split_any_step(
    t: Seq<char>,
    cs: Seq<char>,
    lo: int,
    start: int,
    i: int,
    done: Seq<Seq<char>>,
)
    requires
        0 <= lo <= start <= i < t.len(),
        split_any(t.subrange(lo, i), cs) == done.push(t.subrange(start, i)),
    ensures
        cs.contains(t[i]) ==> split_any(t.subrange(lo, i + 1), cs) == done.push(
            t.subrange(start, i),
        ).push(t.subrange(i + 1, i + 1)),
        !cs.contains(t[i]) ==> split_any(t.subrange(lo, i + 1), cs) == done.push(
            t.subrange(start, i + 1),
        ),
{
    let w = t.subrange(lo, i + 1);
    assert(w.drop_last() =~= t.subrange(lo, i));
    assert(w.last() == t[i]);
    assert(t.subrange(i + 1, i + 1) =~= Seq::<char>::empty());
    assert(t.subrange(start, i).push(t[i]) =~= t.subrange(start, i + 1));
    let prev = done.push(t.subrange(start, i));
    assert(prev.update(prev.len() - 1, prev.last().push(t[i])) =~= done.push(
        t.subrange(start, i + 1),
    ));
}

/// `split_any` gives at least one piece.
pub proof fn lemma_split_any_nonempty(t: Seq<char>, cs: Seq<char>)
    ensures
        split_any(t, cs).len() >= 1,
    decreases t.len(),
{
    if t.len() > 0 {
        lemma_split_any_nonempty(t.drop_last(), cs);
    }
}

/// A text with no separator is one piece.
pub proof fn lemma_split_any_none(t: Seq<char>, cs: Seq<char>)
    requires
        forall|i: int| 0 <= i < t.len() ==> !cs.contains(#[trigger] t[i]),
    ensures
        split_any(t, cs) == seq![t],
    decreases t.len(),
{
    if t.len() == 0 {
        assert(t =~= Seq::<char>::empty());
    } else {
        let p = t.drop_last();
        assert forall|i: int| 0 <= i < p.len() implies !cs.contains(#[trigger] p[i]) by {
            assert(p[i] == t[i]);
        }
        lemma_split_any_none(p, cs);
        assert(!cs.contains(t[t.len() - 1]));
        assert(p.push(t.last()) =~= t);
        assert(seq![p].update(0, p.push(t.last())) =~= seq![t]);
    }
}

/// A first piece `line` ended by a separator `c` stays a piece of its own.
pub proof fn lemma_split_any_prefix(line: Seq<char>, c: char, t: Seq<char>, cs: Seq<char>)
    requires
        forall|i: int| 0 <= i < line.len() ==> !cs.contains(#[trigger] line[i]),
        cs.contains(c),
    ensures
        split_any(line.push(c) + t, cs) == seq![line] + split_any(t, cs),
    decreases t.len(),
{
    let pre = line.push(c);
    if t.len() == 0 {
        assert(pre + t =~= pre);
        assert(pre.drop_last() =~= line);
        lemma_split_any_none(line, cs);
        assert(seq![line].push(Seq::<char>::empty()) =~= seq![line] + seq![Seq::<char>::empty()]);
    } else {
        lemma_split_any_prefix(line, c, t.drop_last(), cs);
        assert((pre + t).drop_last() =~= pre + t.drop_last());
        assert((pre + t).last() == t.last());
        let q = split_any(t.drop_last(), cs);
        lemma_split_any_nonempty(t.drop_last(), cs);
        if cs.contains(t.last()) {
            assert((seq![line] + q).push(Seq::<char>::empty()) =~= seq![line] + q.push(
                Seq::<char>::empty(),
            ));
        } else {
            let prev = seq![line] + q;
            assert(prev.update(prev.len() - 1, prev.last().push(t.last())) =~= seq![line]
                + q.update(q.len() - 1, q.last().push(t.last())));
        }
    }
}

/// A last piece `line` after a separator `c` stays a piece of its own.
pub proof fn lemma_split_any_suffix(t: Seq<char>, c: char, line: Seq<char>, cs: Seq<char>)
    requires
        forall|i: int| 0 <= i < line.len() ==> !cs.contains(#[trigger] line[i]),
        cs.contains(c),
    ensures
        split_any(t.push(c) + line, cs) == split_any(t, cs).push(line),
    decreases line.len(),
{
    let pre = t.push(c);
    if line.len() == 0 {
        assert(pre + line =~= pre);
        assert(pre.drop_last() =~= t);
        assert(line =~= Seq::<char>::empty());
        assert(pre.last() == c);
    } else {
        let l2 = line.drop_last();
        assert forall|i: int| 0 <= i < l2.len() implies !cs.contains(#[trigger] l2[i]) by {
            assert(l2[i] == line[i]);
        }
        lemma_split_any_suffix(t, c, l2, cs);
        assert((pre + line).drop_last() =~= pre + l2);
        assert((pre + line).last() == line.last());
        assert(!cs.contains(line[line.len() - 1]));
        let prev = split_any(t, cs).push(l2);
        assert(l2.push(line.last()) =~= line);
        assert(prev.update(prev.len() - 1, prev.last().push(line.last())) =~= split_any(t, cs).push(
            line,
        ));
    }
}

/// Leading white space of `x` followed by a white `c`: the white `c` joins what is left,
/// or goes too where nothing is left.
proof fn lemma_strip_leading_push(x: Seq<char>, c: char)
    requires
        is_white(c),
    ensures
        strip_leading_white(x.push(c)) == (if strip_leading_white(x).len() > 0 {
            strip_leading_white(x).push(c)
        } else {
            Seq::<char>::empty()
        }),
    decreases x.len(),
{
    if x.len() == 0 {
        let one = x.push(c);
        assert(one[0] == c);
        assert(one.drop_first() =~= Seq::<char>::empty());
        assert(strip_leading_white(one.drop_first()) == one.drop_first());
    } else if is_white(x[0]) {
        assert(x.push(c)[0] == x[0]);
        assert(x.push(c).drop_first() =~= x.drop_first().push(c));
        lemma_strip_leading_push(x.drop_first(), c);
    } else {
        assert(x.push(c)[0] == x[0]);
    }
}

/// A white character at the end changes nothing that `trim` keeps.
pub proof fn lemma_trim_push_white(x: Seq<char>, c: char)
    requires
        is_white(c),
    ensures
        trim(x.push(c)) == trim(x),
{
    lemma_strip_leading_push(x, c);
    let y = strip_leading_white(x);
    if y.len() > 0 {
        assert(y.push(c).drop_last() =~= y);
    } else {
        assert(strip_trailing_white(y) == y);
    }
}

/// A line without the carriage return of a `\r\n` ending.
pub open spec fn strip_cr(l: Seq<char>) -> Seq<char> {
    if l.len() > 0 && l.last() == '\r' {
        l.drop_last()
    } else {
        l
    }
}

/// The lines of a text as `str::lines` yields them: split at `\n`, a `\r` before the `\n`
/// dropped, and no empty line after a final line ending.
pub open spec fn text_lines(t: Seq<char>) -> Seq<Seq<char>> {
    let pieces = split_any(t, seq!['\n']);
    let ended = pieces.drop_last().map_values(|p: Seq<char>| strip_cr(p));
    if pieces.last().len() == 0 {
        ended
    } else {
        ended.push(pieces.last())
    }
}

/// The non-empty members of `s`, in order.
pub open spec fn keep_nonempty(s: Seq<Seq<char>>) -> Seq<Seq<char>>
    decreases s.len(),
{
    if s.len() == 0 {
        Seq::empty()
    } else if s.last().len() > 0 {
        keep_nonempty(s.drop_last()).push(s.last())
    } else {
        keep_nonempty(s.drop_last())
    }
}

/// The views of a sequence of strings.
pub open spec fn views(v: Seq<String>) -> Seq<Seq<char>> {
    v.map_values(|s: String| s@)
}

/// The string `t[lo .. hi]`, where `t` holds the characters of `text`.
pub fn piece(text: &str, t: &Vec<char>, lo: usize, hi: usize) -> (r: String)
    requires
        t@ == text@,
        lo <= hi <= t.len(),
    ensures
        r@ == t@.subrange(lo as int, hi as int),
{
    String::from_str(text.substring_char(lo, hi))
}

/// An ASCII decimal digit.
pub open spec fn is_digit(c: char) -> bool {
    48 <= (c as u32) <= 57
}

pub open spec fn all_digits(s: Seq<char>) -> bool {
    forall|i: int| 0 <= i < s.len() ==> is_digit(#[trigger] s[i])
}

/// The value of a digit character.
pub open spec fn digit_value(c: char) -> int {
    (c as u32) - 48
}

/// The value of a string of decimal digits.
pub open spec fn decimal_value(d: Seq<char>) -> int
    decreases d.len(),
{
    if d.len() == 0 {
        0
    } else {
        decimal_value(d.drop_last()) * 10 + digit_value(d.last())
    }
}

/// Decimal digits are read most significant first: the digits `a` followed by `b` are worth
/// `a`'s value shifted left by `b`'s length, plus `b`'s value; a single digit is worth itself.
pub proof fn lemma_decimal_concat(a: Seq<char>, b: Seq<char>)
    ensures
        decimal_value(a + b) == decimal_value(a) * vstd::arithmetic::power::pow(10, b.len()) + decimal_value(b),
    decreases b.len(),
{
    if b.len() == 0 {
        assert(a + b =~= a);
        reveal(vstd::arithmetic::power::pow);
        assert(vstd::arithmetic::power::pow(10, 0) == 1);
    } else {
        let b2 = b.drop_last();
        lemma_decimal_concat(a, b2);
        assert((a + b).drop_last() =~= a + b2);
        assert((a + b).last() == b.last());
        let pa = decimal_value(a);
        let p2 = vstd::arithmetic::power::pow(10, b2.len());
        reveal(vstd::arithmetic::power::pow);
        assert(vstd::arithmetic::power::pow(10, b.len()) == 10 * p2);
        let v2 = decimal_value(b2);
        let dl = digit_value(b.last());
        assert((pa * p2 + v2) * 10 + dl == pa * (10 * p2) + (v2 * 10 + dl)) by (nonlinear_arith);
    }
}

/// A single digit is worth its own value.
pub proof fn lemma_decimal_digit(c: char)
    ensures
        decimal_value(seq![c]) == digit_value(c),
{
    assert(seq![c].drop_last() =~= Seq::<char>::empty());
    assert(seq![c].last() == c);
    assert(decimal_value(Seq::<char>::empty()) == 0);
}

/// What `usize::from_str` accepts and gives: an optional `+`, then at least one digit, with a
/// value that fits in `usize`.
pub open spec fn usize_value(s: Seq<char>) -> Option<int> {
    let d = if s.len() > 0 && s[0] == '+' {
        s.drop_first()
    } else {
        s
    };
    if d.len() > 0 && all_digits(d) && decimal_value(d) <= usize::MAX {
        Some(decimal_value(d))
    } else {
        None
    }
}

proof fn lemma_decimal_grows(d: Seq<char>, k: int)
    requires
        0 <= k <= d.len(),
        all_digits(d),
    ensures
        0 <= decimal_value(d.take(k)) <= decimal_value(d),
    decreases d.len(),
{
    if d.len() > 0 {
        if k == d.len() {
            assert(d.take(k) =~= d);
            lemma_decimal_grows(d.drop_last(), k - 1);
            assert(d.drop_last().take(k - 1) =~= d.drop_last());
        } else {
            lemma_decimal_grows(d.drop_last(), k);
            assert(d.drop_last().take(k) =~= d.take(k));
            assert(is_digit(d[d.len() - 1]));
        }
    } else {
        assert(d.take(k) =~= d);
    }
}

/// Parses `t[lo .. hi]` as `usize::from_str` does.
pub fn parse_usize_range(t: &Vec<char>, lo: usize, hi: usize) -> (r: Option<usize>)
    requires
        lo <= hi <= t.len(),
    ensures
        match r {
            Some(n) => usize_value(t@.subrange(lo as int, hi as int)) == Some(n as int),
            None => usize_value(t@.subrange(lo as int, hi as int)) is None,
        },
{
    let ghost s = t@.subrange(lo as int, hi as int);
    let mut a = lo;
    if a < hi && t[a] == '+' {
        a = a + 1;
    }
    let ghost d = t@.subrange(a as int, hi as int);
    assert(d =~= (if s.len() > 0 && s[0] == '+' {
        s.drop_first()
    } else {
        s
    }));
    if a == hi {
        return None;
    }
    let mut acc: usize = 0;
    let mut i = a;
    while i < hi
        invariant
            lo <= a <= i <= hi <= t.len(),
            d == t@.subrange(a as int, hi as int),
            s == t@.subrange(lo as int, hi as int),
            d == (if s.len() > 0 && s[0] == '+' {
                s.drop_first()
            } else {
                s
            }),
            all_digits(d.take(i - a)),
            acc as int == decimal_value(d.take(i - a)),
        decreases hi - i,
    {
        let u = t[i] as u32;
        let ghost x = d.take(i + 1 - a);
        assert(d[i - a] == t@[i as int]);
        assert(x.drop_last() =~= d.take(i - a));
        assert(x.last() == d[i - a]);
        if u < 48 || u > 57 {
            assert(!is_digit(d[i - a]));
            assert(!all_digits(d));
            return None;
        }
        let dv = (u - 48) as usize;
        assert(all_digits(x)) by {
            assert forall|m: int| 0 <= m < x.len() implies is_digit(#[trigger] x[m]) by {
                if m < x.len() - 1 {
                    assert(x[m] == d.take(i - a)[m]);
                }
            }
        }
        assert(decimal_value(x) == decimal_value(d.take(i - a)) * 10 + dv);
        match acc.checked_mul(10) {
            None => {
                proof {
                    if all_digits(d) {
                        lemma_decimal_grows(d, i + 1 - a);
                    }
                }
                return None;
            },
            Some(m) => match m.checked_add(dv) {
                None => {
                    proof {
                        if all_digits(d) {
                            lemma_decimal_grows(d, i + 1 - a);
                        }
                    }
                    return None;
                },
                Some(n) => {
                    acc = n;
                },
            },
        }
        i = i + 1;
    }
    assert(d.take(hi - a) =~= d);
    Some(acc)
}

/// `c` with an ASCII capital turned into its small letter, as a code point.
pub open spec fn ascii_fold(c: char) -> u32 {
    let u = c as u32;
    if 65 <= u <= 90 {
        (u + 32) as u32
    } else {
        u
    }
}

/// `s` equals `w` when ASCII letter case is ignored.
pub open spec fn same_ignoring_case(s: Seq<char>, w: Seq<char>) -> bool {
    s.len() == w.len() && forall|i: int| 0 <= i < s.len() ==> ascii_fold(s[i]) == ascii_fold(w[i])
}

/// `t[lo .. hi]` equals `w` when ASCII letter case is ignored.
pub fn same_ignoring_case_range(t: &Vec<char>, lo: usize, hi: usize, w: &Vec<char>) -> (r: bool)
    requires
        lo <= hi <= t.len(),
    ensures
        r == same_ignoring_case(t@.subrange(lo as int, hi as int), w@),
{
    let ghost s = t@.subrange(lo as int, hi as int);
    if hi - lo != w.len() {
        return false;
    }
    let mut k: usize = 0;
    while k < w.len()
        invariant
            lo <= hi <= t.len(),
            hi - lo == w.len(),
            s == t@.subrange(lo as int, hi as int),
            k <= w.len(),
            forall|m: int| 0 <= m < k ==> ascii_fold(#[trigger] s[m]) == ascii_fold(w@[m]),
        decreases w.len() - k,
    {
        let x = t[lo + k] as u32;
        let y = w[k] as u32;
        let fx = if 65 <= x && x <= 90 {
            x + 32
        } else {
            x
        };
        let fy = if 65 <= y && y <= 90 {
            y + 32
        } else {
            y
        };
        assert(s[k as int] == t@[lo + k]);
        if fx != fy {
            return false;
        }
        k = k + 1;
    }
    true
}

/// `s` without one leading `+` or `-`.
pub open spec fn drop_sign(s: Seq<char>) -> Seq<char> {
    if s.len() > 0 && (s[0] == '+' || s[0] == '-') {
        s.drop_first()
    } else {
        s
    }
}

/// Digits with at most one `.` and at least one digit: `1`, `1.`, `.5`, `1.5`.
pub open spec fn is_mantissa(m: Seq<char>) -> bool {
    match first_in(m, seq!['.', '.']) {
        None => m.len() > 0 && all_digits(m),
        Some(d) => m.len() >= 2 && all_digits(m.take(d)) && all_digits(m.skip(d + 1)),
    }
}

/// An optional sign, then at least one digit.
pub open spec fn is_exponent(x: Seq<char>) -> bool {
    let y = drop_sign(x);
    y.len() > 0 && all_digits(y)
}

/// A mantissa, then optionally `e` or `E` and an exponent.
pub open spec fn is_decimal_number(b: Seq<char>) -> bool {
    match first_in(b, seq!['e', 'E']) {
        None => is_mantissa(b),
        Some(i) => is_mantissa(b.take(i)) && is_exponent(b.skip(i + 1)),
    }
}

/// What `f64::from_str` accepts, as its documentation gives the grammar: an optional sign, then
/// `inf`, `infinity` or `nan` in any letter case, or a decimal number.
pub open spec fn float_literal(s: Seq<char>) -> bool {
    let b = drop_sign(s);
    same_ignoring_case(b, "inf"@) || same_ignoring_case(b, "infinity"@) || same_ignoring_case(
        b,
        "nan"@,
    ) || is_decimal_number(b)
}

/// Whether every character of `t[lo .. hi]` is a digit.
pub fn all_digits_range(t: &Vec<char>, lo: usize, hi: usize) -> (r: bool)
    requires
        lo <= hi <= t.len(),
    ensures
        r == all_digits(t@.subrange(lo as int, hi as int)),
{
    let ghost s = t@.subrange(lo as int, hi as int);
    let mut i = lo;
    while i < hi
        invariant
            lo <= i <= hi <= t.len(),
            s == t@.subrange(lo as int, hi as int),
            forall|m: int| 0 <= m < i - lo ==> is_digit(#[trigger] s[m]),
        decreases hi - i,
    {
        let u = t[i] as u32;
        assert(s[i - lo] == t@[i as int]);
        if u < 48 || u > 57 {
            return false;
        }
        i = i + 1;
    }
    true
}

fn is_mantissa_range(t: &Vec<char>, lo: usize, hi: usize) -> (r: bool)
    requires
        lo <= hi <= t.len(),
    ensures
        r == is_mantissa(t@.subrange(lo as int, hi as int)),
{
    let ghost m = t@.subrange(lo as int, hi as int);
    match find_either(t, lo, hi, '.', '.') {
        None => hi > lo && all_digits_range(t, lo, hi),
        Some(d) => {
            assert(m.take(d - lo) =~= t@.subrange(lo as int, d as int));
            assert(m.skip(d - lo + 1) =~= t@.subrange(d + 1, hi as int));
            hi - lo >= 2 && all_digits_range(t, lo, d) && all_digits_range(t, d + 1, hi)
        },
    }
}

/// Whether `t[lo .. hi]` is a number `f64::from_str` accepts.
pub fn float_literal_range(t: &Vec<char>, lo: usize, hi: usize) -> (r: bool)
    requires
        lo <= hi <= t.len(),
    ensures
        r == float_literal(t@.subrange(lo as int, hi as int)),
{
    let ghost s = t@.subrange(lo as int, hi as int);
    let mut a = lo;
    if a < hi && (t[a] == '+' || t[a] == '-') {
        a = a + 1;
    }
    assert(t@.subrange(a as int, hi as int) =~= drop_sign(s));
    let inf = chars_of("inf");
    let infinity = chars_of("infinity");
    let nan = chars_of("nan");
    if same_ignoring_case_range(t, a, hi, &inf) || same_ignoring_case_range(t, a, hi, &infinity)
        || same_ignoring_case_range(t, a, hi, &nan) {
        return true;
    }
    let ghost b = t@.subrange(a as int, hi as int);
    match find_either(t, a, hi, 'e', 'E') {
        None => is_mantissa_range(t, a, hi),
        Some(i) => {
            assert(b.take(i - a) =~= t@.subrange(a as int, i as int));
            assert(b.skip(i - a + 1) =~= t@.subrange(i + 1, hi as int));
            if !is_mantissa_range(t, a, i) {
                return false;
            }
            let mut e = i + 1;
            if e < hi && (t[e] == '+' || t[e] == '-') {
                e = e + 1;
            }
            assert(t@.subrange(e as int, hi as int) =~= drop_sign(t@.subrange(i + 1, hi as int)));
            e < hi && all_digits_range(t, e, hi)
        },
    }
}


/// The lower-case mapping of `s`, character by character under Unicode's rules, as Rust's
/// `str::to_lowercase` computes it.
pub uninterp spec fn lowercase(s: Seq<char>) -> Seq<char>;

/// The text that `format!("{:?}", s)` gives for a string slice `s`: `s` between double quotes,
/// with quotes, backslashes and control characters escaped.
pub uninterp spec fn debug_str(s: Seq<char>) -> Seq<char>;

/// Every character of `s` is ASCII.
pub open spec fn all_ascii(s: Seq<char>) -> bool {
    forall|i: int| 0 <= i < s.len() ==> (#[trigger] s[i] as u32) < 128
}

/// Calls `str::to_lowercase`. Its result is the name `lowercase`, a function of the argument
/// alone; the Unicode case tables behind it are not written out, save for ASCII text, where
/// each capital letter becomes its small letter and every other character stays.
#[verifier::external_body]
pub(crate) fn to_lowercase(s: &str) -> (r: String)
    ensures
        r@ == lowercase(s@),
        all_ascii(s@) ==> r@.len() == s@.len() && forall|i: int|
            0 <= i < s@.len() ==> #[trigger] r@[i] as u32 == ascii_fold(s@[i]),
{
    s.to_lowercase()
}

/// `s` lower-cased as `str::to_lowercase` does it: the name `lowercase` of `s`, which on
/// ASCII text turns each capital letter into its small letter and keeps every other character.
pub fn lower_case(s: &str) -> (r: String)
    ensures
        r@ == lowercase(s@),
        all_ascii(s@) ==> r@.len() == s@.len() && forall|i: int|
            0 <= i < s@.len() ==> #[trigger] r@[i] as u32 == ascii_fold(s@[i]),
{
    to_lowercase(s)
}

/// Formats a string slice with `{:?}` (the `Debug` impl of `str`). Its result is stated only
/// through the name `debug_str`, a function of the argument alone; the escaping rules are
/// not written out.
#[verifier::external_body]
pub(crate) fn debug_quoted(s: &str) -> (r: String)
    ensures
        r@ == debug_str(s@),
{
    format!("{:?}", s)
}

/// `lead`, the `{:?}` form of `v`, then `tail`.
pub fn quoted_between(lead: &str, v: &str, tail: &str) -> (r: String)
    ensures
        r@ == lead@ + debug_str(v@) + tail@,
{
    let q = debug_quoted(v);
    String::from_str(lead).concat(q.as_str()).concat(tail)
}

/// `lead` followed by the `{:?}` form of `v`.
pub fn message_with_quoted(lead: &str, v: &str) -> (r: String)
    ensures
        r@ == lead@ + debug_str(v@),
{
    let q = debug_quoted(v);
    String::from_str(lead).concat(q.as_str())
}

} // verus!
