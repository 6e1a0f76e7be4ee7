//! The `.bufins` job: the buffer-insertion keys of a job file, and the driver-name globs.

use vstd::prelude::*;

use crate::text::{
    chars_of, contains_range, debug_str, find_either, first_in, float_literal,
    float_literal_range, is_infix, is_prefix, is_suffix, keep_nonempty, lemma_split_any_step,
    lemma_first_in_at, lemma_split_any_nonempty, lemma_split_any_prefix, lemma_split_any_suffix,
    lemma_trim_push_white, lowercase, matches_at, message_with_quoted, parse_usize_range, piece, same_chars, split_any,
    strip_cr, text_lines, lower_case, is_first_in, trim, trim_range, usize_value, views,
};

verus! {

/// `p` with every leading `*` removed.
pub open spec fn strip_leading_stars(p: Seq<char>) -> Seq<char>
    decreases p.len(),
{
    if p.len() > 0 && p[0] == '*' {
        strip_leading_stars(p.drop_first())
    } else {
        p
    }
}

/// `p` with every trailing `*` removed.
pub open spec fn strip_trailing_stars(p: Seq<char>) -> Seq<char>
    decreases p.len(),
{
    if p.len() > 0 && p.last() == '*' {
        strip_trailing_stars(p.drop_last())
    } else {
        p
    }
}

/// `p` with every leading and trailing `*` removed.
pub open spec fn trim_stars(p: Seq<char>) -> Seq<char> {
    strip_trailing_stars(strip_leading_stars(p))
}

/// What a driver-name glob accepts: `*x*` any name holding `x` (the pattern with all its outer
/// stars removed), `*x` names ending in `x`, `x*` names starting with `x`, otherwise `x` alone.
pub open spec fn glob_accepts(p: Seq<char>, s: Seq<char>) -> bool {
    let lead = p.len() > 0 && p[0] == '*';
    let trail = p.len() > 0 && p.last() == '*';
    if lead && trail {
        is_infix(trim_stars(p), s)
    } else if lead {
        is_suffix(p.drop_first(), s)
    } else if trail {
        is_prefix(p.drop_last(), s)
    } else {
        s == p
    }
}

proof fn lemma_strip_leading_step(p: Seq<char>, lo: int)
    requires
        0 <= lo < p.len(),
        p[lo] == '*',
    ensures
        strip_leading_stars(p.subrange(lo, p.len() as int)) == strip_leading_stars(
            p.subrange(lo + 1, p.len() as int),
        ),
{
    assert(p.subrange(lo, p.len() as int).drop_first() =~= p.subrange(lo + 1, p.len() as int));
}

proof fn lemma_strip_trailing_step(p: Seq<char>, lo: int, hi: int)
    requires
        0 <= lo < hi <= p.len(),
        p[hi - 1] == '*',
    ensures
        strip_trailing_stars(p.subrange(lo, hi)) == strip_trailing_stars(p.subrange(lo, hi - 1)),
{
    assert(p.subrange(lo, hi).drop_last() =~= p.subrange(lo, hi - 1));
}

/// A pattern with no `*` at either end matches exactly the name it spells.
pub proof fn lemma_glob_exact(p: Seq<char>, s: Seq<char>)
    requires
        p.len() == 0 || (p[0] != '*' && p.last() != '*'),
    ensures
        glob_accepts(p, s) <==> s == p,
{
}

proof fn lemma_strip_all_stars(p: Seq<char>)
    requires
        forall|i: int| 0 <= i < p.len() ==> p[i] == '*',
    ensures
        strip_leading_stars(p).len() == 0,
    decreases p.len(),
{
    if p.len() > 0 {
        lemma_strip_all_stars(p.drop_first());
    }
}

/// A pattern made only of stars (`*`, `**`, ...) matches every name.
pub proof fn lemma_glob_all_stars(p: Seq<char>, s: Seq<char>)
    requires
        p.len() > 0,
        forall|i: int| 0 <= i < p.len() ==> p[i] == '*',
    ensures
        glob_accepts(p, s),
{
    lemma_strip_all_stars(p);
    let e = strip_leading_stars(p);
    assert(strip_trailing_stars(e) == e);
    assert(trim_stars(p).len() == 0);
    assert(s.subrange(0, 0) =~= trim_stars(p));
    assert(crate::text::occurs_at(s, trim_stars(p), 0));
}

/// `*x*` (with no star at either end of `x`) accepts exactly the names that hold `x`
/// somewhere, at the start and the end included.
pub proof fn lemma_glob_contains(x: Seq<char>, s: Seq<char>)
    requires
        x.len() == 0 || (x[0] != '*' && x.last() != '*'),
    ensures
        glob_accepts(seq!['*'] + x + seq!['*'], s) <==> exists|a: Seq<char>, b: Seq<char>|
            s == a + x + b,
{
    let p = seq!['*'] + x + seq!['*'];
    assert(p.drop_first() =~= x + seq!['*']);
    if x.len() == 0 {
        assert(p.drop_first().drop_first() =~= Seq::<char>::empty());
        assert(strip_leading_stars(p.drop_first()) == strip_leading_stars(
            p.drop_first().drop_first(),
        ));
        assert(trim_stars(p) =~= x);
    } else {
        assert((x + seq!['*'])[0] == x[0]);
        assert(strip_leading_stars(x + seq!['*']) == x + seq!['*']);
        assert((x + seq!['*']).drop_last() =~= x);
        assert(strip_trailing_stars(x) == x);
        assert(trim_stars(p) == x);
    }
    if glob_accepts(p, s) {
        let at = choose|at: int| crate::text::occurs_at(s, x, at);
        let a = s.take(at);
        let b = s.skip(at + x.len());
        assert(s =~= a + x + b);
    }
    if exists|a: Seq<char>, b: Seq<char>| s == a + x + b {
        let (a, b) = choose|a: Seq<char>, b: Seq<char>| s == a + x + b;
        assert(s.subrange(a.len() as int, (a.len() + x.len()) as int) =~= x);
        assert(crate::text::occurs_at(s, x, a.len() as int));
    }
}

/// `x*` (with `x` not starting with a star) accepts exactly the names that start with `x`.
pub proof fn lemma_glob_starts(x: Seq<char>, s: Seq<char>)
    requires
        x.len() > 0,
        x[0] != '*',
    ensures
        glob_accepts(x + seq!['*'], s) <==> exists|b: Seq<char>| s == x + b,
{
    let p = x + seq!['*'];
    assert(p[0] == x[0]);
    assert(p.drop_last() =~= x);
    if glob_accepts(p, s) {
        assert(s =~= x + s.skip(x.len() as int));
    }
    if exists|b: Seq<char>| s == x + b {
        let b = choose|b: Seq<char>| s == x + b;
        assert(s.subrange(0, x.len() as int) =~= x);
    }
}

/// `*x` (with `x` not ending in a star) accepts exactly the names that end with `x`.
pub proof fn lemma_glob_ends(x: Seq<char>, s: Seq<char>)
    requires
        x.len() > 0,
        x.last() != '*',
    ensures
        glob_accepts(seq!['*'] + x, s) <==> exists|a: Seq<char>| s == a + x,
{
    let p = seq!['*'] + x;
    assert(p.last() == x.last());
    assert(p.drop_first() =~= x);
    if glob_accepts(p, s) {
        assert(s =~= s.take(s.len() - x.len()) + x);
    }
    if exists|a: Seq<char>| s == a + x {
        let a = choose|a: Seq<char>| s == a + x;
        assert(s.subrange(s.len() - x.len(), s.len() as int) =~= x);
    }
}

/// A tiny glob matcher: a single leading and/or trailing `*` (`clk_*`, `*scan*`, `*_reg`),
/// exact match otherwise.
pub fn glob_match(pat: &str, s: &str) -> (r: bool)
    ensures
        r == glob_accepts(pat@, s@),
{
    let p = chars_of(pat);
    let t = chars_of(s);
    let n = p.len();
    let lead = n > 0 && p[0] == '*';
    let trail = n > 0 && p[n - 1] == '*';
    if lead && trail {
        let mut lo: usize = 0;
        assert(p@.subrange(0, n as int) =~= p@);
        while lo < n && p[lo] == '*'
            invariant
                n == p.len(),
                lo <= n,
                strip_leading_stars(p@) == strip_leading_stars(p@.subrange(lo as int, n as int)),
            decreases n - lo,
        {
            proof {
                lemma_strip_leading_step(p@, lo as int);
            }
            lo = lo + 1;
        }
        proof {
            let rest = p@.subrange(lo as int, n as int);
            if rest.len() > 0 {
                assert(rest[0] == p@[lo as int]);
            }
        }
        let mut hi: usize = n;
        while hi > lo && p[hi - 1] == '*'
            invariant
                n == p.len(),
                lo <= hi <= n,
                trim_stars(p@) == strip_trailing_stars(p@.subrange(lo as int, hi as int)),
            decreases hi,
        {
            proof {
                lemma_strip_trailing_step(p@, lo as int, hi as int);
            }
            hi = hi - 1;
        }
        proof {
            let rest = p@.subrange(lo as int, hi as int);
            if rest.len() > 0 {
                assert(rest.last() == p@[hi - 1]);
            }
        }
        contains_range(&t, &p, lo, hi)
    } else if lead {
        if n - 1 > t.len() {
            return false;
        }
        let r = matches_at(&t, t.len() - (n - 1), &p, 1, n);
        assert(p@.subrange(1, n as int) =~= p@.drop_first());
        r
    } else if trail {
        let r = matches_at(&t, 0, &p, 0, n - 1);
        assert(p@.subrange(0, n - 1) =~= p@.drop_last());
        r
    } else {
        same_chars(&t, &p)
    }
}

/// The buffer-insertion configuration (everything beyond the timing setup).
#[derive(Debug)]
pub struct BufCfg {
    /// The buffer cell to insert (one input and one output pin).
    pub buffer: String,
    /// The transition limit in ns, as the job writes it (a number `f64::from_str` accepts).
    pub max_slew: String,
    /// Only nets with at least this many instance sinks are split.
    pub min_fanout: usize,
    /// The most buffers to insert (from `effort:`).
    pub effort: usize,
    /// Driver-instance globs whose nets are never touched.
    pub dont_touch: Vec<String>,
}

/// The configuration as plain values.
pub struct CfgView {
    pub buffer: Seq<char>,
    pub max_slew: Seq<char>,
    pub min_fanout: int,
    pub effort: int,
    pub dont_touch: Seq<Seq<char>>,
}

impl View for BufCfg {
    type V = CfgView;

    open spec fn view(&self) -> CfgView {
        CfgView {
            buffer: self.buffer@,
            max_slew: self.max_slew@,
            min_fanout: self.min_fanout as int,
            effort: self.effort as int,
            dont_touch: views(self.dont_touch@),
        }
    }
}

/// The keys read so far from a job, before `effort:` is turned into a count (`effort_word` is
/// the last `effort:` value as written).
pub struct CfgDraft {
    pub buffer: Seq<char>,
    pub max_slew: Seq<char>,
    pub min_fanout: int,
    pub effort_word: Seq<char>,
    pub dont_touch: Seq<Seq<char>>,
}

/// The keys before any line is read: no buffer, a 0.15 ns limit, fanout 2, medium effort.
pub open spec fn initial_draft() -> CfgDraft {
    CfgDraft {
        buffer: Seq::empty(),
        max_slew: "0.15"@,
        min_fanout: 2,
        effort_word: "medium"@,
        dont_touch: Seq::empty(),
    }
}

/// A job line before its first `#`.
pub open spec fn uncommented(l: Seq<char>) -> Seq<char> {
    match first_in(l, seq!['#', '#']) {
        Some(h) => l.take(h),
        None => l,
    }
}

/// The key (trimmed, lower-cased) and value (trimmed) of a job line: the uncommented line,
/// trimmed, split at its first `:`. A line without `:` has none.
pub open spec fn line_entry(l: Seq<char>) -> Option<(Seq<char>, Seq<char>)> {
    let line = trim(uncommented(l));
    match first_in(line, seq![':', ':']) {
        Some(c) => Some((lowercase(trim(line.take(c))), trim(line.skip(c + 1)))),
        None => None,
    }
}

/// The globs of a `dont_touch:` value: split at `,` and ` `, trimmed, empty ones dropped.
pub open spec fn list_items(v: Seq<char>) -> Seq<Seq<char>> {
    keep_nonempty(split_any(v, seq![',', ' ']).map_values(|p: Seq<char>| trim(p)))
}

/// The effect of the entry `key: v` (with `key` lower-cased) on the keys read so far.
pub open spec fn apply_key_entry(d: CfgDraft, key: Seq<char>, v: Seq<char>) -> Result<CfgDraft, Seq<char>> {
    if key == "buffer"@ {
        Ok(CfgDraft { buffer: v, ..d })
    } else if key == "max_slew"@ {
        if float_literal(v) {
            Ok(CfgDraft { max_slew: v, ..d })
        } else {
            Err("max_slew must be a number, got "@ + debug_str(v))
        }
    } else if key == "min_fanout"@ {
        match usize_value(v) {
            Some(n) => Ok(CfgDraft { min_fanout: n, ..d }),
            None => Err("min_fanout must be an integer, got "@ + debug_str(v)),
        }
    } else if key == "effort"@ {
        Ok(CfgDraft { effort_word: v, ..d })
    } else if key == "dont_touch"@ {
        Ok(CfgDraft { dont_touch: d.dont_touch + list_items(v), ..d })
    } else {
        Ok(d)
    }
}

/// The effect of one job line on the keys read so far.
pub open spec fn apply_entry(d: CfgDraft, l: Seq<char>) -> Result<CfgDraft, Seq<char>> {
    match line_entry(l) {
        None => Ok(d),
        Some((k, v)) => apply_key_entry(d, k, v),
    }
}

/// The keys after reading the lines `ls` in order; the first bad value stops the reading.
pub open spec fn read_lines(ls: Seq<Seq<char>>) -> Result<CfgDraft, Seq<char>>
    decreases ls.len(),
{
    if ls.len() == 0 {
        Ok(initial_draft())
    } else {
        match read_lines(ls.drop_last()) {
            Ok(d) => apply_entry(d, ls.last()),
            Err(e) => Err(e),
        }
    }
}

/// The buffer count of an effort word.
pub open spec fn effort_count(w: Seq<char>) -> Option<int> {
    if w == "low"@ {
        Some(20)
    } else if w == "medium"@ {
        Some(100)
    } else if w == "high"@ {
        Some(500)
    } else {
        None
    }
}

/// The configuration from the keys read, with `effort` the effort word lower-cased: a buffer
/// is required, the effort word must be known.
pub open spec fn finish_with(d: CfgDraft, effort: Seq<char>) -> Result<CfgView, Seq<char>> {
    if d.buffer.len() == 0 {
        Err("a `buffer:` cell is required"@)
    } else {
        match effort_count(effort) {
            Some(n) => Ok(
                CfgView {
                    buffer: d.buffer,
                    max_slew: d.max_slew,
                    min_fanout: d.min_fanout,
                    effort: n,
                    dont_touch: d.dont_touch,
                },
            ),
            None => Err("effort must be low|medium|high, got "@ + debug_str(effort)),
        }
    }
}

/// The configuration from the keys read.
pub open spec fn finish_draft(d: CfgDraft) -> Result<CfgView, Seq<char>> {
    finish_with(d, lowercase(d.effort_word))
}

/// The configuration a job text gives, or the error it is refused with.
pub open spec fn cfg_of(text: Seq<char>) -> Result<CfgView, Seq<char>> {
    match read_lines(text_lines(text)) {
        Ok(d) => finish_draft(d),
        Err(e) => Err(e),
    }
}

/// The keys read so far, as the parser holds them.
pub struct CfgKeys {
    pub buffer: String,
    pub max_slew: String,
    pub min_fanout: usize,
    /// The last `effort:` value, as written.
    pub effort_word: String,
    pub dont_touch: Vec<String>,
}

impl View for CfgKeys {
    type V = CfgDraft;

    open spec fn view(&self) -> CfgDraft {
        CfgDraft {
            buffer: self.buffer@,
            max_slew: self.max_slew@,
            min_fanout: self.min_fanout as int,
            effort_word: self.effort_word@,
            dont_touch: views(self.dont_touch@),
        }
    }
}

impl CfgKeys {
    /// The keys before any line is read.
    pub fn new() -> (r: CfgKeys)
        ensures
            r@ == initial_draft(),
    {
        let r = CfgKeys {
            buffer: String::new(),
            max_slew: String::from_str("0.15"),
            min_fanout: 2,
            effort_word: String::from_str("medium"),
            dont_touch: Vec::new(),
        };
        assert(views(r.dont_touch@) =~= Seq::<Seq<char>>::empty());
        r
    }
}

/// Appends the globs of `t[lo .. hi]` to `out`.
fn push_items(out: &mut Vec<String>, text: &str, t: &Vec<char>, lo: usize, hi: usize)
    requires
        t@ == text@,
        lo <= hi <= t.len(),
    ensures
        views(final(out)@) == views(old(out)@) + list_items(t@.subrange(lo as int, hi as int)),
{
    let ghost cs = seq![',', ' '];
    let ghost first = views(out@);
    let ghost mut done: Seq<Seq<char>> = Seq::empty();
    let mut start = lo;
    let mut i = lo;
    assert(t@.subrange(lo as int, lo as int) =~= Seq::<char>::empty());
    assert(first + Seq::<Seq<char>>::empty() =~= first);
    while i < hi
        invariant
            t@ == text@,
            lo <= start <= i <= hi <= t.len(),
            cs == seq![',', ' '],
            split_any(t@.subrange(lo as int, i as int), cs) == done.push(
                t@.subrange(start as int, i as int),
            ),
            views(out@) == first + keep_nonempty(done.map_values(|p: Seq<char>| trim(p))),
        decreases hi - i,
    {
        let c = t[i];
        proof {
            lemma_split_any_step(t@, cs, lo as int, start as int, i as int, done);
            assert(cs[0] == ',' && cs[1] == ' ');
            if cs.contains(c) {
                let k = choose|k: int| 0 <= k < cs.len() && cs[k] == c;
                assert(k == 0 || k == 1);
            }
        }
        if c == ',' || c == ' ' {
            assert(cs.contains(c));
            let (a, b) = trim_range(t, start, i);
            let ghost before = out@;
            if a < b {
                out.push(piece(text, t, a, b));
                assert(views(out@) =~= views(before).push(t@.subrange(a as int, b as int)));
            }
            proof {
                let p = t@.subrange(start as int, i as int);
                let nd = done.push(p);
                assert(nd.map_values(|p: Seq<char>| trim(p)) =~= done.map_values(
                    |p: Seq<char>| trim(p),
                ).push(trim(p)));
                assert(nd.map_values(|p: Seq<char>| trim(p)).drop_last() =~= done.map_values(
                    |p: Seq<char>| trim(p),
                ));
                done = nd;
            }
            start = i + 1;
        }
        i = i + 1;
    }
    let (a, b) = trim_range(t, start, hi);
    let ghost before = out@;
    if a < b {
        out.push(piece(text, t, a, b));
        assert(views(out@) =~= views(before).push(t@.subrange(a as int, b as int)));
    }
    proof {
        let p = t@.subrange(start as int, hi as int);
        let nd = done.push(p);
        assert(nd.map_values(|p: Seq<char>| trim(p)) =~= done.map_values(
            |p: Seq<char>| trim(p),
        ).push(trim(p)));
        assert(nd.map_values(|p: Seq<char>| trim(p)).drop_last() =~= done.map_values(
            |p: Seq<char>| trim(p),
        ));
    }
}

/// Whether the characters of `key` spell `word`.
fn is_word(key: &String, word: &str) -> (r: bool)
    ensures
        r == (key@ == word@),
{
    same_chars(&chars_of(key.as_str()), &chars_of(word))
}

/// Applies the entry `key: value` of a job line to the keys read so far; `key` is the line's
/// key already lower-cased, `value` its trimmed value.
pub fn apply_key(keys: &mut CfgKeys, key: &str, value: &str) -> (r: Result<(), String>)
    ensures
        match r {
            Ok(_) => apply_key_entry(old(keys)@, key@, value@) == Ok::<CfgDraft, Seq<char>>(
                final(keys)@,
            ),
            Err(e) => apply_key_entry(old(keys)@, key@, value@) == Err::<CfgDraft, Seq<char>>(e@),
        },
{
    let k = String::from_str(key);
    let t = chars_of(value);
    let n = t.len();
    assert(t@.subrange(0, n as int) =~= value@);
    if is_word(&k, "buffer") {
        keys.buffer = String::from_str(value);
        Ok(())
    } else if is_word(&k, "max_slew") {
        if float_literal_range(&t, 0, n) {
            keys.max_slew = String::from_str(value);
            Ok(())
        } else {
            Err(message_with_quoted("max_slew must be a number, got ", value))
        }
    } else if is_word(&k, "min_fanout") {
        match parse_usize_range(&t, 0, n) {
            Some(m) => {
                keys.min_fanout = m;
                Ok(())
            },
            None => Err(message_with_quoted("min_fanout must be an integer, got ", value)),
        }
    } else if is_word(&k, "effort") {
        keys.effort_word = String::from_str(value);
        Ok(())
    } else if is_word(&k, "dont_touch") {
        push_items(&mut keys.dont_touch, value, &t, 0, n);
        Ok(())
    } else {
        Ok(())
    }
}

/// Applies the job line `t[lo .. hi]` to the keys read so far.
fn apply_line(d: &mut CfgKeys, text: &str, t: &Vec<char>, lo: usize, hi: usize) -> (r: Result<
    (),
    String,
>)
    requires
        t@ == text@,
        lo <= hi <= t.len(),
    ensures
        match r {
            Ok(_) => apply_entry(old(d)@, t@.subrange(lo as int, hi as int)) == Ok::<
                CfgDraft,
                Seq<char>,
            >(final(d)@),
            Err(e) => apply_entry(old(d)@, t@.subrange(lo as int, hi as int)) == Err::<
                CfgDraft,
                Seq<char>,
            >(e@),
        },
{
    let ghost l = t@.subrange(lo as int, hi as int);
    let end = match find_either(t, lo, hi, '#', '#') {
        Some(h) => {
            assert(l.take(h - lo) =~= t@.subrange(lo as int, h as int));
            h
        },
        None => {
            assert(l =~= t@.subrange(lo as int, hi as int));
            hi
        },
    };
    assert(uncommented(l) == t@.subrange(lo as int, end as int));
    let (a, b) = trim_range(t, lo, end);
    let ghost line = t@.subrange(a as int, b as int);
    let c = match find_either(t, a, b, ':', ':') {
        None => {
            return Ok(());
        },
        Some(c) => c,
    };
    assert(line.take(c - a) =~= t@.subrange(a as int, c as int));
    assert(line.skip(c - a + 1) =~= t@.subrange(c + 1, b as int));
    let (ka, kb) = trim_range(t, a, c);
    let (va, vb) = trim_range(t, c + 1, b);
    let key = lower_case(text.substring_char(ka, kb));
    let v = piece(text, t, va, vb);
    assert(line_entry(l) == Some((key@, v@)));
    apply_key(d, key.as_str(), v.as_str())
}

/// The configuration from the keys read, given the effort word lower-cased: a buffer is
/// required, and the effort word must be `low`, `medium` or `high`.
pub fn finish_keys(keys: CfgKeys, effort: &str) -> (r: Result<BufCfg, String>)
    ensures
        match r {
            Ok(c) => finish_with(keys@, effort@) == Ok::<CfgView, Seq<char>>(c@),
            Err(e) => finish_with(keys@, effort@) == Err::<CfgView, Seq<char>>(e@),
        },
{
    if keys.buffer.as_str().is_empty() {
        return Err(String::from_str("a `buffer:` cell is required"));
    }
    let w = String::from_str(effort);
    let n: usize = if is_word(&w, "low") {
        20
    } else if is_word(&w, "medium") {
        100
    } else if is_word(&w, "high") {
        500
    } else {
        return Err(message_with_quoted("effort must be low|medium|high, got ", effort));
    };
    Ok(BufCfg {
        buffer: keys.buffer,
        max_slew: keys.max_slew,
        min_fanout: keys.min_fanout,
        effort: n,
        dont_touch: keys.dont_touch,
    })
}

/// Parses the buffer-insertion keys out of a job text. Lines are read in order; within a line
/// everything after `#` is a comment and the rest is `key: value`. Unknown keys and lines
/// without `:` are ignored; a later key overrides an earlier one, `dont_touch:` accumulates.
pub fn parse_cfg(text: &str) -> (r: Result<BufCfg, String>)
    ensures
        match r {
            Ok(c) => cfg_of(text@) == Ok::<CfgView, Seq<char>>(c@),
            Err(e) => cfg_of(text@) == Err::<CfgView, Seq<char>>(e@),
        },
{
    let t = chars_of(text);
    let n = t.len();
    let mut d = CfgKeys::new();
    let mut failed: Option<String> = None;
    let ghost nl = seq!['\n'];
    let ghost mut done: Seq<Seq<char>> = Seq::empty();
    let mut start: usize = 0;
    let mut i: usize = 0;
    assert(t@.subrange(0, 0) =~= Seq::<char>::empty());
    assert(done.map_values(|p: Seq<char>| strip_cr(p)) =~= Seq::<Seq<char>>::empty());
    while i < n
        invariant
            t@ == text@,
            n == t.len(),
            start <= i <= n,
            nl == seq!['\n'],
            split_any(t@.subrange(0, i as int), nl) == done.push(
                t@.subrange(start as int, i as int),
            ),
            read_lines(done.map_values(|p: Seq<char>| strip_cr(p))) == (match failed {
                Some(e) => Err::<CfgDraft, Seq<char>>(e@),
                None => Ok::<CfgDraft, Seq<char>>(d@),
            }),
        decreases n - i,
    {
        let c = t[i];
        proof {
            lemma_split_any_step(t@, nl, 0, start as int, i as int, done);
            assert(nl[0] == '\n');
            if nl.contains(c) {
                let k = choose|k: int| 0 <= k < nl.len() && nl[k] == c;
            }
        }
        if c == '\n' {
            assert(nl.contains(c));
            let mut e = i;
            if e > start && t[e - 1] == '\r' {
                e = e - 1;
            }
            let ghost p = t@.subrange(start as int, i as int);
            assert(strip_cr(p) == t@.subrange(start as int, e as int));
            if failed.is_none() {
                match apply_line(&mut d, text, &t, start, e) {
                    Ok(_) => {},
                    Err(msg) => {
                        failed = Some(msg);
                    },
                }
            }
            proof {
                let nd = done.push(p);
                assert(nd.map_values(|p: Seq<char>| strip_cr(p)).drop_last() =~= done.map_values(
                    |p: Seq<char>| strip_cr(p),
                ));
                assert(nd.map_values(|p: Seq<char>| strip_cr(p)).last() == strip_cr(p));
                done = nd;
            }
            start = i + 1;
        }
        i = i + 1;
    }
    let ghost pieces = split_any(t@, nl);
    assert(t@.subrange(0, n as int) =~= t@);
    assert(pieces.drop_last() =~= done);
    assert(pieces.last() == t@.subrange(start as int, n as int));
    if start < n {
        if failed.is_none() {
            match apply_line(&mut d, text, &t, start, n) {
                Ok(_) => {},
                Err(msg) => {
                    failed = Some(msg);
                },
            }
        }
        proof {
            let ls = done.map_values(|p: Seq<char>| strip_cr(p)).push(pieces.last());
            assert(ls.drop_last() =~= done.map_values(|p: Seq<char>| strip_cr(p)));
        }
    }
    assert(text_lines(t@) == (if start < n {
        done.map_values(|p: Seq<char>| strip_cr(p)).push(pieces.last())
    } else {
        done.map_values(|p: Seq<char>| strip_cr(p))
    }));
    if let Some(msg) = failed {
        return Err(msg);
    }
    let effort = lower_case(d.effort_word.as_str());
    finish_keys(d, effort.as_str())
}

/// Everything from the first `#` on is a comment: a line reads as its text before the `#`.
pub proof fn lemma_comment_ignored(d: CfgDraft, x: Seq<char>, comment: Seq<char>)
    requires
        !x.contains('#'),
    ensures
        apply_entry(d, x + seq!['#'] + comment) == apply_entry(d, x),
{
    let l = x + seq!['#'] + comment;
    let cs = seq!['#', '#'];
    assert(l[x.len() as int] == '#');
    assert(cs.contains('#')) by {
        assert(cs[0] == '#');
    }
    assert forall|j: int| 0 <= j < x.len() implies !cs.contains(#[trigger] l[j]) by {
        assert(l[j] == x[j]);
        if cs.contains(l[j]) {
            let k = choose|k: int| 0 <= k < cs.len() && cs[k] == l[j];
            assert(x.contains(x[j]));
        }
    }
    assert(crate::text::is_first_in(l, cs, x.len() as int));
    let f = choose|f: int| crate::text::is_first_in(l, cs, f);
    if f < x.len() {
        assert(!cs.contains(l[f]));
    }
    if f > x.len() {
        assert(!cs.contains(l[x.len() as int]));
    }
    assert(l.take(x.len() as int) =~= x);
    assert forall|j: int| 0 <= j < x.len() implies !cs.contains(#[trigger] x[j]) by {
        if cs.contains(x[j]) {
            let k = choose|k: int| 0 <= k < cs.len() && cs[k] == x[j];
            assert(x.contains(x[j]));
        }
    }
    assert(!exists|i: int| crate::text::is_first_in(x, cs, i));
    assert(uncommented(l) == uncommented(x));
}

/// Keys other than the five of buffer insertion (the timing keys of the job among them)
/// leave the configuration as it was.
pub proof fn lemma_other_keys_ignored(d: CfgDraft, l: Seq<char>)
    requires
        line_entry(l) matches Some((k, v)) && k != "buffer"@ && k != "max_slew"@ && k
            != "min_fanout"@ && k != "effort"@ && k != "dont_touch"@,
    ensures
        apply_entry(d, l) == Ok::<CfgDraft, Seq<char>>(d),
{
}


/// A line the buffer-insertion keys pass over: it has no `key: value`, or its key is none of
/// the five.
pub open spec fn ignored_line(l: Seq<char>) -> bool {
    match line_entry(l) {
        None => true,
        Some((k, v)) => k != "buffer"@ && k != "max_slew"@ && k != "min_fanout"@ && k
            != "effort"@ && k != "dont_touch"@,
    }
}

/// The carriage return of a `\r\n` ending changes no entry.
pub proof fn lemma_line_entry_strip_cr(l: Seq<char>)
    ensures
        line_entry(strip_cr(l)) == line_entry(l),
{
    if l.len() > 0 && l.last() == '\r' {
        let x = l.drop_last();
        assert(x.push('\r') =~= l);
        let cs = seq!['#', '#'];
        assert(!cs.contains('\r')) by {
            if cs.contains('\r') {
                let k = choose|k: int| 0 <= k < cs.len() && cs[k] == '\r';
                assert(cs[0] == '#' && cs[1] == '#');
            }
        }
        if exists|h: int| is_first_in(x, cs, h) {
            let h = choose|h: int| is_first_in(x, cs, h);
            assert forall|j: int| 0 <= j < h implies !cs.contains(#[trigger] l[j]) by {
                assert(l[j] == x[j]);
            }
            assert(l[h] == x[h]);
            assert(is_first_in(l, cs, h));
            lemma_first_in_at(l, cs, h);
            lemma_first_in_at(x, cs, h);
            assert(l.take(h) =~= x.take(h));
        } else {
            if exists|h: int| is_first_in(l, cs, h) {
                let h = choose|h: int| is_first_in(l, cs, h);
                if h < x.len() {
                    assert forall|j: int| 0 <= j < h implies !cs.contains(#[trigger] x[j]) by {
                        assert(l[j] == x[j]);
                    }
                    assert(l[h] == x[h]);
                    assert(is_first_in(x, cs, h));
                } else {
                    assert(l[h] == '\r');
                }
            }
            assert(uncommented(l) == l);
            assert(uncommented(x) == x);
            assert(crate::text::is_white('\r'));
            lemma_trim_push_white(x, '\r');
        }
    }
}

/// Reading a passed-over line first changes nothing.
proof fn lemma_read_lines_ignored_first(x: Seq<char>, ls: Seq<Seq<char>>)
    requires
        ignored_line(x),
    ensures
        read_lines(seq![x] + ls) == read_lines(ls),
    decreases ls.len(),
{
    if ls.len() == 0 {
        assert(seq![x] + ls =~= seq![x]);
        assert(seq![x].drop_last() =~= Seq::<Seq<char>>::empty());
        assert(seq![x].last() == x);
        assert(read_lines(Seq::<Seq<char>>::empty()) == Ok::<CfgDraft, Seq<char>>(initial_draft()));
        assert(apply_entry(initial_draft(), x) == Ok::<CfgDraft, Seq<char>>(initial_draft()));
    } else {
        lemma_read_lines_ignored_first(x, ls.drop_last());
        assert((seq![x] + ls).drop_last() =~= seq![x] + ls.drop_last());
        assert((seq![x] + ls).last() == ls.last());
    }
}

/// Reading a passed-over line last changes nothing.
proof fn lemma_read_lines_ignored_last(ls: Seq<Seq<char>>, x: Seq<char>)
    requires
        ignored_line(x),
    ensures
        read_lines(ls.push(x)) == read_lines(ls),
{
    assert(ls.push(x).drop_last() =~= ls);
    assert(ls.push(x).last() == x);
}

/// A line without `\n` whose last piece is read with or without its `\r`: the same keys.
proof fn lemma_read_lines_last_cr(ls: Seq<Seq<char>>, x: Seq<char>)
    ensures
        read_lines(ls.push(strip_cr(x))) == read_lines(ls.push(x)),
{
    lemma_line_entry_strip_cr(x);
    assert(ls.push(strip_cr(x)).drop_last() =~= ls);
    assert(ls.push(x).drop_last() =~= ls);
}

/// The lines of a text that was cut at `\n` into `pieces` (the last piece ended by no `\n`)
/// read as the pieces all taken as ended lines.
proof fn lemma_read_lines_all_ended(pieces: Seq<Seq<char>>)
    requires
        pieces.len() >= 1,
    ensures
        read_lines(pieces.map_values(|p: Seq<char>| strip_cr(p))) == read_lines(
            if pieces.last().len() == 0 {
                pieces.drop_last().map_values(|p: Seq<char>| strip_cr(p))
            } else {
                pieces.drop_last().map_values(|p: Seq<char>| strip_cr(p)).push(pieces.last())
            },
        ),
{
    let front = pieces.drop_last().map_values(|p: Seq<char>| strip_cr(p));
    let last = pieces.last();
    assert(pieces.map_values(|p: Seq<char>| strip_cr(p)) =~= front.push(strip_cr(last)));
    lemma_read_lines_last_cr(front, last);
    if last.len() == 0 {
        assert(strip_cr(last) == last);
        assert(line_entry(last) is None) by {
            let line = trim(uncommented(last));
            assert(!exists|i: int| is_first_in(last, seq!['#', '#'], i));
            assert(uncommented(last) == last);
            assert(last =~= Seq::<char>::empty());
            assert(trim(last) == last);
            assert(!exists|i: int| is_first_in(line, seq![':', ':'], i));
        }
        lemma_read_lines_ignored_last(front, last);
    }
}

/// A line that the buffer-insertion keys pass over (a timing key such as `clock:` or `spef:`,
/// a comment, a line without `:`) changes nothing when a job starts with it.
pub proof fn lemma_ignored_line_first(line: Seq<char>, text: Seq<char>)
    requires
        !line.contains('\n'),
        ignored_line(line),
    ensures
        cfg_of(line + seq!['\n'] + text) == cfg_of(text),
{
    let cs = seq!['\n'];
    assert(cs.contains('\n')) by {
        assert(cs[0] == '\n');
    }
    assert forall|i: int| 0 <= i < line.len() implies !cs.contains(#[trigger] line[i]) by {
        if cs.contains(line[i]) {
            let k = choose|k: int| 0 <= k < cs.len() && cs[k] == line[i];
            assert(line.contains(line[i]));
        }
    }
    assert(line + seq!['\n'] + text =~= line.push('\n') + text);
    lemma_split_any_prefix(line, '\n', text, cs);
    lemma_split_any_nonempty(text, cs);
    let p = split_any(text, cs);
    let pieces = seq![line] + p;
    assert(pieces.last() == p.last());
    assert(pieces.drop_last() =~= seq![line] + p.drop_last());
    let tail = p.drop_last().map_values(|q: Seq<char>| strip_cr(q));
    assert((seq![line] + p.drop_last()).map_values(|q: Seq<char>| strip_cr(q)) =~= seq![
        strip_cr(line),
    ] + tail);
    lemma_line_entry_strip_cr(line);
    if p.last().len() == 0 {
        assert(text_lines(line + seq!['\n'] + text) == seq![strip_cr(line)] + tail);
        lemma_read_lines_ignored_first(strip_cr(line), tail);
    } else {
        assert((seq![strip_cr(line)] + tail).push(p.last()) =~= seq![strip_cr(line)] + tail.push(
            p.last(),
        ));
        assert(text_lines(line + seq!['\n'] + text) == seq![strip_cr(line)] + tail.push(p.last()));
        lemma_read_lines_ignored_first(strip_cr(line), tail.push(p.last()));
    }
}

/// A line that the buffer-insertion keys pass over changes nothing when a job ends with it.
pub proof fn lemma_ignored_line_last(text: Seq<char>, line: Seq<char>)
    requires
        !line.contains('\n'),
        ignored_line(line),
    ensures
        cfg_of(text + seq!['\n'] + line) == cfg_of(text),
{
    let cs = seq!['\n'];
    assert(cs.contains('\n')) by {
        assert(cs[0] == '\n');
    }
    assert forall|i: int| 0 <= i < line.len() implies !cs.contains(#[trigger] line[i]) by {
        if cs.contains(line[i]) {
            let k = choose|k: int| 0 <= k < cs.len() && cs[k] == line[i];
            assert(line.contains(line[i]));
        }
    }
    assert(text + seq!['\n'] + line =~= text.push('\n') + line);
    lemma_split_any_suffix(text, '\n', line, cs);
    lemma_split_any_nonempty(text, cs);
    let p = split_any(text, cs);
    let pieces = p.push(line);
    assert(pieces.drop_last() =~= p);
    lemma_read_lines_all_ended(p);
    let ended = p.map_values(|q: Seq<char>| strip_cr(q));
    if line.len() == 0 {
        assert(text_lines(text + seq!['\n'] + line) == ended);
    } else {
        assert(text_lines(text + seq!['\n'] + line) == ended.push(line));
        lemma_read_lines_ignored_last(ended, line);
    }
}

} // verus!
