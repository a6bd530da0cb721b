//! Character-level scanning shared by the line-table reader and the path
//! normaliser.
use vstd::prelude::*;

verus! {

/// Characters told apart by the scanners.
#[derive(Debug, PartialEq, Eq, Clone, Copy)]
pub enum CharClass {
    /// Space, tab, line feed, carriage return, vertical tab, form feed.
    Space,
    /// `0` to `9`.
    Digit,
    /// `0` to `9` and `a` to `f`.
    Hex,
    /// Anything but `"`.
    NotQuote,
}

pub open spec fn in_class(c: char, k: CharClass) -> bool {
    match k {
        CharClass::Space => c == ' ' || c == '\t' || c == '\n' || c == '\r' || c == '\x0B'
            || c == '\x0C',
        CharClass::Digit => '0' <= c <= '9',
        CharClass::Hex => ('0' <= c <= '9') || ('a' <= c <= 'f'),
        CharClass::NotQuote => c != '"',
    }
}

/// Length of the longest run of class `k` that starts at `p`.
pub open spec fn run(t: Seq<char>, p: int, k: CharClass) -> nat
    decreases t.len() - p,
{
    if 0 <= p < t.len() && in_class(t[p], k) {
        1 + run(t, p + 1, k)
    } else {
        0
    }
}

/// Whether `l` occurs in `t` at `p`.
pub open spec fn lit_at(t: Seq<char>, p: int, l: Seq<char>) -> bool {
    0 <= p && p + l.len() <= t.len() && t.subrange(p, p + l.len()) == l
}

/// Value of a digit character in base 16 (and so in base 10).
pub open spec fn digit_value(c: char) -> nat {
    if '0' <= c <= '9' {
        (c as u32 - '0' as u32) as nat
    } else {
        (c as u32 - 'a' as u32 + 10) as nat
    }
}

/// Value of a run of digits in base `radix`.
pub open spec fn number(s: Seq<char>, radix: nat) -> nat
    decreases s.len(),
{
    if s.len() == 0 {
        0
    } else {
        number(s.drop_last(), radix) * radix + digit_value(s.last())
    }
}

/// `s` with every occurrence of `pat` replaced by `rep`, left to right.
pub open spec fn replace_all(s: Seq<char>, pat: Seq<char>, rep: Seq<char>) -> Seq<char>
    decreases s.len(),
{
    if s.len() == 0 || pat.len() == 0 {
        s
    } else if pat.is_prefix_of(s) {
        rep + replace_all(s.subrange(pat.len() as int, s.len() as int), pat, rep)
    } else {
        seq![s[0]] + replace_all(s.drop_first(), pat, rep)
    }
}

/// A path with `\` turned into `/`, then every `../` and then every `./`
/// removed.
pub open spec fn normalized(p: Seq<char>) -> Seq<char> {
    replace_all(replace_all(replace_all(p, "\\"@, "/"@), "../"@, ""@), "./"@, ""@)
}

/// Relies on `str::chars`: the characters of `s`, in order.
#[verifier::external_body]
pub(crate) fn chars_of(s: &str) -> (r: Vec<char>)
    ensures
        r@ == s@,
{
    s.chars().collect()
}

/// Relies on collecting characters into a `String`: the same characters, in
/// order.
#[verifier::external_body]
pub(crate) fn string_of(c: &[char]) -> (r: String)
    ensures
        r@ == c@,
{
    c.iter().collect()
}

/// Whether `c` belongs to class `k`.
pub fn is_in_class(c: char, k: CharClass) -> (r: bool)
    ensures
        r == in_class(c, k),
{
    match k {
        CharClass::Space => c == ' ' || c == '\t' || c == '\n' || c == '\r' || c == '\x0B'
            || c == '\x0C',
        CharClass::Digit => '0' <= c && c <= '9',
        CharClass::Hex => ('0' <= c && c <= '9') || ('a' <= c && c <= 'f'),
        CharClass::NotQuote => c != '"',
    }
}

/// Length of the longest run of class `k` that starts at `p`.
pub fn run_len(t: &[char], p: usize, k: CharClass) -> (r: usize)
    requires
        p <= t@.len(),
    ensures
        r == run(t@, p as int, k),
        p + r <= t@.len(),
{
    let mut i: usize = p;
    while i < t.len() && is_in_class(t[i], k)
        invariant
            p <= i <= t@.len(),
            run(t@, p as int, k) == (i - p) + run(t@, i as int, k),
        decreases t@.len() - i,
    {
        i = i + 1;
    }
    i - p
}

/// Whether `l` occurs in `t` at `p`.
pub fn starts_at(t: &[char], p: usize, l: &[char]) -> (r: bool)
    ensures
        r == lit_at(t@, p as int, l@),
{
    if p > t.len() || l.len() > t.len() - p {
        return false;
    }
    let mut j: usize = 0;
    while j < l.len()
        invariant
            p + l@.len() <= t@.len(),
            t@.len() <= usize::MAX,
            j <= l@.len(),
            forall|m: int| 0 <= m < j ==> t@[p + m] == l@[m],
        decreases l@.len() - j,
    {
        if t[p + j] != l[j] {
            return false;
        }
        j = j + 1;
    }
    assert(t@.subrange(p as int, p + l@.len()) =~= l@);
    true
}

proof fn lemma_number_grows(s: Seq<char>, i: int, j: int, radix: nat)
    requires
        0 <= i <= j <= s.len(),
        radix >= 1,
    ensures
        number(s.subrange(0, j), radix) >= number(s.subrange(0, i), radix),
    decreases j - i,
{
    if i < j {
        lemma_number_grows(s, i, j - 1, radix);
        assert(s.subrange(0, j).drop_last() =~= s.subrange(0, j - 1));
        let v = number(s.subrange(0, j - 1), radix);
        assert(v * radix >= v) by (nonlinear_arith)
            requires radix >= 1;
    }
}

/// Value of the digits `t[from..to]` in base `radix` (10 or 16), or `None`
/// when it exceeds `max`.
pub fn parse_number(t: &[char], from: usize, to: usize, radix: u64, max: u64) -> (r: Option<u64>)
    requires
        from <= to <= t@.len(),
        radix == 10 || radix == 16,
        forall|m: int| from <= m < to ==> in_class(t@[m], CharClass::Hex),
    ensures
        match r {
            Some(v) => v == number(t@.subrange(from as int, to as int), radix as nat) && v <= max,
            None => number(t@.subrange(from as int, to as int), radix as nat) > max,
        },
{
    let ghost s = t@.subrange(from as int, to as int);
    let mut v: u64 = 0;
    let mut i: usize = from;
    while i < to
        invariant
            from <= i <= to <= t@.len(),
            s == t@.subrange(from as int, to as int),
            radix == 10 || radix == 16,
            forall|m: int| from <= m < to ==> in_class(t@[m], CharClass::Hex),
            v == number(s.subrange(0, i - from), radix as nat),
            v <= max,
        decreases to - i,
    {
        let c = t[i];
        let d: u64 = if '0' <= c && c <= '9' {
            (c as u32 - '0' as u32) as u64
        } else {
            (c as u32 - 'a' as u32 + 10) as u64
        };
        assert(s.subrange(0, i + 1 - from).drop_last() =~= s.subrange(0, i - from));
        if d > max || v > (max - d) / radix {
            proof {
                if d <= max {
                    let q = (max - d) as int / (radix as int);
                    assert(v * radix + d > max) by (nonlinear_arith)
                        requires v > q, q == (max - d) as int / (radix as int), radix >= 1;
                }
                lemma_number_grows(s, i + 1 - from, s.len() as int, radix as nat);
                assert(s.subrange(0, s.len() as int) =~= s);
            }
            return None;
        }
        proof {
            let q = (max - d) as int / (radix as int);
            assert(v * radix + d <= max) by (nonlinear_arith)
                requires v <= q, q == (max - d) as int / (radix as int), radix >= 1, d <= max;
        }
        v = v * radix + d;
        i = i + 1;
    }
    assert(s.subrange(0, to - from) =~= s);
    Some(v)
}

/// `s` with every occurrence of `pat` replaced by `rep`, left to right.
fn replace_chars(s: &[char], pat: &[char], rep: &[char]) -> (r: Vec<char>)
    ensures
        r@ == replace_all(s@, pat@, rep@),
{
    let mut out: Vec<char> = Vec::new();
    if pat.len() == 0 {
        let mut k: usize = 0;
        while k < s.len()
            invariant
                k <= s@.len(),
                out@ == s@.subrange(0, k as int),
            decreases s@.len() - k,
        {
            out.push(s[k]);
            assert(out@ =~= s@.subrange(0, k + 1));
            k = k + 1;
        }
        assert(out@ =~= s@);
        return out;
    }
    let mut i: usize = 0;
    assert(s@.subrange(0, s@.len() as int) =~= s@);
    assert(out@ + replace_all(s@, pat@, rep@) =~= replace_all(s@, pat@, rep@));
    while i < s.len()
        invariant
            i <= s@.len(),
            pat@.len() > 0,
            replace_all(s@, pat@, rep@) == out@ + replace_all(s@.subrange(i as int, s@.len() as int), pat@, rep@),
        decreases s@.len() - i,
    {
        let ghost rest = s@.subrange(i as int, s@.len() as int);
        let ghost before = out@;
        if starts_at(s, i, pat) {
            assert(rest.subrange(0, pat@.len() as int) =~= s@.subrange(i as int, i + pat@.len()));
            assert(pat@.is_prefix_of(rest));
            let mut j: usize = 0;
            while j < rep.len()
                invariant
                    j <= rep@.len(),
                    out@ == before + rep@.subrange(0, j as int),
                decreases rep@.len() - j,
            {
                out.push(rep[j]);
                assert(out@ =~= before + rep@.subrange(0, j + 1));
                j = j + 1;
            }
            assert(rest.subrange(pat@.len() as int, rest.len() as int)
                =~= s@.subrange(i + pat@.len(), s@.len() as int));
            assert(rep@.subrange(0, rep@.len() as int) =~= rep@);
            assert forall|x: Seq<char>| #![auto] before + (rep@ + x) == out@ + x by {
                assert(before + (rep@ + x) =~= out@ + x);
            }
            i = i + pat.len();
        } else {
            assert(!pat@.is_prefix_of(rest)) by {
                if pat@.is_prefix_of(rest) {
                    assert(s@.subrange(i as int, i + pat@.len()) =~= pat@);
                }
            }
            out.push(s[i]);
            assert(rest.drop_first() =~= s@.subrange(i + 1, s@.len() as int));
            assert forall|x: Seq<char>| #![auto] before + (seq![rest[0]] + x) == out@ + x by {
                assert(before + (seq![rest[0]] + x) =~= out@ + x);
            }
            i = i + 1;
        }
    }
    assert(out@ + replace_all(Seq::<char>::empty(), pat@, rep@) =~= out@);
    assert(s@.subrange(i as int, s@.len() as int) =~= Seq::<char>::empty());
    out
}

/// The characters of a literal.
pub fn literal(l: &str) -> (r: Vec<char>)
    ensures
        r@ == l@,
{
    let n = l.unicode_len();
    let mut out: Vec<char> = Vec::new();
    let mut i: usize = 0;
    while i < n
        invariant
            n == l@.len(),
            i <= n,
            out@ == l@.subrange(0, i as int),
        decreases n - i,
    {
        out.push(l.get_char(i));
        assert(out@ =~= l@.subrange(0, i + 1));
        i = i + 1;
    }
    assert(out@ =~= l@);
    out
}

/// `normalize_path` on characters.
pub fn normalize_chars(p: &[char]) -> (r: Vec<char>)
    ensures
        r@ == normalized(p@),
{
    let a = replace_chars(p, literal("\\").as_slice(), literal("/").as_slice());
    let b = replace_chars(a.as_slice(), literal("../").as_slice(), literal("").as_slice());
    replace_chars(b.as_slice(), literal("./").as_slice(), literal("").as_slice())
}

/// A path with `\` turned into `/`, and every `../` and `./` removed.
pub fn normalize_path(path: &str) -> (r: String)
    ensures
        r@ == normalized(path@),
{
    let c = chars_of(path);
    let n = normalize_chars(c.as_slice());
    string_of(n.as_slice())
}

/// Position just after `l`, when `l` occurs at `p`.
pub open spec fn after_lit(t: Seq<char>, p: usize, l: Seq<char>) -> Option<usize> {
    if lit_at(t, p as int, l) {
        Some((p + l.len()) as usize)
    } else {
        None
    }
}

/// Position just after the run of class `k` at `p`, when it holds at least
/// `min` characters.
pub open spec fn after_run(t: Seq<char>, p: usize, k: CharClass, min: nat) -> Option<usize> {
    if run(t, p as int, k) >= min {
        Some((p + run(t, p as int, k)) as usize)
    } else {
        None
    }
}

/// Position just after `l`, when `l` occurs at `p`.
pub fn skip_lit(t: &[char], p: usize, l: &[char]) -> (r: Option<usize>)
    ensures
        r == after_lit(t@, p, l@),
        r is Some ==> p <= r.unwrap() <= t@.len(),
{
    let n = t.len();
    if starts_at(t, p, l) {
        assert(p + l@.len() <= n);
        Some(p + l.len())
    } else {
        None
    }
}

/// Position just after the run of class `k` at `p`, when it holds at least
/// `min` characters.
pub fn skip_run(t: &[char], p: usize, k: CharClass, min: usize) -> (r: Option<usize>)
    requires
        p <= t@.len(),
    ensures
        r == after_run(t@, p, k, min as nat),
        r is Some ==> p <= r.unwrap() <= t@.len(),
{
    let len = t.len();
    let n = run_len(t, p, k);
    if n >= min {
        Some(p + n)
    } else {
        None
    }
}

/// A copy of `t[from..to]`.
pub fn copy_chars(t: &[char], from: usize, to: usize) -> (r: Vec<char>)
    requires
        from <= to <= t@.len(),
    ensures
        r@ == t@.subrange(from as int, to as int),
{
    let mut out: Vec<char> = Vec::new();
    let mut i: usize = from;
    while i < to
        invariant
            from <= i <= to <= t@.len(),
            out@ == t@.subrange(from as int, i as int),
        decreases to - i,
    {
        out.push(t[i]);
        assert(out@ =~= t@.subrange(from as int, i + 1));
        i = i + 1;
    }
    out
}

/// Whether `a` and `b` hold the same characters.
pub fn same_chars(a: &[char], b: &[char]) -> (r: bool)
    ensures
        r == (a@ == b@),
{
    if a.len() != b.len() {
        return false;
    }
    let r = starts_at(a, 0, b);
    assert(a@.subrange(0, b@.len() as int) =~= a@);
    r
}

} // verus!
