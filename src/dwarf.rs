//! Reads the line tables out of a textual DWARF dump.
use vstd::prelude::*;
use vstd::utf8::{valid_utf8, decode_utf8};
use crate::text::{
    CharClass, after_lit, after_run, run, lit_at, number, in_class, skip_lit, skip_run, copy_chars,
    literal, parse_number, string_of, starts_at, same_chars,
};

verus! {

/// Where a piece of text starts and ends.
pub type Span = (usize, usize);

/// The texts held by a list of character vectors.
pub open spec fn views(v: Seq<Vec<char>>) -> Seq<Seq<char>> {
    v.map_values(|x: Vec<char>| x@)
}

pub open spec fn span_text(t: Seq<char>, s: Span) -> Seq<char> {
    t.subrange(s.0 as int, s.1 as int)
}

/// What splits a text in `split_keep`.
#[derive(Debug, PartialEq, Eq, Clone, Copy)]
pub enum Delimiter {
    /// A single decimal digit, kept nowhere.
    Digit,
    /// A marker `debug_line[0x<hex>]`, whose `0x<hex>` is kept.
    DebugLine,
}

/// A row of a line table: `\n0x<hex> <line> <column> <file>`, perhaps
/// followed on the same line by `end_sequence`.
#[derive(Debug, PartialEq, Eq, Clone, Copy)]
pub struct RowSpan {
    pub address: Span,
    pub line: Span,
    pub column: Span,
    pub file: Span,
    pub eos: bool,
    pub end: usize,
}

/// A declaration `include_directories[<n>] = "<path>`.
#[derive(Debug, PartialEq, Eq, Clone, Copy)]
pub struct DirSpan {
    pub key: Span,
    pub path: Span,
    pub end: usize,
}

/// A declaration `file_names[<n>]: name: "<name>" dir_index: <d>`.
#[derive(Debug, PartialEq, Eq, Clone, Copy)]
pub struct FileSpan {
    pub key: Span,
    pub name: Span,
    pub dir: Span,
    pub end: usize,
}

/// The delimiter at `p`: what of it is kept, and where it ends.
pub open spec fn delimiter_at(t: Seq<char>, p: usize, d: Delimiter) -> Option<(Option<Span>, usize)> {
    match d {
        Delimiter::Digit => if p < t.len() && in_class(t[p as int], CharClass::Digit) {
            Some((None, (p + 1) as usize))
        } else {
            None
        },
        Delimiter::DebugLine => match after_lit(t, p, "debug_line[0x"@) {
            None => None,
            Some(q1) => match after_run(t, q1, CharClass::Hex, 0) {
                None => None,
                Some(q2) => match after_lit(t, q2, "]"@) {
                    None => None,
                    Some(q3) => Some((Some(((q1 - 2) as usize, q2)), q3)),
                },
            },
        },
    }
}

/// The pieces of `t[last..]`, scanning for delimiters from `p`: the text
/// before each delimiter when it is not empty, what the delimiter keeps, and
/// the text after the last one when it is not empty.
pub open spec fn split_from(t: Seq<char>, d: Delimiter, last: usize, p: usize) -> Seq<Seq<char>>
    decreases t.len() - p,
{
    if p >= t.len() || t.len() > usize::MAX {
        if last < t.len() {
            seq![t.subrange(last as int, t.len() as int)]
        } else {
            seq![]
        }
    } else {
        match delimiter_at(t, p, d) {
            Some((kept, end)) => if end <= p || end > t.len() {
                seq![]
            } else {
                (if last != p {
                    seq![t.subrange(last as int, p as int)]
                } else {
                    seq![]
                }) + (match kept {
                    Some(k) => seq![span_text(t, k)],
                    None => seq![],
                }) + split_from(t, d, end, end)
            },
            None => split_from(t, d, last, (p + 1) as usize),
        }
    }
}

pub open spec fn split(t: Seq<char>, d: Delimiter) -> Seq<Seq<char>> {
    split_from(t, d, 0, 0)
}

/// `end_sequence` later on the line that starts at `p`: where it ends.
pub open spec fn eos_from(t: Seq<char>, p: usize) -> Option<usize>
    decreases t.len() - p,
{
    if lit_at(t, p as int, "end_sequence"@) {
        Some((p + 12) as usize)
    } else if p < t.len() && t.len() <= usize::MAX && t[p as int] != '\n' {
        eos_from(t, (p + 1) as usize)
    } else {
        None
    }
}

pub open spec fn row_at(t: Seq<char>, p: usize) -> Option<RowSpan> {
    match after_lit(t, p, "\n0x"@) {
        None => None,
        Some(a0) => match after_run(t, a0, CharClass::Hex, 1) {
            None => None,
            Some(a1) => match after_run(t, a1, CharClass::Space, 1) {
                None => None,
                Some(l0) => match after_run(t, l0, CharClass::Digit, 1) {
                    None => None,
                    Some(l1) => match after_run(t, l1, CharClass::Space, 1) {
                        None => None,
                        Some(c0) => match after_run(t, c0, CharClass::Digit, 1) {
                            None => None,
                            Some(c1) => match after_run(t, c1, CharClass::Space, 1) {
                                None => None,
                                Some(f0) => match after_run(t, f0, CharClass::Digit, 1) {
                                    None => None,
                                    Some(f1) => Some(RowSpan {
                                        address: (a0, a1),
                                        line: (l0, l1),
                                        column: (c0, c1),
                                        file: (f0, f1),
                                        eos: eos_from(t, f1) is Some,
                                        end: match eos_from(t, f1) {
                                            Some(e) => e,
                                            None => f1,
                                        },
                                    }),
                                },
                            },
                        },
                    },
                },
            },
        },
    }
}

pub open spec fn dir_at(t: Seq<char>, p: usize) -> Option<DirSpan> {
    match after_lit(t, p, "include_directories["@) {
        None => None,
        Some(q1) => match after_run(t, q1, CharClass::Space, 0) {
            None => None,
            Some(k0) => match after_run(t, k0, CharClass::Digit, 1) {
                None => None,
                Some(k1) => match after_lit(t, k1, "] = \""@) {
                    None => None,
                    Some(n0) => match after_run(t, n0, CharClass::NotQuote, 0) {
                        None => None,
                        Some(n1) => Some(DirSpan { key: (k0, k1), path: (n0, n1), end: n1 }),
                    },
                },
            },
        },
    }
}

pub open spec fn file_at(t: Seq<char>, p: usize) -> Option<FileSpan> {
    match after_lit(t, p, "file_names["@) {
        None => None,
        Some(q1) => match after_run(t, q1, CharClass::Space, 0) {
            None => None,
            Some(k0) => match after_run(t, k0, CharClass::Digit, 1) {
                None => None,
                Some(k1) => match after_lit(t, k1, "]:"@) {
                    None => None,
                    Some(q2) => match after_run(t, q2, CharClass::Space, 1) {
                        None => None,
                        Some(q3) => match after_lit(t, q3, "name: \""@) {
                            None => None,
                            Some(n0) => match after_run(t, n0, CharClass::NotQuote, 0) {
                                None => None,
                                Some(n1) => match after_lit(t, n1, "\""@) {
                                    None => None,
                                    Some(q4) => match after_run(t, q4, CharClass::Space, 1) {
                                        None => None,
                                        Some(q5) => match after_lit(t, q5, "dir_index: "@) {
                                            None => None,
                                            Some(d0) => match after_run(t, d0, CharClass::Digit, 1) {
                                                None => None,
                                                Some(d1) => Some(FileSpan {
                                                    key: (k0, k1),
                                                    name: (n0, n1),
                                                    dir: (d0, d1),
                                                    end: d1,
                                                }),
                                            },
                                        },
                                    },
                                },
                            },
                        },
                    },
                },
            },
        },
    }
}

/// The compilation directory that a record at `p` gives the unit whose
/// line table starts at offset `stmt`.
pub open spec fn comp_dir_at(t: Seq<char>, p: usize, stmt: Seq<char>) -> Option<Span> {
    match after_lit(t, p, "DW_AT_stmt_list"@) {
        None => None,
        Some(q1) => match after_run(t, q1, CharClass::Space, 1) {
            None => None,
            Some(q2) => match after_lit(t, q2, "("@) {
                None => None,
                Some(q3) => match after_lit(t, q3, stmt) {
                    None => None,
                    Some(q4) => match after_lit(t, q4, ")"@) {
                        None => None,
                        Some(q5) => match after_run(t, q5, CharClass::Space, 1) {
                            None => None,
                            Some(q6) => match after_lit(t, q6, "DW_AT_comp_dir"@) {
                                None => None,
                                Some(q7) => match after_run(t, q7, CharClass::Space, 1) {
                                    None => None,
                                    Some(q8) => match after_lit(t, q8, "(\""@) {
                                        None => None,
                                        Some(d0) => match after_run(t, d0, CharClass::NotQuote, 1) {
                                            None => None,
                                            Some(d1) => Some((d0, d1)),
                                        },
                                    },
                                },
                            },
                        },
                    },
                },
            },
        },
    }
}

/// The first compilation directory in `t[p..]` for the unit at `stmt`;
/// empty when there is none.
pub open spec fn comp_dir_from(t: Seq<char>, p: usize, stmt: Seq<char>) -> Seq<char>
    decreases t.len() - p,
{
    if p >= t.len() || t.len() > usize::MAX {
        Seq::empty()
    } else {
        match comp_dir_at(t, p, stmt) {
            Some(s) => span_text(t, s),
            None => comp_dir_from(t, (p + 1) as usize, stmt),
        }
    }
}

/// The literals that the scanners look for.
pub struct Patterns {
    pub marker: Vec<char>,
    pub close: Vec<char>,
    pub row: Vec<char>,
    pub eos: Vec<char>,
    pub dir: Vec<char>,
    pub dir_eq: Vec<char>,
    pub file: Vec<char>,
    pub file_colon: Vec<char>,
    pub file_name: Vec<char>,
    pub quote: Vec<char>,
    pub dir_index: Vec<char>,
    pub stmt_list: Vec<char>,
    pub open: Vec<char>,
    pub close_paren: Vec<char>,
    pub comp_dir: Vec<char>,
    pub open_quote: Vec<char>,
}

impl Patterns {
    pub open spec fn wf(&self) -> bool {
        &&& self.marker@ == "debug_line[0x"@
        &&& self.close@ == "]"@
        &&& self.row@ == "\n0x"@
        &&& self.eos@ == "end_sequence"@
        &&& self.dir@ == "include_directories["@
        &&& self.dir_eq@ == "] = \""@
        &&& self.file@ == "file_names["@
        &&& self.file_colon@ == "]:"@
        &&& self.file_name@ == "name: \""@
        &&& self.quote@ == "\""@
        &&& self.dir_index@ == "dir_index: "@
        &&& self.stmt_list@ == "DW_AT_stmt_list"@
        &&& self.open@ == "("@
        &&& self.close_paren@ == ")"@
        &&& self.comp_dir@ == "DW_AT_comp_dir"@
        &&& self.open_quote@ == "(\""@
    }

    pub fn new() -> (r: Patterns)
        ensures
            r.wf(),
    {
        Patterns {
            marker: literal("debug_line[0x"),
            close: literal("]"),
            row: literal("\n0x"),
            eos: literal("end_sequence"),
            dir: literal("include_directories["),
            dir_eq: literal("] = \""),
            file: literal("file_names["),
            file_colon: literal("]:"),
            file_name: literal("name: \""),
            quote: literal("\""),
            dir_index: literal("dir_index: "),
            stmt_list: literal("DW_AT_stmt_list"),
            open: literal("("),
            close_paren: literal(")"),
            comp_dir: literal("DW_AT_comp_dir"),
            open_quote: literal("(\""),
        }
    }
}

fn delimiter_at_exec(t: &[char], p: usize, d: Delimiter, pat: &Patterns) -> (r: Option<(Option<Span>, usize)>)
    requires
        pat.wf(),
        p <= t@.len(),
    ensures
        r == delimiter_at(t@, p, d),
        r is Some ==> p < r.unwrap().1 <= t@.len(),
        r is Some && r.unwrap().0 is Some ==> p <= r.unwrap().0.unwrap().0 <= r.unwrap().0.unwrap().1 <= t@.len(),
{
    let n = t.len();
    match d {
        Delimiter::Digit => {
            if p < t.len() && '0' <= t[p] && t[p] <= '9' {
                Some((None, p + 1))
            } else {
                None
            }
        },
        Delimiter::DebugLine => {
            proof {
                reveal_strlit("debug_line[0x");
                reveal_strlit("]");
            }
            assert(pat.marker@.len() == 13 && pat.close@.len() == 1);
            let q1 = match skip_lit(t, p, pat.marker.as_slice()) { Some(q) => q, None => { return None; } };
            let q2 = match skip_run(t, q1, CharClass::Hex, 0) { Some(q) => q, None => { return None; } };
            let q3 = match skip_lit(t, q2, pat.close.as_slice()) { Some(q) => q, None => { return None; } };
            Some((Some((q1 - 2, q2)), q3))
        },
    }
}

fn eos_from_exec(t: &[char], p: usize, pat: &Patterns) -> (r: Option<usize>)
    requires
        pat.wf(),
        p <= t@.len(),
    ensures
        r == eos_from(t@, p),
        r is Some ==> p <= r.unwrap() <= t@.len(),
{
    let n = t.len();
    proof { reveal_strlit("end_sequence"); }
    assert(pat.eos@.len() == 12);
    let mut i: usize = p;
    loop
        invariant
            p <= i <= n,
            n == t@.len(),
            pat.wf(),
            pat.eos@.len() == 12,
            eos_from(t@, p) == eos_from(t@, i),
        decreases n - i,
    {
        if starts_at(t, i, pat.eos.as_slice()) {
            return Some(i + 12);
        }
        if i < n && t[i] != '\n' {
            i = i + 1;
        } else {
            return None;
        }
    }
}

fn row_at_exec(t: &[char], p: usize, pat: &Patterns) -> (r: Option<RowSpan>)
    requires
        pat.wf(),
        p <= t@.len(),
    ensures
        r == row_at(t@, p),
        r is Some ==> p < r.unwrap().end <= t@.len(),
        r is Some ==> {
            let x = r.unwrap();
            &&& x.address.0 <= x.address.1 <= x.line.0 <= x.line.1 <= x.column.0
            &&& x.column.0 <= x.column.1 <= x.file.0 <= x.file.1 <= t@.len()
        },
{
    let n = t.len();
    proof { reveal_strlit("\n0x"); }
    assert(pat.row@.len() == 3);
    let a0 = match skip_lit(t, p, pat.row.as_slice()) { Some(q) => q, None => { return None; } };
    let a1 = match skip_run(t, a0, CharClass::Hex, 1) { Some(q) => q, None => { return None; } };
    let l0 = match skip_run(t, a1, CharClass::Space, 1) { Some(q) => q, None => { return None; } };
    let l1 = match skip_run(t, l0, CharClass::Digit, 1) { Some(q) => q, None => { return None; } };
    let c0 = match skip_run(t, l1, CharClass::Space, 1) { Some(q) => q, None => { return None; } };
    let c1 = match skip_run(t, c0, CharClass::Digit, 1) { Some(q) => q, None => { return None; } };
    let f0 = match skip_run(t, c1, CharClass::Space, 1) { Some(q) => q, None => { return None; } };
    let f1 = match skip_run(t, f0, CharClass::Digit, 1) { Some(q) => q, None => { return None; } };
    let e = eos_from_exec(t, f1, pat);
    Some(RowSpan {
        address: (a0, a1),
        line: (l0, l1),
        column: (c0, c1),
        file: (f0, f1),
        eos: e.is_some(),
        end: match e {
            Some(x) => x,
            None => f1,
        },
    })
}

fn dir_at_exec(t: &[char], p: usize, pat: &Patterns) -> (r: Option<DirSpan>)
    requires
        pat.wf(),
        p <= t@.len(),
    ensures
        r == dir_at(t@, p),
        r is Some ==> p < r.unwrap().end <= t@.len(),
        r is Some ==> {
            let x = r.unwrap();
            x.key.0 <= x.key.1 <= x.path.0 <= x.path.1 <= t@.len()
        },
{
    let n = t.len();
    proof { reveal_strlit("include_directories["); }
    assert(pat.dir@.len() == 20);
    let q1 = match skip_lit(t, p, pat.dir.as_slice()) { Some(q) => q, None => { return None; } };
    let k0 = match skip_run(t, q1, CharClass::Space, 0) { Some(q) => q, None => { return None; } };
    let k1 = match skip_run(t, k0, CharClass::Digit, 1) { Some(q) => q, None => { return None; } };
    let n0 = match skip_lit(t, k1, pat.dir_eq.as_slice()) { Some(q) => q, None => { return None; } };
    let n1 = match skip_run(t, n0, CharClass::NotQuote, 0) { Some(q) => q, None => { return None; } };
    Some(DirSpan { key: (k0, k1), path: (n0, n1), end: n1 })
}

fn file_at_exec(t: &[char], p: usize, pat: &Patterns) -> (r: Option<FileSpan>)
    requires
        pat.wf(),
        p <= t@.len(),
    ensures
        r == file_at(t@, p),
        r is Some ==> p < r.unwrap().end <= t@.len(),
        r is Some ==> {
            let x = r.unwrap();
            &&& x.key.0 <= x.key.1 <= x.name.0 <= x.name.1 <= x.dir.0
            &&& x.dir.0 <= x.dir.1 <= t@.len()
        },
{
    let n = t.len();
    proof { reveal_strlit("file_names["); }
    assert(pat.file@.len() == 11);
    let q1 = match skip_lit(t, p, pat.file.as_slice()) { Some(q) => q, None => { return None; } };
    let k0 = match skip_run(t, q1, CharClass::Space, 0) { Some(q) => q, None => { return None; } };
    let k1 = match skip_run(t, k0, CharClass::Digit, 1) { Some(q) => q, None => { return None; } };
    let q2 = match skip_lit(t, k1, pat.file_colon.as_slice()) { Some(q) => q, None => { return None; } };
    let q3 = match skip_run(t, q2, CharClass::Space, 1) { Some(q) => q, None => { return None; } };
    let n0 = match skip_lit(t, q3, pat.file_name.as_slice()) { Some(q) => q, None => { return None; } };
    let n1 = match skip_run(t, n0, CharClass::NotQuote, 0) { Some(q) => q, None => { return None; } };
    let q4 = match skip_lit(t, n1, pat.quote.as_slice()) { Some(q) => q, None => { return None; } };
    let q5 = match skip_run(t, q4, CharClass::Space, 1) { Some(q) => q, None => { return None; } };
    let d0 = match skip_lit(t, q5, pat.dir_index.as_slice()) { Some(q) => q, None => { return None; } };
    let d1 = match skip_run(t, d0, CharClass::Digit, 1) { Some(q) => q, None => { return None; } };
    Some(FileSpan { key: (k0, k1), name: (n0, n1), dir: (d0, d1), end: d1 })
}

fn comp_dir_at_exec(t: &[char], p: usize, stmt: &[char], pat: &Patterns) -> (r: Option<Span>)
    requires
        pat.wf(),
        p <= t@.len(),
    ensures
        r == comp_dir_at(t@, p, stmt@),
        r is Some ==> r.unwrap().0 <= r.unwrap().1 <= t@.len(),
{
    let n = t.len();
    let q1 = match skip_lit(t, p, pat.stmt_list.as_slice()) { Some(q) => q, None => { return None; } };
    let q2 = match skip_run(t, q1, CharClass::Space, 1) { Some(q) => q, None => { return None; } };
    let q3 = match skip_lit(t, q2, pat.open.as_slice()) { Some(q) => q, None => { return None; } };
    let q4 = match skip_lit(t, q3, stmt) { Some(q) => q, None => { return None; } };
    let q5 = match skip_lit(t, q4, pat.close_paren.as_slice()) { Some(q) => q, None => { return None; } };
    let q6 = match skip_run(t, q5, CharClass::Space, 1) { Some(q) => q, None => { return None; } };
    let q7 = match skip_lit(t, q6, pat.comp_dir.as_slice()) { Some(q) => q, None => { return None; } };
    let q8 = match skip_run(t, q7, CharClass::Space, 1) { Some(q) => q, None => { return None; } };
    let d0 = match skip_lit(t, q8, pat.open_quote.as_slice()) { Some(q) => q, None => { return None; } };
    let d1 = match skip_run(t, d0, CharClass::NotQuote, 1) { Some(q) => q, None => { return None; } };
    Some((d0, d1))
}

/// The compilation directory recorded for the unit whose line table is at
/// `stmt`: the first match in `info`, or empty.
fn get_comp_dir(info: &[char], stmt: &[char], pat: &Patterns) -> (r: Vec<char>)
    requires
        pat.wf(),
    ensures
        r@ == comp_dir_from(info@, 0, stmt@),
{
    let n = info.len();
    let mut p: usize = 0;
    while p < n
        invariant
            p <= n,
            n == info@.len(),
            pat.wf(),
            comp_dir_from(info@, 0, stmt@) == comp_dir_from(info@, p, stmt@),
        decreases n - p,
    {
        match comp_dir_at_exec(info, p, stmt, pat) {
            Some(s) => {
                return copy_chars(info, s.0, s.1);
            },
            None => {},
        }
        p = p + 1;
    }
    Vec::new()
}

/// `split` on characters.
pub fn split_keep_chars(d: Delimiter, t: &[char]) -> (r: Vec<Vec<char>>)
    ensures
        views(r@) == split(t@, d),
{
    let pat = Patterns::new();
    let n = t.len();
    let mut out: Vec<Vec<char>> = Vec::new();
    let mut last: usize = 0;
    let mut p: usize = 0;
    while p < n
        invariant
            last <= p <= n,
            n == t@.len(),
            pat.wf(),
            split(t@, d) == views(out@) + split_from(t@, d, last, p),
        decreases n - p,
    {
        let ghost before = views(out@);
        match delimiter_at_exec(t, p, d, &pat) {
            Some((kept, end)) => {
                if last != p {
                    out.push(copy_chars(t, last, p));
                }
                match kept {
                    Some(k) => {
                        out.push(copy_chars(t, k.0, k.1));
                    },
                    None => {},
                }
                proof {
                    let mid = (if last != p {
                        seq![t@.subrange(last as int, p as int)]
                    } else {
                        seq![]
                    }) + (match kept {
                        Some(k) => seq![span_text(t@, k)],
                        None => seq![],
                    });
                    assert(views(out@) =~= before + mid);
                    assert(before + (mid + split_from(t@, d, end, end)) =~= views(out@) + split_from(t@, d, end, end));
                }
                last = end;
                p = end;
            },
            None => {
                p = p + 1;
            },
        }
    }
    if last < n {
        let ghost before = views(out@);
        out.push(copy_chars(t, last, n));
        assert(views(out@) =~= before + seq![t@.subrange(last as int, n as int)]);
    } else {
        assert(views(out@) =~= views(out@) + Seq::<Seq<char>>::empty());
    }
    out
}

/// Splits `text` at each delimiter `d`: the non-empty text before each
/// delimiter, what the delimiter keeps (the `0x<hex>` of a `debug_line`
/// marker), and the text after the last delimiter when it is not empty.
pub fn split_keep(d: Delimiter, text: &str) -> (r: Vec<String>)
    ensures
        r@.len() == split(text@, d).len(),
        forall|i: int| 0 <= i < r@.len() ==> r@[i]@ == split(text@, d)[i],
{
    let t = crate::text::chars_of(text);
    let parts = split_keep_chars(d, t.as_slice());
    let mut out: Vec<String> = Vec::new();
    let mut i: usize = 0;
    while i < parts.len()
        invariant
            i <= parts@.len(),
            views(parts@) == split(t@, d),
            t@ == text@,
            out@.len() == i,
            forall|j: int| 0 <= j < i ==> out@[j]@ == split(text@, d)[j],
        decreases parts@.len() - i,
    {
        out.push(string_of(parts[i].as_slice()));
        i = i + 1;
    }
    out
}

/// One point of a line table.
#[derive(Debug)]
pub struct Entry {
    /// Offset of the code within the code section's body.
    pub address: i64,
    /// Source line, from 1; 0 when the code has no source position.
    pub line: i32,
    /// Source column, from 1; 0 stands for 1.
    pub column: i32,
    pub file_path: String,
    /// Whether this entry closes a run of live code.
    pub eos: bool,
}

pub struct EntryView {
    pub address: int,
    pub line: int,
    pub column: int,
    pub file_path: Seq<char>,
    pub eos: bool,
}

impl View for Entry {
    type V = EntryView;

    open spec fn view(&self) -> EntryView {
        EntryView {
            address: self.address as int,
            line: self.line as int,
            column: self.column as int,
            file_path: self.file_path@,
            eos: self.eos,
        }
    }
}

pub open spec fn entry_views(v: Seq<Entry>) -> Seq<EntryView> {
    v.map_values(|e: Entry| e@)
}

/// Why a dump could not be read.
#[derive(Debug, PartialEq, Eq, Clone, Copy)]
pub enum DwarfError {
    /// The dump is not UTF-8.
    InvalidUtf8,
}

/// A table from keys to texts; a later key hides an earlier equal one.
pub type TableView = Seq<(Seq<char>, Seq<char>)>;

pub open spec fn lookup(tab: TableView, key: Seq<char>) -> Option<Seq<char>>
    decreases tab.len(),
{
    if tab.len() == 0 {
        None
    } else if tab.last().0 == key {
        Some(tab.last().1)
    } else {
        lookup(tab.drop_last(), key)
    }
}

/// The `include_directories` declarations in `t[p..]`.
pub open spec fn dir_decls(t: Seq<char>, p: usize) -> TableView
    decreases t.len() - p,
{
    if p >= t.len() || t.len() > usize::MAX {
        seq![]
    } else {
        match dir_at(t, p) {
            Some(d) => if d.end <= p || d.end > t.len() {
                seq![]
            } else {
                seq![(span_text(t, d.key), span_text(t, d.path))] + dir_decls(t, d.end)
            },
            None => dir_decls(t, (p + 1) as usize),
        }
    }
}

/// A unit's directories: `0` is its compilation directory.
pub open spec fn dir_table(t: Seq<char>, comp_dir: Seq<char>) -> TableView {
    seq![("0"@, comp_dir)] + dir_decls(t, 0)
}

/// The path of a file named `name` in the directory with key `dir`; an
/// absolute name stands as it is, and an undeclared directory counts as empty.
pub open spec fn file_path(dirs: TableView, name: Seq<char>, dir: Seq<char>) -> Seq<char> {
    if name.len() > 0 && name[0] == '/' {
        name
    } else {
        let d = match lookup(dirs, dir) {
            Some(d) => d,
            None => Seq::empty(),
        };
        d + "/"@ + name
    }
}

/// The `file_names` declarations in `t[p..]`, with their paths.
pub open spec fn file_decls(t: Seq<char>, p: usize, dirs: TableView) -> TableView
    decreases t.len() - p,
{
    if p >= t.len() || t.len() > usize::MAX {
        seq![]
    } else {
        match file_at(t, p) {
            Some(f) => if f.end <= p || f.end > t.len() {
                seq![]
            } else {
                seq![(span_text(t, f.key), file_path(dirs, span_text(t, f.name), span_text(t, f.dir)))]
                    + file_decls(t, f.end, dirs)
            },
            None => file_decls(t, (p + 1) as usize, dirs),
        }
    }
}

/// `es` after the row `r` of `t`. A row whose numbers do not fit, or whose
/// file is not declared, adds nothing. An `end_sequence` row stands for the
/// address before its own: it marks the last entry when that entry is there
/// already, and adds an entry there otherwise.
pub open spec fn push_row(es: Seq<EntryView>, t: Seq<char>, r: RowSpan, files: TableView) -> Seq<EntryView> {
    let address = number(span_text(t, r.address), 16);
    let line = number(span_text(t, r.line), 10);
    let column = number(span_text(t, r.column), 10);
    if address > i64::MAX || line > i32::MAX || column > i32::MAX {
        es
    } else {
        match lookup(files, span_text(t, r.file)) {
            None => es,
            Some(path) => if !r.eos {
                es.push(EntryView { address: address as int, line: line as int, column: column as int, file_path: path, eos: false })
            } else if es.len() > 0 && es.last().address == address - 1 {
                es.update(es.len() - 1, EntryView {
                    address: es.last().address,
                    line: es.last().line,
                    column: es.last().column,
                    file_path: es.last().file_path,
                    eos: true,
                })
            } else {
                es.push(EntryView { address: address - 1, line: line as int, column: column as int, file_path: path, eos: true })
            },
        }
    }
}

/// `es` after the rows of `t[p..]`.
pub open spec fn entries_from(es: Seq<EntryView>, t: Seq<char>, p: usize, files: TableView) -> Seq<EntryView>
    decreases t.len() - p,
{
    if p >= t.len() || t.len() > usize::MAX {
        es
    } else {
        match row_at(t, p) {
            Some(r) => if r.end <= p || r.end > t.len() {
                es
            } else {
                entries_from(push_row(es, t, r, files), t, r.end, files)
            },
            None => entries_from(es, t, (p + 1) as usize, files),
        }
    }
}

/// `es` after the units whose markers stand at `c[i]`, `c[i + 2]`, ...,
/// each followed by its line table (empty when the text ends at the marker).
pub open spec fn units(info: Seq<char>, c: Seq<Seq<char>>, i: nat, es: Seq<EntryView>) -> Seq<EntryView>
    decreases c.len() + 2 - i,
{
    if i >= c.len() {
        es
    } else {
        let table = if i + 1 < c.len() { c[i + 1 as int] } else { Seq::empty() };
        let dirs = dir_table(table, comp_dir_from(info, 0, c[i as int]));
        units(info, c, i + 2, entries_from(es, table, 0, file_decls(table, 0, dirs)))
    }
}

/// The entries of all line tables in `t`, in order, before pruning.
pub open spec fn line_entries(t: Seq<char>) -> Seq<EntryView> {
    let c = split(t, Delimiter::DebugLine);
    if c.len() == 0 {
        seq![]
    } else {
        units(c[0], c, 1, seq![])
    }
}

/// Bytes that LEB128 takes for `x`.
pub open spec fn leb_len(x: nat) -> nat
    decreases x,
{
    if x < 128 {
        1
    } else {
        1 + leb_len(x / 128)
    }
}

/// Bytes that the size field of a function from `start` to `end` takes
/// (one, when `end` is before `start`).
pub open spec fn size_len(start: int, end: int) -> nat {
    if end - start + 1 < 0 {
        1
    } else {
        leb_len((end - start + 1) as nat)
    }
}

/// A block that starts too close to the code section's start to be a
/// function: a function's code follows its size and its locals count.
pub open spec fn is_dead(block: Seq<EntryView>) -> bool {
    block[0].address < 1 + size_len(block[0].address, block.last().address)
}

/// The entries of `block + rest` without dead blocks; a block ends at an
/// entry that closes a run, and entries after the last such are kept.
pub open spec fn prune_from(block: Seq<EntryView>, rest: Seq<EntryView>) -> Seq<EntryView>
    decreases rest.len(),
{
    if rest.len() == 0 {
        block
    } else {
        let b = block.push(rest[0]);
        if rest[0].eos {
            (if is_dead(b) { seq![] } else { b }) + prune_from(seq![], rest.drop_first())
        } else {
            prune_from(b, rest.drop_first())
        }
    }
}

pub open spec fn prune(es: Seq<EntryView>) -> Seq<EntryView> {
    prune_from(seq![], es)
}

/// Whether `b` is one block: it ends at the only entry that closes a run.
pub open spec fn is_block(b: Seq<EntryView>) -> bool {
    &&& b.len() > 0
    &&& b.last().eos
    &&& forall|i: int| 0 <= i < b.len() - 1 ==> !b[i].eos
}

proof fn lemma_prune_block(acc: Seq<EntryView>, b: Seq<EntryView>, rest: Seq<EntryView>)
    requires
        is_block(b),
    ensures
        prune_from(acc, b + rest) == (if is_dead(acc + b) { seq![] } else { acc + b }) + prune(rest),
    decreases b.len(),
{
    let s = b + rest;
    assert(s[0] == b[0]);
    if b.len() == 1 {
        assert(acc.push(b[0]) =~= acc + b);
        assert(s.drop_first() =~= rest);
    } else {
        let b2 = b.drop_first();
        assert(!b[0].eos);
        assert(s.drop_first() =~= b2 + rest);
        assert(acc.push(b[0]) + b2 =~= acc + b);
        assert(is_block(b2)) by {
            assert forall|i: int| 0 <= i < b2.len() - 1 implies !b2[i].eos by {
                assert(b2[i] == b[i + 1]);
            }
        }
        lemma_prune_block(acc.push(b[0]), b2, rest);
    }
}

/// A block that starts at address 0 is always dropped: a function's code
/// starts at least two bytes in.
pub proof fn lemma_block_at_zero_dropped(block: Seq<EntryView>, rest: Seq<EntryView>)
    requires
        is_block(block),
        block[0].address == 0,
    ensures
        prune(block + rest) == prune(rest),
{
    lemma_prune_block(seq![], block, rest);
    assert(seq![] + block =~= block);
    assert(is_dead(block));
    assert(Seq::<EntryView>::empty() + prune(rest) =~= prune(rest));
}

/// A block that starts at address 100 or later and spans less than 16384
/// bytes is always kept.
pub proof fn lemma_small_block_kept(block: Seq<EntryView>, rest: Seq<EntryView>)
    requires
        is_block(block),
        block[0].address >= 100,
        block.last().address - block[0].address < 16383,
    ensures
        prune(block + rest) == block + prune(rest),
{
    lemma_prune_block(seq![], block, rest);
    assert(seq![] + block =~= block);
    let size = block.last().address - block[0].address + 1;
    if size >= 0 {
        let x = size as nat;
        if x >= 128 {
            assert(x / 128 < 128);
            assert(leb_len(x / 128) == 1);
        }
        assert(leb_len(x) <= 2);
    }
    assert(!is_dead(block));
}

/// What `parse_dwarf_to_entries` gives for the text `t`.
pub open spec fn parsed(t: Seq<char>) -> Seq<EntryView> {
    prune(line_entries(t))
}

/// A table of texts keyed by texts; a later key hides an earlier equal one.
pub struct Table {
    pub keys: Vec<Vec<char>>,
    pub vals: Vec<Vec<char>>,
}

impl View for Table {
    type V = TableView;

    open spec fn view(&self) -> TableView {
        Seq::new(self.keys@.len(), |i: int| (self.keys@[i]@, self.vals@[i]@))
    }
}

impl Table {
    pub open spec fn wf(&self) -> bool {
        self.keys@.len() == self.vals@.len()
    }

    pub fn new() -> (r: Table)
        ensures
            r.wf(),
            r@ == Seq::<(Seq<char>, Seq<char>)>::empty(),
    {
        let r = Table { keys: Vec::new(), vals: Vec::new() };
        assert(r@ =~= Seq::<(Seq<char>, Seq<char>)>::empty());
        r
    }

    pub fn insert(&mut self, key: Vec<char>, val: Vec<char>)
        requires
            old(self).wf(),
        ensures
            final(self).wf(),
            final(self)@ == old(self)@.push((key@, val@)),
    {
        self.keys.push(key);
        self.vals.push(val);
        assert(self@ =~= old(self)@.push((key@, val@)));
    }

    pub fn get(&self, key: &[char]) -> (r: Option<Vec<char>>)
        requires
            self.wf(),
        ensures
            match r {
                Some(v) => lookup(self@, key@) == Some(v@),
                None => lookup(self@, key@) is None,
            },
    {
        let mut i: usize = self.keys.len();
        assert(self@.subrange(0, i as int) =~= self@);
        while i > 0
            invariant
                i <= self.keys@.len(),
                self.wf(),
                lookup(self@, key@) == lookup(self@.subrange(0, i as int), key@),
            decreases i,
        {
            let ghost pre = self@.subrange(0, i as int);
            assert(pre.drop_last() =~= self@.subrange(0, i - 1));
            if same_chars(self.keys[i - 1].as_slice(), key) {
                assert(pre.last() == (self.keys@[i - 1]@, self.vals@[i - 1]@));
                return Some(copy_chars(self.vals[i - 1].as_slice(), 0, self.vals[i - 1].len()));
            }
            i = i - 1;
        }
        assert(self@.subrange(0, 0) =~= Seq::<(Seq<char>, Seq<char>)>::empty());
        None
    }
}

proof fn lemma_run_class(t: Seq<char>, p: int, k: CharClass)
    ensures
        forall|m: int| p <= m < p + run(t, p, k) ==> in_class(t[m], k),
    decreases t.len() - p,
{
    if 0 <= p < t.len() && in_class(t[p], k) {
        lemma_run_class(t, p + 1, k);
    }
}

/// The directory table of the line table `t`, whose entry `0` is `comp_dir`.
fn get_include_directories(t: &[char], comp_dir: Vec<char>, pat: &Patterns) -> (r: Table)
    requires
        pat.wf(),
    ensures
        r.wf(),
        r@ == dir_table(t@, comp_dir@),
{
    let n = t.len();
    let mut tab = Table::new();
    tab.insert(literal("0"), comp_dir);
    let mut p: usize = 0;
    assert(dir_table(t@, comp_dir@) == tab@ + dir_decls(t@, 0));
    while p < n
        invariant
            p <= n,
            n == t@.len(),
            pat.wf(),
            tab.wf(),
            dir_table(t@, comp_dir@) == tab@ + dir_decls(t@, p),
        decreases n - p,
    {
        match dir_at_exec(t, p, pat) {
            Some(d) => {
                let ghost before = tab@;
                let ghost item = (span_text(t@, d.key), span_text(t@, d.path));
                tab.insert(copy_chars(t, d.key.0, d.key.1), copy_chars(t, d.path.0, d.path.1));
                assert(before + (seq![item] + dir_decls(t@, d.end)) =~= tab@ + dir_decls(t@, d.end));
                p = d.end;
            },
            None => {
                p = p + 1;
            },
        }
    }
    assert(tab@ + dir_decls(t@, p) =~= tab@);
    tab
}

/// The path of the file `name` in directory `dir`.
fn resolve_path(dirs: &Table, name: &[char], dir: &[char]) -> (r: Vec<char>)
    requires
        dirs.wf(),
    ensures
        r@ == file_path(dirs@, name@, dir@),
{
    if name.len() > 0 && name[0] == '/' {
        return copy_chars(name, 0, name.len());
    }
    let mut out = match dirs.get(dir) {
        Some(d) => d,
        None => Vec::new(),
    };
    out.push('/');
    let mut i: usize = 0;
    let ghost base = out@;
    while i < name.len()
        invariant
            i <= name@.len(),
            out@ == base + name@.subrange(0, i as int),
        decreases name@.len() - i,
    {
        out.push(name[i]);
        assert(out@ =~= base + name@.subrange(0, i + 1));
        i = i + 1;
    }
    proof { reveal_strlit("/"); }
    assert(out@ =~= file_path(dirs@, name@, dir@));
    out
}

/// The file table of the line table `t`, with paths resolved in `dirs`.
fn get_file_paths(t: &[char], dirs: &Table, pat: &Patterns) -> (r: Table)
    requires
        pat.wf(),
        dirs.wf(),
    ensures
        r.wf(),
        r@ == file_decls(t@, 0, dirs@),
{
    let n = t.len();
    let mut tab = Table::new();
    let mut p: usize = 0;
    assert(file_decls(t@, 0, dirs@) =~= tab@ + file_decls(t@, 0, dirs@));
    while p < n
        invariant
            p <= n,
            n == t@.len(),
            pat.wf(),
            tab.wf(),
            dirs.wf(),
            file_decls(t@, 0, dirs@) == tab@ + file_decls(t@, p, dirs@),
        decreases n - p,
    {
        match file_at_exec(t, p, pat) {
            Some(f) => {
                let ghost before = tab@;
                let name = copy_chars(t, f.name.0, f.name.1);
                let dir = copy_chars(t, f.dir.0, f.dir.1);
                let path = resolve_path(dirs, name.as_slice(), dir.as_slice());
                let ghost item = (span_text(t@, f.key), path@);
                tab.insert(copy_chars(t, f.key.0, f.key.1), path);
                assert(before + (seq![item] + file_decls(t@, f.end, dirs@)) =~= tab@ + file_decls(t@, f.end, dirs@));
                p = f.end;
            },
            None => {
                p = p + 1;
            },
        }
    }
    assert(tab@ + file_decls(t@, p, dirs@) =~= tab@);
    tab
}

fn create_entry(address: i64, line: i32, column: i32, file_path: String, eos: bool) -> (r: Entry)
    ensures
        r@ == (EntryView { address: address as int, line: line as int, column: column as int, file_path: file_path@, eos }),
{
    Entry { address, line, column, file_path, eos }
}

/// Marks the last entry as closing its run.
fn update_last_entry(entries: &mut Vec<Entry>)
    requires
        old(entries)@.len() > 0,
    ensures
        entry_views(final(entries)@) == entry_views(old(entries)@).update(
            old(entries)@.len() - 1,
            EntryView { eos: true, ..old(entries)@.last()@ },
        ),
{
    let mut last = entries.pop().unwrap();
    last.eos = true;
    entries.push(last);
    assert(entry_views(entries@) =~= entry_views(old(entries)@).update(
        old(entries)@.len() - 1,
        EntryView { eos: true, ..old(entries)@.last()@ },
    ));
}

fn push_row_exec(entries: &mut Vec<Entry>, t: &[char], p: usize, r: RowSpan, files: &Table)
    requires
        row_at(t@, p) == Some(r),
        r.address.0 <= r.address.1 <= r.line.0 <= r.line.1 <= r.column.0,
        r.column.0 <= r.column.1 <= r.file.0 <= r.file.1 <= t@.len(),
        files.wf(),
    ensures
        entry_views(final(entries)@) == push_row(entry_views(old(entries)@), t@, r, files@),
{
    proof {
        lemma_run_class(t@, r.address.0 as int, CharClass::Hex);
        lemma_run_class(t@, r.line.0 as int, CharClass::Digit);
        lemma_run_class(t@, r.column.0 as int, CharClass::Digit);
    }
    let address = match parse_number(t, r.address.0, r.address.1, 16, i64::MAX as u64) {
        Some(v) => v,
        None => { return; },
    };
    let line = match parse_number(t, r.line.0, r.line.1, 10, i32::MAX as u64) {
        Some(v) => v,
        None => { return; },
    };
    let column = match parse_number(t, r.column.0, r.column.1, 10, i32::MAX as u64) {
        Some(v) => v,
        None => { return; },
    };
    let key = copy_chars(t, r.file.0, r.file.1);
    let path = match files.get(key.as_slice()) {
        Some(v) => v,
        None => { return; },
    };
    let ghost before = entry_views(entries@);
    if !r.eos {
        entries.push(create_entry(address as i64, line as i32, column as i32, string_of(path.as_slice()), false));
        assert(entry_views(entries@) =~= push_row(before, t@, r, files@));
        return;
    }
    let n = entries.len();
    if n > 0 && entries[n - 1].address as i128 == address as i128 - 1 {
        update_last_entry(entries);
        return;
    }
    entries.push(create_entry(address as i64 - 1, line as i32, column as i32, string_of(path.as_slice()), true));
    assert(entry_views(entries@) =~= push_row(before, t@, r, files@));
}

/// Adds the entries of the rows of the line table `t`.
fn scan_rows(entries: &mut Vec<Entry>, t: &[char], files: &Table, pat: &Patterns)
    requires
        pat.wf(),
        files.wf(),
    ensures
        entry_views(final(entries)@) == entries_from(entry_views(old(entries)@), t@, 0, files@),
{
    let n = t.len();
    let mut p: usize = 0;
    while p < n
        invariant
            p <= n,
            n == t@.len(),
            pat.wf(),
            files.wf(),
            entries_from(entry_views(old(entries)@), t@, 0, files@)
                == entries_from(entry_views(entries@), t@, p, files@),
        decreases n - p,
    {
        match row_at_exec(t, p, pat) {
            Some(r) => {
                push_row_exec(entries, t, p, r, files);
                p = r.end;
            },
            None => {
                p = p + 1;
            },
        }
    }
}

fn copy_entry(e: &Entry) -> (r: Entry)
    ensures
        r@ == e@,
{
    Entry { address: e.address, line: e.line, column: e.column, file_path: e.file_path.clone(), eos: e.eos }
}

proof fn lemma_leb_len_bound(x: nat)
    ensures
        leb_len(x) <= x + 1,
    decreases x,
{
    if x >= 128 {
        lemma_leb_len_bound(x / 128);
    }
}

/// Bytes that LEB128 takes for the size of a function from `start` to `end`.
fn fn_size_length(start: i64, end: i64) -> (r: u128)
    ensures
        r == size_len(start as int, end as int),
{
    let size: i128 = end as i128 - start as i128 + 1;
    if size < 0 {
        return 1;
    }
    let mut x: u128 = size as u128;
    let mut n: u128 = 1;
    proof { lemma_leb_len_bound(x as nat); }
    while x >= 128
        invariant
            n + leb_len(x as nat) == 1 + leb_len(size as nat),
            leb_len(size as nat) <= size + 1,
            size <= 0x1_0000_0000_0000_0000,
            n >= 1,
        decreases x,
    {
        x = x / 128;
        n = n + 1;
    }
    n
}

/// Drops the blocks that cannot be functions (see `is_dead`).
fn remove_dead_entries(entries: &Vec<Entry>) -> (r: Vec<Entry>)
    ensures
        entry_views(r@) == prune(entry_views(entries@)),
{
    let ghost v = entry_views(entries@);
    let n = entries.len();
    let mut out: Vec<Entry> = Vec::new();
    let mut block_start: usize = 0;
    let mut cur: usize = 0;
    assert(v.subrange(0, 0) =~= Seq::<EntryView>::empty());
    assert(v.subrange(0, n as int) =~= v);
    while cur < n
        invariant
            block_start <= cur <= n,
            n == entries@.len(),
            v == entry_views(entries@),
            prune(v) == entry_views(out@) + prune_from(v.subrange(block_start as int, cur as int),
                v.subrange(cur as int, n as int)),
        decreases n - cur,
    {
        let ghost block = v.subrange(block_start as int, cur as int);
        let ghost rest = v.subrange(cur as int, n as int);
        assert(rest.drop_first() =~= v.subrange(cur + 1, n as int));
        assert(block.push(rest[0]) =~= v.subrange(block_start as int, cur + 1));
        if !entries[cur].eos {
            cur = cur + 1;
        } else {
            let fn_start = entries[block_start].address;
            let size_length = fn_size_length(fn_start, entries[cur].address);
            let dead = (fn_start as i128) < 1 || ((fn_start as i128 - 1) as u128) < size_length;
            let ghost b = v.subrange(block_start as int, cur + 1);
            assert(b[0] == v[block_start as int] && b.last() == v[cur as int]);
            let ghost before = entry_views(out@);
            if !dead {
                let mut k: usize = block_start;
                while k <= cur
                    invariant
                        block_start <= k <= cur + 1,
                        cur < n,
                        n == entries@.len(),
                        v == entry_views(entries@),
                        entry_views(out@) == before + v.subrange(block_start as int, k as int),
                    decreases cur + 1 - k,
                {
                    let ghost prev = out@;
                    out.push(copy_entry(&entries[k]));
                    assert(entry_views(out@) =~= entry_views(prev).push(entries@[k as int]@));
                    assert(entry_views(out@) =~= before + v.subrange(block_start as int, k + 1));
                    k = k + 1;
                }
            } else {
                assert(entry_views(out@) =~= before + Seq::<EntryView>::empty());
            }
            proof {
                let kept: Seq<EntryView> = if is_dead(b) { seq![] } else { b };
                assert(entry_views(out@) =~= before + kept);
                assert forall|x: Seq<EntryView>| #![auto] before + (kept + x) == entry_views(out@) + x by {
                    assert(before + (kept + x) =~= entry_views(out@) + x);
                }
            }
            cur = cur + 1;
            block_start = cur;
            assert(v.subrange(cur as int, cur as int) =~= Seq::<EntryView>::empty());
        }
    }
    let ghost before = entry_views(out@);
    let mut k: usize = block_start;
    while k < n
        invariant
            block_start <= k <= n,
            n == entries@.len(),
            v == entry_views(entries@),
            entry_views(out@) == before + v.subrange(block_start as int, k as int),
        decreases n - k,
    {
        let ghost prev = out@;
        out.push(copy_entry(&entries[k]));
        assert(entry_views(out@) =~= entry_views(prev).push(entries@[k as int]@));
        assert(entry_views(out@) =~= before + v.subrange(block_start as int, k + 1));
        k = k + 1;
    }
    assert(v.subrange(n as int, n as int) =~= Seq::<EntryView>::empty());
    out
}

/// Relies on `std::str::from_utf8`: it accepts exactly the UTF-8 byte
/// strings, and their characters are those that UTF-8 decoding gives.
#[verifier::external_body]
fn utf8_chars(bytes: &[u8]) -> (r: Option<Vec<char>>)
    ensures
        match r {
            Some(c) => valid_utf8(bytes@) && c@ == decode_utf8(bytes@),
            None => !valid_utf8(bytes@),
        },
{
    std::str::from_utf8(bytes).ok().map(|s| s.chars().collect())
}

/// The entries of the line tables in the text `t`, before pruning.
fn line_entries_exec(t: &[char]) -> (r: Vec<Entry>)
    ensures
        entry_views(r@) == line_entries(t@),
{
    let pat = Patterns::new();
    let chunks = split_keep_chars(Delimiter::DebugLine, t);
    let mut entries: Vec<Entry> = Vec::new();
    if chunks.len() == 0 {
        assert(entry_views(entries@) =~= Seq::<EntryView>::empty());
        return entries;
    }
    let ghost c = views(chunks@);
    let empty: Vec<char> = Vec::new();
    let mut i: usize = 1;
    assert(entry_views(entries@) =~= Seq::<EntryView>::empty());
    while i < chunks.len()
        invariant
            1 <= i,
            c == views(chunks@),
            c == split(t@, Delimiter::DebugLine),
            c.len() > 0,
            empty@.len() == 0,
            pat.wf(),
            line_entries(t@) == units(c[0], c, i as nat, entry_views(entries@)),
        decreases chunks@.len() + 2 - i,
    {
        let table: &[char] = if i + 1 < chunks.len() { chunks[i + 1].as_slice() } else { empty.as_slice() };
        assert(table@ =~= (if i + 1 < c.len() { c[i + 1] } else { Seq::<char>::empty() }));
        assert(chunks[0]@ == c[0] && chunks[i as int]@ == c[i as int]);
        let ghost v0 = entry_views(entries@);
        let comp_dir = get_comp_dir(chunks[0].as_slice(), chunks[i].as_slice(), &pat);
        let dirs = get_include_directories(table, comp_dir, &pat);
        let files = get_file_paths(table, &dirs, &pat);
        scan_rows(&mut entries, table, &files, &pat);
        assert(units(c[0], c, i as nat, v0) == units(c[0], c, (i + 2) as nat, entry_views(entries@)));
        if i + 1 >= chunks.len() {
            assert(units(c[0], c, (i + 2) as nat, entry_views(entries@)) == entry_views(entries@));
            return entries;
        }
        i = i + 2;
    }
    entries
}

/// The line-table entries of a textual DWARF dump, in order, without the
/// blocks that cannot be functions. Fails when the dump is not UTF-8.
pub fn parse_dwarf_to_entries(dwarf: &[u8]) -> (r: Result<Vec<Entry>, DwarfError>)
    ensures
        match r {
            Ok(v) => valid_utf8(dwarf@) && entry_views(v@) == parsed(decode_utf8(dwarf@)),
            Err(e) => !valid_utf8(dwarf@) && e == DwarfError::InvalidUtf8,
        },
{
    let text = match utf8_chars(dwarf) {
        Some(t) => t,
        None => { return Err(DwarfError::InvalidUtf8); },
    };
    let entries = line_entries_exec(text.as_slice());
    Ok(remove_dead_entries(&entries))
}

} // verus!
