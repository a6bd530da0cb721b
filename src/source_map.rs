//! Encodes line-table entries as a version 3 source map.
use vstd::prelude::*;
use crate::dwarf::{Entry, EntryView, entry_views};
use crate::text::{normalized, normalize_chars, chars_of, string_of, same_chars, literal};

verus! {

/// A version 3 source map.
pub struct SourceMap {
    pub version: u32,
    /// Always empty: no names are mapped.
    pub names: Vec<String>,
    pub sources: Vec<String>,
    pub sources_content: Option<Vec<Option<String>>>,
    pub mappings: String,
}

/// The base64 digits, in order.
pub open spec fn base64() -> Seq<char> {
    "ABCDEFGHIJKLMNOPQRSTUVWXYZabcdefghijklmnopqrstuvwxyz0123456789+/"@
}

/// `n` with its sign moved to the lowest bit.
pub open spec fn zigzag(n: int) -> nat {
    if n >= 0 {
        (2 * n) as nat
    } else {
        (-2 * n + 1) as nat
    }
}

/// Base64 digits of `z`, five bits each, lowest first; bit 5 of a digit says
/// that another follows.
pub open spec fn vlq_digits(z: nat) -> Seq<char>
    decreases z,
{
    if z < 32 {
        seq![base64()[z as int]]
    } else {
        seq![base64()[32 + (z % 32) as int]] + vlq_digits(z / 32)
    }
}

/// The VLQ encoding of `n`.
pub open spec fn vlq(n: int) -> Seq<char> {
    vlq_digits(zigzag(n))
}

/// Where the encoder stands after some entries.
pub struct MapState {
    pub sources: Seq<Seq<char>>,
    pub segments: Seq<Seq<char>>,
    /// Address, source index, line and column of each entry with a segment.
    pub points: Seq<(int, int, int, int)>,
    pub address: int,
    pub source: int,
    pub line: int,
    pub column: int,
}

pub open spec fn initial_state() -> MapState {
    MapState { sources: seq![], segments: seq![], points: seq![], address: 0, source: 0, line: 1, column: 1 }
}

/// Index of `x` in `s`, or the length of `s` when it is not there.
pub open spec fn source_index(s: Seq<Seq<char>>, x: Seq<char>) -> int {
    if s.contains(x) {
        choose|i: int| 0 <= i < s.len() && s[i] == x
    } else {
        s.len() as int
    }
}

/// The segment of a mapping, each value relative to the last one.
pub open spec fn segment(address: int, source: int, line: int, column: int) -> Seq<char> {
    vlq(address) + vlq(source) + vlq(line) + vlq(column)
}

/// The state after entry `e`, with the code section's body at `offset`.
pub open spec fn step(st: MapState, e: EntryView, offset: int) -> MapState {
    if e.line == 0 {
        st
    } else {
        let column = if e.column == 0 { 1 } else { e.column };
        let address = e.address + offset;
        let name = normalized(e.file_path);
        let source = source_index(st.sources, name);
        MapState {
            sources: if st.sources.contains(name) { st.sources } else { st.sources.push(name) },
            segments: st.segments.push(segment(address - st.address, source - st.source,
                e.line - st.line, column - st.column)),
            points: st.points.push((address, source, e.line, column)),
            address,
            source,
            line: e.line,
            column,
        }
    }
}

/// The state after the entries `es`.
pub open spec fn encode_from(st: MapState, es: Seq<EntryView>, offset: int) -> MapState
    decreases es.len(),
{
    if es.len() == 0 {
        st
    } else {
        step(encode_from(st, es.drop_last(), offset), es.last(), offset)
    }
}

/// The segments joined by commas.
pub open spec fn join(segs: Seq<Seq<char>>) -> Seq<char>
    decreases segs.len(),
{
    if segs.len() == 0 {
        seq![]
    } else if segs.len() == 1 {
        segs[0]
    } else {
        join(segs.drop_last()) + seq![','] + segs.last()
    }
}

/// The value of a base64 digit; `None` for any other character.
pub open spec fn digit_of(c: char) -> Option<nat> {
    if base64().contains(c) {
        Some(choose|i: nat| i < 64 && base64()[i as int] == c)
    } else {
        None
    }
}

/// The value of the VLQ digits at the start of `s` and how many there are;
/// `None` when `s` ends before the last digit or holds another character.
pub open spec fn vlq_digits_value(s: Seq<char>) -> Option<(nat, nat)>
    decreases s.len(),
{
    if s.len() == 0 {
        None
    } else {
        match digit_of(s[0]) {
            None => None,
            Some(d) => if d < 32 {
                Some((d, 1))
            } else {
                match vlq_digits_value(s.drop_first()) {
                    Some((v, n)) => Some(((d - 32 + 32 * v) as nat, n + 1)),
                    None => None,
                }
            },
        }
    }
}

/// Undoes `zigzag`.
pub open spec fn unzigzag(z: nat) -> int {
    if z % 2 == 0 {
        (z / 2) as int
    } else {
        -((z - 1) / 2)
    }
}

/// The signed value at the start of `s`, and the length of its encoding.
pub open spec fn vlq_decode(s: Seq<char>) -> Option<(int, nat)> {
    match vlq_digits_value(s) {
        Some((z, n)) => Some((unzigzag(z), n)),
        None => None,
    }
}

/// The four values of a segment at the start of `s`.
pub open spec fn segment_decode(s: Seq<char>) -> Option<(int, int, int, int, nat)> {
    match vlq_decode(s) {
        None => None,
        Some((a, n1)) => match vlq_decode(s.subrange(n1 as int, s.len() as int)) {
            None => None,
            Some((b, n2)) => match vlq_decode(s.subrange((n1 + n2) as int, s.len() as int)) {
                None => None,
                Some((c, n3)) => match vlq_decode(s.subrange((n1 + n2 + n3) as int, s.len() as int)) {
                    None => None,
                    Some((d, n4)) => Some((a, b, c, d, n1 + n2 + n3 + n4)),
                },
            },
        },
    }
}

proof fn lemma_base64_digits()
    ensures
        base64().len() == 64,
        base64().no_duplicates(),
{
    reveal_strlit("ABCDEFGHIJKLMNOPQRSTUVWXYZabcdefghijklmnopqrstuvwxyz0123456789+/");
}

proof fn lemma_digit_of(i: nat)
    requires
        i < 64,
    ensures
        digit_of(base64()[i as int]) == Some(i),
{
    lemma_base64_digits();
    let c = base64()[i as int];
    assert(base64().contains(c));
    let j = choose|j: nat| j < 64 && base64()[j as int] == c;
    assert(j == i);
}

proof fn lemma_vlq_digits_round_trip(z: nat, rest: Seq<char>)
    ensures
        vlq_digits_value(vlq_digits(z) + rest) == Some((z, vlq_digits(z).len())),
    decreases z,
{
    let s = vlq_digits(z) + rest;
    if z < 32 {
        lemma_digit_of(z);
    } else {
        lemma_digit_of(32 + z % 32);
        lemma_vlq_digits_round_trip(z / 32, rest);
        assert(s.drop_first() =~= vlq_digits(z / 32) + rest);
    }
}

/// Decoding the VLQ encoding of `n` gives `n` back and consumes exactly the
/// encoding, whatever follows it.
pub proof fn lemma_vlq_round_trip(n: int, rest: Seq<char>)
    ensures
        vlq_decode(vlq(n) + rest) == Some((n, vlq(n).len())),
{
    lemma_vlq_digits_round_trip(zigzag(n), rest);
}

/// Decoding a segment gives back its four relative values, and consumes the
/// whole segment.
pub proof fn lemma_segment_round_trip(a: int, b: int, c: int, d: int, rest: Seq<char>)
    ensures
        segment_decode(segment(a, b, c, d) + rest) == Some((a, b, c, d, segment(a, b, c, d).len())),
{
    let s = segment(a, b, c, d) + rest;
    let la = vlq(a).len();
    let lb = vlq(b).len();
    let lc = vlq(c).len();
    let s1 = s.subrange(la as int, s.len() as int);
    let s2 = s.subrange((la + lb) as int, s.len() as int);
    let s3 = s.subrange((la + lb + lc) as int, s.len() as int);
    assert(s =~= vlq(a) + (vlq(b) + vlq(c) + vlq(d) + rest));
    assert(s1 =~= vlq(b) + (vlq(c) + vlq(d) + rest));
    assert(s2 =~= vlq(c) + (vlq(d) + rest));
    assert(s3 =~= vlq(d) + rest);
    lemma_vlq_round_trip(a, vlq(b) + vlq(c) + vlq(d) + rest);
    lemma_vlq_round_trip(b, vlq(c) + vlq(d) + rest);
    lemma_vlq_round_trip(c, vlq(d) + rest);
    lemma_vlq_round_trip(d, rest);
    assert(vlq_decode(s) == Some((a, la)));
    assert(vlq_decode(s1) == Some((b, lb)));
    assert(vlq_decode(s2) == Some((c, lc)));
    assert(vlq_decode(s3) == Some((d, vlq(d).len())));
}

/// The points of a `mappings` text, each segment's values added to those of
/// the point before; the first is relative to `prev`.
pub open spec fn decode_mappings(m: Seq<char>, prev: (int, int, int, int)) -> Option<Seq<(int, int, int, int)>>
    decreases m.len(),
{
    if m.len() == 0 {
        Some(seq![])
    } else {
        match segment_decode(m) {
            None => None,
            Some((a, b, c, d, n)) => {
                let cur = (prev.0 + a, prev.1 + b, prev.2 + c, prev.3 + d);
                if n == 0 || n > m.len() {
                    None
                } else if n == m.len() {
                    Some(seq![cur])
                } else if m[n as int] == ',' {
                    match decode_mappings(m.subrange((n + 1) as int, m.len() as int), cur) {
                        Some(t) => Some(seq![cur] + t),
                        None => None,
                    }
                } else {
                    None
                }
            },
        }
    }
}

/// The point before point `i`.
pub open spec fn prev_point(pts: Seq<(int, int, int, int)>, i: int) -> (int, int, int, int) {
    if i == 0 {
        (0, 0, 1, 1)
    } else {
        pts[i - 1]
    }
}

/// Each segment holds its point's values relative to the point before.
pub open spec fn segments_match(segs: Seq<Seq<char>>, pts: Seq<(int, int, int, int)>, first: (int, int, int, int)) -> bool {
    &&& segs.len() == pts.len()
    &&& forall|i: int| 0 <= i < segs.len() ==> {
        let p = if i == 0 { first } else { pts[i - 1] };
        #[trigger] segs[i] == segment(pts[i].0 - p.0, pts[i].1 - p.1, pts[i].2 - p.2, pts[i].3 - p.3)
    }
}

proof fn lemma_encode_match(es: Seq<EntryView>, offset: int)
    ensures
        ({
            let st = encode_from(initial_state(), es, offset);
            &&& segments_match(st.segments, st.points, (0, 0, 1, 1))
            &&& st.points.len() > 0 ==> st.points.last() == (st.address, st.source, st.line, st.column)
            &&& st.points.len() == 0 ==> (st.address, st.source, st.line, st.column) == (0int, 0int, 1int, 1int)
        }),
    decreases es.len(),
{
    if es.len() > 0 {
        lemma_encode_match(es.drop_last(), offset);
    }
}

proof fn lemma_join_front(s: Seq<char>, rest: Seq<Seq<char>>)
    ensures
        join(seq![s] + rest) == if rest.len() == 0 { s } else { s + seq![','] + join(rest) },
    decreases rest.len(),
{
    let all = seq![s] + rest;
    if rest.len() > 0 {
        assert(all.drop_last() =~= seq![s] + rest.drop_last());
        lemma_join_front(s, rest.drop_last());
        if rest.len() == 1 {
            assert(rest.drop_last().len() == 0);
        } else {
            assert(join(rest) == join(rest.drop_last()) + seq![','] + rest.last());
        }
    }
}

proof fn lemma_decode_one(a: int, b: int, c: int, d: int, first: (int, int, int, int))
    ensures
        decode_mappings(segment(a, b, c, d), first)
            == Some(seq![(first.0 + a, first.1 + b, first.2 + c, first.3 + d)]),
{
    let sg = segment(a, b, c, d);
    lemma_segment_round_trip(a, b, c, d, seq![]);
    assert(sg + seq![] =~= sg);
    assert(vlq(a).len() > 0);
}

proof fn lemma_decode_cons(a: int, b: int, c: int, d: int, first: (int, int, int, int), m: Seq<char>,
    t: Seq<(int, int, int, int)>)
    requires
        decode_mappings(m, (first.0 + a, first.1 + b, first.2 + c, first.3 + d)) == Some(t),
    ensures
        decode_mappings(segment(a, b, c, d) + seq![','] + m, first)
            == Some(seq![(first.0 + a, first.1 + b, first.2 + c, first.3 + d)] + t),
{
    let sg = segment(a, b, c, d);
    let all = sg + seq![','] + m;
    lemma_segment_round_trip(a, b, c, d, seq![','] + m);
    assert(all =~= sg + (seq![','] + m));
    assert(vlq(a).len() > 0);
    assert(all[sg.len() as int] == ',');
    assert(all.subrange((sg.len() + 1) as int, all.len() as int) =~= m);
}

proof fn lemma_match_tail(segs: Seq<Seq<char>>, pts: Seq<(int, int, int, int)>, first: (int, int, int, int))
    requires
        segments_match(segs, pts, first),
        segs.len() > 0,
    ensures
        segments_match(segs.drop_first(), pts.drop_first(), pts[0]),
{
    let r = segs.drop_first();
    let q = pts.drop_first();
    assert forall|i: int| 0 <= i < r.len() implies {
        let p = if i == 0 { pts[0] } else { q[i - 1] };
        #[trigger] r[i] == segment(q[i].0 - p.0, q[i].1 - p.1, q[i].2 - p.2, q[i].3 - p.3)
    } by {
        assert(r[i] == segs[i + 1] && q[i] == pts[i + 1]);
    }
}

proof fn lemma_decode_join(segs: Seq<Seq<char>>, pts: Seq<(int, int, int, int)>, first: (int, int, int, int))
    requires
        segments_match(segs, pts, first),
    ensures
        decode_mappings(join(segs), first) == Some(pts),
    decreases segs.len(),
{
    if segs.len() == 0 {
        assert(pts =~= Seq::<(int, int, int, int)>::empty());
    } else {
        let s0 = segs[0];
        let p0 = pts[0];
        let r = segs.drop_first();
        let q = pts.drop_first();
        assert(segs =~= seq![s0] + r);
        lemma_join_front(s0, r);
        let (a, b, c, d) = (p0.0 - first.0, p0.1 - first.1, p0.2 - first.2, p0.3 - first.3);
        assert(s0 == segment(a, b, c, d));
        assert(p0 == (first.0 + a, first.1 + b, first.2 + c, first.3 + d));
        lemma_match_tail(segs, pts, first);
        lemma_decode_join(r, q, p0);
        if r.len() == 0 {
            lemma_decode_one(a, b, c, d, first);
            assert(pts =~= seq![p0]);
        } else {
            lemma_decode_cons(a, b, c, d, first, join(r), q);
            assert(pts =~= seq![p0] + q);
        }
    }
}

/// Decoding the `mappings` of the entries `es` and adding up the relative
/// values gives, for each entry with a line, its address (with `offset`),
/// source index, line and column.
pub proof fn lemma_mappings_round_trip(es: Seq<EntryView>, offset: int)
    ensures
        decode_mappings(join(encode_from(initial_state(), es, offset).segments), (0, 0, 1, 1))
            == Some(encode_from(initial_state(), es, offset).points),
{
    lemma_encode_match(es, offset);
    let st = encode_from(initial_state(), es, offset);
    lemma_decode_join(st.segments, st.points, (0, 0, 1, 1));
}

/// The VLQ encoding of `n`.
fn encode_vlq(n: i128, digits: &Vec<char>) -> (r: Vec<char>)
    requires
        digits@ == base64(),
        -0x1_0000_0000_0000_0000_0000_0000_0000 < n < 0x1_0000_0000_0000_0000_0000_0000_0000,
    ensures
        r@ == vlq(n as int),
{
    proof { reveal_strlit("ABCDEFGHIJKLMNOPQRSTUVWXYZabcdefghijklmnopqrstuvwxyz0123456789+/"); }
    assert(digits@.len() == 64);
    let mut x: u128 = if n >= 0 { (n as u128) * 2 } else { ((-n) as u128) * 2 + 1 };
    assert(x == zigzag(n as int));
    let mut out: Vec<char> = Vec::new();
    while x > 31
        invariant
            digits@ == base64(),
            digits@.len() == 64,
            out@ + vlq_digits(x as nat) == vlq(n as int),
        decreases x,
    {
        let ghost before = out@;
        out.push(digits[(32 + x % 32) as usize]);
        assert(before + vlq_digits(x as nat) =~= out@ + vlq_digits((x / 32) as nat));
        x = x / 32;
    }
    out.push(digits[x as usize]);
    assert(out@ =~= vlq(n as int));
    out
}

fn push_chars(out: &mut Vec<char>, s: &Vec<char>)
    ensures
        final(out)@ == old(out)@ + s@,
{
    let mut i: usize = 0;
    while i < s.len()
        invariant
            i <= s@.len(),
            out@ == old(out)@ + s@.subrange(0, i as int),
        decreases s@.len() - i,
    {
        out.push(s[i]);
        assert(out@ =~= old(out)@ + s@.subrange(0, i + 1));
        i = i + 1;
    }
    assert(s@.subrange(0, s@.len() as int) =~= s@);
}

/// The source map of `entries`, whose addresses count from the code
/// section's body at `code_section_offset`: sources in the order first met,
/// and one segment per entry with a line, each value relative to the entry
/// before. Its `sources_content` is left out.
pub fn build_source_map(entries: &[Entry], code_section_offset: i64) -> (r: SourceMap)
    ensures
        r.version == 3,
        r.names@.len() == 0,
        r.sources_content is None,
        r.sources@.len() == encode_from(initial_state(), entry_views(entries@), code_section_offset as int).sources.len(),
        forall|i: int| 0 <= i < r.sources@.len() ==> r.sources@[i]@
            == encode_from(initial_state(), entry_views(entries@), code_section_offset as int).sources[i],
        r.mappings@ == join(encode_from(initial_state(), entry_views(entries@), code_section_offset as int).segments),
{
    let ghost es = entry_views(entries@);
    let ghost off = code_section_offset as int;
    let digits = literal("ABCDEFGHIJKLMNOPQRSTUVWXYZabcdefghijklmnopqrstuvwxyz0123456789+/");
    let mut sources: Vec<String> = Vec::new();
    let mut names: Vec<Vec<char>> = Vec::new();
    let mut mappings: Vec<char> = Vec::new();
    let mut emitted: usize = 0;
    let mut last_address: i128 = 0;
    let mut last_source: i128 = 0;
    let mut last_line: i128 = 1;
    let mut last_column: i128 = 1;
    let mut i: usize = 0;
    while i < entries.len()
        invariant
            i <= entries@.len(),
            es == entry_views(entries@),
            off == code_section_offset as int,
            digits@ == base64(),
            ({
                let st = encode_from(initial_state(), es.subrange(0, i as int), off);
                &&& st.sources.no_duplicates()
                &&& names@.len() == st.sources.len() == sources@.len()
                &&& forall|j: int| 0 <= j < names@.len() ==> names@[j]@ == st.sources[j] && sources@[j]@ == st.sources[j]
                &&& mappings@ == join(st.segments)
                &&& emitted == st.segments.len()
                &&& emitted <= i
                &&& st.address == last_address
                &&& st.source == last_source
                &&& st.line == last_line
                &&& st.column == last_column
                &&& -0x1_0000_0000_0000_0000 <= last_address <= 0x1_0000_0000_0000_0000
                &&& 0 <= last_source <= names@.len()
                &&& i32::MIN <= last_line <= i32::MAX
                &&& i32::MIN <= last_column <= i32::MAX
            }),
        decreases entries@.len() - i,
    {
        assert(es.subrange(0, i + 1).drop_last() =~= es.subrange(0, i as int));
        let e = &entries[i];
        assert(es[i as int] == e@);
        if e.line != 0 {
            let ghost st = encode_from(initial_state(), es.subrange(0, i as int), off);
            let column: i128 = if e.column == 0 { 1 } else { e.column as i128 };
            let address: i128 = e.address as i128 + code_section_offset as i128;
            let name = normalize_chars(chars_of(e.file_path.as_str()).as_slice());
            let mut k: usize = 0;
            let mut found = false;
            while !found && k < names.len()
                invariant
                    k <= names@.len(),
                    found ==> k < names@.len() && names@[k as int]@ == name@,
                    !found ==> forall|j: int| 0 <= j < k ==> names@[j]@ != name@,
                decreases names@.len() - k + (if found { 0int } else { 1int }),
            {
                if same_chars(names[k].as_slice(), name.as_slice()) {
                    found = true;
                } else {
                    k = k + 1;
                }
            }
            proof {
                if k < names@.len() {
                    assert(st.sources[k as int] == name@);
                    assert(st.sources.contains(name@));
                    let c = choose|j: int| 0 <= j < st.sources.len() && st.sources[j] == name@;
                    assert(c == k);
                } else {
                    assert forall|j: int| 0 <= j < st.sources.len() implies st.sources[j] != name@ by {
                        assert(names@[j]@ == st.sources[j]);
                    }
                    assert(!st.sources.contains(name@));
                }
            }
            assert(source_index(st.sources, name@) == k as int);
            assert(name@ == normalized(es[i as int].file_path));
            if k == names.len() {
                sources.push(string_of(name.as_slice()));
                names.push(name);
            }
            let source: i128 = k as i128;
            let seg_a = encode_vlq(address - last_address, &digits);
            let seg_s = encode_vlq(source - last_source, &digits);
            let seg_l = encode_vlq(e.line as i128 - last_line, &digits);
            let seg_c = encode_vlq(column - last_column, &digits);
            let ghost old_map = mappings@;
            if emitted > 0 {
                mappings.push(',');
            }
            push_chars(&mut mappings, &seg_a);
            push_chars(&mut mappings, &seg_s);
            push_chars(&mut mappings, &seg_l);
            push_chars(&mut mappings, &seg_c);
            proof {
                let st2 = step(st, es[i as int], off);
                assert(st2 == encode_from(initial_state(), es.subrange(0, i + 1), off));
                assert(es[i as int] == entries@[i as int]@);
                assert(st2.segments.drop_last() =~= st.segments);
                assert(st2.address == address);
                assert(st2.source == source);
                assert(st2.line == e.line);
                assert(st2.column == column);
                assert(seg_a@ == vlq(st2.address - st.address));
                assert(seg_s@ == vlq(st2.source - st.source));
                assert(seg_l@ == vlq(st2.line - st.line));
                assert(seg_c@ == vlq(st2.column - st.column));
                assert(st2.segments.last() =~= seg_a@ + seg_s@ + seg_l@ + seg_c@);
                if emitted > 0 {
                    assert(mappings@ =~= old_map + seq![','] + (seg_a@ + seg_s@ + seg_l@ + seg_c@));
                } else {
                    assert(mappings@ =~= seg_a@ + seg_s@ + seg_l@ + seg_c@);
                }
                assert(mappings@ =~= join(st2.segments));
            }
            emitted = emitted + 1;
            last_address = address;
            last_source = source;
            last_line = e.line as i128;
            last_column = column;
        }
        i = i + 1;
    }
    assert(es.subrange(0, entries@.len() as int) =~= es);
    SourceMap {
        version: 3,
        names: Vec::new(),
        sources,
        sources_content: None,
        mappings: string_of(mappings.as_slice()),
    }
}

} // verus!
