//! The section table of a WebAssembly module: an 8-byte header followed by
//! sections, each an id, a size and that many bytes of body.
use vstd::prelude::*;
use vstd::string::*;
use crate::varint::{leb, leb64, leb_encode, lemma_leb_len, lemma_leb_extend, read_var_uint, encode_uint_var};

verus! {

/// Why a module could not be scanned.
#[derive(Debug, PartialEq, Eq, Clone, Copy)]
pub enum ModuleError {
    /// The section table ends without a code section.
    CodeSectionNotFound,
    /// The header is short, or an id, a size or a body runs past the end.
    Malformed,
}

/// Length of the magic number and version that open every module.
pub const HEADER_LEN: usize = 8;

/// Id of the code section.
pub const CODE_SECTION_ID: u64 = 10;

/// The bytes of an ASCII text.
pub open spec fn ascii_bytes(l: Seq<char>) -> Seq<u8> {
    Seq::new(l.len(), |i: int| l[i] as u8)
}

/// The id and size of the section at the start of `s`, with the positions
/// where its body starts and where the size field ends.
pub open spec fn section_head(s: Seq<u8>) -> Option<(u64, u64, nat)> {
    match leb64(s) {
        Some((id, a)) => match leb64(s.subrange(a as int, s.len() as int)) {
            Some((size, b)) => Some((id, size, a + b)),
            None => None,
        },
        None => None,
    }
}

/// Id, body start and end of the whole section at the start of `s`, when its
/// body fits in `s`.
pub open spec fn section(s: Seq<u8>) -> Option<(u64, nat, nat)> {
    match section_head(s) {
        Some((id, size, body)) => if body + size <= s.len() {
            Some((id, body, (body + size) as nat))
        } else {
            None
        },
        None => None,
    }
}

/// Offset of the code section's body within a run of sections `s`.
pub open spec fn code_offset(s: Seq<u8>) -> Result<nat, ModuleError>
    decreases s.len(),
{
    if s.len() == 0 {
        Err(ModuleError::CodeSectionNotFound)
    } else {
        match section_head(s) {
            None => Err(ModuleError::Malformed),
            Some((id, size, body)) => if id == CODE_SECTION_ID {
                Ok(body)
            } else if body + size >= s.len() || body == 0 {
                Err(ModuleError::CodeSectionNotFound)
            } else {
                match code_offset(s.subrange(body + size, s.len() as int)) {
                    Ok(o) => Ok((body + size + o) as nat),
                    Err(e) => Err(e),
                }
            },
        }
    }
}

/// Offset of the code section's body within module `m`.
pub open spec fn module_code_offset(m: Seq<u8>) -> Result<nat, ModuleError> {
    if m.len() < HEADER_LEN {
        Err(ModuleError::CodeSectionNotFound)
    } else {
        match code_offset(m.subrange(HEADER_LEN as int, m.len() as int)) {
            Ok(o) => Ok((HEADER_LEN + o) as nat),
            Err(e) => Err(e),
        }
    }
}

/// The name at the start of a custom section's body.
pub open spec fn custom_name(body: Seq<u8>) -> Option<Seq<u8>> {
    match leb64(body) {
        Some((len, k)) => if k + len <= body.len() {
            Some(body.subrange(k as int, k + len))
        } else {
            None
        },
        None => None,
    }
}

/// Names of the custom sections that hold debug or linking data.
pub open spec fn is_debug_name(n: Seq<u8>) -> bool {
    n == ascii_bytes("linking"@) || n == ascii_bytes("sourceMappingURL"@)
        || ascii_bytes("reloc..debug_"@).is_prefix_of(n) || ascii_bytes(".debug_"@).is_prefix_of(n)
}

/// Whether the section of `s` with this id and body is left out of a stripped
/// module: a custom section with a debug name.
pub open spec fn is_debug_section(s: Seq<u8>, id: u64, body: nat, end: nat) -> bool {
    id == 0 && match custom_name(s.subrange(body as int, end as int)) {
        Some(n) => is_debug_name(n),
        None => false,
    }
}

/// The run of sections `s` with its debug sections left out; `None` when a
/// section runs past the end.
pub open spec fn strip_sections(s: Seq<u8>) -> Option<Seq<u8>>
    decreases s.len(),
{
    if s.len() == 0 {
        Some(Seq::empty())
    } else {
        match section(s) {
            None => None,
            Some((id, body, end)) => if end == 0 {
                None
            } else {
                match strip_sections(s.subrange(end as int, s.len() as int)) {
                    None => None,
                    Some(rest) => if is_debug_section(s, id, body, end) {
                        Some(rest)
                    } else {
                        Some(s.subrange(0, end as int) + rest)
                    },
                }
            },
        }
    }
}

/// Module `m` with its debug sections left out.
pub open spec fn strip_module(m: Seq<u8>) -> Option<Seq<u8>> {
    if m.len() < HEADER_LEN {
        None
    } else {
        match strip_sections(m.subrange(HEADER_LEN as int, m.len() as int)) {
            Some(t) => Some(m.subrange(0, HEADER_LEN as int) + t),
            None => None,
        }
    }
}

proof fn lemma_section_head_nonempty(s: Seq<u8>)
    ensures
        section_head(s) matches Some((id, size, body)) ==> 2 <= body <= s.len(),
{
    lemma_leb_len(s);
    if let Some((id, a)) = leb64(s) {
        lemma_leb_len(s.subrange(a as int, s.len() as int));
    }
}

/// The value of a complete integer is the same in any prefix that holds it.
proof fn lemma_leb_prefix(s: Seq<u8>, m: int)
    requires
        leb(s) matches Some((v, n)) && n <= m <= s.len(),
    ensures
        leb(s.subrange(0, m)) == leb(s),
        leb64(s.subrange(0, m)) == leb64(s),
{
    lemma_leb_len(s);
    let n = leb(s).unwrap().1;
    let p = s.subrange(0, n as int);
    lemma_leb_own_bytes(s);
    lemma_leb_extend(p, s.subrange(n as int, m));
    assert(p + s.subrange(n as int, m) =~= s.subrange(0, m));
    lemma_leb_extend(p, s.subrange(n as int, s.len() as int));
    assert(p + s.subrange(n as int, s.len() as int) =~= s);
}

/// An integer reads the same from its own bytes alone.
proof fn lemma_leb_own_bytes(s: Seq<u8>)
    requires
        leb(s) is Some,
    ensures
        leb(s.subrange(0, leb(s).unwrap().1 as int)) == leb(s),
    decreases s.len(),
{
    lemma_leb_len(s);
    let n = leb(s).unwrap().1;
    let p = s.subrange(0, n as int);
    if s[0] >= 128 {
        let r = s.subrange(1, s.len() as int);
        lemma_leb_own_bytes(r);
        assert(p.subrange(1, p.len() as int) =~= r.subrange(0, leb(r).unwrap().1 as int));
    }
}

/// A whole section reads the same on its own and with anything after it.
proof fn lemma_section_frame(s: Seq<u8>, t: Seq<u8>)
    requires
        section(s) matches Some((id, body, end)) && end == s.len(),
    ensures
        section(s + t) == section(s),
{
    let (id, body, end) = section(s).unwrap();
    let a = leb64(s).unwrap().1;
    lemma_leb_len(s);
    lemma_leb_extend(s, t);
    let r = s.subrange(a as int, s.len() as int);
    lemma_leb_len(r);
    lemma_leb_extend(r, t);
    assert((s + t).subrange(a as int, (s + t).len() as int) =~= r + t);
}

/// A section reads the same when cut off just after its body.
proof fn lemma_section_cut(s: Seq<u8>)
    requires
        section(s) is Some,
    ensures
        section(s.subrange(0, section(s).unwrap().2 as int)) == section(s),
{
    let (id, body, end) = section(s).unwrap();
    let c = s.subrange(0, end as int);
    let a = leb64(s).unwrap().1;
    lemma_leb_len(s);
    lemma_leb_prefix(s, end as int);
    let r = s.subrange(a as int, s.len() as int);
    lemma_leb_len(r);
    lemma_leb_prefix(r, end - a);
    assert(c.subrange(a as int, c.len() as int) =~= r.subrange(0, end - a));
}

/// Stripping a module twice leaves what stripping it once gave.
pub proof fn lemma_strip_idempotent(m: Seq<u8>)
    requires
        strip_module(m) is Some,
    ensures
        strip_module(strip_module(m).unwrap()) == strip_module(m),
{
    let t = strip_module(m).unwrap();
    let inner = strip_sections(m.subrange(HEADER_LEN as int, m.len() as int)).unwrap();
    lemma_strip_sections_idempotent(m.subrange(HEADER_LEN as int, m.len() as int));
    assert(t.subrange(HEADER_LEN as int, t.len() as int) =~= inner);
    assert(t.subrange(0, HEADER_LEN as int) =~= m.subrange(0, HEADER_LEN as int));
}

proof fn lemma_strip_sections_idempotent(s: Seq<u8>)
    requires
        strip_sections(s) is Some,
    ensures
        strip_sections(strip_sections(s).unwrap()) == strip_sections(s),
    decreases s.len(),
{
    if s.len() > 0 {
        let (id, body, end) = section(s).unwrap();
        let rest_in = s.subrange(end as int, s.len() as int);
        let rest = strip_sections(rest_in).unwrap();
        lemma_strip_sections_idempotent(rest_in);
        if !is_debug_section(s, id, body, end) {
            let c = s.subrange(0, end as int);
            let t = c + rest;
            lemma_section_cut(s);
            lemma_section_frame(c, rest);
            assert(t.subrange(end as int, t.len() as int) =~= rest);
            assert(t.subrange(0, end as int) =~= c);
            assert(t.subrange(body as int, end as int) =~= s.subrange(body as int, end as int));
        }
    }
}

/// Offset, from the start of the module, of the code section's body.
pub fn get_code_section_offset(wasm: &[u8]) -> (r: Result<i64, ModuleError>)
    requires
        wasm@.len() <= i64::MAX,
    ensures
        r == match module_code_offset(wasm@) {
            Ok(o) => Ok(o as i64),
            Err(e) => Err(e),
        },
{
    let ghost s = wasm@;
    if wasm.len() < HEADER_LEN {
        return Err(ModuleError::CodeSectionNotFound);
    }
    let mut pos: usize = HEADER_LEN;
    while pos < wasm.len()
        invariant
            s == wasm@,
            HEADER_LEN <= pos <= s.len() <= i64::MAX,
            module_code_offset(s) == match code_offset(s.subrange(pos as int, s.len() as int)) {
                Ok(o) => Ok((pos + o) as nat),
                Err(e) => Err::<nat, ModuleError>(e),
            },
        decreases wasm.len() - pos,
    {
        let ghost t = s.subrange(pos as int, s.len() as int);
        proof { lemma_section_head_nonempty(t); }
        let (id, p1) = match read_var_uint(wasm, pos, wasm.len()) {
            Some(x) => x,
            None => { return Err(ModuleError::Malformed); },
        };
        let ghost a = leb64(t).unwrap().1;
        proof { lemma_leb_len(t); }
        assert(p1 == pos + a);
        assert(t.subrange(a as int, t.len() as int) =~= s.subrange(p1 as int, s.len() as int));
        let (size, p2) = match read_var_uint(wasm, p1, wasm.len()) {
            Some(x) => x,
            None => { return Err(ModuleError::Malformed); },
        };
        if id == CODE_SECTION_ID {
            return Ok(p2 as i64);
        }
        if size >= (wasm.len() - p2) as u64 {
            return Err(ModuleError::CodeSectionNotFound);
        }
        let next = p2 + size as usize;
        assert(t.subrange((next - pos) as int, t.len() as int) =~= s.subrange(next as int, s.len() as int));
        pos = next;
    }
    proof {
        assert(s.subrange(pos as int, s.len() as int).len() == 0);
    }
    Err(ModuleError::CodeSectionNotFound)
}

/// Body of the custom section that names a source map at `url`.
pub open spec fn mapping_url_body(url: Seq<u8>) -> Seq<u8> {
    let name = ascii_bytes("sourceMappingURL"@);
    leb_encode(name.len()) + name + leb_encode(url.len()) + url
}

/// Appends `src[from..to]` to `out`.
fn copy_range(src: &[u8], from: usize, to: usize, out: &mut Vec<u8>)
    requires
        from <= to <= src@.len(),
    ensures
        final(out)@ == old(out)@ + src@.subrange(from as int, to as int),
{
    let mut i: usize = from;
    while i < to
        invariant
            from <= i <= to <= src@.len(),
            out@ == old(out)@ + src@.subrange(from as int, i as int),
        decreases to - i,
    {
        out.push(src[i]);
        assert(old(out)@ + src@.subrange(from as int, i + 1) =~= out@);
        i = i + 1;
    }
}

/// The bytes of an ASCII literal.
fn ascii_literal(l: &str) -> (r: Vec<u8>)
    ensures
        r@ == ascii_bytes(l@),
{
    let n = l.unicode_len();
    let mut out: Vec<u8> = Vec::new();
    let mut i: usize = 0;
    while i < n
        invariant
            n == l@.len(),
            i <= n,
            out@ == ascii_bytes(l@.subrange(0, i as int)),
        decreases n - i,
    {
        let c = l.get_char(i);
        out.push(c as u8);
        assert(out@ =~= ascii_bytes(l@.subrange(0, i + 1)));
        i = i + 1;
    }
    assert(l@.subrange(0, n as int) =~= l@);
    out
}

/// Whether `src[from..to]` is `lit` (when `whole`) or starts with it.
fn range_matches(src: &[u8], from: usize, to: usize, lit: &Vec<u8>, whole: bool) -> (r: bool)
    requires
        from <= to <= src@.len(),
    ensures
        r == if whole {
            src@.subrange(from as int, to as int) == lit@
        } else {
            lit@.is_prefix_of(src@.subrange(from as int, to as int))
        },
{
    let ghost sub = src@.subrange(from as int, to as int);
    let n = lit.len();
    if n > to - from || (whole && n != to - from) {
        return false;
    }
    let mut j: usize = 0;
    while j < n
        invariant
            n == lit@.len(),
            from + n <= to <= src@.len(),
            sub == src@.subrange(from as int, to as int),
            j <= n,
            forall|k: int| 0 <= k < j ==> sub[k] == lit@[k],
        decreases n - j,
    {
        if src[from + j] != lit[j] {
            return false;
        }
        j = j + 1;
    }
    if whole {
        assert(sub =~= lit@);
    }
    true
}

/// Whether the custom section name `src[from..to]` marks debug or linking data.
fn is_debug_name_at(src: &[u8], from: usize, to: usize) -> (r: bool)
    requires
        from <= to <= src@.len(),
    ensures
        r == is_debug_name(src@.subrange(from as int, to as int)),
{
    range_matches(src, from, to, &ascii_literal("linking"), true)
        || range_matches(src, from, to, &ascii_literal("sourceMappingURL"), true)
        || range_matches(src, from, to, &ascii_literal("reloc..debug_"), false)
        || range_matches(src, from, to, &ascii_literal(".debug_"), false)
}

/// Reads the section at `pos`: where it ends, and whether it is a debug
/// section; `None` when it runs past the end of `wasm`.
fn scan_section(wasm: &[u8], pos: usize) -> (r: Option<(usize, bool)>)
    requires
        pos < wasm@.len(),
    ensures
        match section(wasm@.subrange(pos as int, wasm@.len() as int)) {
            Some((id, body, end)) => r == Some(((pos + end) as usize, is_debug_section(
                wasm@.subrange(pos as int, wasm@.len() as int), id, body, end))),
            None => r is None,
        },
{
    let ghost s = wasm@;
    let ghost t = s.subrange(pos as int, s.len() as int);
    let (id, p1) = match read_var_uint(wasm, pos, wasm.len()) {
        Some(x) => x,
        None => { return None; },
    };
    let ghost a = leb64(t).unwrap().1;
    proof { lemma_leb_len(t); }
    assert(t.subrange(a as int, t.len() as int) =~= s.subrange(p1 as int, s.len() as int));
    let (size, body) = match read_var_uint(wasm, p1, wasm.len()) {
        Some(x) => x,
        None => { return None; },
    };
    proof { lemma_section_head_nonempty(t); }
    if size > (wasm.len() - body) as u64 {
        return None;
    }
    let end = body + size as usize;
    assert(t.subrange((body - pos) as int, (end - pos) as int) =~= s.subrange(body as int, end as int));
    let mut drop = false;
    if id == 0 {
        match read_var_uint(wasm, body, end) {
            Some((name_len, name_pos)) => {
                proof { lemma_leb_len(s.subrange(body as int, end as int)); }
                if name_len <= (end - name_pos) as u64 {
                    let name_end = name_pos + name_len as usize;
                    assert(s.subrange(body as int, end as int).subrange(
                        (name_pos - body) as int, (name_end - body) as int)
                        =~= s.subrange(name_pos as int, name_end as int));
                    drop = is_debug_name_at(wasm, name_pos, name_end);
                }
            },
            None => {},
        }
    }
    Some((end, drop))
}

/// A copy of the module without its debug sections: custom sections named
/// `linking` or `sourceMappingURL`, or whose name starts with `.debug_` or
/// `reloc..debug_`. Every other section is copied byte for byte, in order.
pub fn strip_debug_sections(wasm: &[u8]) -> (r: Result<Vec<u8>, ModuleError>)
    ensures
        match r {
            Ok(v) => strip_module(wasm@) == Some(v@),
            Err(e) => e == ModuleError::Malformed && strip_module(wasm@) is None,
        },
{
    let ghost s = wasm@;
    if wasm.len() < HEADER_LEN {
        return Err(ModuleError::Malformed);
    }
    let mut out: Vec<u8> = Vec::new();
    copy_range(wasm, 0, HEADER_LEN, &mut out);
    let mut pos: usize = HEADER_LEN;
    assert(out@ + s.subrange(HEADER_LEN as int, s.len() as int) =~= s);
    while pos < wasm.len()
        invariant
            s == wasm@,
            HEADER_LEN <= pos <= s.len(),
            strip_module(s) == match strip_sections(s.subrange(pos as int, s.len() as int)) {
                Some(t) => Some(out@ + t),
                None => None,
            },
        decreases wasm.len() - pos,
    {
        let ghost t = s.subrange(pos as int, s.len() as int);
        let (end, drop) = match scan_section(wasm, pos) {
            Some(x) => x,
            None => { return Err(ModuleError::Malformed); },
        };
        proof { lemma_section_head_nonempty(t); }
        assert(t.subrange((end - pos) as int, t.len() as int) =~= s.subrange(end as int, s.len() as int));
        let ghost before = out@;
        if !drop {
            copy_range(wasm, pos, end, &mut out);
            assert(t.subrange(0, (end - pos) as int) =~= s.subrange(pos as int, end as int));
            assert forall|x: Seq<u8>| #![auto] before + (s.subrange(pos as int, end as int) + x) == out@ + x by {
                assert(before + (s.subrange(pos as int, end as int) + x) =~= out@ + x);
            }
        }
        pos = end;
    }
    proof {
        assert(s.subrange(pos as int, s.len() as int).len() == 0);
        assert(out@ + Seq::<u8>::empty() =~= out@);
    }
    Ok(out)
}

/// The module with a custom section `sourceMappingURL` appended at its end,
/// whose body holds the length-prefixed name and the length-prefixed bytes of
/// `url`.
pub fn append_source_mapping(wasm: &[u8], url: &str) -> (r: Vec<u8>)
    ensures
        r@ == wasm@ + seq![0u8] + leb_encode(mapping_url_body(url.spec_bytes()).len())
            + mapping_url_body(url.spec_bytes()),
{
    let name = ascii_literal("sourceMappingURL");
    let url_bytes = url.as_bytes_vec();
    let mut content: Vec<u8> = Vec::new();
    let name_len = encode_uint_var(name.len() as u64);
    copy_range(name_len.as_slice(), 0, name_len.len(), &mut content);
    copy_range(name.as_slice(), 0, name.len(), &mut content);
    let url_len = encode_uint_var(url_bytes.len() as u64);
    copy_range(url_len.as_slice(), 0, url_len.len(), &mut content);
    copy_range(url_bytes.as_slice(), 0, url_bytes.len(), &mut content);
    let mut out: Vec<u8> = Vec::new();
    copy_range(wasm, 0, wasm.len(), &mut out);
    out.push(0u8);
    let content_len = encode_uint_var(content.len() as u64);
    copy_range(content_len.as_slice(), 0, content_len.len(), &mut out);
    copy_range(content.as_slice(), 0, content.len(), &mut out);
    out
}

} // verus!
