use wasm_sourcemap::varint::{encode_uint_var, read_var_uint};
use wasm_sourcemap::wasm::{
    append_source_mapping, get_code_section_offset, strip_debug_sections, ModuleError,
};

const HEADER: [u8; 8] = [0x00, 0x61, 0x73, 0x6d, 0x01, 0x00, 0x00, 0x00];

fn custom_section(name: &str, payload: &[u8]) -> Vec<u8> {
    let mut body = encode_uint_var(name.len() as u64);
    body.extend_from_slice(name.as_bytes());
    body.extend_from_slice(payload);
    let mut s = vec![0u8];
    s.extend(encode_uint_var(body.len() as u64));
    s.extend(body);
    s
}

fn section(id: u8, body: &[u8]) -> Vec<u8> {
    let mut s = vec![id];
    s.extend(encode_uint_var(body.len() as u64));
    s.extend_from_slice(body);
    s
}

#[test]
fn varint_encodes_known_values() {
    assert_eq!(encode_uint_var(0), vec![0]);
    assert_eq!(encode_uint_var(127), vec![0x7f]);
    assert_eq!(encode_uint_var(128), vec![0x80, 0x01]);
    assert_eq!(encode_uint_var(624485), vec![0xe5, 0x8e, 0x26]);
    assert_eq!(encode_uint_var(u64::MAX).len(), 10);
}

#[test]
fn varint_round_trip() {
    for v in [0u64, 1, 127, 128, 300, 16384, 624485, u32::MAX as u64, u64::MAX] {
        let bytes = encode_uint_var(v);
        assert_eq!(read_var_uint(&bytes, 0, bytes.len()), Some((v, bytes.len())));
    }
}

#[test]
fn varint_truncated_or_too_large() {
    assert_eq!(read_var_uint(&[0x80, 0x80], 0, 2), None);
    assert_eq!(read_var_uint(&[0xe5, 0x8e, 0x26], 0, 2), None);
    let mut big = vec![0xffu8; 10];
    big.push(0x01);
    assert_eq!(read_var_uint(&big, 0, big.len()), None);
    assert_eq!(read_var_uint(&[0x05, 0xe5, 0x8e, 0x26], 1, 4), Some((624485, 4)));
}

#[test]
fn code_section_offset_is_body_start() {
    let mut m = HEADER.to_vec();
    m.extend(section(1, &[1, 2, 3]));
    let o = m.len() + 2;
    m.extend(section(10, &[0, 0]));
    m.extend(section(12, &[1]));
    assert_eq!(get_code_section_offset(&m), Ok(o as i64));
    assert_eq!(o, 15);
}

#[test]
fn code_section_missing() {
    let mut m = HEADER.to_vec();
    m.extend(section(1, &[1, 2, 3]));
    assert_eq!(get_code_section_offset(&m), Err(ModuleError::CodeSectionNotFound));
    assert_eq!(get_code_section_offset(&HEADER), Err(ModuleError::CodeSectionNotFound));
    assert_eq!(get_code_section_offset(&[0, 1]), Err(ModuleError::CodeSectionNotFound));
}

#[test]
fn code_section_truncated_varint() {
    let mut m = HEADER.to_vec();
    m.push(0x81);
    assert_eq!(get_code_section_offset(&m), Err(ModuleError::Malformed));
}

#[test]
fn strip_drops_debug_sections_only() {
    let mut m = HEADER.to_vec();
    let ty = section(1, &[1, 2]);
    let name = custom_section("name", &[9, 9]);
    let code = section(10, &[0]);
    m.extend(ty.clone());
    m.extend(custom_section(".debug_info", &[1, 2, 3]));
    m.extend(name.clone());
    m.extend(custom_section("linking", &[]));
    m.extend(code.clone());
    m.extend(custom_section("reloc..debug_line", &[4]));
    m.extend(custom_section("sourceMappingURL", b"x.map"));
    let mut expected = HEADER.to_vec();
    expected.extend(ty);
    expected.extend(name);
    expected.extend(code);
    let stripped = strip_debug_sections(&m).unwrap();
    assert_eq!(stripped, expected);
    assert_eq!(strip_debug_sections(&stripped).unwrap(), stripped);
}

#[test]
fn strip_rejects_truncated_module() {
    let mut m = HEADER.to_vec();
    m.extend([1u8, 5, 0]);
    assert_eq!(strip_debug_sections(&m), Err(ModuleError::Malformed));
    assert_eq!(strip_debug_sections(&[0, 1, 2]), Err(ModuleError::Malformed));
}

#[test]
fn append_adds_url_section() {
    let m = HEADER.to_vec();
    let r = append_source_mapping(&m, "a.map");
    let mut expected = HEADER.to_vec();
    expected.extend([0u8, 23, 16]);
    expected.extend(b"sourceMappingURL");
    expected.push(5);
    expected.extend(b"a.map");
    assert_eq!(r, expected);
    assert_eq!(strip_debug_sections(&r).unwrap(), m);
}
