use wasm_sourcemap::dwarf::{parse_dwarf_to_entries, DwarfError, Entry};
use wasm_sourcemap::source_map::build_source_map;

fn entry(address: i64, line: i32, column: i32, file: &str, eos: bool) -> Entry {
    Entry { address, line, column, file_path: file.to_string(), eos }
}

const DUMP: &str = "0x0000000b: DW_TAG_compile_unit\n\
    DW_AT_producer (\"clang\")\n\
    DW_AT_stmt_list (0x00000000)\n\
    DW_AT_comp_dir (\"/src\")\n\
\n\
.debug_line contents:\n\
debug_line[0x00000000]\n\
include_directories[  1] = \"/usr/include\"\n\
file_names[  1]:\n           name: \"a.c\"\n      dir_index: 0\n\
file_names[  2]:\n           name: \"b.h\"\n      dir_index: 1\n\
\n\
Address            Line   Column File   ISA Discriminator Flags\n\
------------------ ------ ------ ------ --- ------------- -------------\n\
0x0000000000000010      5      3      1   0             0  is_stmt\n\
0x0000000000000018      7      0      2   0             0  is_stmt\n\
0x0000000000000020      5      3      1   0             0  is_stmt end_sequence\n";

#[test]
fn parse_resolves_files_and_end_of_sequence() {
    let es = parse_dwarf_to_entries(DUMP.as_bytes()).unwrap();
    assert_eq!(es.len(), 3);
    assert_eq!((es[0].address, es[0].line, es[0].column, es[0].eos), (0x10, 5, 3, false));
    assert_eq!(es[0].file_path, "/src/a.c");
    assert_eq!((es[1].address, es[1].line, es[1].column, es[1].eos), (0x18, 7, 0, false));
    assert_eq!(es[1].file_path, "/usr/include/b.h");
    assert_eq!((es[2].address, es[2].eos), (0x1f, true));
}

#[test]
fn parse_marks_last_entry_at_end_address() {
    let dump = "DW_AT_stmt_list (0x0)\n DW_AT_comp_dir (\"/d\")\n\
        debug_line[0x0]\n\
        file_names[ 1]: name: \"/abs/x.c\" dir_index: 0\n\
        0x0000000000000040 2 1 1 is_stmt\n\
        0x0000000000000041 2 1 1 end_sequence\n";
    let es = parse_dwarf_to_entries(dump.as_bytes()).unwrap();
    assert_eq!(es.len(), 1);
    assert_eq!((es[0].address, es[0].eos), (0x40, true));
    assert_eq!(es[0].file_path, "/abs/x.c");
}

#[test]
fn parse_drops_block_at_zero() {
    let dump = "info\ndebug_line[0x0]\n\
        file_names[ 1]: name: \"a.c\" dir_index: 0\n\
        0x0000000000000000 1 1 1\n\
        0x0000000000000008 1 1 1 end_sequence\n\
        0x0000000000000064 3 1 1\n\
        0x0000000000000070 3 1 1 end_sequence\n";
    let es = parse_dwarf_to_entries(dump.as_bytes()).unwrap();
    assert_eq!(es.len(), 2);
    assert_eq!((es[0].address, es[0].eos), (100, false));
    assert_eq!((es[1].address, es[1].eos), (0x6f, true));
    assert_eq!(es[0].file_path, "/a.c");
}

#[test]
fn parse_without_markers_is_empty() {
    assert!(parse_dwarf_to_entries(b"nothing here").unwrap().is_empty());
    assert!(parse_dwarf_to_entries(b"").unwrap().is_empty());
}

#[test]
fn parse_rejects_invalid_utf8() {
    assert_eq!(
        parse_dwarf_to_entries(&[0xff, 0xfe]).err(),
        Some(DwarfError::InvalidUtf8)
    );
}

#[test]
fn end_to_end_two_entries() {
    let es = vec![entry(0x10, 5, 3, "a.c", false), entry(0x1f, 5, 3, "a.c", true)];
    let map = build_source_map(&es, 0x100);
    assert_eq!(map.version, 3);
    assert!(map.names.is_empty());
    assert_eq!(map.sources, vec!["a.c"]);
    assert!(map.sources_content.is_none());
    assert_eq!(map.mappings, "gRAIE,eAAA");
}

#[test]
fn build_skips_lineless_entries_and_dedups_sources() {
    let es = vec![
        entry(1, 1, 0, "./x.c", false),
        entry(2, 0, 4, "y.c", false),
        entry(3, 2, 2, "y.c", false),
        entry(4, 3, 1, "x.c", true),
    ];
    let map = build_source_map(&es, 0);
    assert_eq!(map.sources, vec!["x.c", "y.c"]);
    assert_eq!(map.mappings, "CAAA,ECCC,CDCD");
}

#[test]
fn build_negative_deltas_and_large_values() {
    let es = vec![entry(100000, 10, 1, "a", false), entry(0, 1, 1, "a", false)];
    let map = build_source_map(&es, 0);
    assert_eq!(map.mappings, "gqjGASA,hqjGATA");
}
