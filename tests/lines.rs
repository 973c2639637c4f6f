use wasm_dwarf::correlate::DebugRow;
use wasm_dwarf::lines::{get_debug_loc, order_rows, table_bytes, LineError};
use wasm_dwarf::sections::DebugSections;

fn row(address: u64, line: u64) -> DebugRow {
    DebugRow { address, source_id: 0, line, column: 0 }
}

#[test]
fn rows_are_ordered_and_collapsed() {
    let rows = vec![row(30, 1), row(10, 2), row(20, 3), row(10, 4), row(30, 5)];
    let out = order_rows(rows);
    let addresses: Vec<u64> = out.iter().map(|r| r.address).collect();
    assert_eq!(addresses, vec![10, 20, 30]);
    assert_eq!(out[0].line, 4);
    assert_eq!(out[2].line, 5);
}

#[test]
fn table_lookup_by_name() {
    let t = vec![(".debug_info".to_string(), vec![1u8]), (".debug_line".to_string(), vec![2u8])];
    assert_eq!(table_bytes(&t, ".debug_line"), Ok(&[2u8][..]));
    assert_eq!(table_bytes(&t, ".debug_str"), Ok(&[][..]));
}

#[test]
fn no_debug_info_gives_empty_table() {
    let d = DebugSections {
        tables: Vec::new(),
        reloc_tables: Vec::new(),
        linking: None,
        code_start: 0,
        func_offsets: Vec::new(),
        data_segment_offsets: Vec::new(),
    };
    let info = get_debug_loc(&d).unwrap();
    assert!(info.locations.is_empty());
    assert!(info.sources.is_empty());
}

fn with_tables(tables: Vec<(&str, Vec<u8>)>) -> DebugSections {
    DebugSections {
        tables: tables.into_iter().map(|(n, b)| (n.to_string(), b)).collect(),
        reloc_tables: Vec::new(),
        linking: None,
        code_start: 0,
        func_offsets: Vec::new(),
        data_segment_offsets: Vec::new(),
    }
}

fn abbrev() -> Vec<u8> {
    // compile unit, no children: name (string), stmt_list (sec_offset), comp_dir (string)
    vec![1, 0x11, 0, 0x03, 0x08, 0x10, 0x17, 0x1b, 0x08, 0, 0, 0]
}

fn info() -> Vec<u8> {
    vec![
        19, 0, 0, 0, 4, 0, 0, 0, 0, 0, 4, 1, b'a', b'.', b'c', 0, 0, 0, 0, 0, b'/', b'w', 0,
    ]
}

fn line_program() -> Vec<u8> {
    let mut v = vec![66, 0, 0, 0, 4, 0, 38, 0, 0, 0, 1, 1, 1, 0xfb, 14, 13];
    v.extend([0, 1, 1, 1, 1, 0, 0, 0, 1, 0, 0, 1]);
    v.extend([b'i', b'n', b'c', 0, 0]);
    v.extend([b'a', b'.', b'c', 0, 0, 0, 0, b'b', b'.', b'h', 0, 1, 0, 0, 0]);
    // set_address 0x10; line 10; column 5; copy; file 2; pc += 8; copy; pc += 4; end_sequence
    v.extend([0, 5, 2, 0x10, 0, 0, 0, 3, 9, 5, 5, 1, 4, 2, 2, 8, 1, 2, 4, 0, 1, 1]);
    v
}

#[test]
fn line_program_rows_and_paths() {
    let d = with_tables(vec![(".debug_abbrev", abbrev()), (".debug_info", info()), (".debug_line", line_program())]);
    let info = get_debug_loc(&d).unwrap();
    assert_eq!(info.sources, vec!["a.c".to_string(), "inc/b.h".to_string()]);
    let rows: Vec<(u64, usize, u64, u64)> =
        info.locations.iter().map(|r| (r.address, r.source_id, r.line, r.column)).collect();
    assert_eq!(rows, vec![(0x10, 0, 10, 5), (0x18, 1, 10, 5), (0x1c, 1, 10, 5)]);
}

#[test]
fn truncated_debug_info_is_malformed() {
    let mut bad = info();
    bad.truncate(9);
    let d = with_tables(vec![(".debug_abbrev", abbrev()), (".debug_info", bad), (".debug_line", line_program())]);
    assert!(matches!(get_debug_loc(&d), Err(LineError::MalformedDwarf)));
}

#[test]
fn smallest_line_advance_is_malformed() {
    let mut prog = line_program();
    prog[0] = 75;
    // advance_line by i64::MIN: nine continuation bytes, then 0x7f
    // the program starts after the 10 bytes before the header and the 38 of the header;
    // set_address takes 7 bytes
    let at = 10 + 38 + 7;
    assert_eq!(prog[at], 3);
    let tail: Vec<u8> = prog.split_off(at);
    let mut min = vec![3u8];
    min.extend([0x80; 9]);
    min.push(0x7f);
    prog.extend(min);
    prog.extend_from_slice(&tail[2..]);
    let d = with_tables(vec![(".debug_abbrev", abbrev()), (".debug_info", info()), (".debug_line", prog)]);
    assert!(matches!(get_debug_loc(&d), Err(LineError::MalformedDwarf)));
}
