use wasm_dwarf::reloc::{read_reloc_entries, read_symbol_table, reloc, Reloc, RelocError, Symbol};
use wasm_dwarf::sections::DebugSections;

// version 2; symbol table: function 1 named "f", data symbol "d" in segment 0 at 4.
fn linking() -> Vec<u8> {
    vec![2, 8, 12, 2, 0, 0, 1, 1, b'f', 1, 0, 1, b'd', 0, 4, 8]
}

fn sections(reloc_table: Vec<u8>) -> DebugSections {
    DebugSections {
        tables: vec![
            (".debug_info".to_string(), vec![0xaa; 10]),
            (".debug_line".to_string(), vec![0xbb; 4]),
        ],
        reloc_tables: vec![("reloc..debug_info".to_string(), reloc_table)],
        linking: Some(linking()),
        code_start: 0,
        func_offsets: vec![0, 0x10],
        data_segment_offsets: vec![0x400],
    }
}

#[test]
fn symbol_table_is_read() {
    let syms = read_symbol_table(&linking()).unwrap();
    assert_eq!(syms, vec![Symbol::Function(1), Symbol::Data(0, 4)]);
}

#[test]
fn relocation_entries_are_read() {
    let rs = read_reloc_entries(&vec![0, 2, 8, 2, 0, 3, 0, 1, 0]).unwrap();
    assert_eq!(
        rs,
        vec![
            Reloc { kind: 8, offset: 2, symbol: 0, addend: 3 },
            Reloc { kind: 0, offset: 1, symbol: 0, addend: 0 },
        ]
    );
}

#[test]
fn function_offset_is_written_as_four_bytes() {
    let mut d = sections(vec![0, 1, 8, 2, 0, 3]);
    reloc(&mut d).unwrap();
    assert_eq!(d.tables[0].1, vec![0xaa, 0xaa, 0x13, 0, 0, 0, 0xaa, 0xaa, 0xaa, 0xaa]);
    assert_eq!(d.tables[1].1, vec![0xbb; 4]);
    assert_eq!(d.linking, None);
    assert!(d.reloc_tables.is_empty());
}

#[test]
fn data_address_is_written_as_padded_leb() {
    // kind 3, offset 1, symbol 1, addend -1 (0x7f)
    let mut d = sections(vec![0, 1, 3, 1, 1, 0x7f]);
    reloc(&mut d).unwrap();
    // 0x400 + 4 - 1 = 0x403
    assert_eq!(d.tables[0].1, vec![0xaa, 0x83, 0x88, 0x80, 0x80, 0x00, 0xaa, 0xaa, 0xaa, 0xaa]);
}

#[test]
fn zero_entries_leave_buffer_unchanged() {
    let mut d = sections(vec![0, 0]);
    reloc(&mut d).unwrap();
    assert_eq!(d.tables[0].1, vec![0xaa; 10]);
    assert_eq!(d.tables[1].1, vec![0xbb; 4]);
}

#[test]
fn second_run_is_refused() {
    let mut d = sections(vec![0, 1, 8, 2, 0, 3]);
    assert!(reloc(&mut d).is_ok());
    let after = d.tables.clone();
    assert_eq!(reloc(&mut d), Err(RelocError::MissingLinkingInfo));
    assert_eq!(d.tables, after);
}

#[test]
fn missing_linking_is_refused() {
    let mut d = sections(vec![0, 0]);
    d.linking = None;
    assert_eq!(reloc(&mut d), Err(RelocError::MissingLinkingInfo));
}

#[test]
fn function_index_out_of_range_is_refused() {
    let mut d = sections(vec![0, 1, 8, 2, 0, 3]);
    d.func_offsets = vec![0];
    assert_eq!(reloc(&mut d), Err(RelocError::SymbolOutOfRange));
}

#[test]
fn field_past_buffer_end_is_refused() {
    // a first entry that fits, then one past the end: nothing is patched
    let mut d = sections(vec![0, 2, 8, 2, 0, 3, 8, 8, 0, 0]);
    assert_eq!(reloc(&mut d), Err(RelocError::FieldOutOfRange));
    assert_eq!(d.tables[0].1, vec![0xaa; 10]);
    assert_eq!(d.linking, Some(linking()));
    assert_eq!(d.reloc_tables.len(), 1);
}

#[test]
fn unsupported_kind_is_refused() {
    let mut d = sections(vec![0, 1, 0, 2, 0]);
    assert_eq!(reloc(&mut d), Err(RelocError::UnsupportedRelocation));
}

#[test]
fn truncated_relocations_are_refused() {
    let mut d = sections(vec![0, 1, 8]);
    assert_eq!(reloc(&mut d), Err(RelocError::MalformedRelocations));
}

#[test]
fn truncated_linking_is_refused() {
    let mut d = sections(vec![0, 0]);
    d.linking = Some(vec![2, 8, 40, 1]);
    assert_eq!(reloc(&mut d), Err(RelocError::MalformedLinking));
}
