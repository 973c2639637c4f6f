use wasm_dwarf::sections::{
    classify, is_debug_section_name, is_linking_section_name, is_reloc_debug_section_name,
    is_source_mapping_section_name, DebugSections, SectionError, SectionKind,
};

fn header() -> Vec<u8> {
    vec![0x00, 0x61, 0x73, 0x6d, 0x01, 0x00, 0x00, 0x00]
}

fn custom(name: &str, data: &[u8]) -> Vec<u8> {
    let mut payload = vec![name.len() as u8];
    payload.extend_from_slice(name.as_bytes());
    payload.extend_from_slice(data);
    let mut s = vec![0x00, payload.len() as u8];
    s.extend(payload);
    s
}

#[test]
fn names_are_classified() {
    assert!(is_debug_section_name(".debug_info"));
    assert!(!is_debug_section_name("debug_info"));
    assert!(is_reloc_debug_section_name("reloc..debug_line"));
    assert!(!is_reloc_debug_section_name("reloc.CODE"));
    assert!(is_linking_section_name("linking"));
    assert!(!is_linking_section_name("linking2"));
    assert!(is_source_mapping_section_name("sourceMappingURL"));
    assert_eq!(classify(".debug_str"), SectionKind::Debug);
    assert_eq!(classify("reloc..debug_info"), SectionKind::RelocDebug);
    assert_eq!(classify("linking"), SectionKind::Linking);
    assert_eq!(classify("name"), SectionKind::Other);
}

#[test]
fn custom_sections_are_bucketed() {
    let mut wasm = header();
    wasm.extend(custom(".debug_info", &[1, 2, 3]));
    wasm.extend(custom("reloc..debug_info", &[4]));
    wasm.extend(custom("linking", &[2]));
    wasm.extend(custom("name", &[9]));
    wasm.extend(custom(".debug_info", &[7]));
    let d = DebugSections::read_sections(&wasm).unwrap();
    assert_eq!(d.tables, vec![(".debug_info".to_string(), vec![7])]);
    assert_eq!(d.reloc_tables, vec![("reloc..debug_info".to_string(), vec![4])]);
    assert_eq!(d.linking, Some(vec![2]));
}

#[test]
fn function_offsets_count_imports_and_bodies() {
    let mut wasm = header();
    wasm.extend([0x01, 0x04, 0x01, 0x60, 0x00, 0x00]);
    // import section: one function import "m"."f"
    wasm.extend([0x02, 0x07, 0x01, 0x01, b'm', 0x01, b'f', 0x00, 0x00]);
    wasm.extend([0x03, 0x02, 0x01, 0x00]);
    wasm.extend([0x0a, 0x04, 0x01, 0x02, 0x00, 0x0b]);
    let d = DebugSections::read_sections(&wasm).unwrap();
    assert_eq!(d.code_start, 29);
    assert_eq!(d.func_offsets, vec![0, 2]);
}

#[test]
fn constant_data_segment_offset_is_recorded() {
    let mut wasm = header();
    wasm.extend([0x0b, 0x07, 0x01, 0x00, 0x41, 0x80, 0x08, 0x0b, 0x00]);
    let d = DebugSections::read_sections(&wasm).unwrap();
    assert_eq!(d.data_segment_offsets, vec![1024]);
}

#[test]
fn non_constant_data_segment_offset_is_refused() {
    let mut wasm = header();
    wasm.extend([0x0b, 0x06, 0x01, 0x00, 0x23, 0x00, 0x0b, 0x00]);
    let r = DebugSections::read_sections(&wasm);
    assert!(matches!(r, Err(SectionError::UnsupportedInitExpr)));
}

#[test]
fn truncated_module_is_malformed() {
    let r = DebugSections::read_sections(&[0x00, 0x61]);
    assert!(matches!(r, Err(SectionError::Malformed)));
}
