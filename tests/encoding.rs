use wasm_dwarf::leb::{convert_to_leb, read_var_i32, read_var_u32, write_fixed5};
use wasm_dwarf::prefix::PrefixReplacements;
use wasm_dwarf::sources::resolve_sources;
use wasm_dwarf::url_section::add_source_mapping_url_section;

#[test]
fn leb_encodes_shortest_form() {
    assert_eq!(convert_to_leb(0), vec![0]);
    assert_eq!(convert_to_leb(127), vec![0x7f]);
    assert_eq!(convert_to_leb(128), vec![0x80, 0x01]);
    assert_eq!(convert_to_leb(624485), vec![0xe5, 0x8e, 0x26]);
}

#[test]
fn leb_reads_padded_and_signed() {
    assert_eq!(read_var_u32(&vec![0xe5, 0x8e, 0x26, 9], 0), Some((624485, 3)));
    assert_eq!(read_var_u32(&vec![0x83, 0x80, 0x80, 0x80, 0x00], 0), Some((3, 5)));
    assert_eq!(read_var_u32(&vec![0x80, 0x80], 0), None);
    assert_eq!(read_var_u32(&vec![0xff, 0xff, 0xff, 0xff, 0x7f], 0), None);
    assert_eq!(read_var_i32(&vec![0x7f], 0), Some((-1, 1)));
    assert_eq!(read_var_i32(&vec![0x80, 0x7f], 0), Some((-128, 2)));
    assert_eq!(read_var_i32(&vec![0x3f], 0), Some((63, 1)));
}

#[test]
fn fixed_field_keeps_five_bytes() {
    let mut b = vec![9, 9, 9, 9, 9, 9, 9];
    write_fixed5(&mut b, 1, 1);
    assert_eq!(b, vec![9, 0x81, 0x80, 0x80, 0x80, 0x00, 9]);
}

#[test]
fn url_section_bytes() {
    let mut out = vec![0xff];
    add_source_mapping_url_section("x.map", &mut out);
    let mut expected = vec![0xff, 0, 23, 16];
    expected.extend_from_slice(b"sourceMappingURL");
    expected.push(5);
    expected.extend_from_slice(b"x.map");
    assert_eq!(out, expected);
}

#[test]
fn prefix_rules_parse_and_replace() {
    let rules = PrefixReplacements::parse(&vec!["/src=/home".to_string(), "/tmp".to_string()]);
    assert_eq!(
        rules.replacements,
        vec![("/src".to_string(), "/home".to_string()), ("/tmp".to_string(), String::new())]
    );
    assert_eq!(rules.replace(&"/src/a.c".to_string()), "/home/a.c");
    assert_eq!(rules.replace(&"/tmp/b.c".to_string()), "/b.c");
    assert_eq!(rules.replace(&"c.c".to_string()), "c.c");
    let mut paths = vec!["/src/x".to_string(), "y".to_string()];
    rules.replace_all(&mut paths);
    assert_eq!(paths, vec!["/home/x".to_string(), "y".to_string()]);
}

#[test]
fn first_rule_that_matches_wins() {
    let rules = PrefixReplacements::parse(&vec!["a=1".to_string(), "ab=2".to_string()]);
    assert_eq!(rules.replace(&"abc".to_string()), "1bc");
}

#[test]
fn sources_resolve_to_first_root() {
    let found = vec![vec![false, true, true], vec![true, false, false]];
    assert_eq!(resolve_sources(&found), Ok(vec![1, 0]));
}

#[test]
fn unresolved_source_aborts() {
    let found = vec![vec![true], vec![false, false], vec![false]];
    assert_eq!(resolve_sources(&found), Err(1));
}
