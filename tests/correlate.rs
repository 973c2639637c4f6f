use wasm_dwarf::correlate::{correlate, map_source, read_bodies, BodyOps, DebugRow, Instr};
use wasm_dwarf::lines::DebugLocInfo;
use wasm_dwarf::report::report;
use wasm_dwarf::sections::SectionError;

fn row(address: u64, source_id: usize, line: u64, column: u64) -> DebugRow {
    DebugRow { address, source_id, line, column }
}

fn lines(text: &[&str]) -> Vec<String> {
    text.iter().map(|s| s.to_string()).collect()
}

// A module with one type, two functions; A (at index 0) calls B.
fn two_function_module() -> Vec<u8> {
    vec![
        0x00, 0x61, 0x73, 0x6d, 0x01, 0x00, 0x00, 0x00, // header
        0x01, 0x04, 0x01, 0x60, 0x00, 0x00, // type section
        0x03, 0x03, 0x02, 0x00, 0x00, // function section
        0x0a, 0x09, 0x02, // code section, two bodies
        0x04, 0x00, 0x10, 0x01, 0x0b, // A: call 1; end
        0x02, 0x00, 0x0b, // B: end
    ]
}

#[test]
fn same_line_rows_cut_between_columns() {
    let rows = vec![row(0, 0, 1, 0), row(10, 0, 1, 5), row(20, 0, 1, 9)];
    let bodies = vec![BodyOps { start: 10, ops: vec![(12, Instr::Call), (22, Instr::Call)] }];
    let content = vec![lines(&["foo(bar, baz)"])];
    let out = correlate(&rows, &bodies, &content);
    assert_eq!(out.len(), 2);
    // Columns 5 and 9 cut the 0-based slice [4, 8).
    assert_eq!(out[0].source_code, "bar,");
    assert_eq!(out[0].address, 12);
    assert_eq!(out[1].source_code, " baz)");
}

#[test]
fn column_zero_gives_whole_line() {
    let rows = vec![row(0, 0, 1, 0), row(4, 0, 2, 0)];
    let bodies = vec![BodyOps { start: 4, ops: vec![(5, Instr::CallIndirect)] }];
    let content = vec![lines(&["first", "  g(x);"])];
    let out = correlate(&rows, &bodies, &content);
    assert_eq!(out.len(), 1);
    assert_eq!(out[0].source_code, "  g(x);");
    assert_eq!(out[0].op, Instr::CallIndirect);
    assert_eq!(out[0].op_name(), "CallIndirect");
    assert_eq!(out[0].line, 2);
}

#[test]
fn n_calls_among_m_others_give_n_entries() {
    let rows = vec![row(0, 0, 1, 0), row(100, 0, 1, 0)];
    let mut ops = Vec::new();
    for k in 0..7usize {
        ops.push((101 + 2 * k, if k % 2 == 0 { Instr::Call } else { Instr::Other }));
    }
    ops.push((120, Instr::CallIndirect));
    let bodies = vec![BodyOps { start: 100, ops }];
    let content = vec![lines(&["x();"])];
    let out = correlate(&rows, &bodies, &content);
    assert_eq!(out.len(), 5);
}

#[test]
fn body_without_own_row_is_skipped() {
    let rows = vec![row(0, 0, 1, 0), row(10, 0, 1, 0)];
    let bodies = vec![
        BodyOps { start: 10, ops: vec![(11, Instr::Call)] },
        BodyOps { start: 30, ops: vec![(31, Instr::Call)] },
    ];
    let content = vec![lines(&["a();"])];
    let out = correlate(&rows, &bodies, &content);
    assert_eq!(out.len(), 1);
    assert_eq!(out[0].address, 11);
}

#[test]
fn stale_source_line_is_skipped() {
    let rows = vec![row(0, 0, 1, 0), row(10, 0, 7, 0)];
    let bodies = vec![BodyOps { start: 10, ops: vec![(11, Instr::Call)] }];
    let content = vec![lines(&["only one line"])];
    assert_eq!(correlate(&rows, &bodies, &content).len(), 0);
}

#[test]
fn column_past_line_end_is_skipped() {
    let rows = vec![row(0, 0, 1, 0), row(10, 0, 1, 40)];
    let bodies = vec![BodyOps { start: 10, ops: vec![(11, Instr::Call)] }];
    let content = vec![lines(&["short"])];
    assert_eq!(correlate(&rows, &bodies, &content).len(), 0);
}

#[test]
fn empty_rows_give_no_entries() {
    let bodies = vec![BodyOps { start: 10, ops: vec![(11, Instr::Call)] }];
    assert_eq!(correlate(&Vec::new(), &bodies, &Vec::new()).len(), 0);
}

#[test]
fn bodies_are_read_from_module() {
    let bodies = read_bodies(&two_function_module()).unwrap();
    assert_eq!(bodies.len(), 2);
    assert_eq!(bodies[0].start, 24);
    assert_eq!(bodies[0].ops, vec![(24, Instr::Call), (26, Instr::Other)]);
    assert_eq!(bodies[1].start, 29);
}

#[test]
fn end_to_end_call_maps_to_a_c_line_ten() {
    let wasm = two_function_module();
    let info = DebugLocInfo {
        locations: vec![row(0, 0, 1, 0), row(24, 0, 10, 5)],
        sources: vec!["a.c".to_string()],
    };
    let mut text: Vec<String> = (1..10).map(|i| format!("// line {}", i)).collect();
    text.push("int x = f(1);".to_string());
    let content = vec![text];
    let out = map_source(&wasm, &info, &content).unwrap();
    assert_eq!(out.len(), 1);
    assert_eq!(out[0].address, 24);
    assert_eq!(out[0].op, Instr::Call);
    assert_eq!(out[0].line, 10);
    assert_eq!(out[0].source_id, 0);
    assert_eq!(out[0].source_code, "x = f(1);");
    assert_eq!(
        report(&info.sources, &out),
        "source 0 a.c\nCall@24\tx = f(1);\t(a.c:10)\n"
    );
}

#[test]
fn report_lists_sources_then_entries() {
    let rows = vec![row(0, 0, 1, 0), row(10, 1, 3, 0), row(1234, 0, 12, 2)];
    let bodies = vec![BodyOps { start: 10, ops: vec![(11, Instr::CallIndirect), (1300, Instr::Call)] }];
    let mut a: Vec<String> = (0..12).map(|_| String::new()).collect();
    a[11] = "xy".to_string();
    let content = vec![a, lines(&["", "", "h();"])];
    let out = correlate(&rows, &bodies, &content);
    let sources = vec!["a.c".to_string(), "lib/b.c".to_string()];
    assert_eq!(
        report(&sources, &out),
        "source 0 a.c\nsource 1 lib/b.c\nCallIndirect@11\th();\t(lib/b.c:3)\nCall@1300\ty\t(a.c:12)\n"
    );
}

#[test]
fn malformed_module_is_refused() {
    let info = DebugLocInfo { locations: Vec::new(), sources: Vec::new() };
    let r = map_source(&[0x00, 0x61, 0x73], &info, &Vec::new());
    assert!(matches!(r, Err(SectionError::Malformed)));
}
