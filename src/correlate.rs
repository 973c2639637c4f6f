//! The source correlator: binds each call instruction to the debug row active
//! at its offset and cuts the source text that the row points at.
use vstd::prelude::*;

use crate::lines::DebugLocInfo;
use crate::sections::{body_operators, module_sections, operators_of, sections_of, Section, SectionError};
use crate::text::{chars_of, string_of, sub_chars};

verus! {

/// One row of the line table: code address, source id, line (1-based) and
/// column (1-based; 0 stands for the whole line).
#[derive(Clone, Copy, Debug, PartialEq, Eq, Structural)]
pub struct DebugRow {
    pub address: u64,
    pub source_id: usize,
    pub line: u64,
    pub column: u64,
}

/// An instruction as the correlator sees it: only calls are told apart.
#[derive(Clone, Copy, Debug, PartialEq, Eq, Structural)]
pub enum Instr {
    Call,
    CallIndirect,
    Other,
}

/// The instructions of one function body: the offset of its first instruction
/// and each instruction with its offset in the module.
pub struct BodyOps {
    pub start: usize,
    pub ops: Vec<(usize, Instr)>,
}

/// One call site and the source text it came from.
pub struct SourceMapEntry {
    pub address: usize,
    pub op: Instr,
    pub source_id: usize,
    pub line: u64,
    pub source_code: String,
}

/// An entry as (address, instruction, source id, line, text).
pub type EntryView = (usize, Instr, usize, u64, Seq<char>);

impl SourceMapEntry {
    pub open spec fn view_of(self) -> EntryView {
        (self.address, self.op, self.source_id, self.line, self.source_code@)
    }

    /// The mnemonic that the textual map prints for the instruction.
    pub fn op_name(&self) -> (r: &'static str)
        ensures
            self.op == Instr::Call ==> r@ == "Call"@,
            self.op == Instr::CallIndirect ==> r@ == "CallIndirect"@,
            self.op == Instr::Other ==> r@ == ""@,
    {
        proof {
            reveal_strlit("Call");
            reveal_strlit("CallIndirect");
            reveal_strlit("");
        }
        match self.op {
            Instr::Call => "Call",
            Instr::CallIndirect => "CallIndirect",
            Instr::Other => "",
        }
    }
}

pub open spec fn entries_view(v: Seq<SourceMapEntry>) -> Seq<EntryView> {
    v.map_values(|e: SourceMapEntry| e.view_of())
}

pub open spec fn body_view(b: BodyOps) -> (usize, Seq<(usize, Instr)>) {
    (b.start, b.ops@)
}

/// The lines of every source file, as characters.
pub open spec fn content_view(c: Seq<Vec<String>>) -> Seq<Seq<Seq<char>>> {
    c.map_values(|f: Vec<String>| f@.map_values(|s: String| s@))
}

/// The cursor moved from row `i` while the next row's address is at most `till`.
pub open spec fn advance(rows: Seq<DebugRow>, i: nat, till: int) -> nat
    decreases rows.len() - i,
{
    if i + 1 < rows.len() && rows[i as int + 1].address <= till {
        advance(rows, i + 1, till)
    } else {
        i
    }
}

/// The text that row `i` points at: the whole line for column 0; else from its
/// column up to the column of the next row when that row is on the same line
/// of the same file, or to the end of the line. `None` when the file, the
/// line or the columns fall outside the loaded source.
pub open spec fn row_text(rows: Seq<DebugRow>, i: nat, content: Seq<Seq<Seq<char>>>) -> Option<
    Seq<char>,
> {
    if i >= rows.len() {
        None
    } else {
        let r = rows[i as int];
        if r.source_id >= content.len() || r.line == 0 || r.line > content[r.source_id as int].len() {
            None
        } else {
            let l = content[r.source_id as int][r.line - 1];
            if r.column == 0 {
                Some(l)
            } else {
                let lo = r.column - 1;
                let hi = if i + 1 < rows.len() && rows[i as int + 1].source_id == r.source_id && rows[i as int + 1].line == r.line {
                    rows[i as int + 1].column - 1
                } else {
                    l.len() as int
                };
                if lo <= hi <= l.len() {
                    Some(l.subrange(lo, hi))
                } else {
                    None
                }
            }
        }
    }
}

pub open spec fn is_call(op: Instr) -> bool {
    op == Instr::Call || op == Instr::CallIndirect
}

/// Cursor and entries after one instruction.
pub open spec fn op_step(
    rows: Seq<DebugRow>,
    content: Seq<Seq<Seq<char>>>,
    st: (nat, Seq<EntryView>),
    op: (usize, Instr),
) -> (nat, Seq<EntryView>) {
    let i = advance(rows, st.0, op.0 as int);
    if is_call(op.1) {
        match row_text(rows, i, content) {
            Some(t) => (i, st.1.push((op.0, op.1, rows[i as int].source_id, rows[i as int].line, t))),
            None => (i, st.1),
        }
    } else {
        (i, st.1)
    }
}

/// Cursor and entries after the instructions `ops`, from state `st`.
pub open spec fn walk_ops(
    rows: Seq<DebugRow>,
    content: Seq<Seq<Seq<char>>>,
    st: (nat, Seq<EntryView>),
    ops: Seq<(usize, Instr)>,
) -> (nat, Seq<EntryView>)
    decreases ops.len(),
{
    if ops.len() == 0 {
        st
    } else {
        op_step(rows, content, walk_ops(rows, content, st, ops.drop_last()), ops.last())
    }
}

/// Cursor and entries after one function body: a body whose first instruction
/// does not move the cursor has no row of its own and is passed over.
pub open spec fn body_step(
    rows: Seq<DebugRow>,
    content: Seq<Seq<Seq<char>>>,
    st: (nat, Seq<EntryView>),
    b: (usize, Seq<(usize, Instr)>),
) -> (nat, Seq<EntryView>) {
    let j = advance(rows, st.0, b.0 as int);
    if j == st.0 {
        st
    } else {
        walk_ops(rows, content, (j, st.1), b.1)
    }
}

/// Cursor and entries after the function bodies `bodies`, in order.
pub open spec fn walk_bodies(
    rows: Seq<DebugRow>,
    content: Seq<Seq<Seq<char>>>,
    bodies: Seq<(usize, Seq<(usize, Instr)>)>,
) -> (nat, Seq<EntryView>)
    decreases bodies.len(),
{
    if bodies.len() == 0 {
        (0, Seq::empty())
    } else {
        body_step(rows, content, walk_bodies(rows, content, bodies.drop_last()), bodies.last())
    }
}

proof fn lemma_advance(rows: Seq<DebugRow>, i: nat, till: int)
    requires
        i < rows.len(),
    ensures
        i <= advance(rows, i, till) < rows.len(),
    decreases rows.len() - i,
{
    if i + 1 < rows.len() && rows[i as int + 1].address <= till {
        lemma_advance(rows, i + 1, till);
    }
}

/// Moves the cursor `i` forward while the next row's address is at most `till`.
fn move_forward(rows: &Vec<DebugRow>, i: usize, till: usize) -> (r: usize)
    requires
        i < rows@.len() || (i == 0 && rows@.len() == 0),
    ensures
        r == advance(rows@, i as nat, till as int),
        r < rows@.len() || (r == 0 && rows@.len() == 0),
{
    let mut j: usize = i;
    while rows.len() > 0 && j < rows.len() - 1 && rows[j + 1].address as u128 <= till as u128
        invariant
            i <= j,
            j < rows@.len() || (j == 0 && rows@.len() == 0),
            advance(rows@, j as nat, till as int) == advance(rows@, i as nat, till as int),
        decreases rows@.len() - j,
    {
        j = j + 1;
    }
    j
}

/// The text of row `i` (see `row_text`).
fn cut_text(rows: &Vec<DebugRow>, i: usize, content: &Vec<Vec<String>>) -> (r: Option<String>)
    requires
        i < rows@.len(),
    ensures
        r matches Some(s) ==> row_text(rows@, i as nat, content_view(content@)) == Some(s@),
        r is None ==> row_text(rows@, i as nat, content_view(content@)) is None,
{
    let row = rows[i];
    if row.source_id >= content.len() || row.line == 0 || row.line > content[row.source_id].len() as u64 {
        return None;
    }
    let file = &content[row.source_id];
    let ghost fv = content@[row.source_id as int]@.map_values(|s: String| s@);
    assert(content_view(content@)[row.source_id as int] == fv);
    let l = chars_of(file[(row.line - 1) as usize].as_str());
    assert(fv[row.line - 1] == l@);
    if row.column == 0 {
        return Some(string_of(&l));
    }
    let lo: u64 = row.column - 1;
    let same_line = i < rows.len() - 1 && rows[i + 1].source_id == row.source_id && rows[i + 1].line
        == row.line;
    if same_line && rows[i + 1].column == 0 {
        return None;
    }
    let hi: u64 = if same_line {
        rows[i + 1].column - 1
    } else {
        l.len() as u64
    };
    if lo <= hi && hi <= l.len() as u64 {
        Some(string_of(&sub_chars(&l, lo as usize, hi as usize)))
    } else {
        None
    }
}

/// Walks the function bodies in order with one cursor into the rows, which
/// only moves forward, and emits an entry for each call instruction whose row
/// has text (see `walk_bodies`).
pub fn correlate(rows: &Vec<DebugRow>, bodies: &Vec<BodyOps>, content: &Vec<Vec<String>>) -> (r:
    Vec<SourceMapEntry>)
    ensures
        entries_view(r@) == walk_bodies(
            rows@,
            content_view(content@),
            bodies@.map_values(|b: BodyOps| body_view(b)),
        ).1,
{
    let ghost cv = content_view(content@);
    let ghost bv = bodies@.map_values(|b: BodyOps| body_view(b));
    let mut out: Vec<SourceMapEntry> = Vec::new();
    let mut index: usize = 0;
    let mut k: usize = 0;
    while k < bodies.len()
        invariant
            k <= bodies@.len(),
            bv == bodies@.map_values(|b: BodyOps| body_view(b)),
            cv == content_view(content@),
            index < rows@.len() || (index == 0 && rows@.len() == 0),
            walk_bodies(rows@, cv, bv.take(k as int)) == (index as nat, entries_view(out@)),
        decreases bodies@.len() - k,
    {
        assert(bv.take(k + 1).drop_last() =~= bv.take(k as int));
        assert(bv.take(k + 1).last() == body_view(bodies@[k as int]));
        let body = &bodies[k];
        let new_index = move_forward(rows, index, body.start);
        if new_index != index {
            index = new_index;
            let ghost st0 = (index as nat, entries_view(out@));
            let mut m: usize = 0;
            while m < body.ops.len()
                invariant
                    m <= body.ops@.len(),
                    index < rows@.len(),
                    cv == content_view(content@),
                    walk_ops(rows@, cv, st0, body.ops@.take(m as int)) == (index as nat, entries_view(out@)),
                decreases body.ops@.len() - m,
            {
                assert(body.ops@.take(m + 1).drop_last() =~= body.ops@.take(m as int));
                let (offset, op) = body.ops[m];
                index = move_forward(rows, index, offset);
                if op == Instr::Call || op == Instr::CallIndirect {
                    match cut_text(rows, index, content) {
                        Some(text) => {
                            let e = SourceMapEntry {
                                address: offset,
                                op,
                                source_id: rows[index].source_id,
                                line: rows[index].line,
                                source_code: text,
                            };
                            out.push(e);
                            assert(entries_view(out@) =~= entries_view(out@.drop_last()).push(e.view_of()));
                        },
                        None => {},
                    }
                }
                m = m + 1;
            }
            assert(body.ops@.take(body.ops@.len() as int) =~= body.ops@);
        }
        k = k + 1;
    }
    assert(bv.take(bodies@.len() as int) =~= bv);
    out
}

} // verus!

verus! {

/// The function bodies of `wasm` as the module parser reads them: for each, the
/// offset of its first instruction and its instructions; `None` on a parse error.
pub open spec fn bodies_of_sections(wasm: Seq<u8>, secs: Seq<Section>) -> Option<
    Seq<(usize, Seq<(usize, Instr)>)>,
>
    decreases secs.len(),
{
    if secs.len() == 0 {
        Some(Seq::empty())
    } else {
        match bodies_of_sections(wasm, secs.drop_last()) {
            None => None,
            Some(bs) => match secs.last() {
                Section::Body(b, e) => if b <= e <= wasm.len() {
                    match operators_of(wasm, b, e) {
                        Some(ops) => Some(bs.push(ops)),
                        None => None,
                    }
                } else {
                    None
                },
                _ => Some(bs),
            },
        }
    }
}

pub open spec fn module_bodies(wasm: Seq<u8>) -> Option<Seq<(usize, Seq<(usize, Instr)>)>> {
    match sections_of(wasm) {
        None => None,
        Some(secs) => bodies_of_sections(wasm, secs),
    }
}

proof fn lemma_bodies_none(wasm: Seq<u8>, secs: Seq<Section>, k: int)
    requires
        0 <= k <= secs.len(),
        bodies_of_sections(wasm, secs.take(k)) is None,
    ensures
        bodies_of_sections(wasm, secs) is None,
    decreases secs.len() - k,
{
    if k < secs.len() {
        assert(secs.take(k + 1).drop_last() =~= secs.take(k));
        lemma_bodies_none(wasm, secs, k + 1);
    } else {
        assert(secs.take(k) =~= secs);
    }
}

/// Reads the function bodies of `wasm` (see `module_bodies`).
pub fn read_bodies(wasm: &[u8]) -> (r: Option<Vec<BodyOps>>)
    ensures
        r matches Some(v) ==> module_bodies(wasm@) == Some(v@.map_values(|b: BodyOps| body_view(b))),
        r is None ==> module_bodies(wasm@) is None,
{
    let secs = match module_sections(wasm) {
        Some(s) => s,
        None => return None,
    };
    let mut out: Vec<BodyOps> = Vec::new();
    let mut k: usize = 0;
    while k < secs.len()
        invariant
            k <= secs@.len(),
            sections_of(wasm@) == Some(secs@),
            bodies_of_sections(wasm@, secs@.take(k as int)) == Some(
                out@.map_values(|b: BodyOps| body_view(b)),
            ),
        decreases secs@.len() - k,
    {
        assert(secs@.take(k + 1).drop_last() =~= secs@.take(k as int));
        assert(secs@.take(k + 1).last() == secs@[k as int]);
        match &secs[k] {
            Section::Body(b, e) => {
                let ok = *b <= *e && *e <= wasm.len();
                let ops = if ok {
                    body_operators(wasm, *b, *e)
                } else {
                    None
                };
                match ops {
                    Some((start, ops)) => {
                        let ghost prev = out@.map_values(|b: BodyOps| body_view(b));
                        out.push(BodyOps { start, ops });
                        assert(out@.map_values(|b: BodyOps| body_view(b)) =~= prev.push((start, ops@)));
                    },
                    None => {
                        proof {
                            lemma_bodies_none(wasm@, secs@, k + 1);
                        }
                        return None;
                    },
                }
            },
            _ => {},
        }
        k = k + 1;
    }
    assert(secs@.take(secs@.len() as int) =~= secs@);
    Some(out)
}

/// Emits one entry per call instruction of `wasm` that the line table and the
/// loaded sources can place (see `correlate`); `Malformed` when the module
/// cannot be parsed.
pub fn map_source(wasm: &[u8], debug_info: &DebugLocInfo, sources_content: &Vec<Vec<String>>) -> (r:
    Result<Vec<SourceMapEntry>, SectionError>)
    ensures
        module_bodies(wasm@) is None ==> r == Err::<Vec<SourceMapEntry>, SectionError>(
            SectionError::Malformed,
        ),
        module_bodies(wasm@) matches Some(bs) ==> r matches Ok(v) && entries_view(v@) == walk_bodies(
            debug_info.locations@,
            content_view(sources_content@),
            bs,
        ).1,
{
    match read_bodies(wasm) {
        None => Err(SectionError::Malformed),
        Some(bodies) => Ok(correlate(&debug_info.locations, &bodies, sources_content)),
    }
}

/// The number of call instructions among `ops`.
pub open spec fn count_calls(ops: Seq<(usize, Instr)>) -> nat
    decreases ops.len(),
{
    if ops.len() == 0 {
        0
    } else {
        count_calls(ops.drop_last()) + if is_call(ops.last().1) {
            1nat
        } else {
            0nat
        }
    }
}

proof fn lemma_walk_ops_count(rows: Seq<DebugRow>, content: Seq<Seq<Seq<char>>>, st: (nat, Seq<EntryView>), ops: Seq<(usize, Instr)>)
    requires
        st.0 < rows.len(),
        forall|i: nat| i < rows.len() ==> (#[trigger] row_text(rows, i, content)) is Some,
    ensures
        walk_ops(rows, content, st, ops).0 < rows.len(),
        walk_ops(rows, content, st, ops).1.len() == st.1.len() + count_calls(ops),
    decreases ops.len(),
{
    if ops.len() > 0 {
        lemma_walk_ops_count(rows, content, st, ops.drop_last());
        let prev = walk_ops(rows, content, st, ops.drop_last());
        lemma_advance(rows, prev.0, ops.last().0 as int);
        let i = advance(rows, prev.0, ops.last().0 as int);
        assert(row_text(rows, i, content) is Some);
    }
}

/// The number of call instructions in all of `bodies`.
pub open spec fn count_calls_all(bodies: Seq<(usize, Seq<(usize, Instr)>)>) -> nat
    decreases bodies.len(),
{
    if bodies.len() == 0 {
        0
    } else {
        count_calls_all(bodies.drop_last()) + count_calls(bodies.last().1)
    }
}

/// One entry per call, over any number of function bodies: where the first
/// instruction of every body moves the cursor to a row of its own and every
/// row's text can be cut, the correlator emits exactly one entry for each call
/// instruction of the module and none for the other instructions.
pub proof fn lemma_entries_match_calls(rows: Seq<DebugRow>, content: Seq<Seq<Seq<char>>>, bodies: Seq<(usize, Seq<(usize, Instr)>)>)
    requires
        forall|i: nat| i < rows.len() ==> (#[trigger] row_text(rows, i, content)) is Some,
        forall|k: int|
            0 <= k < bodies.len() ==> advance(
                rows,
                walk_bodies(rows, content, bodies.take(k)).0,
                (#[trigger] bodies[k]).0 as int,
            ) != walk_bodies(rows, content, bodies.take(k)).0,
    ensures
        walk_bodies(rows, content, bodies).1.len() == count_calls_all(bodies),
        bodies.len() > 0 ==> walk_bodies(rows, content, bodies).0 < rows.len(),
    decreases bodies.len(),
{
    if bodies.len() > 0 {
        let init = bodies.drop_last();
        assert forall|k: int|
            0 <= k < init.len() implies advance(
                rows,
                walk_bodies(rows, content, init.take(k)).0,
                (#[trigger] init[k]).0 as int,
            ) != walk_bodies(rows, content, init.take(k)).0 by {
            assert(init.take(k) =~= bodies.take(k));
            assert(init[k] == bodies[k]);
        }
        lemma_entries_match_calls(rows, content, init);
        let n = init.len() as int;
        assert(bodies.take(n) =~= init);
        assert(bodies[n] == bodies.last());
        let st = walk_bodies(rows, content, init);
        let b = bodies.last();
        assert(advance(rows, st.0, b.0 as int) != st.0);
        if init.len() == 0 {
            assert(st.0 == 0);
            assert(rows.len() >= 2);
        }
        assert(st.0 < rows.len());
        lemma_advance(rows, st.0, b.0 as int);
        let j = advance(rows, st.0, b.0 as int);
        lemma_walk_ops_count(rows, content, (j, st.1), b.1);
    }
}

} // verus!
