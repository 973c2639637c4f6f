//! The section extractor: one pass over the module that sorts its custom
//! sections and records code, function and data-segment offsets.
use vstd::prelude::*;

use crate::correlate::Instr;
use crate::text::chars_of;
use wasmparser::Payload;

verus! {

/// A section of the module as the extractor sees it; ranges are byte offsets
/// into the module.
#[derive(Debug)]
pub enum Section {
    Custom(String, Vec<u8>),
    CodeStart(usize),
    Body(usize, usize),
    Imports(usize, usize),
    Data(usize, usize),
    Other,
}

/// The offset expression of a data segment: only a constant can be resolved.
#[derive(Clone, Copy, Debug, PartialEq, Eq, Structural)]
pub enum InitOp {
    I32Const(i32),
    Other,
}

/// A data segment: passive, or active at the offset its expression gives.
#[derive(Clone, Copy, Debug, PartialEq, Eq, Structural)]
pub enum Segment {
    Passive,
    Active(InitOp),
}

/// Why a module could not be read.
#[derive(Clone, Copy, Debug, PartialEq, Eq, Structural)]
pub enum SectionError {
    Malformed,
    UnsupportedInitExpr,
}

/// The sections that the module parser reads from a module, in order.
pub uninterp spec fn sections_of(wasm: Seq<u8>) -> Option<Seq<Section>>;

/// For each import in the import section at `start..end`, whether it imports a function.
pub uninterp spec fn imports_of(wasm: Seq<u8>, start: usize, end: usize) -> Option<Seq<bool>>;

/// The data segments of the data section at `start..end`.
pub uninterp spec fn segments_of(wasm: Seq<u8>, start: usize, end: usize) -> Option<Seq<Segment>>;

/// The offset of the first instruction of the function body at `start..end`,
/// and each of its instructions with its offset.
pub uninterp spec fn operators_of(wasm: Seq<u8>, start: usize, end: usize) -> Option<
    (usize, Seq<(usize, Instr)>),
>;

/// Relies on `wasmparser::Parser::parse_all`: the module's sections in order,
/// custom ones with their name and contents, code bodies, import and data
/// sections by their ranges; `None` on a parse error.
#[verifier::external_body]
pub(crate) fn module_sections(wasm: &[u8]) -> (r: Option<Vec<Section>>)
    ensures
        r matches Some(v) ==> sections_of(wasm@) == Some(v@),
        r is None ==> sections_of(wasm@) is None,
{
    let mut out = Vec::new();
    for payload in wasmparser::Parser::new(0).parse_all(wasm) {
        out.push(match payload.ok()? {
            Payload::CustomSection(r) => Section::Custom(r.name().to_string(), r.data().to_vec()),
            Payload::CodeSectionStart { range, .. } => Section::CodeStart(range.start),
            Payload::CodeSectionEntry(body) => Section::Body(body.range().start, body.range().end),
            Payload::ImportSection(r) => Section::Imports(r.range().start, r.range().end),
            Payload::DataSection(r) => Section::Data(r.range().start, r.range().end),
            _ => Section::Other,
        });
    }
    Some(out)
}

/// Relies on `wasmparser::ImportSectionReader`: for each import, whether its
/// type is a function; `None` on a parse error.
#[verifier::external_body]
fn import_kinds(wasm: &[u8], start: usize, end: usize) -> (r: Option<Vec<bool>>)
    requires
        start <= end <= wasm@.len(),
    ensures
        r matches Some(v) ==> imports_of(wasm@, start, end) == Some(v@),
        r is None ==> imports_of(wasm@, start, end) is None,
{
    let reader = wasmparser::ImportSectionReader::new(&wasm[start..end], start).ok()?;
    let mut out = Vec::new();
    for import in reader {
        out.push(matches!(import.ok()?.ty, wasmparser::TypeRef::Func(_)));
    }
    Some(out)
}

/// Relies on `wasmparser::DataSectionReader` and `ConstExpr::get_operators_reader`:
/// each segment, and for an active one the first operator of its offset
/// expression; `None` on a parse error.
#[verifier::external_body]
fn data_segments(wasm: &[u8], start: usize, end: usize) -> (r: Option<Vec<Segment>>)
    requires
        start <= end <= wasm@.len(),
    ensures
        r matches Some(v) ==> segments_of(wasm@, start, end) == Some(v@),
        r is None ==> segments_of(wasm@, start, end) is None,
{
    let reader = wasmparser::DataSectionReader::new(&wasm[start..end], start).ok()?;
    let mut out = Vec::new();
    for data in reader {
        out.push(match data.ok()?.kind {
            wasmparser::DataKind::Passive => Segment::Passive,
            wasmparser::DataKind::Active { offset_expr, .. } => Segment::Active(
                match offset_expr.get_operators_reader().read().ok()? {
                    wasmparser::Operator::I32Const { value } => InitOp::I32Const(value),
                    _ => InitOp::Other,
                },
            ),
        });
    }
    Some(out)
}

/// Relies on `wasmparser::FunctionBody::get_operators_reader`: where the
/// instructions of the body at `start..end` begin, and each instruction with
/// its offset, calls told apart; `None` on a parse error.
#[verifier::external_body]
pub(crate) fn body_operators(wasm: &[u8], start: usize, end: usize) -> (r: Option<
    (usize, Vec<(usize, Instr)>),
>)
    requires
        start <= end <= wasm@.len(),
    ensures
        r matches Some(p) ==> operators_of(wasm@, start, end) == Some((p.0, p.1@)),
        r is None ==> operators_of(wasm@, start, end) is None,
{
    let reader = wasmparser::FunctionBody::new(start, &wasm[start..end]).get_operators_reader().ok()?;
    let first = reader.original_position();
    let mut ops = Vec::new();
    for pair in reader.into_iter_with_offsets() {
        let (op, offset) = pair.ok()?;
        ops.push((offset, match op {
            wasmparser::Operator::Call { .. } => Instr::Call,
            wasmparser::Operator::CallIndirect { .. } => Instr::CallIndirect,
            _ => Instr::Other,
        }));
    }
    Some((first, ops))
}

} // verus!

verus! {

/// What the extractor does with a custom section, by its name.
#[derive(Clone, Copy, Debug, PartialEq, Eq, Structural)]
pub enum SectionKind {
    Debug,
    RelocDebug,
    Linking,
    SourceMapping,
    Other,
}

pub open spec fn debug_prefix() -> Seq<char> {
    seq!['.', 'd', 'e', 'b', 'u', 'g', '_']
}

pub open spec fn reloc_debug_prefix() -> Seq<char> {
    seq!['r', 'e', 'l', 'o', 'c', '.', '.', 'd', 'e', 'b', 'u', 'g', '_']
}

pub open spec fn linking_name() -> Seq<char> {
    seq!['l', 'i', 'n', 'k', 'i', 'n', 'g']
}

pub open spec fn source_mapping_name() -> Seq<char> {
    seq!['s', 'o', 'u', 'r', 'c', 'e', 'M', 'a', 'p', 'p', 'i', 'n', 'g', 'U', 'R', 'L']
}

/// The kind of the custom section named `name`; a debug name is tested first.
pub open spec fn section_kind(name: Seq<char>) -> SectionKind {
    if debug_prefix().is_prefix_of(name) {
        SectionKind::Debug
    } else if reloc_debug_prefix().is_prefix_of(name) {
        SectionKind::RelocDebug
    } else if name == linking_name() {
        SectionKind::Linking
    } else if name == source_mapping_name() {
        SectionKind::SourceMapping
    } else {
        SectionKind::Other
    }
}

/// Whether `name` is that of a relocation table for a debug section.
pub fn is_reloc_debug_section_name(name: &str) -> (r: bool)
    ensures
        r == reloc_debug_prefix().is_prefix_of(name@),
{
    let p: Vec<char> = vec!['r', 'e', 'l', 'o', 'c', '.', '.', 'd', 'e', 'b', 'u', 'g', '_'];
    assert(p@ =~= reloc_debug_prefix());
    crate::text::starts_with_chars(&chars_of(name), &p)
}

/// Whether `name` is that of a debug section.
pub fn is_debug_section_name(name: &str) -> (r: bool)
    ensures
        r == debug_prefix().is_prefix_of(name@),
{
    let p: Vec<char> = vec!['.', 'd', 'e', 'b', 'u', 'g', '_'];
    assert(p@ =~= debug_prefix());
    crate::text::starts_with_chars(&chars_of(name), &p)
}

/// Whether `name` is that of the linking section.
pub fn is_linking_section_name(name: &str) -> (r: bool)
    ensures
        r == (name@ == linking_name()),
{
    let p: Vec<char> = vec!['l', 'i', 'n', 'k', 'i', 'n', 'g'];
    assert(p@ =~= linking_name());
    crate::text::eq_chars(&chars_of(name), &p)
}

/// Whether `name` is that of the source-mapping URL section.
pub fn is_source_mapping_section_name(name: &str) -> (r: bool)
    ensures
        r == (name@ == source_mapping_name()),
{
    let p: Vec<char> = vec!['s', 'o', 'u', 'r', 'c', 'e', 'M', 'a', 'p', 'p', 'i', 'n', 'g', 'U', 'R', 'L'];
    assert(p@ =~= source_mapping_name());
    crate::text::eq_chars(&chars_of(name), &p)
}

/// Sorts a custom section by its name.
pub fn classify(name: &str) -> (r: SectionKind)
    ensures
        r == section_kind(name@),
{
    if is_debug_section_name(name) {
        SectionKind::Debug
    } else if is_reloc_debug_section_name(name) {
        SectionKind::RelocDebug
    } else if is_linking_section_name(name) {
        SectionKind::Linking
    } else if is_source_mapping_section_name(name) {
        SectionKind::SourceMapping
    } else {
        SectionKind::Other
    }
}

/// A table of named byte buffers.
pub type Table = Seq<(Seq<char>, Seq<u8>)>;

pub open spec fn table_view(t: Seq<(String, Vec<u8>)>) -> Table {
    t.map_values(|e: (String, Vec<u8>)| (e.0@, e.1@))
}

/// Index of the first entry named `k`, or the table's length.
pub open spec fn key_index(t: Table, k: Seq<char>) -> nat
    decreases t.len(),
{
    if t.len() == 0 {
        0
    } else if t[0].0 == k {
        0
    } else {
        1 + key_index(t.drop_first(), k)
    }
}

/// The table with the buffer named `k` set to `d`: replaced where the name is
/// there, added at the end where it is not.
pub open spec fn put(t: Table, k: Seq<char>, d: Seq<u8>) -> Table {
    let i = key_index(t, k);
    if i < t.len() {
        t.update(i as int, (k, d))
    } else {
        t.push((k, d))
    }
}

pub(crate) proof fn lemma_key_index(t: Table, k: Seq<char>)
    ensures
        key_index(t, k) <= t.len(),
        key_index(t, k) < t.len() ==> t[key_index(t, k) as int].0 == k,
        forall|j: int| 0 <= j < key_index(t, k) ==> t[j].0 != k,
    decreases t.len(),
{
    if t.len() > 0 && t[0].0 != k {
        lemma_key_index(t.drop_first(), k);
        assert forall|j: int| 0 <= j < key_index(t, k) implies t[j].0 != k by {
            if j > 0 {
                assert(t[j] == t.drop_first()[j - 1]);
            }
        }
    }
}

/// No two buffers of `t` share a name.
pub open spec fn names_unique(t: Table) -> bool {
    forall|i: int, j: int| 0 <= i < j < t.len() ==> t[i].0 != t[j].0
}

proof fn lemma_put_unique(t: Table, k: Seq<char>, d: Seq<u8>)
    requires
        names_unique(t),
    ensures
        names_unique(put(t, k, d)),
{
    lemma_key_index(t, k);
    let p = put(t, k, d);
    assert forall|i: int, j: int| 0 <= i < j < p.len() implies p[i].0 != p[j].0 by {
        if key_index(t, k) < t.len() {
            assert(p[i].0 == t[i].0 && p[j].0 == t[j].0);
        } else if j == t.len() {
            assert(p[i] == t[i]);
        } else {
            assert(p[i] == t[i] && p[j] == t[j]);
        }
    }
}

fn put_table(t: &mut Vec<(String, Vec<u8>)>, name: String, data: Vec<u8>)
    ensures
        table_view(final(t)@) == put(table_view(old(t)@), name@, data@),
{
    let ghost tv = table_view(t@);
    proof {
        lemma_key_index(tv, name@);
    }
    let mut i: usize = 0;
    while i < t.len()
        invariant
            i <= t@.len(),
            t@ == old(t)@,
            tv == table_view(t@),
            i <= key_index(tv, name@),
            key_index(tv, name@) <= tv.len(),
            key_index(tv, name@) < tv.len() ==> tv[key_index(tv, name@) as int].0 == name@,
            forall|j: int| 0 <= j < key_index(tv, name@) ==> tv[j].0 != name@,
        decreases t@.len() - i,
    {
        assert(tv[i as int].0 == t@[i as int].0@);
        if t[i].0 == name {
            assert(i == key_index(tv, name@));
            t.set(i, (name, data));
            assert(table_view(t@) =~= put(tv, name@, data@));
            return;
        }
        i = i + 1;
    }
    t.push((name, data));
    assert(table_view(t@) =~= put(tv, name@, data@));
}

/// The extractor's result as plain values.
pub struct SectionsView {
    pub tables: Table,
    pub reloc_tables: Table,
    pub linking: Option<Seq<u8>>,
    pub code_start: usize,
    pub func_offsets: Seq<usize>,
    pub data_segment_offsets: Seq<u32>,
}

/// The debug buffers of a module and the offsets that relocation needs.
pub struct DebugSections {
    pub tables: Vec<(String, Vec<u8>)>,
    pub reloc_tables: Vec<(String, Vec<u8>)>,
    pub linking: Option<Vec<u8>>,
    pub code_start: usize,
    pub func_offsets: Vec<usize>,
    pub data_segment_offsets: Vec<u32>,
}

pub open spec fn opt_bytes(o: Option<Vec<u8>>) -> Option<Seq<u8>> {
    match o {
        Some(v) => Some(v@),
        None => None,
    }
}

impl DebugSections {
    pub open spec fn view_of(&self) -> SectionsView {
        SectionsView {
            tables: table_view(self.tables@),
            reloc_tables: table_view(self.reloc_tables@),
            linking: opt_bytes(self.linking),
            code_start: self.code_start,
            func_offsets: self.func_offsets@,
            data_segment_offsets: self.data_segment_offsets@,
        }
    }
}

pub open spec fn empty_view() -> SectionsView {
    SectionsView {
        tables: Seq::empty(),
        reloc_tables: Seq::empty(),
        linking: None,
        code_start: 0,
        func_offsets: Seq::empty(),
        data_segment_offsets: Seq::empty(),
    }
}

/// One `0` offset for each imported function.
pub open spec fn import_zeros(ks: Seq<bool>) -> Seq<usize>
    decreases ks.len(),
{
    if ks.len() == 0 {
        Seq::empty()
    } else if ks.last() {
        import_zeros(ks.drop_last()).push(0)
    } else {
        import_zeros(ks.drop_last())
    }
}

/// The offsets of the active segments, in order; `None` when one of them has an
/// offset expression other than a constant.
pub open spec fn segment_offsets(segs: Seq<Segment>) -> Option<Seq<u32>>
    decreases segs.len(),
{
    if segs.len() == 0 {
        Some(Seq::empty())
    } else {
        match segment_offsets(segs.drop_last()) {
            None => None,
            Some(o) => match segs.last() {
                Segment::Passive => Some(o),
                Segment::Active(InitOp::I32Const(v)) => Some(o.push(v as u32)),
                Segment::Active(InitOp::Other) => None,
            },
        }
    }
}

/// The extractor's state after one more section of `wasm`.
pub open spec fn section_step(wasm: Seq<u8>, st: Result<SectionsView, SectionError>, s: Section) -> Result<
    SectionsView,
    SectionError,
> {
    match st {
        Err(e) => Err(e),
        Ok(v) => match s {
            Section::Custom(name, data) => match section_kind(name@) {
                SectionKind::Debug => Ok(SectionsView { tables: put(v.tables, name@, data@), ..v }),
                SectionKind::RelocDebug => Ok(
                    SectionsView { reloc_tables: put(v.reloc_tables, name@, data@), ..v },
                ),
                SectionKind::Linking => Ok(SectionsView { linking: Some(data@), ..v }),
                _ => Ok(v),
            },
            Section::CodeStart(c) => Ok(SectionsView { code_start: c, ..v }),
            Section::Body(b, _) => if b < v.code_start {
                Err(SectionError::Malformed)
            } else {
                Ok(SectionsView { func_offsets: v.func_offsets.push((b - v.code_start) as usize), ..v })
            },
            Section::Imports(b, e) => if !(b <= e <= wasm.len()) {
                Err(SectionError::Malformed)
            } else {
                match imports_of(wasm, b, e) {
                    None => Err(SectionError::Malformed),
                    Some(ks) => Ok(SectionsView { func_offsets: v.func_offsets + import_zeros(ks), ..v }),
                }
            },
            Section::Data(b, e) => if !(b <= e <= wasm.len()) {
                Err(SectionError::Malformed)
            } else {
                match segments_of(wasm, b, e) {
                    None => Err(SectionError::Malformed),
                    Some(segs) => match segment_offsets(segs) {
                        None => Err(SectionError::UnsupportedInitExpr),
                        Some(o) => Ok(
                            SectionsView { data_segment_offsets: v.data_segment_offsets + o, ..v },
                        ),
                    },
                }
            },
            Section::Other => Ok(v),
        },
    }
}

/// The extractor's state after the sections `secs`, in order.
pub open spec fn collect_sections(wasm: Seq<u8>, secs: Seq<Section>) -> Result<SectionsView, SectionError>
    decreases secs.len(),
{
    if secs.len() == 0 {
        Ok(empty_view())
    } else {
        section_step(wasm, collect_sections(wasm, secs.drop_last()), secs.last())
    }
}

/// What `read_sections` gives for the module `wasm`.
pub open spec fn read_sections_spec(wasm: Seq<u8>) -> Result<SectionsView, SectionError> {
    match sections_of(wasm) {
        None => Err(SectionError::Malformed),
        Some(secs) => collect_sections(wasm, secs),
    }
}

fn push_import_zeros(offsets: &mut Vec<usize>, ks: &Vec<bool>)
    ensures
        final(offsets)@ == old(offsets)@ + import_zeros(ks@),
{
    let mut i: usize = 0;
    while i < ks.len()
        invariant
            i <= ks@.len(),
            offsets@ == old(offsets)@ + import_zeros(ks@.take(i as int)),
        decreases ks@.len() - i,
    {
        assert(ks@.take(i + 1).drop_last() =~= ks@.take(i as int));
        if ks[i] {
            offsets.push(0);
        }
        i = i + 1;
    }
    assert(ks@.take(ks@.len() as int) =~= ks@);
}

fn push_segment_offsets(offsets: &mut Vec<u32>, segs: &Vec<Segment>) -> (r: bool)
    ensures
        r == segment_offsets(segs@) is Some,
        r ==> final(offsets)@ == old(offsets)@ + segment_offsets(segs@)->Some_0,
{
    let mut i: usize = 0;
    while i < segs.len()
        invariant
            i <= segs@.len(),
            segment_offsets(segs@.take(i as int)) is Some,
            offsets@ == old(offsets)@ + segment_offsets(segs@.take(i as int))->Some_0,
        decreases segs@.len() - i,
    {
        assert(segs@.take(i + 1).drop_last() =~= segs@.take(i as int));
        match segs[i] {
            Segment::Passive => {},
            Segment::Active(InitOp::I32Const(v)) => {
                offsets.push(v as u32);
            },
            Segment::Active(InitOp::Other) => {
                proof {
                    lemma_segment_offsets_none(segs@, i as int + 1);
                }
                return false;
            },
        }
        i = i + 1;
    }
    assert(segs@.take(segs@.len() as int) =~= segs@);
    true
}

proof fn lemma_segment_offsets_none(segs: Seq<Segment>, k: int)
    requires
        0 <= k <= segs.len(),
        segment_offsets(segs.take(k)) is None,
    ensures
        segment_offsets(segs) is None,
    decreases segs.len() - k,
{
    if k < segs.len() {
        assert(segs.take(k + 1).drop_last() =~= segs.take(k));
        lemma_segment_offsets_none(segs, k + 1);
    } else {
        assert(segs.take(k) =~= segs);
    }
}

proof fn lemma_collect_err(wasm: Seq<u8>, secs: Seq<Section>, k: int, e: SectionError)
    requires
        0 <= k <= secs.len(),
        collect_sections(wasm, secs.take(k)) == Err::<SectionsView, SectionError>(e),
    ensures
        collect_sections(wasm, secs) == Err::<SectionsView, SectionError>(e),
    decreases secs.len() - k,
{
    if k < secs.len() {
        assert(secs.take(k + 1).drop_last() =~= secs.take(k));
        lemma_collect_err(wasm, secs, k + 1, e);
    } else {
        assert(secs.take(k) =~= secs);
    }
}

impl DebugSections {
    /// Reads the module once: custom sections are sorted by name (debug
    /// buffers, their relocation tables, the linking buffer), and the code
    /// section's start, each function's offset from it (an imported function
    /// counts as offset 0) and each active data segment's constant offset are
    /// recorded.
    pub fn read_sections(wasm: &[u8]) -> (r: Result<DebugSections, SectionError>)
        ensures
            r matches Ok(d) ==> read_sections_spec(wasm@) == Ok::<SectionsView, SectionError>(d.view_of()),
            r matches Ok(d) ==> names_unique(table_view(d.tables@)) && names_unique(table_view(d.reloc_tables@)),
            r matches Err(e) ==> read_sections_spec(wasm@) == Err::<SectionsView, SectionError>(e),
    {
        let secs = match module_sections(wasm) {
            Some(s) => s,
            None => return Err(SectionError::Malformed),
        };
        let mut d = DebugSections {
            tables: Vec::new(),
            reloc_tables: Vec::new(),
            linking: None,
            code_start: 0,
            func_offsets: Vec::new(),
            data_segment_offsets: Vec::new(),
        };
        assert(d.view_of() == empty_view()) by {
            assert(table_view(d.tables@) =~= Seq::empty());
            assert(table_view(d.reloc_tables@) =~= Seq::empty());
        }
        let mut k: usize = 0;
        while k < secs.len()
            invariant
                k <= secs@.len(),
                sections_of(wasm@) == Some(secs@),
                collect_sections(wasm@, secs@.take(k as int)) == Ok::<SectionsView, SectionError>(d.view_of()),
                names_unique(table_view(d.tables@)),
                names_unique(table_view(d.reloc_tables@)),
            decreases secs@.len() - k,
        {
            assert(secs@.take(k + 1).drop_last() =~= secs@.take(k as int));
            assert(secs@.take(k + 1).last() == secs@[k as int]);
            let ghost before = d.view_of();
            let mut failed: Option<SectionError> = None;
            match &secs[k] {
                Section::Custom(name, data) => {
                    match classify(name.as_str()) {
                        SectionKind::Debug => {
                            proof {
                                lemma_put_unique(table_view(d.tables@), name@, data@);
                            }
                            put_table(&mut d.tables, name.clone(), data.clone());
                        },
                        SectionKind::RelocDebug => {
                            proof {
                                lemma_put_unique(table_view(d.reloc_tables@), name@, data@);
                            }
                            put_table(&mut d.reloc_tables, name.clone(), data.clone());
                        },
                        SectionKind::Linking => {
                            d.linking = Some(data.clone());
                        },
                        _ => {},
                    }
                },
                Section::CodeStart(c) => {
                    d.code_start = *c;
                },
                Section::Body(b, _) => {
                    if *b < d.code_start {
                        failed = Some(SectionError::Malformed);
                    } else {
                        d.func_offsets.push(*b - d.code_start);
                    }
                },
                Section::Imports(b, e) => {
                    if !(*b <= *e && *e <= wasm.len()) {
                        failed = Some(SectionError::Malformed);
                    } else {
                        match import_kinds(wasm, *b, *e) {
                            None => {
                                failed = Some(SectionError::Malformed);
                            },
                            Some(ks) => {
                                push_import_zeros(&mut d.func_offsets, &ks);
                            },
                        }
                    }
                },
                Section::Data(b, e) => {
                    if !(*b <= *e && *e <= wasm.len()) {
                        failed = Some(SectionError::Malformed);
                    } else {
                        match data_segments(wasm, *b, *e) {
                            None => {
                                failed = Some(SectionError::Malformed);
                            },
                            Some(segs) => {
                                if !push_segment_offsets(&mut d.data_segment_offsets, &segs) {
                                    failed = Some(SectionError::UnsupportedInitExpr);
                                }
                            },
                        }
                    }
                },
                Section::Other => {},
            }
            if let Some(e) = failed {
                proof {
                    lemma_collect_err(wasm@, secs@, k + 1, e);
                }
                return Err(e);
            }
            assert(collect_sections(wasm@, secs@.take(k + 1)) == Ok::<SectionsView, SectionError>(d.view_of()));
            k = k + 1;
        }
        assert(secs@.take(secs@.len() as int) =~= secs@);
        Ok(d)
    }
}

/// `s` is a data section that parses and holds an active segment whose offset
/// expression is not a constant.
pub open spec fn non_constant_data(wasm: Seq<u8>, s: Section) -> bool {
    match s {
        Section::Data(b, e) => b <= e <= wasm.len() && match segments_of(wasm, b, e) {
            Some(segs) => segment_offsets(segs) is None,
            None => false,
        },
        _ => false,
    }
}

/// A data segment whose offset is not a constant aborts the read: where every
/// section before the data section at `k` is read without error, and that
/// data section parses but holds an active segment with another offset
/// expression, `read_sections` fails with `UnsupportedInitExpr`, and no
/// sections are handed on.
pub proof fn lemma_non_constant_offset_refused(wasm: Seq<u8>, k: int)
    requires
        sections_of(wasm) is Some,
        0 <= k < sections_of(wasm)->Some_0.len(),
        collect_sections(wasm, sections_of(wasm)->Some_0.take(k)) is Ok,
        non_constant_data(wasm, sections_of(wasm)->Some_0[k]),
    ensures
        read_sections_spec(wasm) == Err::<SectionsView, SectionError>(SectionError::UnsupportedInitExpr),
{
    let secs = sections_of(wasm)->Some_0;
    assert(secs.take(k + 1).drop_last() =~= secs.take(k));
    assert(secs.take(k + 1).last() == secs[k]);
    lemma_collect_err(wasm, secs, k + 1, SectionError::UnsupportedInitExpr);
}

} // verus!
