//! The line-table extractor: rows of the DWARF line programs, with file
//! names interned into one list of source paths.
use vstd::prelude::*;

use crate::correlate::DebugRow;
use crate::sections::{table_view, DebugSections, Table};
use crate::text::{chars_of, eq_chars, string_of};
use gimli::{ColumnType, DebugInfoOffset, Dwarf, EndianSlice, LineInstruction, LittleEndian};

verus! {

/// The line table of a module: rows by ascending address, and the source
/// paths that their ids index.
pub struct DebugLocInfo {
    pub locations: Vec<DebugRow>,
    pub sources: Vec<String>,
}

proof fn lemma_units_none(t: Table, units: Seq<usize>, k: int)
    requires
        0 <= k <= units.len(),
        rows_of_units(t, units.take(k)) is None,
    ensures
        rows_of_units(t, units) is None,
    decreases units.len() - k,
{
    if k < units.len() {
        assert(units.take(k + 1).drop_last() =~= units.take(k));
        lemma_units_none(t, units, k + 1);
    } else {
        assert(units.take(k) =~= units);
    }
}

fn no_min_advance(adv: &Vec<i64>) -> (r: bool)
    ensures
        r == advances_ok(adv@),
{
    let mut m: usize = 0;
    while m < adv.len()
        invariant
            m <= adv@.len(),
            forall|i: int| 0 <= i < m ==> adv@[i] != i64::MIN,
        decreases adv@.len() - m,
    {
        if adv[m] == i64::MIN {
            return false;
        }
        m = m + 1;
    }
    true
}

/// Every row of every unit's line program, tagged with its unit (see `dwarf_rows_of`).
fn dwarf_rows(t: &Vec<(String, Vec<u8>)>) -> (r: Option<Vec<RawRow>>)
    ensures
        r matches Some(v) ==> dwarf_rows_of(table_view(t@)) == Some(v@),
        r is None ==> dwarf_rows_of(table_view(t@)) is None,
{
    let units = match unit_offsets(t) {
        Some(u) => u,
        None => return None,
    };
    let ghost tv = table_view(t@);
    let mut out: Vec<RawRow> = Vec::new();
    let mut k: usize = 0;
    while k < units.len()
        invariant
            k <= units@.len(),
            tv == table_view(t@),
            units_of(tv) == Some(units@),
            rows_of_units(tv, units@.take(k as int)) == Some(out@),
        decreases units@.len() - k,
    {
        assert(units@.take(k + 1).drop_last() =~= units@.take(k as int));
        assert(units@.take(k + 1).last() == units@[k as int]);
        let u = units[k];
        let with_program = match has_line_program(t, u) {
            Some(b) => b,
            None => {
                proof {
                    lemma_units_none(tv, units@, k + 1);
                }
                return None;
            },
        };
        if with_program {
            let adv = match line_advances(t, u) {
                Some(a) => a,
                None => {
                    proof {
                        lemma_units_none(tv, units@, k + 1);
                    }
                    return None;
                },
            };
            if !no_min_advance(&adv) {
                proof {
                    lemma_units_none(tv, units@, k + 1);
                }
                return None;
            }
            let rs = match unit_rows(t, u) {
                Some(rs) => rs,
                None => {
                    proof {
                        lemma_units_none(tv, units@, k + 1);
                    }
                    return None;
                },
            };
            let ghost before = out@;
            let mut i: usize = 0;
            while i < rs.len()
                invariant
                    i <= rs@.len(),
                    out@ == before + rs@.take(i as int).map_values(|r: (u64, u64, u64, u64)| (u, r.0, r.1, r.2, r.3)),
                decreases rs@.len() - i,
            {
                let (a, f, l, c) = rs[i];
                out.push((u, a, f, l, c));
                assert(rs@.take(i + 1).map_values(|r: (u64, u64, u64, u64)| (u, r.0, r.1, r.2, r.3)) =~= rs@.take(
                    i as int,
                ).map_values(|r: (u64, u64, u64, u64)| (u, r.0, r.1, r.2, r.3)).push((u, a, f, l, c)));
                i = i + 1;
            }
            assert(rs@.take(rs@.len() as int) =~= rs@);
        }
        k = k + 1;
    }
    assert(units@.take(units@.len() as int) =~= units@);
    Some(out)
}

/// A row as the line programs give it: (unit offset, address, file index,
/// line, column).
pub type RawRow = (usize, u64, u64, u64, u64);

/// The offsets of the units in `.debug_info` of the debug buffers `t`, in order.
pub uninterp spec fn units_of(t: Table) -> Option<Seq<usize>>;

/// Whether the unit at `unit` has a line program.
pub uninterp spec fn has_program_of(t: Table, unit: usize) -> Option<bool>;

/// The operand of each advance-line instruction of the line program of the
/// unit at `unit`, in order.
pub uninterp spec fn line_advances_of(t: Table, unit: usize) -> Option<Seq<i64>>;

/// Whether no advance-line operand is `i64::MIN`, the one operand whose
/// negation overflows while the program runs.
pub open spec fn advances_ok(v: Seq<i64>) -> bool {
    forall|i: int| 0 <= i < v.len() ==> v[i] != i64::MIN
}

/// The rows (address, file index, line, column) of the line program of the
/// unit at `unit`.
pub uninterp spec fn unit_rows_of(t: Table, unit: usize) -> Option<Seq<(u64, u64, u64, u64)>>;

/// The rows of the units `units`, in order, each tagged with its unit.
pub open spec fn rows_of_units(t: Table, units: Seq<usize>) -> Option<Seq<RawRow>>
    decreases units.len(),
{
    if units.len() == 0 {
        Some(Seq::empty())
    } else {
        match rows_of_units(t, units.drop_last()) {
            None => None,
            Some(rs) => match has_program_of(t, units.last()) {
                None => None,
                Some(false) => Some(rs),
                Some(true) => match line_advances_of(t, units.last()) {
                    None => None,
                    Some(adv) => if !advances_ok(adv) {
                        None
                    } else {
                        match unit_rows_of(t, units.last()) {
                            None => None,
                            Some(u) => Some(
                                rs + u.map_values(|r: (u64, u64, u64, u64)| (units.last(), r.0, r.1, r.2, r.3)),
                            ),
                        }
                    },
                },
            },
        }
    }
}

/// The rows of every unit's line program over the debug buffers `t`, units in
/// order.
pub open spec fn dwarf_rows_of(t: Table) -> Option<Seq<RawRow>> {
    match units_of(t) {
        None => None,
        Some(units) => rows_of_units(t, units),
    }
}

/// The directory index and the name of file `file` in the line program of the
/// unit at `unit`.
pub uninterp spec fn file_entry_of(t: Table, unit: usize, file: u64) -> Option<(u64, Seq<char>)>;

/// The include directory `dir` of the line program of the unit at `unit`.
pub uninterp spec fn directory_of(t: Table, unit: usize, dir: u64) -> Option<Seq<char>>;

/// The bytes of the first buffer of `t` named `name`; empty when there is none.
pub open spec fn table_bytes_spec(t: Table, name: Seq<char>) -> Seq<u8>
    decreases t.len(),
{
    if t.len() == 0 {
        Seq::empty()
    } else if t[0].0 == name {
        t[0].1
    } else {
        table_bytes_spec(t.drop_first(), name)
    }
}

/// The buffer that the DWARF reader asks for by section name.
pub fn table_bytes<'a>(t: &'a Vec<(String, Vec<u8>)>, name: &str) -> (r: Result<&'a [u8], ()>)
    ensures
        r matches Ok(b) && b@ == table_bytes_spec(table_view(t@), name@),
{
    let n = chars_of(name);
    let mut i: usize = 0;
    assert(table_view(t@).subrange(0, t@.len() as int) =~= table_view(t@));
    while i < t.len()
        invariant
            i <= t@.len(),
            n@ == name@,
            table_bytes_spec(table_view(t@).subrange(i as int, t@.len() as int), name@)
                == table_bytes_spec(table_view(t@), name@),
        decreases t@.len() - i,
    {
        let ghost rest = table_view(t@).subrange(i as int, t@.len() as int);
        assert(rest[0] == (t@[i as int].0@, t@[i as int].1@));
        if eq_chars(&chars_of(t[i].0.as_str()), &n) {
            return Ok(t[i].1.as_slice());
        }
        assert(rest.drop_first() =~= table_view(t@).subrange(i + 1, t@.len() as int));
        i = i + 1;
    }
    proof {
        reveal_with_fuel(table_bytes_spec, 1);
    }
    Ok(&[])
}

/// Relies on `gimli::Dwarf::load` and `Dwarf::units`: the offset of each unit
/// in `.debug_info`, in order; `None` when a unit header does not parse.
#[verifier::external_body]
fn unit_offsets(t: &Vec<(String, Vec<u8>)>) -> (r: Option<Vec<usize>>)
    ensures
        r matches Some(v) ==> units_of(table_view(t@)) == Some(v@),
        r is None ==> units_of(table_view(t@)) is None,
{
    let owned = Dwarf::load(|id| table_bytes(t, id.name())).ok()?;
    let dwarf = owned.borrow(|s| EndianSlice::new(s, LittleEndian));
    let (mut units, mut out) = (dwarf.units(), Vec::new());
    while let Some(header) = units.next().ok()? {
        out.push(header.offset().as_debug_info_offset()?.0);
    }
    Some(out)
}

/// Relies on `gimli::Dwarf::unit`: whether the unit at `unit` has a line program.
#[verifier::external_body]
fn has_line_program(t: &Vec<(String, Vec<u8>)>, unit: usize) -> (r: Option<bool>)
    ensures
        r == has_program_of(table_view(t@), unit),
{
    let owned = Dwarf::load(|id| table_bytes(t, id.name())).ok()?;
    let dwarf = owned.borrow(|s| EndianSlice::new(s, LittleEndian));
    let unit = dwarf.unit(dwarf.debug_info.header_from_offset(DebugInfoOffset(unit)).ok()?).ok()?;
    Some(unit.line_program.is_some())
}

/// Relies on `gimli::LineProgramHeader::instructions` and
/// `LineInstructions::next_instruction`: the operand of each advance-line
/// instruction of the unit's line program; `None` when an instruction does
/// not parse.
#[verifier::external_body]
fn line_advances(t: &Vec<(String, Vec<u8>)>, unit: usize) -> (r: Option<Vec<i64>>)
    ensures
        r matches Some(v) ==> line_advances_of(table_view(t@), unit) == Some(v@),
        r is None ==> line_advances_of(table_view(t@), unit) is None,
{
    let owned = Dwarf::load(|id| table_bytes(t, id.name())).ok()?;
    let dwarf = owned.borrow(|s| EndianSlice::new(s, LittleEndian));
    let unit = dwarf.unit(dwarf.debug_info.header_from_offset(DebugInfoOffset(unit)).ok()?).ok()?;
    let header = unit.line_program?.header().clone();
    let (mut insts, mut out) = (header.instructions(), vec![]);
    while let Some(i) = insts.next_instruction(&header).ok()? {
        if let LineInstruction::AdvanceLine(n) = i { out.push(n); }
    }
    Some(out)
}

/// Relies on `gimli::Dwarf::unit` and `LineProgram::rows`: each row of the
/// line program of the unit at `unit` as (address, file index, line, column),
/// line and column 0 where absent. Running the program negates a negative
/// advance-line operand, which overflows for `i64::MIN`: such a program is
/// left out.
#[verifier::external_body]
fn unit_rows(t: &Vec<(String, Vec<u8>)>, unit: usize) -> (r: Option<Vec<(u64, u64, u64, u64)>>)
    requires
        line_advances_of(table_view(t@), unit) matches Some(v) && advances_ok(v),
    ensures
        r matches Some(v) ==> unit_rows_of(table_view(t@), unit) == Some(v@),
        r is None ==> unit_rows_of(table_view(t@), unit) is None,
{
    let owned = Dwarf::load(|id| table_bytes(t, id.name())).ok()?;
    let dwarf = owned.borrow(|s| EndianSlice::new(s, LittleEndian));
    let unit = dwarf.unit(dwarf.debug_info.header_from_offset(DebugInfoOffset(unit)).ok()?).ok()?;
    let (mut rows, mut out) = (unit.line_program?.rows(), vec![]);
    while let Some((_, row)) = rows.next_row().ok()? {
        let c = if let ColumnType::Column(c) = row.column() { c.get() } else { 0 };
        out.push((row.address(), row.file_index(), row.line().map_or(0, u64::from), c));
    }
    Some(out)
}

/// Relies on `gimli::LineProgramHeader::file` and `Dwarf::attr_string`: the
/// directory index and name of a file of a unit's line program.
#[verifier::external_body]
fn file_entry(t: &Vec<(String, Vec<u8>)>, unit: usize, file: u64) -> (r: Option<(u64, String)>)
    ensures
        r matches Some(p) ==> file_entry_of(table_view(t@), unit, file) == Some((p.0, p.1@)),
        r is None ==> file_entry_of(table_view(t@), unit, file) is None,
{
    let owned = Dwarf::load(|id| table_bytes(t, id.name())).ok()?;
    let dwarf = owned.borrow(|s| EndianSlice::new(s, LittleEndian));
    let header = dwarf.debug_info.header_from_offset(DebugInfoOffset(unit)).ok()?;
    let unit = dwarf.unit(header).ok()?;
    let entry = unit.line_program.as_ref()?.header().file(file)?;
    let name = dwarf.attr_string(&unit, entry.path_name()).ok()?;
    Some((entry.directory_index(), name.to_string_lossy().into_owned()))
}

/// Relies on `gimli::LineProgramHeader::directory` and `Dwarf::attr_string`:
/// an include directory of a unit's line program.
#[verifier::external_body]
fn directory(t: &Vec<(String, Vec<u8>)>, unit: usize, dir: u64) -> (r: Option<String>)
    ensures
        r matches Some(s) ==> directory_of(table_view(t@), unit, dir) == Some(s@),
        r is None ==> directory_of(table_view(t@), unit, dir) is None,
{
    let owned = Dwarf::load(|id| table_bytes(t, id.name())).ok()?;
    let dwarf = owned.borrow(|s| EndianSlice::new(s, LittleEndian));
    let header = dwarf.debug_info.header_from_offset(DebugInfoOffset(unit)).ok()?;
    let unit = dwarf.unit(header).ok()?;
    let dir = unit.line_program.as_ref()?.header().directory(dir)?;
    Some(dwarf.attr_string(&unit, dir).ok()?.to_string_lossy().into_owned())
}

/// Why the line table could not be read.
#[derive(Clone, Copy, Debug, PartialEq, Eq, Structural)]
pub enum LineError {
    MalformedDwarf,
}

/// `name` under the directory `dir`; an absolute name, or an empty directory,
/// leaves the name as it is.
pub open spec fn join_path(dir: Seq<char>, name: Seq<char>) -> Seq<char> {
    if (name.len() > 0 && name[0] == '/') || dir.len() == 0 {
        name
    } else {
        dir + seq!['/'] + name
    }
}

/// The path of file `file` of the unit at `unit`: its name, under its include
/// directory unless that is the unit's own (index 0).
pub open spec fn file_path_of(t: Table, unit: usize, file: u64) -> Option<Seq<char>> {
    match file_entry_of(t, unit, file) {
        None => None,
        Some(e) => if e.0 == 0 {
            Some(e.1)
        } else {
            match directory_of(t, unit, e.0) {
                None => None,
                Some(dir) => Some(join_path(dir, e.1)),
            }
        },
    }
}

/// Index of the first path equal to `p`, or the list's length.
pub open spec fn path_index(s: Seq<Seq<char>>, p: Seq<char>) -> nat
    decreases s.len(),
{
    if s.len() == 0 {
        0
    } else if s[0] == p {
        0
    } else {
        1 + path_index(s.drop_first(), p)
    }
}

proof fn lemma_path_index(s: Seq<Seq<char>>, p: Seq<char>)
    ensures
        path_index(s, p) <= s.len(),
        path_index(s, p) < s.len() ==> s[path_index(s, p) as int] == p,
        forall|j: int| 0 <= j < path_index(s, p) ==> s[j] != p,
    decreases s.len(),
{
    if s.len() > 0 && s[0] != p {
        lemma_path_index(s.drop_first(), p);
        assert forall|j: int| 0 <= j < path_index(s, p) implies s[j] != p by {
            if j > 0 {
                assert(s[j] == s.drop_first()[j - 1]);
            }
        }
    }
}

/// The path list with `p` added unless it is there already.
pub open spec fn intern(s: Seq<Seq<char>>, p: Seq<char>) -> Seq<Seq<char>> {
    if path_index(s, p) < s.len() {
        s
    } else {
        s.push(p)
    }
}

/// Path list and rows after one more raw row: its file's path is interned and
/// the row takes the path's index as its source id.
pub open spec fn intern_step(t: Table, st: Option<(Seq<Seq<char>>, Seq<DebugRow>)>, r: RawRow) -> Option<
    (Seq<Seq<char>>, Seq<DebugRow>),
> {
    match st {
        None => None,
        Some(st) => match file_path_of(t, r.0, r.2) {
            None => None,
            Some(p) => Some(
                (
                    intern(st.0, p),
                    st.1.push(
                        DebugRow {
                            address: r.1,
                            source_id: path_index(st.0, p) as usize,
                            line: r.3,
                            column: r.4,
                        },
                    ),
                ),
            ),
        },
    }
}

/// Path list and rows after the raw rows `rs`, in order.
pub open spec fn intern_rows(t: Table, rs: Seq<RawRow>) -> Option<(Seq<Seq<char>>, Seq<DebugRow>)>
    decreases rs.len(),
{
    if rs.len() == 0 {
        Some((Seq::empty(), Seq::empty()))
    } else {
        intern_step(t, intern_rows(t, rs.drop_last()), rs.last())
    }
}

pub open spec fn sorted_by_address(s: Seq<DebugRow>) -> bool {
    forall|i: int, j: int| 0 <= i < j < s.len() ==> s[i].address <= s[j].address
}

/// Each run of rows at one address reduced to its last row.
pub open spec fn collapse(s: Seq<DebugRow>) -> Seq<DebugRow>
    decreases s.len(),
{
    if s.len() == 0 {
        Seq::empty()
    } else if s.len() >= 2 && s[0].address == s[1].address {
        collapse(s.drop_first())
    } else {
        seq![s[0]] + collapse(s.drop_first())
    }
}

/// `out` is a line table made of `rows`: `rows` ordered by address, then each
/// run at one address reduced to its last row.
pub open spec fn ordered_table(rows: Seq<DebugRow>, out: Seq<DebugRow>) -> bool {
    exists|s: Seq<DebugRow>|
        #![trigger collapse(s)]
        s.to_multiset() == rows.to_multiset() && sorted_by_address(s) && out == collapse(s)
}

/// The rows of `s` at address `a`, in order.
pub open spec fn at_address(s: Seq<DebugRow>, a: u64) -> Seq<DebugRow> {
    s.filter(|r: DebugRow| r.address == a)
}

/// The last row of `s` at address `a`.
pub open spec fn last_at(s: Seq<DebugRow>, a: u64) -> Option<DebugRow>
    decreases s.len(),
{
    if s.len() == 0 {
        None
    } else if s.last().address == a {
        Some(s.last())
    } else {
        last_at(s.drop_last(), a)
    }
}

/// Relies on `slice::sort_by_key`, a stable sort: the rows ordered by
/// address, the rows at each address in the order they had.
#[verifier::external_body]
fn sort_by_address(v: &mut Vec<DebugRow>)
    ensures
        final(v)@.to_multiset() == old(v)@.to_multiset(),
        sorted_by_address(final(v)@),
        forall|a: u64| #[trigger] at_address(final(v)@, a) == at_address(old(v)@, a),
{
    v.sort_by_key(|r| r.address);
}

fn collapse_rows(v: &Vec<DebugRow>) -> (r: Vec<DebugRow>)
    ensures
        r@ == collapse(v@),
{
    let mut out: Vec<DebugRow> = Vec::new();
    let mut i: usize = 0;
    assert(v@.subrange(0, v@.len() as int) =~= v@);
    while i < v.len()
        invariant
            i <= v@.len(),
            out@ + collapse(v@.subrange(i as int, v@.len() as int)) == collapse(v@),
        decreases v@.len() - i,
    {
        let ghost rest = v@.subrange(i as int, v@.len() as int);
        assert(rest.drop_first() =~= v@.subrange(i + 1, v@.len() as int));
        if i + 1 < v.len() && v[i + 1].address == v[i].address {
            assert(rest[1] == v@[i + 1]);
        } else {
            out.push(v[i]);
            assert(out@ + collapse(rest.drop_first()) =~= out@.drop_last() + (seq![rest[0]] + collapse(rest.drop_first())));
        }
        i = i + 1;
    }
    assert(v@.subrange(i as int, v@.len() as int) =~= Seq::<DebugRow>::empty());
    assert(out@ + Seq::<DebugRow>::empty() =~= out@);
    out
}

proof fn lemma_collapse_sorted(s: Seq<DebugRow>)
    requires
        sorted_by_address(s),
    ensures
        forall|i: int, j: int|
            0 <= i < j < collapse(s).len() ==> collapse(s)[i].address < collapse(s)[j].address,
        forall|i: int| 0 <= i < collapse(s).len() ==> s.contains(#[trigger] collapse(s)[i]),
        s.len() > 0 ==> collapse(s).len() > 0 && collapse(s)[0].address >= s[0].address,
    decreases s.len(),
{
    if s.len() > 0 {
        let t = s.drop_first();
        assert(sorted_by_address(t)) by {
            assert forall|i: int, j: int| 0 <= i < j < t.len() implies t[i].address <= t[j].address by {
                assert(t[i] == s[i + 1] && t[j] == s[j + 1]);
            }
        }
        lemma_collapse_sorted(t);
        let c = collapse(s);
        let ct = collapse(t);
        assert forall|i: int| 0 <= i < c.len() implies s.contains(#[trigger] c[i]) by {
            if s.len() >= 2 && s[0].address == s[1].address {
                assert(t.contains(ct[i]));
                let k = choose|k: int| 0 <= k < t.len() && t[k] == ct[i];
                assert(c[i] == s[k + 1]);
            } else if i == 0 {
                assert(c[0] == s[0]);
            } else {
                assert(c[i] == ct[i - 1]);
                assert(t.contains(ct[i - 1]));
                let k = choose|k: int| 0 <= k < t.len() && t[k] == ct[i - 1];
                assert(c[i] == s[k + 1]);
            }
        }
        if !(s.len() >= 2 && s[0].address == s[1].address) {
            assert forall|i: int, j: int| 0 <= i < j < c.len() implies c[i].address < c[j].address by {
                if i == 0 {
                    assert(c[j] == ct[j - 1]);
                    if t.len() > 0 {
                        assert(ct[0].address >= t[0].address);
                        assert(t[0] == s[1]);
                        if j - 1 > 0 {
                            assert(ct[0].address < ct[j - 1].address);
                        }
                    }
                } else {
                    assert(c[i] == ct[i - 1] && c[j] == ct[j - 1]);
                }
            }
            if t.len() > 0 {
                assert(ct.len() > 0);
            }
        } else {
            assert(t[0] == s[1]);
        }
    }
}

/// Each row that `collapse` keeps ends a run of rows at one address.
proof fn lemma_collapse_run_ends(s: Seq<DebugRow>)
    ensures
        forall|i: int|
            #![trigger collapse(s)[i]]
            0 <= i < collapse(s).len() ==> exists|k: int|
                0 <= k < s.len() && collapse(s)[i] == #[trigger] s[k] && (k + 1 == s.len() || s[k
                    + 1].address != s[k].address),
    decreases s.len(),
{
    if s.len() > 0 {
        let t = s.drop_first();
        lemma_collapse_run_ends(t);
        let c = collapse(s);
        let ct = collapse(t);
        assert forall|i: int|
            #![trigger c[i]]
            0 <= i < c.len() implies exists|k: int|
                0 <= k < s.len() && c[i] == #[trigger] s[k] && (k + 1 == s.len() || s[k + 1].address
                != s[k].address) by {
            if s.len() >= 2 && s[0].address == s[1].address {
                let k = choose|k: int|
                    0 <= k < t.len() && ct[i] == #[trigger] t[k] && (k + 1 == t.len() || t[k + 1].address
                        != t[k].address);
                assert(c[i] == s[k + 1] && (k + 2 == s.len() || s[k + 2] == t[k + 1]));
            } else if i == 0 {
                assert(c[0] == s[0]);
            } else {
                assert(c[i] == ct[i - 1]);
                let k = choose|k: int|
                    0 <= k < t.len() && ct[i - 1] == #[trigger] t[k] && (k + 1 == t.len() || t[k
                        + 1].address != t[k].address);
                assert(c[i] == s[k + 1] && (k + 2 == s.len() || s[k + 2] == t[k + 1]));
            }
        }
    }
}

/// Every address of `s` is the address of a row that `collapse` keeps.
proof fn lemma_collapse_covers(s: Seq<DebugRow>)
    ensures
        forall|k: int|
            0 <= k < s.len() ==> exists|i: int|
                0 <= i < collapse(s).len() && #[trigger] collapse(s)[i].address == #[trigger] s[k].address,
    decreases s.len(),
{
    if s.len() > 0 {
        let t = s.drop_first();
        lemma_collapse_covers(t);
        let c = collapse(s);
        let ct = collapse(t);
        let skip = s.len() >= 2 && s[0].address == s[1].address;
        if skip {
            assert(c == ct);
        } else {
            assert(c == seq![s[0]] + ct);
        }
        assert forall|k: int| 0 <= k < s.len() implies exists|i: int|
            0 <= i < c.len() && #[trigger] c[i].address == #[trigger] s[k].address by {
            if k == 0 && !skip {
                assert(c[0] == s[0]);
                assert(c[0].address == s[k].address);
            } else {
                let kk = if k == 0 {
                    0int
                } else {
                    k - 1
                };
                assert(t[kk].address == s[k].address);
                let i = choose|i: int| 0 <= i < ct.len() && #[trigger] ct[i].address == #[trigger] t[kk].address;
                if skip {
                    assert(c[i] == ct[i]);
                    assert(c[i].address == s[k].address);
                } else {
                    assert(c[i + 1] == ct[i]);
                    assert(c[i + 1].address == s[k].address);
                }
            }
        }
    }
}

/// In rows ordered by address, a row whose successor has another address is
/// the last row at its own address.
proof fn lemma_last_at_run_end(s: Seq<DebugRow>, k: int)
    requires
        sorted_by_address(s),
        0 <= k < s.len(),
        k + 1 == s.len() || s[k + 1].address != s[k].address,
    ensures
        last_at(s, s[k].address) == Some(s[k]),
    decreases s.len(),
{
    if k + 1 < s.len() {
        let t = s.drop_last();
        assert(s.last().address >= s[k + 1].address);
        assert(s.last().address != s[k].address);
        assert(sorted_by_address(t)) by {
            assert forall|i: int, j: int| 0 <= i < j < t.len() implies t[i].address <= t[j].address by {
                assert(t[i] == s[i] && t[j] == s[j]);
            }
        }
        assert(t[k] == s[k]);
        if k + 1 < t.len() {
            assert(t[k + 1] == s[k + 1]);
        }
        lemma_last_at_run_end(t, k);
    }
}

/// The last row at an address is the last of the rows at that address.
proof fn lemma_last_at_filter(s: Seq<DebugRow>, a: u64)
    ensures
        last_at(s, a) == (if at_address(s, a).len() > 0 {
            Some(at_address(s, a).last())
        } else {
            None
        }),
    decreases s.len(),
{
    reveal(Seq::filter);
    if s.len() > 0 {
        lemma_last_at_filter(s.drop_last(), a);
    }
}

/// After a stable ordering by address, the rows that `collapse` keeps are the
/// last written at each address.
proof fn lemma_kept_last(rows: Seq<DebugRow>, v: Seq<DebugRow>)
    requires
        sorted_by_address(v),
        forall|a: u64| #[trigger] at_address(v, a) == at_address(rows, a),
    ensures
        forall|i: int|
            0 <= i < collapse(v).len() ==> last_at(rows, (#[trigger] collapse(v)[i]).address) == Some(
                collapse(v)[i],
            ),
{
    lemma_collapse_run_ends(v);
    assert forall|i: int| 0 <= i < collapse(v).len() implies last_at(rows, (#[trigger] collapse(v)[i]).address)
        == Some(collapse(v)[i]) by {
        let k = choose|k: int|
            0 <= k < v.len() && collapse(v)[i] == #[trigger] v[k] && (k + 1 == v.len() || v[k
                + 1].address != v[k].address);
        lemma_last_at_run_end(v, k);
        lemma_last_at_filter(v, v[k].address);
        lemma_last_at_filter(rows, v[k].address);
        assert(at_address(v, v[k].address) == at_address(rows, v[k].address));
    }
}

/// Ordering keeps every address among the rows that `collapse` keeps.
proof fn lemma_kept_cover(rows: Seq<DebugRow>, v: Seq<DebugRow>)
    requires
        v.to_multiset() == rows.to_multiset(),
    ensures
        forall|k: int|
            0 <= k < rows.len() ==> exists|i: int|
                0 <= i < collapse(v).len() && #[trigger] collapse(v)[i].address == #[trigger] rows[k].address,
{
    lemma_collapse_covers(v);
    assert forall|k: int| 0 <= k < rows.len() implies exists|i: int|
        0 <= i < collapse(v).len() && #[trigger] collapse(v)[i].address == #[trigger] rows[k].address by {
        rows.to_multiset_ensures();
        v.to_multiset_ensures();
        assert(rows.contains(rows[k]));
        assert(rows.to_multiset().count(rows[k]) > 0);
        assert(v.contains(rows[k]));
        let kk = choose|kk: int| 0 <= kk < v.len() && v[kk] == rows[k];
        assert(0 <= kk < v.len() && v[kk] == rows[k]);
        assert(v[kk].address == rows[k].address);
        assert(exists|i: int|
            0 <= i < collapse(v).len() && #[trigger] collapse(v)[i].address == #[trigger] v[kk].address);
        let i = choose|i: int|
            0 <= i < collapse(v).len() && #[trigger] collapse(v)[i].address == #[trigger] v[kk].address;
        assert(0 <= i < collapse(v).len() && collapse(v)[i].address == rows[k].address);
    }
}

/// The rows that `collapse` keeps after ordering come from the input.
proof fn lemma_kept_contained(rows: Seq<DebugRow>, v: Seq<DebugRow>)
    requires
        sorted_by_address(v),
        v.to_multiset() == rows.to_multiset(),
    ensures
        forall|i: int| 0 <= i < collapse(v).len() ==> rows.contains(#[trigger] collapse(v)[i]),
{
    lemma_collapse_sorted(v);
    assert forall|i: int| 0 <= i < collapse(v).len() implies rows.contains(#[trigger] collapse(v)[i]) by {
        assert(v.contains(collapse(v)[i]));
        v.to_multiset_ensures();
        rows.to_multiset_ensures();
        assert(v.to_multiset().count(collapse(v)[i]) > 0);
        assert(rows.to_multiset().count(collapse(v)[i]) > 0);
    }
}

/// Rows ordered by address, one row for each address: each run of rows at one
/// address reduced to the last of them.
pub fn order_rows(rows: Vec<DebugRow>) -> (r: Vec<DebugRow>)
    ensures
        ordered_table(rows@, r@),
        forall|i: int, j: int| 0 <= i < j < r@.len() ==> r@[i].address < r@[j].address,
        forall|i: int| 0 <= i < r@.len() ==> rows@.contains(#[trigger] r@[i]),
        forall|i: int| 0 <= i < r@.len() ==> last_at(rows@, (#[trigger] r@[i]).address) == Some(r@[i]),
        forall|k: int|
            #![trigger rows@[k]]
            0 <= k < rows@.len() ==> exists|i: int| 0 <= i < r@.len() && r@[i].address == rows@[k].address,
{
    let mut v = rows;
    assert(v@ == rows@);
    sort_by_address(&mut v);
    assert(v@.to_multiset() == rows@.to_multiset());
    let r = collapse_rows(&v);
    proof {
        lemma_collapse_sorted(v@);
        lemma_kept_last(rows@, v@);
        lemma_kept_cover(rows@, v@);
        lemma_kept_contained(rows@, v@);
        assert(r@ == collapse(v@));
        assert forall|k: int|
            #![trigger rows@[k]]
            0 <= k < rows@.len() implies exists|i: int| 0 <= i < r@.len() && r@[i].address == rows@[k].address by {
            assert(rows@[k].address == rows@[k].address);
        }
    }
    r
}

pub open spec fn strings_view(v: Seq<String>) -> Seq<Seq<char>> {
    v.map_values(|s: String| s@)
}

/// The path list and the rows, in the order of the line programs, that the
/// debug buffers `t` give; `None` when they do not parse.
pub open spec fn line_rows_spec(t: Table) -> Option<(Seq<Seq<char>>, Seq<DebugRow>)> {
    match dwarf_rows_of(t) {
        None => None,
        Some(raw) => intern_rows(t, raw),
    }
}

fn join_path_exec(dir: String, name: String) -> (r: String)
    ensures
        r@ == join_path(dir@, name@),
{
    let n = chars_of(name.as_str());
    if (n.len() > 0 && n[0] == '/') || dir.as_str().is_empty() {
        return name;
    }
    let mut d = chars_of(dir.as_str());
    d.push('/');
    let mut i: usize = 0;
    while i < n.len()
        invariant
            i <= n@.len(),
            d@ == dir@ + seq!['/'] + n@.subrange(0, i as int),
        decreases n@.len() - i,
    {
        assert(n@.subrange(0, i + 1) =~= n@.subrange(0, i as int).push(n@[i as int]));
        d.push(n[i]);
        i = i + 1;
    }
    assert(n@.subrange(0, n@.len() as int) =~= n@);
    string_of(&d)
}

fn file_path(t: &Vec<(String, Vec<u8>)>, unit: usize, file: u64) -> (r: Option<String>)
    ensures
        r matches Some(p) ==> file_path_of(table_view(t@), unit, file) == Some(p@),
        r is None ==> file_path_of(table_view(t@), unit, file) is None,
{
    match file_entry(t, unit, file) {
        None => None,
        Some((d, name)) => {
            if d == 0 {
                Some(name)
            } else {
                match directory(t, unit, d) {
                    None => None,
                    Some(dir) => Some(join_path_exec(dir, name)),
                }
            }
        },
    }
}

proof fn lemma_intern_none(t: Table, rs: Seq<RawRow>, k: int)
    requires
        0 <= k <= rs.len(),
        intern_rows(t, rs.take(k)) is None,
    ensures
        intern_rows(t, rs) is None,
    decreases rs.len() - k,
{
    if k < rs.len() {
        assert(rs.take(k + 1).drop_last() =~= rs.take(k));
        lemma_intern_none(t, rs, k + 1);
    } else {
        assert(rs.take(k) =~= rs);
    }
}

/// Reads every unit's line program from the debug buffers, interns each row's
/// file path into one list (first seen, first numbered) and orders the rows
/// by address, keeping of the rows at one address the last written (see
/// `order_rows`).
pub fn get_debug_loc(sections: &DebugSections) -> (r: Result<DebugLocInfo, LineError>)
    ensures
        r is Err <==> line_rows_spec(table_view(sections.tables@)) is None,
        r matches Ok(info) ==> line_rows_spec(table_view(sections.tables@)) matches Some(p)
            && strings_view(info.sources@) == p.0 && ordered_table(p.1, info.locations@) && (forall|i: int|
            0 <= i < info.locations@.len() ==> last_at(p.1, (#[trigger] info.locations@[i]).address) == Some(
                info.locations@[i],
            )),
        r matches Ok(info) ==> forall|i: int, j: int|
            0 <= i < j < info.locations@.len() ==> info.locations@[i].address < info.locations@[j].address,
{
    let t = &sections.tables;
    let ghost tv = table_view(t@);
    let raw = match dwarf_rows(t) {
        Some(raw) => raw,
        None => return Err(LineError::MalformedDwarf),
    };
    let mut srcs: Vec<String> = Vec::new();
    let mut rows: Vec<DebugRow> = Vec::new();
    let mut cache: Vec<(usize, u64, usize)> = Vec::new();
    let mut k: usize = 0;
    assert(strings_view(srcs@) =~= Seq::<Seq<char>>::empty());
    while k < raw.len()
        invariant
            k <= raw@.len(),
            tv == table_view(t@),
            tv == table_view(sections.tables@),
            dwarf_rows_of(tv) == Some(raw@),
            intern_rows(tv, raw@.take(k as int)) == Some((strings_view(srcs@), rows@)),
            forall|i: int, j: int|
                0 <= i < j < srcs@.len() ==> srcs@[i]@ != srcs@[j]@,
            forall|c: int|
                0 <= c < cache@.len() ==> (#[trigger] cache@[c]).2 < srcs@.len() && file_path_of(
                    tv,
                    cache@[c].0,
                    cache@[c].1,
                ) == Some(srcs@[cache@[c].2 as int]@),
        decreases raw@.len() - k,
    {
        assert(raw@.take(k + 1).drop_last() =~= raw@.take(k as int));
        assert(raw@.take(k + 1).last() == raw@[k as int]);
        let (unit, address, file, line, column) = raw[k];
        let ghost sv = strings_view(srcs@);
        let mut found: Option<usize> = None;
        let mut c: usize = 0;
        while c < cache.len()
            invariant
                c <= cache@.len(),
                forall|c: int|
                    0 <= c < cache@.len() ==> (#[trigger] cache@[c]).2 < srcs@.len() && file_path_of(
                        tv,
                        cache@[c].0,
                        cache@[c].1,
                    ) == Some(srcs@[cache@[c].2 as int]@),
                found matches Some(id) ==> id < srcs@.len() && file_path_of(tv, unit, file) == Some(
                    srcs@[id as int]@,
                ),
            decreases cache@.len() - c,
        {
            if cache[c].0 == unit && cache[c].1 == file {
                found = Some(cache[c].2);
                break;
            }
            c = c + 1;
        }
        let id: usize = match found {
            Some(id) => {
                proof {
                    lemma_path_index(sv, sv[id as int]);
                    if path_index(sv, sv[id as int]) < id {
                        assert(sv[path_index(sv, sv[id as int]) as int] == sv[id as int]);
                    }
                }
                id
            },
            None => {
                let p = match file_path(t, unit, file) {
                    Some(p) => p,
                    None => {
                        proof {
                            assert(raw@[k as int] == (unit, address, file, line, column));
                            assert(intern_rows(tv, raw@.take(k + 1)) == intern_step(
                                tv,
                                intern_rows(tv, raw@.take(k as int)),
                                raw@[k as int],
                            ));
                            lemma_intern_none(tv, raw@, k + 1);
                        }
                        return Err(LineError::MalformedDwarf);
                    },
                };
                proof {
                    lemma_path_index(sv, p@);
                }
                let mut j: usize = 0;
                while j < srcs.len() && srcs[j] != p
                    invariant
                        j <= srcs@.len(),
                        sv == strings_view(srcs@),
                        forall|i: int| 0 <= i < j ==> srcs@[i]@ != p@,
                    decreases srcs@.len() - j,
                {
                    j = j + 1;
                }
                proof {
                    if path_index(sv, p@) < j {
                        assert(sv[path_index(sv, p@) as int] == srcs@[path_index(sv, p@) as int]@);
                    }
                    if j < srcs@.len() {
                        assert(sv[j as int] == p@);
                    }
                }
                if j == srcs.len() {
                    srcs.push(p);
                    assert(strings_view(srcs@) =~= sv.push(p@));
                }
                cache.push((unit, file, j));
                j
            },
        };
        rows.push(DebugRow { address, source_id: id, line, column });
        k = k + 1;
    }
    assert(raw@.take(raw@.len() as int) =~= raw@);
    let ghost rv = rows@;
    assert(line_rows_spec(tv) == Some((strings_view(srcs@), rv)));
    let locations = order_rows(rows);
    Ok(DebugLocInfo { locations, sources: srcs })
}

} // verus!
