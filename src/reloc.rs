//! The relocation engine: resolves the symbol-relative fields of the debug
//! buffers of an unlinked module to module-relative values.
use vstd::prelude::*;

use crate::leb::{leb_fixed5, read_var_i32, read_var_u32, var_i32_at, var_u32_at, write_fixed5};
use crate::sections::{key_index, lemma_key_index, table_view, DebugSections, SectionsView, Table};
use crate::text::{chars_of, eq_chars, sub_chars};

verus! {

/// A symbol of the linking section, as relocation reads it.
#[derive(Clone, Copy, Debug, PartialEq, Eq, Structural)]
pub enum Symbol {
    /// A function, by function index.
    Function(u32),
    /// A defined data symbol: segment index and offset in the segment.
    Data(u32, u32),
    /// A section symbol.
    Section,
    /// Any other symbol (global, event, table, undefined data).
    Other,
}

/// A relocation entry: its kind, the offset of the field in the target
/// buffer, the symbol index and the addend (0 for kinds without one).
#[derive(Clone, Copy, Debug, PartialEq, Eq, Structural)]
pub struct Reloc {
    pub kind: u8,
    pub offset: u32,
    pub symbol: u32,
    pub addend: i32,
}

/// Why relocation failed.
#[derive(Clone, Copy, Debug, PartialEq, Eq, Structural)]
pub enum RelocError {
    MissingLinkingInfo,
    MalformedLinking,
    MalformedRelocations,
    SymbolOutOfRange,
    UnsupportedSymbol,
    UnsupportedRelocation,
    FieldOutOfRange,
}

pub open spec fn u8_at(buf: Seq<u8>, pos: nat) -> Option<(u8, nat)> {
    if pos < buf.len() {
        Some((buf[pos as int], pos + 1))
    } else {
        None
    }
}

/// The position after a name (a LEB128 length, then that many bytes) at `pos`.
pub open spec fn name_end(buf: Seq<u8>, pos: nat) -> Option<nat> {
    match var_u32_at(buf, pos) {
        Some((n, p)) => if p + n <= buf.len() {
            Some((p + n) as nat)
        } else {
            None
        },
        None => None,
    }
}

pub open spec fn flag_undefined(flags: u32) -> bool {
    flags / 16 % 2 == 1
}

pub open spec fn flag_explicit_name(flags: u32) -> bool {
    flags / 64 % 2 == 1
}

/// The symbol at `pos` of the symbol table and the position after it: kind,
/// flags, then by kind an index and a name (function, global, event, table;
/// the name only when defined or explicitly named), a name and, when defined,
/// segment, offset and size (data), or a section index (section).
pub open spec fn symbol_at(buf: Seq<u8>, pos: nat) -> Option<(Symbol, nat)> {
    match u8_at(buf, pos) {
        None => None,
        Some((kind, at1)) => match var_u32_at(buf, at1) {
            None => None,
            Some((flags, at2)) => if kind == 1 {
                match name_end(buf, at2) {
                    None => None,
                    Some(at3) => if flag_undefined(flags) {
                        Some((Symbol::Other, at3))
                    } else {
                        match var_u32_at(buf, at3) {
                            None => None,
                            Some((seg, at4)) => match var_u32_at(buf, at4) {
                                None => None,
                                Some((off, at5)) => match var_u32_at(buf, at5) {
                                    None => None,
                                    Some((_size, at6)) => Some((Symbol::Data(seg, off), at6)),
                                },
                            },
                        }
                    },
                }
            } else if kind == 3 {
                match var_u32_at(buf, at2) {
                    None => None,
                    Some((_index, at3)) => Some((Symbol::Section, at3)),
                }
            } else if kind == 0 || kind == 2 || kind == 4 || kind == 5 {
                match var_u32_at(buf, at2) {
                    None => None,
                    Some((index, at3)) => {
                        let end = if !flag_undefined(flags) || flag_explicit_name(flags) {
                            name_end(buf, at3)
                        } else {
                            Some(at3)
                        };
                        match end {
                            None => None,
                            Some(at4) => Some(
                                (if kind == 0 {
                                    Symbol::Function(index)
                                } else {
                                    Symbol::Other
                                }, at4),
                            ),
                        }
                    },
                }
            } else {
                None
            },
        },
    }
}

/// `n` symbols read one after another from `pos`.
pub open spec fn symbols_from(buf: Seq<u8>, pos: nat, n: nat) -> Option<Seq<Symbol>>
    decreases n,
{
    if n == 0 {
        Some(Seq::empty())
    } else {
        match symbol_at(buf, pos) {
            None => None,
            Some((s, p)) => match symbols_from(buf, p, (n - 1) as nat) {
                None => None,
                Some(rest) => Some(seq![s] + rest),
            },
        }
    }
}

/// The symbol table among the subsections from `pos`: each subsection is a
/// kind byte, a LEB128 length and that many bytes; kind 8 holds the table (a
/// count, then the symbols). No such subsection gives an empty table.
pub open spec fn symbol_table_from(buf: Seq<u8>, pos: nat) -> Option<Seq<Symbol>>
    decreases buf.len() - pos,
{
    if pos >= buf.len() {
        Some(Seq::empty())
    } else {
        match u8_at(buf, pos) {
            None => None,
            Some((ty, at1)) => match var_u32_at(buf, at1) {
                None => None,
                Some((len, at2)) => if at2 + len > buf.len() || at2 <= pos {
                    None
                } else if ty == 8 {
                    match var_u32_at(buf, at2) {
                        None => None,
                        Some((count, at3)) => symbols_from(buf, at3, count as nat),
                    }
                } else {
                    symbol_table_from(buf, (at2 + len) as nat)
                },
            },
        }
    }
}

/// The symbol table of the linking section `buf` (a version, then subsections).
pub open spec fn symbol_table(buf: Seq<u8>) -> Option<Seq<Symbol>> {
    match var_u32_at(buf, 0) {
        None => None,
        Some((_version, p)) => symbol_table_from(buf, p),
    }
}

/// Relocation kinds whose entries carry an addend.
pub open spec fn has_addend(kind: u8) -> bool {
    kind == 3 || kind == 4 || kind == 5 || kind == 8 || kind == 9 || kind == 11
}

/// The relocation entry at `pos` and the position after it.
pub open spec fn reloc_at(buf: Seq<u8>, pos: nat) -> Option<(Reloc, nat)> {
    match u8_at(buf, pos) {
        None => None,
        Some((kind, at1)) => match var_u32_at(buf, at1) {
            None => None,
            Some((offset, at2)) => match var_u32_at(buf, at2) {
                None => None,
                Some((symbol, at3)) => if has_addend(kind) {
                    match var_i32_at(buf, at3) {
                        None => None,
                        Some((addend, at4)) => Some((Reloc { kind, offset, symbol, addend }, at4)),
                    }
                } else {
                    Some((Reloc { kind, offset, symbol, addend: 0 }, at3))
                },
            },
        },
    }
}

/// `n` relocation entries read one after another from `pos`.
pub open spec fn relocs_from(buf: Seq<u8>, pos: nat, n: nat) -> Option<Seq<Reloc>>
    decreases n,
{
    if n == 0 {
        Some(Seq::empty())
    } else {
        match reloc_at(buf, pos) {
            None => None,
            Some((r, p)) => match relocs_from(buf, p, (n - 1) as nat) {
                None => None,
                Some(rest) => Some(seq![r] + rest),
            },
        }
    }
}

/// The entries of a relocation table: a section index, a count, the entries.
pub open spec fn reloc_entries(buf: Seq<u8>) -> Option<Seq<Reloc>> {
    match var_u32_at(buf, 0) {
        None => None,
        Some((_section, at1)) => match var_u32_at(buf, at1) {
            None => None,
            Some((count, at2)) => relocs_from(buf, at2, count as nat),
        },
    }
}

pub open spec fn prepend<T>(a: Seq<T>, o: Option<Seq<T>>) -> Option<Seq<T>> {
    match o {
        Some(r) => Some(a + r),
        None => None,
    }
}

fn read_u8(buf: &Vec<u8>, pos: usize) -> (r: Option<(u8, usize)>)
    ensures
        r matches Some(p) ==> u8_at(buf@, pos as nat) == Some((p.0, p.1 as nat)),
        r is None ==> u8_at(buf@, pos as nat) is None,
{
    if pos < buf.len() {
        Some((buf[pos], pos + 1))
    } else {
        None
    }
}

fn skip_name(buf: &Vec<u8>, pos: usize) -> (r: Option<usize>)
    ensures
        r matches Some(p) ==> name_end(buf@, pos as nat) == Some(p as nat),
        r is None ==> name_end(buf@, pos as nat) is None,
{
    match read_var_u32(buf, pos) {
        None => None,
        Some((n, p)) => {
            if p <= buf.len() && n as usize <= buf.len() - p {
                Some(p + n as usize)
            } else {
                proof {
                    lemma_var_u32_bound(buf@, pos as nat);
                }
                None
            }
        },
    }
}

proof fn lemma_var_u32_bound(buf: Seq<u8>, pos: nat)
    ensures
        var_u32_at(buf, pos) matches Some(p) ==> pos < p.1 <= buf.len(),
{
    if pos <= buf.len() {
        crate::leb::lemma_leb_run_bound(buf.subrange(pos as int, buf.len() as int), 5);
    }
}

fn read_symbol(buf: &Vec<u8>, pos: usize) -> (r: Option<(Symbol, usize)>)
    ensures
        r matches Some(p) ==> symbol_at(buf@, pos as nat) == Some((p.0, p.1 as nat)),
        r is None ==> symbol_at(buf@, pos as nat) is None,
{
    let (kind, at1) = match read_u8(buf, pos) {
        Some(x) => x,
        None => return None,
    };
    let (flags, at2) = match read_var_u32(buf, at1) {
        Some(x) => x,
        None => return None,
    };
    let undefined = flags / 16 % 2 == 1;
    if kind == 1 {
        let at3 = match skip_name(buf, at2) {
            Some(x) => x,
            None => return None,
        };
        if undefined {
            return Some((Symbol::Other, at3));
        }
        let (seg, at4) = match read_var_u32(buf, at3) {
            Some(x) => x,
            None => return None,
        };
        let (off, at5) = match read_var_u32(buf, at4) {
            Some(x) => x,
            None => return None,
        };
        match read_var_u32(buf, at5) {
            Some((_size, at6)) => Some((Symbol::Data(seg, off), at6)),
            None => None,
        }
    } else if kind == 3 {
        match read_var_u32(buf, at2) {
            Some((_index, at3)) => Some((Symbol::Section, at3)),
            None => None,
        }
    } else if kind == 0 || kind == 2 || kind == 4 || kind == 5 {
        let (index, at3) = match read_var_u32(buf, at2) {
            Some(x) => x,
            None => return None,
        };
        let at4 = if !undefined || flags / 64 % 2 == 1 {
            match skip_name(buf, at3) {
                Some(x) => x,
                None => return None,
            }
        } else {
            at3
        };
        if kind == 0 {
            Some((Symbol::Function(index), at4))
        } else {
            Some((Symbol::Other, at4))
        }
    } else {
        None
    }
}

fn read_symbols(buf: &Vec<u8>, pos: usize, n: u32) -> (r: Option<Vec<Symbol>>)
    ensures
        r matches Some(v) ==> symbols_from(buf@, pos as nat, n as nat) == Some(v@),
        r is None ==> symbols_from(buf@, pos as nat, n as nat) is None,
{
    let mut out: Vec<Symbol> = Vec::new();
    let mut p: usize = pos;
    let mut i: u32 = 0;
    assert(symbols_from(buf@, pos as nat, n as nat) == prepend(out@, symbols_from(buf@, p as nat, n as nat))) by {
        if let Some(r) = symbols_from(buf@, pos as nat, n as nat) {
            assert(out@ + r =~= r);
        }
    }
    while i < n
        invariant
            i <= n,
            symbols_from(buf@, pos as nat, n as nat) == prepend(out@, symbols_from(buf@, p as nat, (n - i) as nat)),
        decreases n - i,
    {
        match read_symbol(buf, p) {
            None => {
                return None;
            },
            Some((sym, q)) => {
                let ghost rest = symbols_from(buf@, q as nat, (n - i - 1) as nat);
                assert(prepend(out@, prepend(seq![sym], rest)) == prepend(out@.push(sym), rest)) by {
                    if let Some(x) = rest {
                        assert(out@ + (seq![sym] + x) =~= out@.push(sym) + x);
                    }
                }
                out.push(sym);
                p = q;
            },
        }
        i = i + 1;
    }
    assert(out@ + Seq::<Symbol>::empty() =~= out@);
    Some(out)
}

/// Reads the symbol table of a linking section (see `symbol_table`).
pub fn read_symbol_table(buf: &Vec<u8>) -> (r: Option<Vec<Symbol>>)
    ensures
        r matches Some(v) ==> symbol_table(buf@) == Some(v@),
        r is None ==> symbol_table(buf@) is None,
{
    let mut pos: usize = match read_var_u32(buf, 0) {
        Some((_version, p)) => p,
        None => return None,
    };
    proof {
        lemma_var_u32_bound(buf@, 0);
    }
    while pos < buf.len()
        invariant
            pos <= buf@.len(),
            symbol_table(buf@) == symbol_table_from(buf@, pos as nat),
        decreases buf@.len() - pos,
    {
        let (ty, at1) = match read_u8(buf, pos) {
            Some(x) => x,
            None => return None,
        };
        let (len, at2) = match read_var_u32(buf, at1) {
            Some(x) => x,
            None => return None,
        };
        proof {
            lemma_var_u32_bound(buf@, at1 as nat);
        }
        if len as usize > buf.len() - at2 || at2 <= pos {
            return None;
        }
        if ty == 8 {
            return match read_var_u32(buf, at2) {
                Some((count, at3)) => read_symbols(buf, at3, count),
                None => None,
            };
        }
        pos = at2 + len as usize;
    }
    Some(Vec::new())
}

fn read_reloc(buf: &Vec<u8>, pos: usize) -> (r: Option<(Reloc, usize)>)
    ensures
        r matches Some(p) ==> reloc_at(buf@, pos as nat) == Some((p.0, p.1 as nat)),
        r is None ==> reloc_at(buf@, pos as nat) is None,
{
    let (kind, at1) = match read_u8(buf, pos) {
        Some(x) => x,
        None => return None,
    };
    let (offset, at2) = match read_var_u32(buf, at1) {
        Some(x) => x,
        None => return None,
    };
    let (symbol, at3) = match read_var_u32(buf, at2) {
        Some(x) => x,
        None => return None,
    };
    if kind == 3 || kind == 4 || kind == 5 || kind == 8 || kind == 9 || kind == 11 {
        match read_var_i32(buf, at3) {
            Some((addend, at4)) => Some((Reloc { kind, offset, symbol, addend }, at4)),
            None => None,
        }
    } else {
        Some((Reloc { kind, offset, symbol, addend: 0 }, at3))
    }
}

fn read_relocs(buf: &Vec<u8>, pos: usize, n: u32) -> (r: Option<Vec<Reloc>>)
    ensures
        r matches Some(v) ==> relocs_from(buf@, pos as nat, n as nat) == Some(v@),
        r is None ==> relocs_from(buf@, pos as nat, n as nat) is None,
{
    let mut out: Vec<Reloc> = Vec::new();
    let mut p: usize = pos;
    let mut i: u32 = 0;
    assert(relocs_from(buf@, pos as nat, n as nat) == prepend(out@, relocs_from(buf@, p as nat, n as nat))) by {
        if let Some(r) = relocs_from(buf@, pos as nat, n as nat) {
            assert(out@ + r =~= r);
        }
    }
    while i < n
        invariant
            i <= n,
            relocs_from(buf@, pos as nat, n as nat) == prepend(out@, relocs_from(buf@, p as nat, (n - i) as nat)),
        decreases n - i,
    {
        match read_reloc(buf, p) {
            None => {
                return None;
            },
            Some((rel, q)) => {
                let ghost rest = relocs_from(buf@, q as nat, (n - i - 1) as nat);
                assert(prepend(out@, prepend(seq![rel], rest)) == prepend(out@.push(rel), rest)) by {
                    if let Some(x) = rest {
                        assert(out@ + (seq![rel] + x) =~= out@.push(rel) + x);
                    }
                }
                out.push(rel);
                p = q;
            },
        }
        i = i + 1;
    }
    assert(out@ + Seq::<Reloc>::empty() =~= out@);
    Some(out)
}

/// Reads the entries of a relocation table (see `reloc_entries`).
pub fn read_reloc_entries(buf: &Vec<u8>) -> (r: Option<Vec<Reloc>>)
    ensures
        r matches Some(v) ==> reloc_entries(buf@) == Some(v@),
        r is None ==> reloc_entries(buf@) is None,
{
    let (_section, at1) = match read_var_u32(buf, 0) {
        Some(x) => x,
        None => return None,
    };
    match read_var_u32(buf, at1) {
        Some((count, at2)) => read_relocs(buf, at2, count),
        None => None,
    }
}

/// `x` reduced to 32 bits.
pub open spec fn wrap32(x: int) -> u32 {
    (x % 0x1_0000_0000) as u32
}

/// The value that relocation `r` writes: a function's code offset, a data
/// symbol's segment offset plus its offset in the segment, or 0 for a section
/// symbol; plus the addend, in 32 bits.
pub open spec fn reloc_value(r: Reloc, syms: Seq<Symbol>, funcs: Seq<usize>, segs: Seq<u32>) -> Result<
    u32,
    RelocError,
> {
    if r.symbol >= syms.len() {
        Err(RelocError::SymbolOutOfRange)
    } else {
        match syms[r.symbol as int] {
            Symbol::Function(i) => if i >= funcs.len() {
                Err(RelocError::SymbolOutOfRange)
            } else {
                Ok(wrap32(funcs[i as int] + r.addend))
            },
            Symbol::Data(seg, off) => if seg >= segs.len() {
                Err(RelocError::SymbolOutOfRange)
            } else {
                Ok(wrap32(segs[seg as int] + off + r.addend))
            },
            Symbol::Section => Ok(wrap32(r.addend as int)),
            Symbol::Other => Err(RelocError::UnsupportedSymbol),
        }
    }
}

/// Width of the field that a relocation kind patches: five bytes of padded
/// LEB128 for a LEB kind, four little-endian bytes for an I32 kind, 0 for a
/// kind this engine does not resolve.
pub open spec fn field_width(kind: u8) -> nat {
    if kind == 3 {
        5
    } else if kind == 5 || kind == 8 || kind == 9 {
        4
    } else {
        0
    }
}

/// `v` as four little-endian bytes.
pub open spec fn le32(v: u32) -> Seq<u8> {
    seq![(v % 256) as u8, (v / 256 % 256) as u8, (v / 65536 % 256) as u8, (v / 16777216) as u8]
}

/// The buffer `data` with the field of relocation `r` overwritten.
pub open spec fn patch_one(data: Seq<u8>, r: Reloc, syms: Seq<Symbol>, funcs: Seq<usize>, segs: Seq<u32>) -> Result<
    Seq<u8>,
    RelocError,
> {
    let w = field_width(r.kind);
    if w == 0 {
        Err(RelocError::UnsupportedRelocation)
    } else {
        match reloc_value(r, syms, funcs, segs) {
            Err(e) => Err(e),
            Ok(v) => if r.offset + w > data.len() {
                Err(RelocError::FieldOutOfRange)
            } else {
                Ok(
                    data.subrange(0, r.offset as int) + (if w == 5 {
                        leb_fixed5(v as nat)
                    } else {
                        le32(v)
                    }) + data.subrange(r.offset + w, data.len() as int),
                )
            },
        }
    }
}

/// The buffer `data` after the relocations `rs`, in order.
pub open spec fn apply_relocs(data: Seq<u8>, rs: Seq<Reloc>, syms: Seq<Symbol>, funcs: Seq<usize>, segs: Seq<u32>) -> Result<
    Seq<u8>,
    RelocError,
>
    decreases rs.len(),
{
    if rs.len() == 0 {
        Ok(data)
    } else {
        match apply_relocs(data, rs.drop_last(), syms, funcs, segs) {
            Err(e) => Err(e),
            Ok(d) => patch_one(d, rs.last(), syms, funcs, segs),
        }
    }
}

/// The name of the debug buffer that the relocation table `name` patches:
/// the name without its `reloc.` prefix.
pub open spec fn target_name(name: Seq<char>) -> Seq<char> {
    if name.len() >= 6 {
        name.subrange(6, name.len() as int)
    } else {
        name
    }
}

/// The debug buffers after one relocation table: its target, if there is one,
/// has all its entries applied.
pub open spec fn table_step(tables: Table, rt: (Seq<char>, Seq<u8>), syms: Seq<Symbol>, funcs: Seq<usize>, segs: Seq<u32>) -> Result<
    Table,
    RelocError,
> {
    let k = key_index(tables, target_name(rt.0));
    if k >= tables.len() {
        Ok(tables)
    } else {
        match reloc_entries(rt.1) {
            None => Err(RelocError::MalformedRelocations),
            Some(rs) => match apply_relocs(tables[k as int].1, rs, syms, funcs, segs) {
                Err(e) => Err(e),
                Ok(d) => Ok(tables.update(k as int, (tables[k as int].0, d))),
            },
        }
    }
}

/// The debug buffers after the relocation tables `rts`, in order.
pub open spec fn apply_tables(tables: Table, rts: Table, syms: Seq<Symbol>, funcs: Seq<usize>, segs: Seq<u32>) -> Result<
    Table,
    RelocError,
>
    decreases rts.len(),
{
    if rts.len() == 0 {
        Ok(tables)
    } else {
        match apply_tables(tables, rts.drop_last(), syms, funcs, segs) {
            Err(e) => Err(e),
            Ok(t) => table_step(t, rts.last(), syms, funcs, segs),
        }
    }
}

/// The debug buffers that relocation gives for the sections `v`.
pub open spec fn reloc_spec(v: SectionsView) -> Result<Table, RelocError> {
    match v.linking {
        None => Err(RelocError::MissingLinkingInfo),
        Some(l) => match symbol_table(l) {
            None => Err(RelocError::MalformedLinking),
            Some(syms) => apply_tables(v.tables, v.reloc_tables, syms, v.func_offsets, v.data_segment_offsets),
        },
    }
}

/// The sections after a relocation that gave `tables`: the linking buffer and
/// the relocation tables are used up.
pub open spec fn relocated(v: SectionsView, tables: Table) -> SectionsView {
    SectionsView { tables, reloc_tables: Seq::empty(), linking: None, ..v }
}

fn write_le32(buf: &mut Vec<u8>, pos: usize, v: u32)
    requires
        pos + 4 <= old(buf)@.len(),
    ensures
        final(buf)@ == old(buf)@.subrange(0, pos as int) + le32(v) + old(buf)@.subrange(
            pos + 4,
            old(buf)@.len() as int,
        ),
{
    let len: usize = buf.len();
    assert(pos + 4 <= len);
    buf.set(pos, (v % 256) as u8);
    buf.set(pos + 1, (v / 256 % 256) as u8);
    buf.set(pos + 2, (v / 65536 % 256) as u8);
    buf.set(pos + 3, (v / 16777216) as u8);
    assert(final(buf)@ =~= old(buf)@.subrange(0, pos as int) + le32(v) + old(buf)@.subrange(
        pos + 4,
        old(buf)@.len() as int,
    ));
}

fn value_of(r: Reloc, syms: &Vec<Symbol>, funcs: &Vec<usize>, segs: &Vec<u32>) -> (res: Result<u32, RelocError>)
    ensures
        res == reloc_value(r, syms@, funcs@, segs@),
{
    if r.symbol as usize >= syms.len() {
        return Err(RelocError::SymbolOutOfRange);
    }
    let base: u64 = match syms[r.symbol as usize] {
        Symbol::Function(i) => {
            if i as usize >= funcs.len() {
                return Err(RelocError::SymbolOutOfRange);
            }
            funcs[i as usize] as u64 % 0x1_0000_0000
        },
        Symbol::Data(seg, off) => {
            if seg as usize >= segs.len() {
                return Err(RelocError::SymbolOutOfRange);
            }
            segs[seg as usize] as u64 + off as u64
        },
        Symbol::Section => 0,
        Symbol::Other => {
            return Err(RelocError::UnsupportedSymbol);
        },
    };
    let add: u64 = if r.addend >= 0 {
        r.addend as u64
    } else {
        (r.addend as i64 + 0x1_0000_0000) as u64
    };
    let v = ((base + add) % 0x1_0000_0000) as u32;
    proof {
        let x: int = match syms@[r.symbol as int] {
            Symbol::Function(i) => funcs@[i as int] + r.addend,
            Symbol::Data(seg, off) => segs@[seg as int] + off + r.addend,
            _ => r.addend as int,
        };
        let b: int = match syms@[r.symbol as int] {
            Symbol::Function(i) => funcs@[i as int] as int,
            Symbol::Data(seg, off) => segs@[seg as int] + off,
            _ => 0,
        };
        assert(x == b + r.addend);
        assert(base as int == b % 0x1_0000_0000 || base as int == b);
        assert(add as int % 0x1_0000_0000 == (r.addend as int) % 0x1_0000_0000);
        vstd::arithmetic::div_mod::lemma_add_mod_noop(b, r.addend as int, 0x1_0000_0000);
        vstd::arithmetic::div_mod::lemma_add_mod_noop(base as int, add as int, 0x1_0000_0000);
        vstd::arithmetic::div_mod::lemma_mod_twice(b, 0x1_0000_0000);
        assert((b % 0x1_0000_0000) % 0x1_0000_0000 == b % 0x1_0000_0000);
        assert(v as int == x % 0x1_0000_0000);
    }
    Ok(v)
}

/// Applies the relocations `rs` to `data` in place (see `apply_relocs`).
fn apply_to(data: &mut Vec<u8>, rs: &Vec<Reloc>, syms: &Vec<Symbol>, funcs: &Vec<usize>, segs: &Vec<u32>) -> (res:
    Result<(), RelocError>)
    ensures
        res is Ok ==> apply_relocs(old(data)@, rs@, syms@, funcs@, segs@) == Ok::<Seq<u8>, RelocError>(final(data)@),
        res matches Err(e) ==> apply_relocs(old(data)@, rs@, syms@, funcs@, segs@) == Err::<Seq<u8>, RelocError>(e),
{
    let mut i: usize = 0;
    while i < rs.len()
        invariant
            i <= rs@.len(),
            apply_relocs(old(data)@, rs@.take(i as int), syms@, funcs@, segs@) == Ok::<Seq<u8>, RelocError>(data@),
        decreases rs@.len() - i,
    {
        assert(rs@.take(i + 1).drop_last() =~= rs@.take(i as int));
        assert(rs@.take(i + 1).last() == rs@[i as int]);
        let r = rs[i];
        let w: usize = if r.kind == 3 {
            5
        } else if r.kind == 5 || r.kind == 8 || r.kind == 9 {
            4
        } else {
            0
        };
        let res: Result<(), RelocError> = if w == 0 {
            Err(RelocError::UnsupportedRelocation)
        } else {
            match value_of(r, syms, funcs, segs) {
                Err(e) => Err(e),
                Ok(v) => {
                    if r.offset as usize > data.len() || w > data.len() - r.offset as usize {
                        Err(RelocError::FieldOutOfRange)
                    } else {
                        if w == 5 {
                            write_fixed5(data, r.offset as usize, v);
                        } else {
                            write_le32(data, r.offset as usize, v);
                        }
                        Ok(())
                    }
                },
            }
        };
        if let Err(e) = res {
            proof {
                lemma_apply_err(old(data)@, rs@, syms@, funcs@, segs@, i as int + 1, e);
            }
            return Err(e);
        }
        i = i + 1;
    }
    assert(rs@.take(rs@.len() as int) =~= rs@);
    Ok(())
}

proof fn lemma_apply_err(data: Seq<u8>, rs: Seq<Reloc>, syms: Seq<Symbol>, funcs: Seq<usize>, segs: Seq<u32>, k: int, e: RelocError)
    requires
        0 <= k <= rs.len(),
        apply_relocs(data, rs.take(k), syms, funcs, segs) == Err::<Seq<u8>, RelocError>(e),
    ensures
        apply_relocs(data, rs, syms, funcs, segs) == Err::<Seq<u8>, RelocError>(e),
    decreases rs.len() - k,
{
    if k < rs.len() {
        assert(rs.take(k + 1).drop_last() =~= rs.take(k));
        lemma_apply_err(data, rs, syms, funcs, segs, k + 1, e);
    } else {
        assert(rs.take(k) =~= rs);
    }
}

fn copy_tables(t: &Vec<(String, Vec<u8>)>) -> (r: Vec<(String, Vec<u8>)>)
    ensures
        table_view(r@) == table_view(t@),
{
    let mut r: Vec<(String, Vec<u8>)> = Vec::new();
    let mut i: usize = 0;
    while i < t.len()
        invariant
            i <= t@.len(),
            table_view(r@) == table_view(t@).take(i as int),
        decreases t@.len() - i,
    {
        let name = t[i].0.clone();
        let bytes = copy_bytes(&t[i].1);
        assert(name@ == t@[i as int].0@ && bytes@ == t@[i as int].1@);
        let ghost before = r@;
        r.push((name, bytes));
        assert(r@ == before.push((name, bytes)));
        assert(table_view(r@) =~= table_view(before).push((t@[i as int].0@, t@[i as int].1@)));
        assert(table_view(t@).take(i + 1) =~= table_view(t@).take(i as int).push((t@[i as int].0@, t@[i as int].1@)));
        i = i + 1;
    }
    assert(table_view(t@).take(t@.len() as int) =~= table_view(t@));
    r
}

fn copy_bytes(b: &Vec<u8>) -> (r: Vec<u8>)
    ensures
        r@ == b@,
{
    let mut r: Vec<u8> = Vec::new();
    let mut i: usize = 0;
    while i < b.len()
        invariant
            i <= b@.len(),
            r@ == b@.subrange(0, i as int),
        decreases b@.len() - i,
    {
        assert(b@.subrange(0, i + 1) =~= b@.subrange(0, i as int).push(b@[i as int]));
        r.push(b[i]);
        i = i + 1;
    }
    assert(b@.subrange(0, b@.len() as int) =~= b@);
    r
}

proof fn lemma_tables_err(tables: Table, rts: Table, syms: Seq<Symbol>, funcs: Seq<usize>, segs: Seq<u32>, k: int, e: RelocError)
    requires
        0 <= k <= rts.len(),
        apply_tables(tables, rts.take(k), syms, funcs, segs) == Err::<Table, RelocError>(e),
    ensures
        apply_tables(tables, rts, syms, funcs, segs) == Err::<Table, RelocError>(e),
    decreases rts.len() - k,
{
    if k < rts.len() {
        assert(rts.take(k + 1).drop_last() =~= rts.take(k));
        lemma_tables_err(tables, rts, syms, funcs, segs, k + 1, e);
    } else {
        assert(rts.take(k) =~= rts);
    }
}

/// Resolves every relocation table against the debug buffer it names: each
/// entry's field is overwritten with the value of its symbol (see
/// `reloc_spec`). The linking buffer and the relocation tables are used up,
/// so a second run finds no linking buffer and fails.
pub fn reloc(d: &mut DebugSections) -> (r: Result<(), RelocError>)
    ensures
        r is Ok <==> reloc_spec(old(d).view_of()) is Ok,
        r matches Err(e) ==> reloc_spec(old(d).view_of()) == Err::<Table, RelocError>(e),
        reloc_spec(old(d).view_of()) matches Ok(t) ==> final(d).view_of() == relocated(old(d).view_of(), t),
        r is Err ==> final(d).view_of() == old(d).view_of(),
{
    let syms = match &d.linking {
        None => return Err(RelocError::MissingLinkingInfo),
        Some(l) => match read_symbol_table(l) {
            None => return Err(RelocError::MalformedLinking),
            Some(s) => s,
        },
    };
    let ghost v0 = d.view_of();
    let mut tables = copy_tables(&d.tables);
    let mut j: usize = 0;
    while j < d.reloc_tables.len()
        invariant
            j <= d.reloc_tables@.len(),
            d.reloc_tables@ == old(d).reloc_tables@,
            d.tables@ == old(d).tables@,
            d.linking == old(d).linking,
            d.code_start == old(d).code_start,
            d.func_offsets@ == old(d).func_offsets@,
            d.data_segment_offsets@ == old(d).data_segment_offsets@,
            v0 == old(d).view_of(),
            v0.linking matches Some(l) && symbol_table(l) == Some(syms@),
            apply_tables(v0.tables, v0.reloc_tables.take(j as int), syms@, v0.func_offsets, v0.data_segment_offsets)
                == Ok::<Table, RelocError>(table_view(tables@)),
        decreases d.reloc_tables@.len() - j,
    {
        let ghost rts = v0.reloc_tables;
        assert(rts.take(j + 1).drop_last() =~= rts.take(j as int));
        assert(rts.take(j + 1).last() == rts[j as int]);
        assert(rts[j as int] == (d.reloc_tables@[j as int].0@, d.reloc_tables@[j as int].1@));
        let ghost tv = table_view(tables@);
        let name = chars_of(d.reloc_tables[j].0.as_str());
        let target = if name.len() >= 6 {
            sub_chars(&name, 6, name.len())
        } else {
            name
        };
        proof {
            lemma_key_index(tv, target@);
        }
        let mut k: usize = 0;
        while k < tables.len() && !eq_chars(&chars_of(tables[k].0.as_str()), &target)
            invariant
                k <= tables@.len(),
                tv == table_view(tables@),
                forall|i: int| 0 <= i < k ==> tables@[i].0@ != target@,
            decreases tables@.len() - k,
        {
            k = k + 1;
        }
        proof {
            if key_index(tv, target@) < k {
                assert(tv[key_index(tv, target@) as int].0 == tables@[key_index(tv, target@) as int].0@);
            }
            if k < tables@.len() {
                assert(tv[k as int].0 == tables@[k as int].0@);
            }
        }
        if k < tables.len() {
            let rs = match read_reloc_entries(&d.reloc_tables[j].1) {
                Some(rs) => rs,
                None => {
                    proof {
                        lemma_tables_err(v0.tables, rts, syms@, v0.func_offsets, v0.data_segment_offsets, j + 1, RelocError::MalformedRelocations);
                    }
                    return Err(RelocError::MalformedRelocations);
                },
            };
            let mut data = copy_bytes(&tables[k].1);
            match apply_to(&mut data, &rs, &syms, &d.func_offsets, &d.data_segment_offsets) {
                Ok(()) => {},
                Err(e) => {
                    proof {
                        lemma_tables_err(v0.tables, rts, syms@, v0.func_offsets, v0.data_segment_offsets, j + 1, e);
                    }
                    return Err(e);
                },
            }
            let nm = tables[k].0.clone();
            tables.set(k, (nm, data));
            assert(table_view(tables@) =~= tv.update(k as int, (tv[k as int].0, data@)));
        }
        j = j + 1;
    }
    assert(v0.reloc_tables.take(d.reloc_tables@.len() as int) =~= v0.reloc_tables);
    d.tables = tables;
    d.linking = None;
    d.reloc_tables = Vec::new();
    assert(table_view(d.reloc_tables@) =~= Seq::empty());
    Ok(())
}

proof fn lemma_apply_none(data: Seq<u8>, syms: Seq<Symbol>, funcs: Seq<usize>, segs: Seq<u32>)
    ensures
        apply_relocs(data, Seq::empty(), syms, funcs, segs) == Ok::<Seq<u8>, RelocError>(data),
{
}

/// A debug buffer that no relocation table reaches with any entry is left as
/// it is: where every relocation table named after the buffer at `k` holds
/// no entries, relocation hands that buffer back unchanged.
pub proof fn lemma_reloc_identity_without_entries(v: SectionsView, k: int)
    requires
        0 <= k < v.tables.len(),
        forall|j: int|
            0 <= j < v.reloc_tables.len() && target_name(#[trigger] v.reloc_tables[j].0) == v.tables[k].0
                ==> reloc_entries(v.reloc_tables[j].1) == Some(Seq::<Reloc>::empty()),
    ensures
        reloc_spec(v) matches Ok(t) ==> t.len() == v.tables.len() && t[k] == v.tables[k],
{
    if let Some(l) = v.linking {
        if let Some(syms) = symbol_table(l) {
            lemma_tables_keep(v.tables, v.reloc_tables, syms, v.func_offsets, v.data_segment_offsets, k);
        }
    }
}

proof fn lemma_tables_keep(tables: Table, rts: Table, syms: Seq<Symbol>, funcs: Seq<usize>, segs: Seq<u32>, k: int)
    requires
        0 <= k < tables.len(),
        forall|j: int|
            0 <= j < rts.len() && target_name(#[trigger] rts[j].0) == tables[k].0
                ==> reloc_entries(rts[j].1) == Some(Seq::<Reloc>::empty()),
    ensures
        apply_tables(tables, rts, syms, funcs, segs) matches Ok(t) ==> t.len() == tables.len() && t[k] == tables[k],
    decreases rts.len(),
{
    if rts.len() > 0 {
        let init = rts.drop_last();
        assert forall|j: int|
            0 <= j < init.len() && target_name(#[trigger] init[j].0) == tables[k].0
                implies reloc_entries(init[j].1) == Some(Seq::<Reloc>::empty()) by {
            assert(init[j] == rts[j]);
        }
        lemma_tables_keep(tables, init, syms, funcs, segs, k);
        if let Ok(t) = apply_tables(tables, init, syms, funcs, segs) {
            let rt = rts.last();
            let i = key_index(t, target_name(rt.0));
            lemma_key_index(t, target_name(rt.0));
            if i == k {
                assert(rts[rts.len() - 1] == rt);
                lemma_apply_none(t[k].1, syms, funcs, segs);
            }
        }
    }
}

/// Relocation runs at most once: after a run that succeeded, a second run on
/// the result fails with `MissingLinkingInfo`.
pub proof fn lemma_reloc_not_repeatable(v: SectionsView)
    requires
        reloc_spec(v) is Ok,
    ensures
        reloc_spec(relocated(v, reloc_spec(v)->Ok_0)) == Err::<Table, RelocError>(RelocError::MissingLinkingInfo),
{
}

} // verus!
