//! The textual call-site map: one line per source path, then one per entry.
use vstd::prelude::*;

use crate::correlate::{Instr, SourceMapEntry};
use crate::text::{chars_of, string_of};

verus! {

pub open spec fn digit(d: nat) -> char {
    if d == 0 { '0' } else if d == 1 { '1' } else if d == 2 { '2' } else if d == 3 { '3' } else if d == 4 {
        '4'
    } else if d == 5 { '5' } else if d == 6 { '6' } else if d == 7 { '7' } else if d == 8 { '8' } else { '9' }
}

/// `n` in decimal.
pub open spec fn dec(n: nat) -> Seq<char>
    decreases n,
{
    if n < 10 {
        seq![digit(n)]
    } else {
        dec(n / 10).push(digit(n % 10))
    }
}

pub open spec fn op_text(op: Instr) -> Seq<char> {
    match op {
        Instr::Call => seq!['C', 'a', 'l', 'l'],
        Instr::CallIndirect => seq!['C', 'a', 'l', 'l', 'I', 'n', 'd', 'i', 'r', 'e', 'c', 't'],
        Instr::Other => Seq::empty(),
    }
}

/// The line `source <id> <path>`.
pub open spec fn source_line(id: nat, path: Seq<char>) -> Seq<char> {
    seq!['s', 'o', 'u', 'r', 'c', 'e', ' '] + dec(id) + seq![' '] + path + seq!['\n']
}

/// The path that source id `id` names; empty when there is none.
pub open spec fn path_of(sources: Seq<Seq<char>>, id: usize) -> Seq<char> {
    if id < sources.len() {
        sources[id as int]
    } else {
        Seq::empty()
    }
}

/// The line `<Op>@<address>\t<text>\t(<path>:<line>)`.
pub open spec fn entry_line(sources: Seq<Seq<char>>, e: SourceMapEntry) -> Seq<char> {
    op_text(e.op) + seq!['@'] + dec(e.address as nat) + seq!['\t'] + e.source_code@ + seq!['\t', '('] + path_of(
        sources,
        e.source_id,
    ) + seq![':'] + dec(e.line as nat) + seq![')', '\n']
}

pub open spec fn source_lines(sources: Seq<Seq<char>>, k: nat) -> Seq<char>
    decreases k,
{
    if k == 0 || k > sources.len() {
        Seq::empty()
    } else {
        source_lines(sources, (k - 1) as nat) + source_line((k - 1) as nat, sources[k - 1])
    }
}

pub open spec fn entry_lines(sources: Seq<Seq<char>>, es: Seq<SourceMapEntry>) -> Seq<char>
    decreases es.len(),
{
    if es.len() == 0 {
        Seq::empty()
    } else {
        entry_lines(sources, es.drop_last()) + entry_line(sources, es.last())
    }
}

/// The whole report: every source line, then every entry line, in order.
pub open spec fn report_spec(sources: Seq<Seq<char>>, es: Seq<SourceMapEntry>) -> Seq<char> {
    source_lines(sources, sources.len()) + entry_lines(sources, es)
}

fn push_all(out: &mut Vec<char>, s: &Vec<char>)
    ensures
        final(out)@ == old(out)@ + s@,
{
    let mut i: usize = 0;
    while i < s.len()
        invariant
            i <= s@.len(),
            out@ == old(out)@ + s@.subrange(0, i as int),
        decreases s@.len() - i,
    {
        assert(old(out)@ + s@.subrange(0, i + 1) =~= old(out)@ + s@.subrange(0, i as int) + seq![s@[i as int]]);
        out.push(s[i]);
        i = i + 1;
    }
    assert(s@.subrange(0, s@.len() as int) =~= s@);
}

fn digit_char(d: u64) -> (c: char)
    requires
        d < 10,
    ensures
        c == digit(d as nat),
{
    if d == 0 { '0' } else if d == 1 { '1' } else if d == 2 { '2' } else if d == 3 { '3' } else if d == 4 {
        '4'
    } else if d == 5 { '5' } else if d == 6 { '6' } else if d == 7 { '7' } else if d == 8 { '8' } else { '9' }
}

/// Appends `n` in decimal to `out`.
fn push_decimal(out: &mut Vec<char>, n: u64)
    ensures
        final(out)@ == old(out)@ + dec(n as nat),
    decreases n,
{
    if n < 10 {
        out.push(digit_char(n));
    } else {
        push_decimal(out, n / 10);
        out.push(digit_char(n % 10));
        assert(final(out)@ =~= old(out)@ + dec(n as nat));
    }
}

/// Writes the textual map of `entries` over the source paths `sources`.
#[verifier::rlimit(60)]
pub fn report(sources: &Vec<String>, entries: &Vec<SourceMapEntry>) -> (r: String)
    ensures
        r@ == report_spec(sources@.map_values(|s: String| s@), entries@),
{
    let ghost sv = sources@.map_values(|s: String| s@);
    let mut out: Vec<char> = Vec::new();
    let mut i: usize = 0;
    while i < sources.len()
        invariant
            i <= sources@.len(),
            sv == sources@.map_values(|s: String| s@),
            out@ == source_lines(sv, i as nat),
        decreases sources@.len() - i,
    {
        let ghost before = out@;
        push_all(&mut out, &vec!['s', 'o', 'u', 'r', 'c', 'e', ' ']);
        push_decimal(&mut out, i as u64);
        out.push(' ');
        push_all(&mut out, &chars_of(sources[i].as_str()));
        out.push('\n');
        assert(out@ =~= before + source_line(i as nat, sv[i as int]));
        i = i + 1;
    }
    let ghost head = out@;
    let mut k: usize = 0;
    while k < entries.len()
        invariant
            k <= entries@.len(),
            sv == sources@.map_values(|s: String| s@),
            head == source_lines(sv, sv.len()),
            out@ == head + entry_lines(sv, entries@.take(k as int)),
        decreases entries@.len() - k,
    {
        assert(entries@.take(k + 1).drop_last() =~= entries@.take(k as int));
        let e = &entries[k];
        let ghost before = out@;
        let op: Vec<char> = match e.op {
            Instr::Call => vec!['C', 'a', 'l', 'l'],
            Instr::CallIndirect => vec!['C', 'a', 'l', 'l', 'I', 'n', 'd', 'i', 'r', 'e', 'c', 't'],
            Instr::Other => Vec::new(),
        };
        assert(op@ =~= op_text(e.op));
        push_all(&mut out, &op);
        out.push('@');
        push_decimal(&mut out, e.address as u64);
        out.push('\t');
        push_all(&mut out, &chars_of(e.source_code.as_str()));
        out.push('\t');
        out.push('(');
        if e.source_id < sources.len() {
            push_all(&mut out, &chars_of(sources[e.source_id].as_str()));
        }
        out.push(':');
        push_decimal(&mut out, e.line);
        out.push(')');
        out.push('\n');
        assert(out@ =~= before + entry_line(sv, entries@[k as int]));
        assert(head + entry_lines(sv, entries@.take(k + 1)) =~= before + entry_line(sv, entries@[k as int]));
        k = k + 1;
    }
    assert(entries@.take(entries@.len() as int) =~= entries@);
    string_of(&out)
}

} // verus!
