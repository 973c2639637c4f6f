//! Unsigned and signed LEB128, the variable-length integers of the module format.
use vstd::prelude::*;

verus! {

/// The shortest unsigned LEB128 encoding of `n`.
pub open spec fn leb_u(n: nat) -> Seq<u8>
    decreases n,
{
    if n < 128 {
        seq![n as u8]
    } else {
        seq![(128 + n % 128) as u8] + leb_u(n / 128)
    }
}

/// The number that a run of LEB128 bytes stands for, read as unsigned.
pub open spec fn leb_value(s: Seq<u8>) -> nat
    decreases s.len(),
{
    if s.len() == 0 {
        0
    } else {
        (s[0] % 128) as nat + 128 * leb_value(s.drop_first())
    }
}

/// `128` to the power `n`.
pub open spec fn p128(n: nat) -> nat
    decreases n,
{
    if n == 0 {
        1
    } else {
        128 * p128((n - 1) as nat)
    }
}

/// The number that a run of LEB128 bytes stands for, read as signed: bit 6 of
/// the last byte is the sign.
pub open spec fn sleb_value(s: Seq<u8>) -> int {
    if s.len() > 0 && s.last() % 128 >= 64 {
        leb_value(s) - p128(s.len())
    } else {
        leb_value(s) as int
    }
}

/// Length of the LEB128 run at the start of `s`: up to and including the first
/// byte below 128, if one comes among the first `max` bytes.
pub open spec fn leb_run(s: Seq<u8>, max: nat) -> Option<nat>
    decreases max,
{
    if max == 0 || s.len() == 0 {
        None
    } else if s[0] < 128 {
        Some(1)
    } else {
        match leb_run(s.drop_first(), (max - 1) as nat) {
            Some(k) => Some(k + 1),
            None => None,
        }
    }
}

/// The field of five bytes that holds `v` as a padded unsigned LEB128: four
/// bytes with the continuation bit, then the high bits.
pub open spec fn leb_fixed5(v: nat) -> Seq<u8> {
    seq![
        (v % 128 + 128) as u8,
        (v / p128(1) % 128 + 128) as u8,
        (v / p128(2) % 128 + 128) as u8,
        (v / p128(3) % 128 + 128) as u8,
        (v / p128(4) % 128) as u8,
    ]
}

/// What a call of `read_var_u32(buf, pos)` returns.
pub open spec fn var_u32_at(buf: Seq<u8>, pos: nat) -> Option<(u32, nat)> {
    if pos > buf.len() {
        None
    } else {
        match leb_run(buf.subrange(pos as int, buf.len() as int), 5) {
            Some(k) => {
                let v = leb_value(buf.subrange(pos as int, pos + k as int));
                if v <= u32::MAX {
                    Some((v as u32, pos + k))
                } else {
                    None
                }
            },
            None => None,
        }
    }
}

/// What a call of `read_var_i32(buf, pos)` returns.
pub open spec fn var_i32_at(buf: Seq<u8>, pos: nat) -> Option<(i32, nat)> {
    if pos > buf.len() {
        None
    } else {
        match leb_run(buf.subrange(pos as int, buf.len() as int), 5) {
            Some(k) => {
                let v = sleb_value(buf.subrange(pos as int, pos + k as int));
                if i32::MIN <= v <= i32::MAX {
                    Some((v as i32, pos + k))
                } else {
                    None
                }
            },
            None => None,
        }
    }
}

proof fn lemma_leb_run(s: Seq<u8>, max: nat)
    ensures
        leb_run(s, max) matches Some(k) ==> 1 <= k <= max && k <= s.len() && s[k - 1] < 128
            && forall|j: int| 0 <= j < k - 1 ==> s[j] >= 128,
        leb_run(s, max) is None ==> forall|j: int|
            0 <= j < s.len() && j < max ==> (s[j] >= 128 || exists|i: int| 0 <= i < j && s[i] < 128),
    decreases max,
{
    if max > 0 && s.len() > 0 && s[0] >= 128 {
        lemma_leb_run(s.drop_first(), (max - 1) as nat);
        if leb_run(s, max) is None {
            assert forall|j: int| 0 <= j < s.len() && j < max implies (s[j] >= 128 || exists|i: int|
                0 <= i < j && s[i] < 128) by {
                if j > 0 {
                    assert(s[j] == s.drop_first()[j - 1]);
                    if s[j] < 128 {
                        let i = choose|i: int| 0 <= i < j - 1 && s.drop_first()[i] < 128;
                        assert(s[i + 1] == s.drop_first()[i]);
                    }
                }
            }
        } else {
            let k = leb_run(s, max)->Some_0;
            assert forall|j: int| 0 <= j < k - 1 implies s[j] >= 128 by {
                if j > 0 {
                    assert(s[j] == s.drop_first()[j - 1]);
                }
            }
        }
    }
}

pub(crate) proof fn lemma_leb_run_bound(s: Seq<u8>, max: nat)
    ensures
        leb_run(s, max) matches Some(k) ==> 1 <= k <= s.len(),
{
    lemma_leb_run(s, max);
}

proof fn lemma_leb_run_exact(s: Seq<u8>, max: nat, k: nat)
    requires
        1 <= k <= max,
        k <= s.len(),
        s[k - 1] < 128,
        forall|j: int| 0 <= j < k - 1 ==> s[j] >= 128,
    ensures
        leb_run(s, max) == Some(k),
    decreases k,
{
    if k > 1 {
        assert forall|j: int| 0 <= j < k - 2 implies s.drop_first()[j] >= 128 by {
            assert(s.drop_first()[j] == s[j + 1]);
        }
        lemma_leb_run_exact(s.drop_first(), (max - 1) as nat, (k - 1) as nat);
    }
}

/// Finds the end of the LEB128 run at `pos`, reading at most five bytes.
fn leb_end(buf: &Vec<u8>, pos: usize) -> (r: Option<usize>)
    requires
        pos <= buf@.len(),
    ensures
        r matches Some(e) ==> pos < e <= buf@.len() && e - pos <= 5 && leb_run(
            buf@.subrange(pos as int, buf@.len() as int),
            5,
        ) == Some((e - pos) as nat),
        r is None ==> leb_run(buf@.subrange(pos as int, buf@.len() as int), 5) is None,
{
    let ghost s = buf@.subrange(pos as int, buf@.len() as int);
    let mut i: usize = pos;
    while i < buf.len() && i - pos < 5
        invariant
            pos <= i <= buf@.len(),
            i - pos <= 5,
            s == buf@.subrange(pos as int, buf@.len() as int),
            forall|j: int| pos <= j < i ==> buf@[j] >= 128,
        decreases buf@.len() - i,
    {
        if buf[i] < 128 {
            proof {
                assert forall|j: int| 0 <= j < i - pos implies s[j] >= 128 by {
                    assert(s[j] == buf@[pos + j]);
                }
                lemma_leb_run_exact(s, 5, (i + 1 - pos) as nat);
            }
            return Some(i + 1);
        }
        i = i + 1;
    }
    proof {
        lemma_leb_run(s, 5);
        if leb_run(s, 5) is Some {
            let k = leb_run(s, 5)->Some_0;
            assert(s[k - 1] == buf@[pos + k - 1]);
        }
    }
    None
}

/// Value of the run `buf[pos..end]`, computed from its last byte back.
fn leb_sum(buf: &Vec<u8>, pos: usize, end: usize) -> (r: u64)
    requires
        pos <= end <= buf@.len(),
        end - pos <= 5,
    ensures
        r == leb_value(buf@.subrange(pos as int, end as int)),
        r < p128((end - pos) as nat),
{
    let mut v: u64 = 0;
    let mut j: usize = end;
    proof {
        reveal_with_fuel(p128, 6);
    }
    while j > pos
        invariant
            pos <= j <= end <= buf@.len(),
            end - pos <= 5,
            v == leb_value(buf@.subrange(j as int, end as int)),
            v < p128((end - j) as nat),
            p128(5) == 34359738368,
        decreases j - pos,
    {
        j = j - 1;
        let ghost tail = buf@.subrange(j as int + 1, end as int);
        assert(buf@.subrange(j as int, end as int).drop_first() =~= tail);
        let ghost n = (end - j) as nat;
        proof {
            lemma_p128_mono((n - 1) as nat, 4);
        }
        let b: u64 = (buf[j] % 128) as u64;
        assert(v * 128 + b < 128 * p128((n - 1) as nat)) by (nonlinear_arith)
            requires
                v < p128((n - 1) as nat),
                b < 128,
        ;
        v = b + 128 * v;
    }
    v
}

proof fn lemma_p128_mono(a: nat, b: nat)
    requires
        a <= b,
    ensures
        p128(a) <= p128(b),
        p128(a) >= 1,
    decreases b,
{
    if a < b {
        lemma_p128_mono(a, (b - 1) as nat);
    } else if a > 0 {
        lemma_p128_mono((a - 1) as nat, (a - 1) as nat);
    }
}

/// Reads an unsigned LEB128 of at most five bytes at `pos` whose value fits in
/// 32 bits; gives the value and the position after it.
pub fn read_var_u32(buf: &Vec<u8>, pos: usize) -> (r: Option<(u32, usize)>)
    ensures
        r matches Some(p) ==> var_u32_at(buf@, pos as nat) == Some((p.0, p.1 as nat)),
        r is None ==> var_u32_at(buf@, pos as nat) is None,
{
    if pos > buf.len() {
        return None;
    }
    match leb_end(buf, pos) {
        Some(e) => {
            let v = leb_sum(buf, pos, e);
            if v <= 0xffff_ffff {
                Some((v as u32, e))
            } else {
                None
            }
        },
        None => None,
    }
}

/// Reads a signed LEB128 of at most five bytes at `pos` whose value fits in
/// 32 bits; gives the value and the position after it.
pub fn read_var_i32(buf: &Vec<u8>, pos: usize) -> (r: Option<(i32, usize)>)
    ensures
        r matches Some(p) ==> var_i32_at(buf@, pos as nat) == Some((p.0, p.1 as nat)),
        r is None ==> var_i32_at(buf@, pos as nat) is None,
{
    if pos > buf.len() {
        return None;
    }
    match leb_end(buf, pos) {
        Some(e) => {
            let v = leb_sum(buf, pos, e);
            let ghost s = buf@.subrange(pos as int, e as int);
            assert(s.last() == buf@[e - 1]);
            let n: usize = e - pos;
            let mut m: u64 = 1;
            let mut i: usize = 0;
            while i < n
                invariant
                    i <= n <= 5,
                    m == p128(i as nat),
                decreases n - i,
            {
                proof {
                    lemma_p128_mono(i as nat, 4);
                    reveal_with_fuel(p128, 6);
                }
                assert(p128((i + 1) as nat) == 128 * p128(i as nat));
                m = m * 128;
                i = i + 1;
            }
            proof {
                lemma_p128_mono(n as nat, 5);
                reveal_with_fuel(p128, 6);
                assert(s.len() == n);
            }
            assert(p128(5) == 34359738368);
            let sv: i64 = if buf[e - 1] % 128 >= 64 {
                v as i64 - m as i64
            } else {
                v as i64
            };
            if -0x8000_0000 <= sv && sv <= 0x7fff_ffff {
                Some((sv as i32, e))
            } else {
                None
            }
        },
        None => None,
    }
}

/// Encodes `n` as unsigned LEB128, shortest form.
pub fn convert_to_leb(n: usize) -> (r: Vec<u8>)
    ensures
        r@ == leb_u(n as nat),
{
    let mut buf: Vec<u8> = Vec::new();
    let mut i: usize = n;
    while i >= 128
        invariant
            buf@ + leb_u(i as nat) == leb_u(n as nat),
        decreases i,
    {
        assert(leb_u(i as nat) == seq![(128 + i % 128) as u8] + leb_u((i / 128) as nat));
        buf.push((128 + i % 128) as u8);
        assert(buf@ + leb_u((i / 128) as nat) =~= (buf@.drop_last() + seq![(128 + i % 128) as u8]) + leb_u((i / 128) as nat));
        i = i / 128;
    }
    buf.push(i as u8);
    assert(buf@ =~= buf@.drop_last() + leb_u(i as nat));
    buf
}

/// Writes `v` as a padded five-byte LEB128 field over `buf[pos..pos + 5]`.
pub fn write_fixed5(buf: &mut Vec<u8>, pos: usize, v: u32)
    requires
        pos + 5 <= old(buf)@.len(),
    ensures
        final(buf)@ == old(buf)@.subrange(0, pos as int) + leb_fixed5(v as nat) + old(buf)@.subrange(
            pos + 5,
            old(buf)@.len() as int,
        ),
{
    proof {
        reveal_with_fuel(p128, 5);
    }
    let len: usize = buf.len();
    assert(pos + 5 <= len);
    let at1: usize = pos + 1;
    let at2: usize = pos + 2;
    let at3: usize = pos + 3;
    let at4: usize = pos + 4;
    buf.set(pos, (v % 128 + 128) as u8);
    buf.set(at1, (v / 128 % 128 + 128) as u8);
    buf.set(at2, (v / 16384 % 128 + 128) as u8);
    buf.set(at3, (v / 2097152 % 128 + 128) as u8);
    buf.set(at4, (v / 268435456 % 128) as u8);
    assert(final(buf)@ =~= old(buf)@.subrange(0, pos as int) + leb_fixed5(v as nat) + old(buf)@.subrange(
        pos + 5,
        old(buf)@.len() as int,
    ));
}

} // verus!
