//! Base-128 varints, as protobuf writes and reads integers and field tags.
use vstd::prelude::*;
use vstd::arithmetic::div_mod::{lemma_fundamental_div_mod, lemma_fundamental_div_mod_converse};

verus! {

/// The canonical varint of `v`: seven bits per byte, least significant group
/// first, the high bit set on every byte but the last.
pub open spec fn varint_bytes(v: nat) -> Seq<u8>
    decreases v,
{
    if v < 128 {
        seq![v as u8]
    } else {
        seq![(v % 128 + 128) as u8] + varint_bytes(v / 128)
    }
}

/// One more than the largest value that `n` varint bytes can hold.
pub open spec fn varint_cap(n: nat) -> nat
    decreases n,
{
    if n == 0 {
        1
    } else {
        128 * varint_cap((n - 1) as nat)
    }
}

/// The varint that opens `s`, read over at most `limit` bytes: its value and
/// how many bytes it takes.
pub open spec fn varint_prefix(s: Seq<u8>, limit: nat) -> Option<(nat, nat)>
    decreases limit,
{
    if limit == 0 || s.len() == 0 {
        None
    } else if s[0] < 128 {
        Some((s[0] as nat, 1))
    } else {
        match varint_prefix(s.drop_first(), (limit - 1) as nat) {
            Some((v, n)) => Some(((s[0] - 128) as nat + 128 * v, n + 1)),
            None => None,
        }
    }
}

/// The varint that opens `s` as protobuf reads one: at most ten bytes.
pub open spec fn raw_varint(s: Seq<u8>) -> Option<(nat, nat)> {
    varint_prefix(s, 10)
}

/// The varint that opens `s`, kept to its low 64 bits, and its length.
pub open spec fn varint64(s: Seq<u8>) -> Option<(u64, nat)> {
    match raw_varint(s) {
        Some((v, n)) => Some(((v % 0x1_0000_0000_0000_0000) as u64, n)),
        None => None,
    }
}

/// The varint that opens `s`, kept to its low 32 bits, and its length.
pub open spec fn varint32(s: Seq<u8>) -> Option<(u32, nat)> {
    match raw_varint(s) {
        Some((v, n)) => Some(((v % 0x1_0000_0000) as u32, n)),
        None => None,
    }
}

proof fn lemma_varint_cap_monotone(a: nat, b: nat)
    requires
        a <= b,
    ensures
        varint_cap(a) <= varint_cap(b),
    decreases b - a,
{
    if a < b {
        lemma_varint_cap_monotone(a, (b - 1) as nat);
    }
}

/// The canonical varint of a value is read back whole, whatever follows it.
pub proof fn lemma_varint_round_trip(v: nat, rest: Seq<u8>, limit: nat)
    requires
        limit > 0,
        v < varint_cap(limit),
    ensures
        varint_prefix(varint_bytes(v) + rest, limit) == Some((v, varint_bytes(v).len())),
        varint_bytes(v).len() >= 1,
    decreases v,
{
    let s = varint_bytes(v) + rest;
    if v < 128 {
        assert(s[0] == v as u8);
    } else {
        lemma_varint_cap_step(v, limit);
        let l1 = (limit - 1) as nat;
        lemma_varint_round_trip(v / 128, rest, l1);
        assert(s[0] == (v % 128 + 128) as u8);
        assert(s.drop_first() =~= varint_bytes(v / 128) + rest);
    }
}

/// The varint of every `u32` is read back whole, whatever follows it.
pub proof fn lemma_varint32_round_trip(v: u32, rest: Seq<u8>)
    ensures
        varint32(varint_bytes(v as nat) + rest) == Some((v, varint_bytes(v as nat).len())),
        1 <= varint_bytes(v as nat).len() <= 5,
{
    reveal_with_fuel(varint_cap, 6);
    assert(varint_cap(5) == 0x8_0000_0000);
    lemma_varint_cap_monotone(5, 10);
    lemma_varint_round_trip(v as nat, rest, 10);
    lemma_varint_len(v as nat, 5);
}

proof fn lemma_varint_len(v: nat, limit: nat)
    requires
        limit > 0,
        v < varint_cap(limit),
    ensures
        varint_bytes(v).len() <= limit,
    decreases v,
{
    if v >= 128 {
        lemma_varint_cap_step(v, limit);
        lemma_varint_len(v / 128, (limit - 1) as nat);
    }
}

proof fn lemma_varint_cap_step(v: nat, limit: nat)
    requires
        limit > 0,
        v < varint_cap(limit),
    ensures
        v >= 128 ==> limit >= 2 && v / 128 < varint_cap((limit - 1) as nat),
{
    if v >= 128 {
        let c = varint_cap((limit - 1) as nat);
        assert(v < 128 * c);
        assert(v / 128 < c) by (nonlinear_arith)
            requires
                v < 128 * c,
        ;
        if limit == 1 {
            assert(varint_cap(0) == 1);
        }
    }
}

/// Keeping the low 64 bits of `d + 128 * x` needs only the low 57 bits of `x`.
proof fn lemma_low_bits_step(d: int, x: int)
    requires
        0 <= d < 128,
        0 <= x,
    ensures
        (d + 128 * x) % 0x1_0000_0000_0000_0000 == d + 128 * (x % 0x200_0000_0000_0000),
{
    let q = x / 0x200_0000_0000_0000;
    let t = x % 0x200_0000_0000_0000;
    lemma_fundamental_div_mod(x, 0x200_0000_0000_0000);
    assert(d + 128 * x == q * 0x1_0000_0000_0000_0000 + (d + 128 * t)) by (nonlinear_arith)
        requires
            x == 0x200_0000_0000_0000 * q + t,
    ;
    lemma_fundamental_div_mod_converse(d + 128 * x, 0x1_0000_0000_0000_0000, q, d + 128 * t);
}

/// For `m` dividing 2^64, the low bits below `m` of the low 64 bits are those of `x`.
proof fn lemma_low_bits_of_low_bits(x: int, m: int, k: int)
    requires
        0 <= x,
        0 < m,
        0 < k,
        m * k == 0x1_0000_0000_0000_0000,
    ensures
        (x % 0x1_0000_0000_0000_0000) % m == x % m,
{
    let big: int = 0x1_0000_0000_0000_0000;
    let q = x / big;
    let r = x % big;
    let q2 = r / m;
    let r2 = r % m;
    lemma_fundamental_div_mod(x, big);
    lemma_fundamental_div_mod(r, m);
    assert(x == (q * k + q2) * m + r2) by (nonlinear_arith)
        requires
            x == big * q + r,
            r == m * q2 + r2,
            m * k == big,
    ;
    lemma_fundamental_div_mod_converse(x, m, q * k + q2, r2);
}

/// Relies on protobuf's `CodedOutputStream::write_raw_varint32`: it appends the
/// canonical varint of `value` (protobuf's `varint::encode_varint32`) to a
/// vector target, which never fails.
#[verifier::external_body]
pub(crate) fn append_varint32(out: &mut Vec<u8>, value: u32)
    ensures
        final(out)@ == old(out)@ + varint_bytes(value as nat),
{
    let mut os = protobuf::CodedOutputStream::vec(out);
    let _ = os.write_raw_varint32(value);
    let _ = os.flush();
}

fn read_varint(s: &[u8], pos: usize, limit: u64) -> (r: Option<(u64, usize)>)
    requires
        pos <= s@.len(),
        limit <= 10,
    ensures
        match r {
            Some((v, n)) => 1 <= n <= s@.len() - pos && match varint_prefix(
                s@.skip(pos as int),
                limit as nat,
            ) {
                Some((full, k)) => v as nat == full % 0x1_0000_0000_0000_0000 && n as nat == k,
                None => false,
            },
            None => varint_prefix(s@.skip(pos as int), limit as nat) is None,
        },
    decreases limit,
{
    if limit == 0 || pos >= s.len() {
        return None;
    }
    let b = s[pos];
    assert(s@.skip(pos as int)[0] == b);
    assert(s@.skip(pos as int).drop_first() =~= s@.skip(pos + 1));
    if b < 128 {
        return Some((b as u64, 1));
    }
    match read_varint(s, pos + 1, limit - 1) {
        Some((v, n)) => {
            proof {
                let full = varint_prefix(s@.skip(pos + 1), (limit - 1) as nat).unwrap().0;
                lemma_low_bits_step((b - 128) as int, full as int);
                lemma_low_bits_of_low_bits(full as int, 0x200_0000_0000_0000, 128);
            }
            Some(((b - 128) as u64 + (v % 0x200_0000_0000_0000) * 128, n + 1))
        },
        None => None,
    }
}

/// Reads the varint that starts at `pos` as protobuf's `read_raw_varint64`
/// does: its low 64 bits and its length.
pub fn decode_varint64(s: &[u8], pos: usize) -> (r: Option<(u64, usize)>)
    requires
        pos <= s@.len(),
    ensures
        match r {
            Some((v, n)) => varint64(s@.skip(pos as int)) == Some((v, n as nat)) && 1 <= n <= s@.len()
                - pos,
            None => varint64(s@.skip(pos as int)) is None,
        },
{
    read_varint(s, pos, 10)
}

/// Reads the varint that starts at `pos` as protobuf's `read_raw_varint32`
/// does: its low 32 bits and its length.
pub fn decode_varint32(s: &[u8], pos: usize) -> (r: Option<(u32, usize)>)
    requires
        pos <= s@.len(),
    ensures
        match r {
            Some((v, n)) => varint32(s@.skip(pos as int)) == Some((v, n as nat)) && 1 <= n <= s@.len()
                - pos,
            None => varint32(s@.skip(pos as int)) is None,
        },
{
    match read_varint(s, pos, 10) {
        Some((v, n)) => {
            proof {
                let full = raw_varint(s@.skip(pos as int)).unwrap().0;
                lemma_low_bits_of_low_bits(full as int, 0x1_0000_0000, 0x1_0000_0000);
            }
            Some(((v % 0x1_0000_0000) as u32, n))
        },
        None => None,
    }
}

} // verus!
