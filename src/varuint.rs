//! Variable-length unsigned integers.
//!
//! ```text
//!     0, 1 : marker bit
//!     x    : value bit
//!     X    : value byte (= xxxxxxxx)
//!
//!     0xxxxxxx          :  7 bits
//!     10xxxxxx X        : 14 bits
//!     110xxxxx XX       : 21 bits
//!     1110xxxx XXX      : 28 bits
//!     11110xxx XXXX     : 35 bits
//!     111110xx XXXXX    : 42 bits
//!     1111110x XXXXXX   : 49 bits
//!     11111110 XXXXXXX  : 56 bits
//!     11111111 XXXXXXXX : 64 bits (16 bytes follow in the 128-bit form)
//! ```
//!
//! The bytes after the head byte hold the value big-endian.

use vstd::arithmetic::div_mod::{lemma_div_denominator, lemma_fundamental_div_mod, lemma_mod_breakdown};
use vstd::arithmetic::mul::lemma_mul_inequality;
use vstd::prelude::*;

verus! {

/// `256` to the power `k`.
pub open spec fn pow256(k: nat) -> nat
    decreases k,
{
    if k == 0 {
        1
    } else {
        256 * pow256((k - 1) as nat)
    }
}

/// The low `k` bytes of `v`, most significant first.
pub open spec fn be_bytes(v: nat, k: nat) -> Seq<u8>
    decreases k,
{
    if k == 0 {
        Seq::empty()
    } else {
        be_bytes(v / 256, (k - 1) as nat).push((v % 256) as u8)
    }
}

/// The number that the bytes `s` spell, most significant first.
pub open spec fn from_be(s: Seq<u8>) -> nat
    decreases s.len(),
{
    if s.len() == 0 {
        0
    } else {
        from_be(s.drop_last()) * 256 + s.last() as nat
    }
}

/// How many bytes follow the head byte when `v` is encoded: the smallest
/// bucket of 7, 14, ..., 56 bits that holds `v`, or 8 for the full form.
pub open spec fn extra_len(v: nat) -> nat {
    if v < 0x80 {
        0
    } else if v < 0x4000 {
        1
    } else if v < 0x20_0000 {
        2
    } else if v < 0x1000_0000 {
        3
    } else if v < 0x8_0000_0000 {
        4
    } else if v < 0x400_0000_0000 {
        5
    } else if v < 0x2_0000_0000_0000 {
        6
    } else if v < 0x100_0000_0000_0000 {
        7
    } else {
        8
    }
}

/// The marker bits of a head byte followed by `k` bytes: `k` leading ones
/// and a zero, or eight ones for the full form.
pub open spec fn marker(k: nat) -> nat {
    if k == 0 {
        0x00
    } else if k == 1 {
        0x80
    } else if k == 2 {
        0xc0
    } else if k == 3 {
        0xe0
    } else if k == 4 {
        0xf0
    } else if k == 5 {
        0xf8
    } else if k == 6 {
        0xfc
    } else if k == 7 {
        0xfe
    } else {
        0xff
    }
}

/// The number of leading one bits of the head byte `h` (0 to 8).
pub open spec fn head_ones(h: u8) -> nat {
    if h <= 0x7f {
        0
    } else if h <= 0xbf {
        1
    } else if h <= 0xdf {
        2
    } else if h <= 0xef {
        3
    } else if h <= 0xf7 {
        4
    } else if h <= 0xfb {
        5
    } else if h <= 0xfd {
        6
    } else if h <= 0xfe {
        7
    } else {
        8
    }
}

/// How many bytes follow the head byte `h`; `full` is the count of the full
/// form (8 for 64-bit values, 16 for 128-bit values).
pub open spec fn follow_len(h: u8, full: nat) -> nat {
    if head_ones(h) == 8 {
        full
    } else {
        head_ones(h)
    }
}

/// The value bits that the head byte `h` carries below its marker.
pub open spec fn head_bits(h: u8) -> nat {
    (h - marker(head_ones(h))) as nat
}

/// The encoding of `v`, with `full` bytes after an all-ones head byte.
pub open spec fn varint(v: nat, full: nat) -> Seq<u8> {
    let k = extra_len(v);
    if k == 8 {
        seq![0xffu8] + be_bytes(v, full)
    } else {
        seq![(marker(k) + v / pow256(k)) as u8] + be_bytes(v, k)
    }
}

/// Reads one encoded integer from the front of `s`: its value and the number
/// of bytes it takes, or `None` where `s` ends before the integer does.
pub open spec fn parse_varint(s: Seq<u8>, full: nat) -> Option<(nat, nat)> {
    if s.len() == 0 {
        None
    } else {
        let n = follow_len(s[0], full);
        if s.len() < 1 + n {
            None
        } else {
            Some((head_bits(s[0]) * pow256(n) + from_be(s.subrange(1, 1 + n as int)), 1 + n))
        }
    }
}

pub proof fn lemma_pow256_values()
    ensures
        pow256(0) == 1,
        pow256(1) == 0x100,
        pow256(2) == 0x1_0000,
        pow256(3) == 0x100_0000,
        pow256(4) == 0x1_0000_0000,
        pow256(5) == 0x100_0000_0000,
        pow256(6) == 0x1_0000_0000_0000,
        pow256(7) == 0x100_0000_0000_0000,
        pow256(8) == 0x1_0000_0000_0000_0000,
        pow256(16) == 0x1_0000_0000_0000_0000_0000_0000_0000_0000,
{
    reveal_with_fuel(pow256, 17);
}

pub proof fn lemma_pow256_pos(k: nat)
    ensures
        pow256(k) > 0,
    decreases k,
{
    if k > 0 {
        lemma_pow256_pos((k - 1) as nat);
    }
}

pub proof fn lemma_be_bytes_len(v: nat, k: nat)
    ensures
        be_bytes(v, k).len() == k,
    decreases k,
{
    if k > 0 {
        lemma_be_bytes_len(v / 256, (k - 1) as nat);
    }
}

pub proof fn lemma_from_be_bytes(v: nat, k: nat)
    ensures
        from_be(be_bytes(v, k)) == v % pow256(k),
    decreases k,
{
    if k > 0 {
        let s = be_bytes(v, k);
        lemma_from_be_bytes(v / 256, (k - 1) as nat);
        assert(s.drop_last() == be_bytes(v / 256, (k - 1) as nat));
        lemma_pow256_pos((k - 1) as nat);
        lemma_mod_breakdown(v as int, 256, pow256((k - 1) as nat) as int);
    }
}


pub proof fn lemma_pow256_step(k: nat)
    ensures
        pow256(k + 1) == 256 * pow256(k),
{
    assert(((k + 1) - 1) as nat == k);
}

pub proof fn lemma_pow256_mono(i: nat, j: nat)
    requires
        i <= j,
    ensures
        pow256(i) <= pow256(j),
    decreases j,
{
    if i < j {
        lemma_pow256_mono(i, (j - 1) as nat);
    }
}

/// The span of value bits that a head byte with `k` leading ones carries:
/// the distance from its marker to the next one.
spec fn room(k: nat) -> nat {
    (marker(k + 1) - marker(k)) as nat
}

proof fn lemma_room(k: nat)
    requires
        k < 8,
    ensures
        room(k) > 0,
        room(k) * pow256(k) <= pow256(7),
        forall|v: nat| #[trigger] extra_len(v) == k ==> v < room(k) * pow256(k),
        forall|h: u8| #[trigger] head_ones(h) == k <==> marker(k) <= h < marker(k) + room(k),
{
    lemma_pow256_values();
    if k == 0 {
        assert(room(k) == 0x80 && pow256(k) == 0x1);
        assert(room(k) * pow256(k) == 0x80) by (nonlinear_arith)
            requires
                room(k) == 0x80,
                pow256(k) == 0x1,
        ;
    } else if k == 1 {
        assert(room(k) == 0x40 && pow256(k) == 0x100);
        assert(room(k) * pow256(k) == 0x4000) by (nonlinear_arith)
            requires
                room(k) == 0x40,
                pow256(k) == 0x100,
        ;
    } else if k == 2 {
        assert(room(k) == 0x20 && pow256(k) == 0x10000);
        assert(room(k) * pow256(k) == 0x200000) by (nonlinear_arith)
            requires
                room(k) == 0x20,
                pow256(k) == 0x10000,
        ;
    } else if k == 3 {
        assert(room(k) == 0x10 && pow256(k) == 0x1000000);
        assert(room(k) * pow256(k) == 0x10000000) by (nonlinear_arith)
            requires
                room(k) == 0x10,
                pow256(k) == 0x1000000,
        ;
    } else if k == 4 {
        assert(room(k) == 0x8 && pow256(k) == 0x100000000);
        assert(room(k) * pow256(k) == 0x800000000) by (nonlinear_arith)
            requires
                room(k) == 0x8,
                pow256(k) == 0x100000000,
        ;
    } else if k == 5 {
        assert(room(k) == 0x4 && pow256(k) == 0x10000000000);
        assert(room(k) * pow256(k) == 0x40000000000) by (nonlinear_arith)
            requires
                room(k) == 0x4,
                pow256(k) == 0x10000000000,
        ;
    } else if k == 6 {
        assert(room(k) == 0x2 && pow256(k) == 0x1000000000000);
        assert(room(k) * pow256(k) == 0x2000000000000) by (nonlinear_arith)
            requires
                room(k) == 0x2,
                pow256(k) == 0x1000000000000,
        ;
    } else {
        assert(room(k) == 0x1 && pow256(k) == 0x100000000000000);
        assert(room(k) * pow256(k) == 0x100000000000000) by (nonlinear_arith)
            requires
                room(k) == 0x1,
                pow256(k) == 0x100000000000000,
        ;
    }
}

/// The head byte of a short form carries the bits of `v` above its `k`
/// trailing bytes, and they fit below the marker.
proof fn lemma_head_byte(v: nat)
    requires
        extra_len(v) < 8,
    ensures
        ({
            let k = extra_len(v);
            let h = (marker(k) + v / pow256(k)) as u8;
            &&& marker(k) + v / pow256(k) <= 0xfe
            &&& head_ones(h) == k
            &&& head_bits(h) == v / pow256(k)
        }),
{
    let k = extra_len(v);
    lemma_room(k);
    lemma_pow256_pos(k);
    vstd::arithmetic::div_mod::lemma_multiply_divide_lt(v as int, pow256(k) as int, room(k) as int);
    let h = (marker(k) + v / pow256(k)) as u8;
    assert(marker(k) <= h < marker(k) + room(k));
}

/// A head byte and the bytes that follow it never spell more than `full`
/// bytes can hold.
proof fn lemma_head_room(h: u8, full: nat, i: nat)
    requires
        full == 8 || full == 16,
        i <= follow_len(h, full),
    ensures
        (head_bits(h) + 1) * pow256(i) <= pow256(full),
{
    lemma_pow256_values();
    let n = follow_len(h, full);
    let k = head_ones(h);
    lemma_pow256_mono(i, n);
    lemma_mul_inequality(pow256(i) as int, pow256(n) as int, (head_bits(h) + 1) as int);
    if k < 8 {
        lemma_room(k);
        assert(head_bits(h) + 1 <= room(k));
        lemma_mul_inequality((head_bits(h) + 1) as int, room(k) as int, pow256(k) as int);
    }
}

proof fn lemma_from_be_bound(s: Seq<u8>)
    ensures
        from_be(s) < pow256(s.len()),
    decreases s.len(),
{
    if s.len() > 0 {
        lemma_from_be_bound(s.drop_last());
        lemma_pow256_step((s.len() - 1) as nat);
        assert(from_be(s.drop_last()) + 1 <= pow256((s.len() - 1) as nat));
        assert((from_be(s.drop_last()) + 1) * 256 <= pow256((s.len() - 1) as nat) * 256)
            by (nonlinear_arith)
            requires
                from_be(s.drop_last()) + 1 <= pow256((s.len() - 1) as nat),
        ;
    }
}

/// What `parse_varint` reads fits in `full` bytes.
pub proof fn lemma_parse_varint_bound(s: Seq<u8>, full: nat)
    requires
        full == 8 || full == 16,
        parse_varint(s, full) is Some,
    ensures
        match parse_varint(s, full) {
            Some((v, n)) => v < pow256(full) && n <= 1 + full,
            None => false,
        },
{
    let h = s[0];
    let n = follow_len(h, full);
    let t = s.subrange(1, 1 + n as int);
    lemma_from_be_bound(t);
    lemma_head_room(h, full, n);
    let hb = head_bits(h);
    assert(hb * pow256(n) + from_be(t) < (hb + 1) * pow256(n)) by (nonlinear_arith)
        requires
            from_be(t) < pow256(n),
    ;
    lemma_pow256_values();
}

/// Decoding an encoded integer gives it back, and consumes exactly its bytes,
/// whatever follows them.
pub proof fn lemma_varint_round_trip(v: nat, full: nat, rest: Seq<u8>)
    requires
        full == 8 || full == 16,
        v < pow256(full),
    ensures
        parse_varint(varint(v, full) + rest, full) == Some((v, varint(v, full).len())),
        varint(v, full).len() == 1 + if extra_len(v) == 8 {
            full
        } else {
            extra_len(v)
        },
{
    let k = extra_len(v);
    let e = varint(v, full);
    let s = e + rest;
    lemma_pow256_values();
    if k == 8 {
        lemma_be_bytes_len(v, full);
        lemma_from_be_bytes(v, full);
        assert(s.subrange(1, 1 + full as int) == be_bytes(v, full));
        assert(v % pow256(full) == v) by {
            vstd::arithmetic::div_mod::lemma_small_mod(v, pow256(full));
        }
    } else {
        lemma_head_byte(v);
        lemma_be_bytes_len(v, k);
        lemma_from_be_bytes(v, k);
        assert(s.subrange(1, 1 + k as int) == be_bytes(v, k));
        lemma_pow256_pos(k);
        lemma_fundamental_div_mod(v as int, pow256(k) as int);
        assert(head_bits(s[0]) * pow256(k) == pow256(k) * (v / pow256(k))) by (nonlinear_arith)
            requires
                head_bits(s[0]) == v / pow256(k),
        ;
    }
}

/// Appends the low `k` bytes of `v`, most significant first.
fn push_be(out: &mut Vec<u8>, v: u128, k: usize)
    ensures
        final(out)@ == old(out)@ + be_bytes(v as nat, k as nat),
    decreases k,
{
    if k > 0 {
        push_be(out, v / 256, k - 1);
        out.push((v % 256) as u8);
        proof {
            assert(be_bytes(v as nat, k as nat) == be_bytes((v / 256) as nat, (k - 1) as nat).push(
                (v % 256) as u8,
            ));
            assert(final(out)@ =~= old(out)@ + be_bytes(v as nat, k as nat));
        }
    }
}

fn extra_len_of(v: u128) -> (k: usize)
    ensures
        k == extra_len(v as nat),
{
    if v < 0x80 {
        0
    } else if v < 0x4000 {
        1
    } else if v < 0x20_0000 {
        2
    } else if v < 0x1000_0000 {
        3
    } else if v < 0x8_0000_0000 {
        4
    } else if v < 0x400_0000_0000 {
        5
    } else if v < 0x2_0000_0000_0000 {
        6
    } else if v < 0x100_0000_0000_0000 {
        7
    } else {
        8
    }
}

fn marker_of(k: usize) -> (m: u8)
    ensures
        m == marker(k as nat),
{
    if k == 0 {
        0x00
    } else if k == 1 {
        0x80
    } else if k == 2 {
        0xc0
    } else if k == 3 {
        0xe0
    } else if k == 4 {
        0xf0
    } else if k == 5 {
        0xf8
    } else if k == 6 {
        0xfc
    } else if k == 7 {
        0xfe
    } else {
        0xff
    }
}

fn head_ones_of(h: u8) -> (k: usize)
    ensures
        k == head_ones(h),
{
    if h <= 0x7f {
        0
    } else if h <= 0xbf {
        1
    } else if h <= 0xdf {
        2
    } else if h <= 0xef {
        3
    } else if h <= 0xf7 {
        4
    } else if h <= 0xfb {
        5
    } else if h <= 0xfd {
        6
    } else if h <= 0xfe {
        7
    } else {
        8
    }
}

/// `v` without its low `k` bytes.
fn drop_bytes(v: u128, k: usize) -> (q: u128)
    ensures
        q == v as nat / pow256(k as nat),
{
    let mut q = v;
    let mut i: usize = 0;
    proof {
        lemma_pow256_values();
    }
    while i < k
        invariant
            i <= k,
            q == v as nat / pow256(i as nat),
        decreases k - i,
    {
        proof {
            lemma_pow256_pos(i as nat);
            lemma_div_denominator(v as int, pow256(i as nat) as int, 256);
            lemma_pow256_step(i as nat);
        }
        q = q / 256;
        i = i + 1;
    }
    q
}

/// Appends the encoding of `v`, with `full` bytes after an all-ones head.
fn put_varint(out: &mut Vec<u8>, v: u128, full: usize)
    requires
        full == 8 || full == 16,
        v < pow256(full as nat),
    ensures
        final(out)@ == old(out)@ + varint(v as nat, full as nat),
{
    let k = extra_len_of(v);
    if k == 8 {
        out.push(0xff);
        push_be(out, v, full);
    } else {
        let q = drop_bytes(v, k);
        proof {
            lemma_head_byte(v as nat);
        }
        let head = marker_of(k) + q as u8;
        out.push(head);
        push_be(out, v, k);
    }
    proof {
        assert(final(out)@ =~= old(out)@ + varint(v as nat, full as nat));
    }
}

/// Reads one encoded integer at `pos`: its value and the number of bytes it
/// takes, or `None` where the input ends before the integer does.
pub(crate) fn take_varint(input: &[u8], pos: usize, full: usize) -> (r: Option<(u128, usize)>)
    requires
        full == 8 || full == 16,
        pos <= input@.len(),
    ensures
        match r {
            None => parse_varint(input@.subrange(pos as int, input@.len() as int), full as nat) is None,
            Some((v, n)) => parse_varint(input@.subrange(pos as int, input@.len() as int), full as nat)
                == Some((v as nat, n as nat)),
        },
{
    let ghost s = input@.subrange(pos as int, input@.len() as int);
    if pos == input.len() {
        return None;
    }
    let h = input[pos];
    let k = head_ones_of(h);
    let n = if k == 8 {
        full
    } else {
        k
    };
    if input.len() - pos < n + 1 {
        return None;
    }
    let mut acc: u128 = (h - marker_of(k)) as u128;
    let mut i: usize = 0;
    proof {
        lemma_pow256_values();
    }
    while i < n
        invariant
            full == 8 || full == 16,
            n == follow_len(h, full as nat),
            pos + 1 + n <= input@.len() <= usize::MAX,
            h == input@[pos as int],
            i <= n,
            acc == head_bits(h) * pow256(i as nat) + from_be(
                input@.subrange(pos + 1, pos + 1 + i),
            ),
            acc < (head_bits(h) + 1) * pow256(i as nat),
        decreases n - i,
    {
        let ghost t = input@.subrange(pos + 1, pos + 1 + i);
        let ghost t2 = input@.subrange(pos + 1, pos + 2 + i);
        let b = input[pos + 1 + i];
        proof {
            assert(t2.drop_last() == t);
            assert(t2.last() == b);
            lemma_pow256_step(i as nat);
            lemma_head_room(h, full as nat, (i + 1) as nat);
            let hb = head_bits(h);
            let p = pow256(i as nat);
            assert(acc * 256 + b < (hb + 1) * (256 * p)) by (nonlinear_arith)
                requires
                    acc < (hb + 1) * p,
                    b < 256,
            ;
            assert(acc * 256 + b == hb * (256 * p) + from_be(t) * 256 + b) by (nonlinear_arith)
                requires
                    acc == hb * p + from_be(t),
            ;
            lemma_pow256_values();
        }
        acc = acc * 256 + b as u128;
        i = i + 1;
    }
    proof {
        assert(s.subrange(1, 1 + n as int) == input@.subrange(pos + 1, pos + 1 + n));
    }
    Some((acc, n + 1))
}

/// Appends the encoding of a 64-bit value.
pub fn encode_u64(out: &mut Vec<u8>, v: u64)
    ensures
        final(out)@ == old(out)@ + varint(v as nat, 8),
{
    proof {
        lemma_pow256_values();
    }
    put_varint(out, v as u128, 8);
}

/// Reads a 64-bit value from the front of `input`: the value and the number
/// of bytes it took, or `None` where `input` ends before the value does.
pub fn decode_u64(input: &[u8]) -> (r: Option<(u64, usize)>)
    ensures
        match r {
            None => parse_varint(input@, 8) is None,
            Some((v, n)) => parse_varint(input@, 8) == Some((v as nat, n as nat)),
        },
{
    let r = take_varint(input, 0, 8);
    proof {
        assert(input@.subrange(0, input@.len() as int) == input@);
    }
    match r {
        None => None,
        Some((v, n)) => {
            proof {
                lemma_parse_varint_bound(input@, 8);
                lemma_pow256_values();
            }
            Some((v as u64, n))
        },
    }
}

/// Appends the encoding of a 128-bit value.
pub fn encode_u128(out: &mut Vec<u8>, v: u128)
    ensures
        final(out)@ == old(out)@ + varint(v as nat, 16),
{
    proof {
        lemma_pow256_values();
    }
    put_varint(out, v, 16);
}

/// Reads a 128-bit value from the front of `input`: the value and the number
/// of bytes it took, or `None` where `input` ends before the value does.
pub fn decode_u128(input: &[u8]) -> (r: Option<(u128, usize)>)
    ensures
        match r {
            None => parse_varint(input@, 16) is None,
            Some((v, n)) => parse_varint(input@, 16) == Some((v as nat, n as nat)),
        },
{
    let r = take_varint(input, 0, 16);
    proof {
        assert(input@.subrange(0, input@.len() as int) == input@);
    }
    r
}

} // verus!
