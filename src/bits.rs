use vstd::arithmetic::div_mod::{
    lemma_div_denominator, lemma_fundamental_div_mod_converse, lemma_mod_breakdown,
    lemma_multiply_divide_lt,
};
use vstd::arithmetic::power2::{
    lemma2_to64, lemma_pow2_adds, lemma_pow2_pos, lemma_pow2_strictly_increases, pow2,
};
use vstd::prelude::*;

verus! {

/// Bit `i` of a byte sequence, counting from the least significant bit of byte 0.
pub open spec fn bit_at(b: Seq<u8>, i: int) -> nat {
    (b[i / 8] as nat / pow2((i % 8) as nat)) % 2
}

/// The `w` bits starting at bit `o`, read as an unsigned number whose least
/// significant bit is bit `o`.
pub open spec fn field_value(b: Seq<u8>, o: int, w: nat) -> nat
    decreases w,
{
    if w == 0 {
        0
    } else {
        bit_at(b, o) + 2 * field_value(b, o + 1, (w - 1) as nat)
    }
}

/// The `n` bits of byte `x` starting at its bit `s`.
pub open spec fn chunk(x: u8, s: nat, n: nat) -> nat {
    (x as nat / pow2(s)) % pow2(n)
}

/// Bytes `lo .. hi` read as a little-endian number.
pub open spec fn bytes_value(b: Seq<u8>, lo: int, hi: int) -> nat
    decreases hi - lo,
{
    if lo >= hi {
        0
    } else {
        b[lo] as nat + 256 * bytes_value(b, lo + 1, hi)
    }
}

/// Whether the field `[o, o + w)` fits in a buffer of `len` bytes.
pub open spec fn fits(len: nat, o: int, w: nat) -> bool {
    0 <= o && o + w <= 8 * len
}

/// `after` is `before` with the low `w` bits of `v` written at bit `o`: the field
/// reads `v mod 2^w`, no other bit changed, and no byte outside the field's span
/// changed.
pub open spec fn field_written(before: Seq<u8>, after: Seq<u8>, o: int, w: nat, v: nat) -> bool {
    &&& after.len() == before.len()
    &&& field_value(after, o, w) == v % pow2(w)
    &&& forall|i: int|
        0 <= i < 8 * before.len() && !(o <= i < o + w) ==> #[trigger] bit_at(after, i) == bit_at(
            before,
            i,
        )
    &&& forall|j: int|
        0 <= j < before.len() && (w == 0 || j < o / 8 || j > (o + w - 1) / 8) ==> #[trigger] after[j]
            == before[j]
}

/// A field splits into its low `a` bits and the `c` bits above them.
pub proof fn lemma_field_split(b: Seq<u8>, o: int, a: nat, c: nat)
    ensures
        field_value(b, o, a + c) == field_value(b, o, a) + pow2(a) * field_value(b, o + a, c),
    decreases a,
{
    if a == 0 {
        lemma2_to64();
        assert(field_value(b, o, 0) == 0);
    } else {
        lemma_field_split(b, o + 1, (a - 1) as nat, c);
        lemma_pow2_adds((a - 1) as nat, 1);
        lemma2_to64();
        assert((a + c - 1) as nat == (a - 1) as nat + c);
        let r = field_value(b, o + a, c);
        let x = field_value(b, o + 1, (a - 1) as nat);
        let p = pow2((a - 1) as nat);
        assert(2 * (x + p * r) == 2 * x + (p * 2) * r) by (nonlinear_arith);
    }
}

/// A field of `w` bits holds less than `2^w`.
pub proof fn lemma_field_bound(b: Seq<u8>, o: int, w: nat)
    ensures
        field_value(b, o, w) < pow2(w),
    decreases w,
{
    lemma2_to64();
    if w > 0 {
        lemma_field_bound(b, o + 1, (w - 1) as nat);
        lemma_pow2_adds((w - 1) as nat, 1);
    }
}

/// Bits that lie in one byte are that byte's chunk.
pub proof fn lemma_field_chunk(b: Seq<u8>, k: int, s: nat, n: nat)
    requires
        0 <= k < b.len(),
        s + n <= 8,
    ensures
        field_value(b, 8 * k + s, n) == chunk(b[k], s, n),
    decreases n,
{
    lemma2_to64();
    lemma_pow2_pos(s);
    if n > 0 {
        lemma_field_chunk(b, k, s + 1, (n - 1) as nat);
        assert((8 * k + s) / 8 == k && (8 * k + s) % 8 == s as int) by (nonlinear_arith)
            requires
                s < 8,
        ;
        let y = b[k] as nat / pow2(s);
        lemma_pow2_pos((n - 1) as nat);
        lemma_mod_breakdown(y as int, 2, pow2((n - 1) as nat) as int);
        lemma_div_denominator(b[k] as int, pow2(s) as int, 2);
        lemma_pow2_adds(s, 1);
        lemma_pow2_adds(1, (n - 1) as nat);
        assert(1 + (n - 1) as nat == n);
    } else {
        assert(pow2(0) == 1);
    }
}

/// Bit `i` of a buffer is the matching bit of any field that covers it.
pub proof fn lemma_field_bit(b: Seq<u8>, o: int, w: nat, i: int)
    requires
        o <= i < o + w,
    ensures
        bit_at(b, i) == (field_value(b, o, w) / pow2((i - o) as nat)) % 2,
    decreases w,
{
    lemma2_to64();
    let rest = field_value(b, o + 1, (w - 1) as nat);
    let bit = bit_at(b, o);
    assert(bit < 2);
    lemma_fundamental_div_mod_converse(field_value(b, o, w) as int, 2, rest as int, bit as int);
    let f = field_value(b, o, w);
    if i == o {
        assert(pow2(0) == 1);
        assert(f / 1 == f);
    } else {
        let k = (i - o - 1) as nat;
        lemma_field_bit(b, o + 1, (w - 1) as nat, i);
        assert((i - (o + 1)) as nat == k);
        lemma_pow2_pos(k);
        lemma_div_denominator(f as int, 2, pow2(k) as int);
        lemma_pow2_adds(1, k);
        assert(1 + k == (i - o) as nat);
        assert(f / 2 == rest);
        assert(f / pow2((i - o) as nat) == rest / pow2(k));
    }
}

/// A field reads the same in two buffers that agree on the bytes it spans.
pub proof fn lemma_field_frame(b1: Seq<u8>, b2: Seq<u8>, o: int, w: nat)
    requires
        0 <= o,
        forall|i: int| o <= i < o + w ==> b1[#[trigger] (i / 8)] == b2[i / 8],
    ensures
        field_value(b1, o, w) == field_value(b2, o, w),
    decreases w,
{
    if w > 0 {
        assert(b1[o / 8] == b2[o / 8]);
        lemma_field_frame(b1, b2, o + 1, (w - 1) as nat);
    }
}


/// `2^n` for `n` up to 8.
fn pow2_small(n: u32) -> (r: u32)
    requires
        n <= 8,
    ensures
        r as nat == pow2(n as nat),
        r <= 256,
{
    proof {
        lemma2_to64();
        lemma_pow2_strictly_increases(n as nat, 9);
        vstd::bits::lemma_u32_shl_is_mul(1, n);
    }
    1u32 << n
}

/// The `n` bits of `x` starting at its bit `s`, right-aligned.
fn byte_chunk(x: u8, s: u32, n: u32) -> (r: u8)
    requires
        s + n <= 8,
    ensures
        r as nat == chunk(x, s as nat, n as nat),
{
    let p = pow2_small(n);
    proof {
        vstd::bits::lemma_u32_shr_is_div(x as u32, s);
        lemma_pow2_pos(s as nat);
        lemma_pow2_pos(n as nat);
        lemma_pow2_adds(s as nat, n as nat);
        lemma2_to64();
        lemma_pow2_strictly_increases((s + n) as nat, 9);
    }
    let r = ((x as u32) >> s) % p;
    proof {
        if n < 8 {
            lemma_pow2_strictly_increases(n as nat, 8);
        }
        assert(r < 256);
    }
    r as u8
}

/// Shifts `n` more bits into the bottom of `buf`.
pub fn push_bits(buf: &mut u128, n: u32, bits: u8)
    requires
        n <= 8,
        (bits as nat) < pow2(n as nat),
        *old(buf) as nat * pow2(n as nat) + bits <= u128::MAX,
    ensures
        *final(buf) as nat == *old(buf) as nat * pow2(n as nat) + bits,
{
    let p = pow2_small(n);
    proof {
        assert((*buf as nat) * (p as nat) + bits as nat <= u128::MAX);
        assert((*buf as nat) * (p as nat) <= u128::MAX);
    }
    *buf = *buf * (p as u128) + bits as u128;
}

/// Takes the lowest `n` bits off `buf`.
pub fn pop_bits(buf: &mut u128, n: u32) -> (r: u8)
    requires
        n <= 8,
    ensures
        r as nat == *old(buf) as nat % pow2(n as nat),
        *final(buf) as nat == *old(buf) as nat / pow2(n as nat),
{
    let p = pow2_small(n);
    proof {
        lemma_pow2_pos(n as nat);
    }
    let r = *buf % (p as u128);
    *buf = *buf / (p as u128);
    r as u8
}

/// Reads bytes `lo .. hi` whole, as a little-endian number.
fn read_whole_bytes(bytes: &[u8], lo: usize, hi: usize) -> (r: u128)
    requires
        lo <= hi <= bytes@.len(),
        hi - lo <= 16,
    ensures
        r as nat == bytes_value(bytes@, lo as int, hi as int),
{
    let mut acc: u128 = 0;
    let mut i: usize = hi;
    proof {
        lemma_pow2_pos(0);
    }
    while i > lo
        invariant
            lo <= i <= hi <= bytes@.len(),
            hi - lo <= 16,
            acc as nat == bytes_value(bytes@, i as int, hi as int),
            (acc as nat) < pow2((8 * (hi - i)) as nat),
        decreases i,
    {
        proof {
            lemma_pow2_adds(8, (8 * (hi - i)) as nat);
            lemma2_to64();
            if 8 * (hi - i) + 8 < 128 {
                lemma_pow2_strictly_increases((8 * (hi - i) + 8) as nat, 128);
            }
            lemma_pow2_adds(64, 64);
            assert(pow2(128) == u128::MAX + 1);
            assert(acc as nat * 256 + 256 <= pow2((8 * (hi - i) + 8) as nat)) by (nonlinear_arith)
                requires
                    acc as nat + 1 <= pow2((8 * (hi - i)) as nat),
                    pow2((8 * (hi - i) + 8) as nat) == pow2(8) * pow2((8 * (hi - i)) as nat),
                    pow2(8) == 256,
            ;
            assert((8 * (hi - (i - 1))) as nat == (8 * (hi - i) + 8) as nat);
        }
        i = i - 1;
        acc = acc * 256 + bytes[i] as u128;
    }
    acc
}

/// Reads the `width` bits at bit `offset` of `bytes`, right-aligned.
pub fn read_specifier(bytes: &[u8], offset: usize, width: usize) -> (r: u128)
    requires
        width <= 128,
        fits(bytes@.len(), offset as int, width as nat),
    ensures
        r as nat == field_value(bytes@, offset as int, width as nat),
{
    if width == 0 {
        return 0;
    }
    let ls_byte = offset / 8;
    let lsb_offset = (offset % 8) as u32;
    let ms_byte = ls_byte + (lsb_offset as usize + width - 1) / 8;
    // bits of the field in its most significant byte: 1 ..= 8
    let msb_bits = (lsb_offset as usize + width - 8 * (ms_byte - ls_byte)) as u32;
    proof {
        lemma_field_bound(bytes@, offset as int, width as nat);
    }
    if lsb_offset == 0 && msb_bits == 8 {
        // whole bytes
        let r = read_whole_bytes(bytes, ls_byte, ms_byte + 1);
        proof {
            lemma_whole_bytes(bytes@, ls_byte as int, (ms_byte + 1 - ls_byte) as nat);
        }
        return r;
    }
    if ls_byte == ms_byte {
        let c = byte_chunk(bytes[ls_byte], lsb_offset, width as u32);
        proof {
            lemma_field_chunk(bytes@, ls_byte as int, lsb_offset as nat, width as nat);
        }
        return c as u128;
    }
    let e: Ghost<int> = Ghost(offset + width);
    let mut buffer: u128 = 0;
    let top = byte_chunk(bytes[ms_byte], 0, msb_bits);
    proof {
        lemma_pow2_pos(msb_bits as nat);
        lemma_field_chunk(bytes@, ms_byte as int, 0, msb_bits as nat);
        assert(top as nat == chunk(bytes@[ms_byte as int], 0, msb_bits as nat));
        lemma_field_bound(bytes@, 8 * ms_byte as int, msb_bits as nat);
    }
    push_bits(&mut buffer, msb_bits, top);
    let mut i: usize = ms_byte;
    while i > ls_byte + 1
        invariant
            ls_byte + 1 <= i <= ms_byte,
            ms_byte < bytes@.len(),
            e@ == offset + width,
            8 * i < e@ <= 8 * i + 8 * (ms_byte + 1 - i),
            e@ <= 8 * bytes@.len(),
            width <= 128,
            8 * ls_byte <= offset < 8 * ls_byte + 8,
            buffer as nat == field_value(bytes@, 8 * i as int, (e@ - 8 * i) as nat),
        decreases i,
    {
        let ghost j = (i - 1) as int;
        proof {
            lemma_field_split(bytes@, 8 * j, 8, (e@ - 8 * i) as nat);
            assert((8 + (e@ - 8 * i)) as nat == (e@ - 8 * j) as nat);
            lemma_field_chunk(bytes@, j, 0, 8);
            lemma2_to64();
            assert(chunk(bytes@[j], 0, 8) == bytes@[j] as nat) by {
                assert(bytes@[j] as nat / 1 == bytes@[j] as nat);
            }
            lemma_field_bound(bytes@, 8 * j, (e@ - 8 * j) as nat);
            assert(e@ - 8 * j <= 128);
            lemma_pow2_strictly_increases((e@ - 8 * j) as nat, 128);
            lemma_pow2_adds(64, 64);
        }
        push_bits(&mut buffer, 8, bytes[i - 1]);
        i = i - 1;
    }
    let low = byte_chunk(bytes[ls_byte], lsb_offset, 8 - lsb_offset);
    proof {
        let n1 = (8 - lsb_offset) as nat;
        lemma_field_chunk(bytes@, ls_byte as int, lsb_offset as nat, n1);
        lemma_field_split(bytes@, offset as int, n1, (e@ - 8 * i) as nat);
        assert(n1 + (e@ - 8 * i) as nat == width as nat);
        assert(8 * ls_byte + lsb_offset == offset);
        assert(offset + n1 == 8 * i);
        assert(low as nat == field_value(bytes@, offset as int, n1));
        lemma_pow2_pos(n1);
        assert(low as nat <= low as nat);
        assert(field_value(bytes@, offset as int, width as nat) == low as nat + pow2(n1)
            * buffer as nat);
        assert(buffer as nat * pow2(n1) == pow2(n1) * buffer as nat) by (nonlinear_arith);
        if width < 128 {
            lemma_pow2_strictly_increases(width as nat, 128);
        }
        lemma_pow2_adds(64, 64);
        lemma2_to64();
    }
    push_bits(&mut buffer, 8 - lsb_offset, low);
    buffer
}

/// Whole bytes copied as a little-endian number are the field they span.
pub proof fn lemma_whole_bytes(b: Seq<u8>, lo: int, n: nat)
    requires
        0 <= lo,
        lo + n <= b.len(),
    ensures
        field_value(b, 8 * lo, 8 * n) == bytes_value(b, lo, lo + n),
    decreases n,
{
    if n > 0 {
        lemma_whole_bytes(b, lo + 1, (n - 1) as nat);
        lemma_field_split(b, 8 * lo, 8, (8 * (n - 1)) as nat);
        assert(8 + (8 * (n - 1)) as nat == 8 * n);
        lemma_field_chunk(b, lo, 0, 8);
        lemma2_to64();
        assert(b[lo] as nat / 1 == b[lo] as nat);
        assert(8 * lo + 8 == 8 * (lo + 1));
    }
}

/// Splitting a number at bit `a`: its low `a + c` bits and what lies above them.
pub proof fn lemma_mod_pow2_split(v: nat, a: nat, c: nat)
    ensures
        v % pow2(a + c) == v % pow2(a) + pow2(a) * ((v / pow2(a)) % pow2(c)),
        v / pow2(a + c) == (v / pow2(a)) / pow2(c),
{
    lemma_pow2_pos(a);
    lemma_pow2_pos(c);
    lemma_pow2_adds(a, c);
    lemma_mod_breakdown(v as int, pow2(a) as int, pow2(c) as int);
    lemma_div_denominator(v as int, pow2(a) as int, pow2(c) as int);
}

/// Replaces the `n` bits of `x` at its bit `s` by `part`, keeping the others.
fn merge_bits(x: u8, s: u32, n: u32, part: u8) -> (r: u8)
    requires
        s + n <= 8,
        (part as nat) < pow2(n as nat),
    ensures
        chunk(r, s as nat, n as nat) == part as nat,
        chunk(r, 0, s as nat) == chunk(x, 0, s as nat),
        r as nat / pow2((s + n) as nat) == x as nat / pow2((s + n) as nat),
{
    let ps = pow2_small(s);
    let pn = pow2_small(n);
    let ghost q = pow2((s + n) as nat);
    proof {
        lemma_pow2_pos(s as nat);
        lemma_pow2_pos(n as nat);
        lemma_pow2_adds(s as nat, n as nat);
        lemma_pow2_adds((s + n) as nat, (8 - s - n) as nat);
        lemma_pow2_pos((8 - s - n) as nat);
        lemma2_to64();
        assert(((s + n) + (8 - s - n)) as nat == 8);
        lemma_multiply_divide_lt(x as int, q as int, pow2((8 - s - n) as nat) as int);
        assert((ps as nat) * (pn as nat) == q);
    }
    let lo = (x as u32) % ps;
    let hi = (x as u32) / (ps * pn);
    proof {
        let qq = pow2((8 - s - n) as nat);
        assert(hi + 1 <= qq);
        assert((lo as nat) + (ps as nat) * ((part as nat) + (pn as nat) * (hi as nat)) < 256)
            by (nonlinear_arith)
            requires
                lo < ps,
                (part as nat) < pn,
                hi + 1 <= qq,
                (ps as nat) * (pn as nat) * qq == 256,
                ps > 0,
        ;
        assert((pn as nat) * (hi as nat) + (part as nat) < 256 && (ps as nat) * ((part as nat)
            + (pn as nat) * (hi as nat)) < 256) by (nonlinear_arith)
            requires
                (lo as nat) + (ps as nat) * ((part as nat) + (pn as nat) * (hi as nat)) < 256,
                ps >= 1,
        ;
    }
    let r32 = lo + ps * (part as u32 + pn * hi);
    proof {
        let mid = (part as nat) + (pn as nat) * (hi as nat);
        assert(r32 as nat == mid * (ps as nat) + lo as nat) by (nonlinear_arith)
            requires
                r32 as nat == lo as nat + (ps as nat) * mid,
        ;
        lemma_fundamental_div_mod_converse(r32 as int, ps as int, mid as int, lo as int);
        assert(mid == (hi as nat) * (pn as nat) + part as nat) by (nonlinear_arith)
            requires
                mid == (part as nat) + (pn as nat) * (hi as nat),
        ;
        lemma_fundamental_div_mod_converse(mid as int, pn as int, hi as int, part as int);
        lemma_div_denominator(r32 as int, ps as int, pn as int);
        assert(r32 as nat / 1 == r32 as nat);
        assert(x as nat / 1 == x as nat);
        assert(pow2(0) == 1);
    }
    r32 as u8
}

/// Writes `value` into bytes `lo .. hi` whole, least significant byte first.
fn write_whole_bytes(bytes: &mut [u8], lo: usize, hi: usize, value: u128)
    requires
        lo <= hi <= old(bytes)@.len(),
    ensures
        final(bytes)@.len() == old(bytes)@.len(),
        forall|j: int|
            lo <= j < hi ==> #[trigger] final(bytes)@[j] as nat == (value as nat / pow2(
                (8 * (j - lo)) as nat,
            )) % 256,
        forall|j: int|
            0 <= j < old(bytes)@.len() && !(lo <= j < hi) ==> #[trigger] final(bytes)@[j]
                == old(bytes)@[j],
{
    let ghost start = bytes@;
    let mut input = value;
    let mut i: usize = lo;
    proof {
        lemma2_to64();
        assert(value as nat / 1 == value as nat);
    }
    while i < hi
        invariant
            lo <= i <= hi <= start.len(),
            bytes@.len() == start.len(),
            input as nat == value as nat / pow2((8 * (i - lo)) as nat),
            forall|j: int|
                lo <= j < i ==> #[trigger] bytes@[j] as nat == (value as nat / pow2(
                    (8 * (j - lo)) as nat,
                )) % 256,
            forall|j: int|
                0 <= j < start.len() && !(lo <= j < i) ==> #[trigger] bytes@[j] == start[j],
        decreases hi - i,
    {
        let byte = pop_bits(&mut input, 8);
        proof {
            lemma2_to64();
            lemma_pow2_pos((8 * (i - lo)) as nat);
            lemma_div_denominator(value as int, pow2((8 * (i - lo)) as nat) as int, 256);
            lemma_pow2_adds((8 * (i - lo)) as nat, 8);
            assert((8 * (i - lo)) as nat + 8 == (8 * (i + 1 - lo)) as nat);
        }
        bytes[i] = byte;
        i = i + 1;
    }
}

/// Bytes laid down least significant first spell the value's low bits as a field.
pub proof fn lemma_whole_bytes_written(b: Seq<u8>, lo: int, n: nat, v: nat)
    requires
        0 <= lo,
        lo + n <= b.len(),
        forall|j: int| lo <= j < lo + n ==> #[trigger] b[j] as nat == (v / pow2((8 * (j - lo)) as nat)) % 256,
    ensures
        field_value(b, 8 * lo, 8 * n) == v % pow2(8 * n),
    decreases n,
{
    lemma2_to64();
    if n == 0 {
        assert(v % 1 == 0);
    } else {
        assert forall|j: int| lo + 1 <= j < lo + 1 + (n - 1) implies #[trigger] b[j] as nat == (
        (v / 256) / pow2((8 * (j - (lo + 1))) as nat)) % 256 by {
            lemma_pow2_pos((8 * (j - (lo + 1))) as nat);
            lemma_div_denominator(v as int, 256, pow2((8 * (j - (lo + 1))) as nat) as int);
            lemma_pow2_adds(8, (8 * (j - (lo + 1))) as nat);
            assert(8 + (8 * (j - (lo + 1))) as nat == (8 * (j - lo)) as nat);
        }
        lemma_whole_bytes_written(b, lo + 1, (n - 1) as nat, v / 256);
        lemma_field_split(b, 8 * lo, 8, (8 * (n - 1)) as nat);
        assert(8 + (8 * (n - 1)) as nat == 8 * n);
        lemma_field_chunk(b, lo, 0, 8);
        assert(b[lo] as nat / 1 == b[lo] as nat);
        assert(v / 1 == v);
        assert(8 * lo + 8 == 8 * (lo + 1));
        lemma_mod_pow2_split(v, 8, (8 * (n - 1)) as nat);
    }
}

/// The bits outside a field are kept when the bytes outside its span are kept, and
/// so are the bits of its first byte below it and of its last byte above it.
pub proof fn lemma_bits_kept(b0: Seq<u8>, b1: Seq<u8>, o: int, w: nat)
    requires
        w >= 1,
        fits(b0.len(), o, w),
        b1.len() == b0.len(),
        forall|j: int|
            0 <= j < b0.len() && (j < o / 8 || j > (o + w - 1) / 8) ==> #[trigger] b1[j]
                == b0[j],
        field_value(b1, 8 * (o / 8), (o - 8 * (o / 8)) as nat) == field_value(
            b0,
            8 * (o / 8),
            (o - 8 * (o / 8)) as nat,
        ),
        field_value(b1, o + w, (8 * ((o + w - 1) / 8) + 8 - (o + w)) as nat) == field_value(
            b0,
            o + w,
            (8 * ((o + w - 1) / 8) + 8 - (o + w)) as nat,
        ),
    ensures
        forall|i: int|
            0 <= i < 8 * b0.len() && !(o <= i < o + w) ==> #[trigger] bit_at(b1, i) == bit_at(
                b0,
                i,
            ),
{
    assert forall|i: int| 0 <= i < 8 * b0.len() && !(o <= i < o + w) implies #[trigger] bit_at(
        b1,
        i,
    ) == bit_at(b0, i) by {
        if i / 8 < o / 8 || i / 8 > (o + w - 1) / 8 {
            assert(b1[i / 8] == b0[i / 8]);
        } else if i < o {
            lemma_field_bit(b1, 8 * (o / 8), (o - 8 * (o / 8)) as nat, i);
            lemma_field_bit(b0, 8 * (o / 8), (o - 8 * (o / 8)) as nat, i);
        } else {
            lemma_field_bit(b1, o + w, (8 * ((o + w - 1) / 8) + 8 - (o + w)) as nat, i);
            lemma_field_bit(b0, o + w, (8 * ((o + w - 1) / 8) + 8 - (o + w)) as nat, i);
        }
    }
}

/// Writes the low `width` bits of `new_val` at bit `offset` of `bytes`; every other
/// bit of `bytes` is kept, and so is every byte the field does not span.
pub fn write_specifier(bytes: &mut [u8], offset: usize, width: usize, new_val: u128)
    requires
        width <= 128,
        fits(old(bytes)@.len(), offset as int, width as nat),
    ensures
        field_written(old(bytes)@, final(bytes)@, offset as int, width as nat, new_val as nat),
{
    let ghost start = bytes@;
    if width == 0 {
        proof {
            lemma2_to64();
        }
        return;
    }
    let ls_byte = offset / 8;
    let lsb_offset = (offset % 8) as u32;
    let ms_byte = ls_byte + (lsb_offset as usize + width - 1) / 8;
    let msb_bits = (lsb_offset as usize + width - 8 * (ms_byte - ls_byte)) as u32;
    let ghost e = offset + width;
    let ghost lo_w = lsb_offset as nat;
    let ghost hi_w = (8 - msb_bits) as nat;
    assert(ms_byte == (offset + width - 1) / 8);
    assert(8 * ms_byte + msb_bits == e);
    let mut input = new_val;
    if lsb_offset == 0 && msb_bits == 8 {
        // whole bytes
        write_whole_bytes(bytes, ls_byte, ms_byte + 1, new_val);
        proof {
            let n = (ms_byte + 1 - ls_byte) as nat;
            lemma_whole_bytes_written(bytes@, ls_byte as int, n, new_val as nat);
            assert(8 * n == width);
            lemma_bits_kept(start, bytes@, offset as int, width as nat);
        }
        return;
    }
    if ls_byte == ms_byte {
        let part = pop_bits(&mut input, width as u32);
        proof {
            lemma_pow2_pos(width as nat);
        }
        let x = bytes[ls_byte];
        let nb = merge_bits(x, lsb_offset, width as u32, part);
        bytes[ls_byte] = nb;
        proof {
            let k = ls_byte as int;
            lemma_field_chunk(bytes@, k, lsb_offset as nat, width as nat);
            lemma_field_chunk(bytes@, k, 0, lo_w);
            lemma_field_chunk(start, k, 0, lo_w);
            lemma_field_chunk(bytes@, k, (lsb_offset + width) as nat, hi_w);
            lemma_field_chunk(start, k, (lsb_offset + width) as nat, hi_w);
            lemma_bits_kept(start, bytes@, offset as int, width as nat);
        }
        return;
    }
    write_across_bytes(bytes, offset, width, new_val);
    proof {
        lemma_bits_kept(start, bytes@, offset as int, width as nat);
    }
}

/// `write_specifier` for a field that spans two bytes or more and does not both
/// start and end on a byte boundary.
#[verifier::rlimit(40)]
fn write_across_bytes(bytes: &mut [u8], offset: usize, width: usize, new_val: u128)
    requires
        1 <= width <= 128,
        fits(old(bytes)@.len(), offset as int, width as nat),
        offset / 8 < (offset + width - 1) / 8,
        !(offset % 8 == 0 && (offset + width) % 8 == 0),
    ensures
        final(bytes)@.len() == old(bytes)@.len(),
        field_value(final(bytes)@, offset as int, width as nat) == new_val as nat % pow2(
            width as nat,
        ),
        field_value(final(bytes)@, 8 * (offset / 8), (offset - 8 * (offset / 8)) as nat)
            == field_value(old(bytes)@, 8 * (offset / 8), (offset - 8 * (offset / 8)) as nat),
        field_value(
            final(bytes)@,
            offset + width,
            (8 * ((offset + width - 1) / 8) + 8 - (offset + width)) as nat,
        ) == field_value(
            old(bytes)@,
            offset + width,
            (8 * ((offset + width - 1) / 8) + 8 - (offset + width)) as nat,
        ),
        forall|j: int|
            0 <= j < old(bytes)@.len() && (j < offset / 8 || j > (offset + width - 1) / 8)
                ==> #[trigger] final(bytes)@[j] == old(bytes)@[j],
{
    let ghost start = bytes@;
    let ls_byte = offset / 8;
    let lsb_offset = (offset % 8) as u32;
    let ms_byte = ls_byte + (lsb_offset as usize + width - 1) / 8;
    let msb_bits = (lsb_offset as usize + width - 8 * (ms_byte - ls_byte)) as u32;
    let ghost e = offset + width;
    let ghost lo_w = lsb_offset as nat;
    let ghost hi_w = (8 - msb_bits) as nat;
    assert(ms_byte == (offset + width - 1) / 8);
    assert(8 * ms_byte + msb_bits == e);
    let mut input = new_val;
    // least significant byte
    let n1 = 8 - lsb_offset;
    let part = pop_bits(&mut input, n1);
    proof {
        lemma_pow2_pos(n1 as nat);
    }
    let x = bytes[ls_byte];
    let nb = merge_bits(x, lsb_offset, n1, part);
    bytes[ls_byte] = nb;
    proof {
        let k = ls_byte as int;
        lemma_field_chunk(bytes@, k, lsb_offset as nat, n1 as nat);
        lemma_field_chunk(bytes@, k, 0, lo_w);
        lemma_field_chunk(start, k, 0, lo_w);
        assert(8 * k + lsb_offset == offset);
        lemma2_to64();
    }
    // middle bytes
    let mut i: usize = ls_byte + 1;
    while i < ms_byte
        invariant
            ls_byte + 1 <= i <= ms_byte < start.len(),
            bytes@.len() == start.len(),
            8 * ls_byte + lo_w == offset,
            lo_w < 8,
            8 * ms_byte + msb_bits == e,
            e == offset + width,
            width <= 128,
            1 <= msb_bits <= 8,
            input as nat == new_val as nat / pow2((8 * i - offset) as nat),
            field_value(bytes@, offset as int, (8 * i - offset) as nat) == new_val as nat % pow2(
                (8 * i - offset) as nat,
            ),
            field_value(bytes@, 8 * ls_byte as int, lo_w) == field_value(
                start,
                8 * ls_byte as int,
                lo_w,
            ),
            forall|j: int|
                0 <= j < start.len() && (j < ls_byte || j >= i) ==> #[trigger] bytes@[j]
                    == start[j],
        decreases ms_byte - i,
    {
        let byte = pop_bits(&mut input, 8);
        let ghost before = bytes@;
        let ghost a = (8 * i - offset) as nat;
        bytes[i] = byte;
        proof {
            lemma2_to64();
            lemma_field_frame(bytes@, before, offset as int, a);
            lemma_field_frame(bytes@, before, 8 * ls_byte as int, lo_w);
            lemma_field_split(bytes@, offset as int, a, 8);
            lemma_field_chunk(bytes@, i as int, 0, 8);
            assert(byte as nat / 1 == byte as nat);
            assert(offset + a == 8 * i);
            lemma_mod_pow2_split(new_val as nat, a, 8);
            assert((8 * (i + 1) - offset) as nat == a + 8);
        }
        i = i + 1;
    }
    // most significant byte
    let part = pop_bits(&mut input, msb_bits);
    proof {
        lemma_pow2_pos(msb_bits as nat);
    }
    let ghost before = bytes@;
    let ghost a = (8 * ms_byte - offset) as nat;
    let x = bytes[ms_byte];
    let nb = merge_bits(x, 0, msb_bits, part);
    bytes[ms_byte] = nb;
    proof {
        let k = ms_byte as int;
        lemma_field_frame(bytes@, before, offset as int, a);
        lemma_field_frame(bytes@, before, 8 * ls_byte as int, lo_w);
        lemma_field_split(bytes@, offset as int, a, msb_bits as nat);
        lemma_field_chunk(bytes@, k, 0, msb_bits as nat);
        lemma_mod_pow2_split(new_val as nat, a, msb_bits as nat);
        assert(a + msb_bits == width);
        assert(x == start[k]);
        lemma_field_chunk(bytes@, k, msb_bits as nat, hi_w);
        lemma_field_chunk(start, k, msb_bits as nat, hi_w);
        assert(chunk(nb, msb_bits as nat, hi_w) == chunk(x, msb_bits as nat, hi_w));
    }
}

/// Writing a value below `2^w` into a field and reading that field back gives the
/// value itself.
pub proof fn lemma_round_trip(before: Seq<u8>, after: Seq<u8>, o: int, w: nat, v: nat)
    requires
        fits(before.len(), o, w),
        v < pow2(w),
        field_written(before, after, o, w, v),
    ensures
        field_value(after, o, w) == v,
{
    vstd::arithmetic::div_mod::lemma_small_mod(v, pow2(w));
}

/// Writing a field leaves every field that does not overlap it as it was.
pub proof fn lemma_disjoint_fields(
    before: Seq<u8>,
    after: Seq<u8>,
    o: int,
    w: nat,
    v: nat,
    o2: int,
    w2: nat,
)
    requires
        fits(before.len(), o, w),
        fits(before.len(), o2, w2),
        o2 + w2 <= o || o + w <= o2,
        field_written(before, after, o, w, v),
    ensures
        field_value(after, o2, w2) == field_value(before, o2, w2),
    decreases w2,
{
    if w2 > 0 {
        assert(bit_at(after, o2) == bit_at(before, o2));
        lemma_disjoint_fields(before, after, o, w, v, o2 + 1, (w2 - 1) as nat);
    }
}

} // verus!
