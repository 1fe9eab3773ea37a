use vstd::arithmetic::div_mod::lemma_fundamental_div_mod_converse;
use vstd::arithmetic::power2::{lemma2_to64, lemma_pow2_adds, lemma_pow2_pos, pow2};
use vstd::prelude::*;

verus! {

/// The byte order that a specifier declares for its raw values.
#[derive(Clone, Copy, Debug, PartialEq, Eq, Structural)]
pub enum ByteOrder {
    /// The target's own order: no reordering.
    Native,
    Big,
    Little,
}

/// The byte order of the machine the code runs on.
#[derive(Clone, Copy, Debug, PartialEq, Eq, Structural)]
pub enum Endianness {
    Big,
    Little,
}

impl ByteOrder {
    /// The order for the numeric code of an `endian` annotation: 1 is big,
    /// 2 is little, anything else keeps the target's order.
    pub fn from_code(code: usize) -> (r: ByteOrder)
        ensures
            r == (if code == 1 {
                ByteOrder::Big
            } else if code == 2 {
                ByteOrder::Little
            } else {
                ByteOrder::Native
            }),
    {
        if code == 1 {
            ByteOrder::Big
        } else if code == 2 {
            ByteOrder::Little
        } else {
            ByteOrder::Native
        }
    }
}

/// Number of bytes of the smallest unsigned integer type that holds `bits` bits.
pub open spec fn carrier_bytes(bits: nat) -> nat {
    if bits <= 8 {
        1
    } else if bits <= 16 {
        2
    } else if bits <= 32 {
        4
    } else if bits <= 64 {
        8
    } else {
        16
    }
}

/// The low `k` bytes of `v` in reverse order.
pub open spec fn reverse_bytes(v: nat, k: nat) -> nat
    decreases k,
{
    if k == 0 {
        0
    } else {
        (v % 256) * pow2((8 * (k - 1)) as nat) + reverse_bytes(v / 256, (k - 1) as nat)
    }
}

/// Reversing `k` bytes gives a number of `k` bytes.
pub proof fn lemma_reverse_bound(v: nat, k: nat)
    ensures
        reverse_bytes(v, k) < pow2(8 * k),
    decreases k,
{
    lemma2_to64();
    if k > 0 {
        let m = (8 * (k - 1)) as nat;
        lemma_reverse_bound(v / 256, (k - 1) as nat);
        lemma_pow2_adds(m, 8);
        assert(m + 8 == 8 * k);
        let r = reverse_bytes(v / 256, (k - 1) as nat);
        assert((v % 256) * pow2(m) + r < pow2(m) * 256) by (nonlinear_arith)
            requires
                v % 256 < 256,
                r < pow2(m),
        ;
    }
}

/// A byte `c` put on top of `k` bytes ends up at the bottom of the reversal.
pub proof fn lemma_reverse_push_top(v: nat, k: nat, c: nat)
    requires
        v < pow2(8 * k),
        c < 256,
    ensures
        reverse_bytes(v + pow2(8 * k) * c, k + 1) == c + 256 * reverse_bytes(v, k),
    decreases k,
{
    lemma2_to64();
    let x = v + pow2(8 * k) * c;
    if k == 0 {
        assert(v == 0);
        assert(8 * k == 0);
        assert(pow2(8 * k) == 1);
        assert(x == c);
        lemma_fundamental_div_mod_converse(x as int, 256, 0, x as int);
        assert(reverse_bytes(x / 256, 0) == 0);
        assert(reverse_bytes(x, 1) == (x % 256) * pow2(0) + reverse_bytes(x / 256, 0));
        assert(reverse_bytes(v, 0) == 0);
        assert(k + 1 == 1);
    } else {
        let m = (8 * (k - 1)) as nat;
        lemma_pow2_adds(m, 8);
        assert(m + 8 == 8 * k);
        lemma_pow2_pos(m);
        let hi = v / 256 + pow2(m) * c;
        assert(pow2(8 * k) == pow2(m) * 256);
        assert(x == hi * 256 + v % 256) by (nonlinear_arith)
            requires
                hi == v / 256 + pow2(m) * c,
                x == v + pow2(8 * k) * c,
                pow2(8 * k) == pow2(m) * 256,
                v == (v / 256) * 256 + v % 256,
        ;
        lemma_fundamental_div_mod_converse(x as int, 256, hi as int, (v % 256) as int);
        assert(v / 256 < pow2(m)) by (nonlinear_arith)
            requires
                v < pow2(m) * 256,
        ;
        lemma_reverse_push_top(v / 256, (k - 1) as nat, c);
        assert((k - 1) as nat + 1 == k);
        let r = reverse_bytes(v / 256, (k - 1) as nat);
        assert(reverse_bytes(hi, k) == c + 256 * r);
        assert(reverse_bytes(x, k + 1) == (v % 256) * pow2(8 * k) + reverse_bytes(hi, k));
        assert((v % 256) * pow2(8 * k) + (c + 256 * r) == c + 256 * ((v % 256) * pow2(m) + r))
            by (nonlinear_arith)
            requires
                pow2(8 * k) == pow2(m) * 256,
        ;
    }
}

/// Reversing the bytes of a `k`-byte number twice gives it back.
pub proof fn lemma_reverse_twice(v: nat, k: nat)
    requires
        v < pow2(8 * k),
    ensures
        reverse_bytes(reverse_bytes(v, k), k) == v,
    decreases k,
{
    lemma2_to64();
    if k == 0 {
        assert(v == 0);
    } else {
        let m = (8 * (k - 1)) as nat;
        lemma_pow2_adds(m, 8);
        assert(m + 8 == 8 * k);
        assert(v / 256 < pow2(m)) by (nonlinear_arith)
            requires
                v < pow2(m) * 256,
        ;
        lemma_reverse_twice(v / 256, (k - 1) as nat);
        let r = reverse_bytes(v / 256, (k - 1) as nat);
        lemma_reverse_bound(v / 256, (k - 1) as nat);
        assert(reverse_bytes(v, k) == r + pow2(m) * (v % 256)) by (nonlinear_arith)
            requires
                reverse_bytes(v, k) == (v % 256) * pow2(m) + r,
        ;
        lemma_reverse_push_top(r, (k - 1) as nat, v % 256);
        assert((k - 1) as nat + 1 == k);
    }
}

/// Taking a raw value out of a byte order undoes putting it in.
pub proof fn lemma_reorder_twice(raw: nat, k: nat, order: ByteOrder, host: Endianness)
    requires
        raw < pow2(8 * k),
    ensures
        reorder(reorder(raw, k, order, host), k, order, host) == raw,
{
    if needs_swap(order, host) {
        lemma_reverse_twice(raw, k);
    }
}

/// Whether a raw value must be byte-swapped between the target's order and `order`.
pub open spec fn needs_swap(order: ByteOrder, host: Endianness) -> bool {
    match order {
        ByteOrder::Native => false,
        ByteOrder::Big => host == Endianness::Little,
        ByteOrder::Little => host == Endianness::Big,
    }
}

/// A carrier value of `k` bytes put into (or taken out of) `order` on a `host` machine.
pub open spec fn reorder(raw: nat, k: nat, order: ByteOrder, host: Endianness) -> nat {
    if needs_swap(order, host) {
        reverse_bytes(raw, k)
    } else {
        raw
    }
}

/// Carrier size in bytes for a field of `bits` bits.
pub fn carrier_size(bits: usize) -> (r: usize)
    ensures
        r as nat == carrier_bytes(bits as nat),
{
    if bits <= 8 {
        1
    } else if bits <= 16 {
        2
    } else if bits <= 32 {
        4
    } else if bits <= 64 {
        8
    } else {
        16
    }
}

/// Reverses the low `k` bytes of `v`.
pub fn swap_bytes(v: u128, k: usize) -> (r: u128)
    requires
        k <= 16,
        (v as nat) < pow2((8 * k) as nat),
    ensures
        r as nat == reverse_bytes(v as nat, k as nat),
        (r as nat) < pow2((8 * k) as nat),
{
    let mut acc: u128 = 0;
    let mut rest = v;
    let mut i: usize = 0;
    proof {
        lemma2_to64();
        assert(v as nat / 1 == v as nat);
    }
    while i < k
        invariant
            i <= k <= 16,
            (acc as nat) < pow2((8 * i) as nat),
            (rest as nat) < pow2((8 * (k - i)) as nat),
            acc as nat * pow2((8 * (k - i)) as nat) + reverse_bytes(rest as nat, (k - i) as nat)
                == reverse_bytes(v as nat, k as nat),
        decreases k - i,
    {
        let ghost m = (8 * (k - i - 1)) as nat;
        let byte = rest % 256;
        proof {
            lemma2_to64();
            lemma_pow2_adds(8, m);
            lemma_pow2_adds((8 * i) as nat, 8);
            lemma_pow2_pos(m);
            lemma_pow2_pos((8 * i) as nat);
            assert((8 * (k - i)) as nat == 8 + m);
            assert(((8 * i) as nat + 8) == (8 * (i + 1)) as nat);
            assert(acc as nat * 256 + 256 <= pow2((8 * (i + 1)) as nat)) by (nonlinear_arith)
                requires
                    acc as nat + 1 <= pow2((8 * i) as nat),
                    pow2((8 * (i + 1)) as nat) == pow2((8 * i) as nat) * 256,
            ;
            if i + 1 < 16 {
                vstd::arithmetic::power2::lemma_pow2_strictly_increases(
                    (8 * (i + 1)) as nat,
                    128,
                );
            }
            lemma_pow2_adds(64, 64);
            let r = reverse_bytes((rest / 256) as nat, (k - i - 1) as nat);
            assert(acc as nat * pow2(8 + m) + ((rest % 256) as nat * pow2(m) + r) == (acc as nat
                * 256 + (rest % 256) as nat) * pow2(m) + r) by (nonlinear_arith)
                requires
                    pow2(8 + m) == 256 * pow2(m),
            ;
            assert(((rest / 256) as nat) < pow2(m)) by (nonlinear_arith)
                requires
                    (rest as nat) < 256 * pow2(m),
            ;
        }
        acc = acc * 256 + byte;
        rest = rest / 256;
        i = i + 1;
    }
    proof {
        assert(pow2(0) == 1) by {
            lemma2_to64();
        }
        assert((k - i) as nat == 0);
        assert(reverse_bytes(rest as nat, 0) == 0);
        assert(acc as nat * 1 == acc as nat);
    }
    acc
}

/// Puts a carrier value of `k` bytes into `order`, or takes it back out: either
/// way it is the same permutation.
pub fn reorder_bytes(raw: u128, k: usize, order: ByteOrder, host: Endianness) -> (r: u128)
    requires
        k <= 16,
        (raw as nat) < pow2((8 * k) as nat),
    ensures
        r as nat == reorder(raw as nat, k as nat, order, host),
        (r as nat) < pow2((8 * k) as nat),
{
    let swap = match order {
        ByteOrder::Native => false,
        ByteOrder::Big => host == Endianness::Little,
        ByteOrder::Little => host == Endianness::Big,
    };
    if swap {
        swap_bytes(raw, k)
    } else {
        raw
    }
}

/// Relies on u16::to_be: on a big-endian target the value comes back unchanged,
/// on a little-endian one with its two bytes swapped.
#[verifier::external_body]
fn u16_to_be(v: u16) -> (r: u16)
    ensures
        r == v || r as nat == reverse_bytes(v as nat, 2),
{
    v.to_be()
}

/// The byte order of the machine the code runs on.
pub fn host_endianness() -> (r: Endianness) {
    if u16_to_be(1) == 1 {
        Endianness::Big
    } else {
        Endianness::Little
    }
}

} // verus!
