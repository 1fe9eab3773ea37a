use crate::order::{
    carrier_bytes, carrier_size, lemma_reorder_twice, lemma_reverse_bound, reorder, reorder_bytes,
    ByteOrder, Endianness,
};
use vstd::arithmetic::power2::{lemma2_to64, lemma_pow2_pos, lemma_pow2_strictly_increases, pow2};
use vstd::prelude::*;

verus! {

/// A `bits = ..` or `endian = ..` annotation on an enum definition; `None` where
/// its value is not an integer literal.
#[derive(Clone, Copy, Debug, PartialEq, Eq, Structural)]
pub enum Annotation {
    Bits(Option<usize>),
    Endian(Option<usize>),
}

/// The annotations of one enum definition, each given at most once.
#[derive(Clone, Copy, Debug, PartialEq, Eq, Structural)]
pub struct Attributes {
    pub bits: Option<usize>,
    pub endian: Option<ByteOrder>,
}

/// Why an enum cannot be made into a specifier.
#[derive(Clone, Copy, Debug, PartialEq, Eq, Structural)]
pub enum DefinitionError {
    StructNotSupported,
    UnionNotSupported,
    DuplicateBits,
    DuplicateEndian,
    MalformedBits,
    MalformedEndian,
    /// No explicit width and a variant count that is not a power of two; the
    /// smallest width that holds every variant is suggested.
    VariantCountNotPowerOfTwo { suggested_bits: u32 },
    /// A width beyond the largest carrier (128 bits).
    WidthTooLarge { bits: usize },
    /// The unit variant at this declaration position has a discriminant that
    /// does not fit the width.
    DiscriminantOutOfRange { variant: usize },
}

/// One variant of an enum definition, in declaration order.
#[derive(Clone, Copy, Debug, PartialEq, Eq, Structural)]
pub struct Variant {
    /// The explicit discriminant, if any; otherwise it is one more than the
    /// previous variant's, and 0 for the first.
    pub discriminant: Option<u128>,
    /// Whether the variant carries no data.
    pub unit: bool,
}

/// The definition handed over by the front end.
pub enum ItemShape {
    Enum(Vec<Variant>),
    Struct,
    Union,
}

/// A unit variant of a specifier: its declaration position and its code.
#[derive(Clone, Copy, Debug, PartialEq, Eq, Structural)]
pub struct UnitVariant {
    pub index: usize,
    pub discriminant: u128,
}

/// A raw code that no variant has.
#[derive(Clone, Copy, Debug, PartialEq, Eq, Structural)]
pub struct InvalidBitPattern {
    pub invalid_bytes: u128,
}

/// An enum made into a bit-field specifier.
pub struct EnumSpecifier {
    pub bits: usize,
    pub endian: ByteOrder,
    /// The unit variants, in declaration order.
    pub variants: Vec<UnitVariant>,
}

pub open spec fn no_attributes() -> Attributes {
    Attributes { bits: None, endian: None }
}

/// One annotation taken into the attributes gathered so far.
pub open spec fn attr_step(a: Attributes, ann: Annotation) -> Result<Attributes, DefinitionError> {
    match ann {
        Annotation::Bits(v) => if a.bits is Some {
            Err(DefinitionError::DuplicateBits)
        } else {
            match v {
                None => Err(DefinitionError::MalformedBits),
                Some(b) => Ok(Attributes { bits: Some(b), ..a }),
            }
        },
        Annotation::Endian(v) => if a.endian is Some {
            Err(DefinitionError::DuplicateEndian)
        } else {
            match v {
                None => Err(DefinitionError::MalformedEndian),
                Some(c) => Ok(Attributes { endian: Some(order_of_code(c)), ..a }),
            }
        },
    }
}

pub open spec fn order_of_code(c: usize) -> ByteOrder {
    if c == 1 {
        ByteOrder::Big
    } else if c == 2 {
        ByteOrder::Little
    } else {
        ByteOrder::Native
    }
}

/// The annotations taken in order; the first one that fails decides.
pub open spec fn attrs_of(anns: Seq<Annotation>) -> Result<Attributes, DefinitionError>
    decreases anns.len(),
{
    if anns.len() == 0 {
        Ok(no_attributes())
    } else {
        match attrs_of(anns.drop_last()) {
            Err(e) => Err(e),
            Ok(a) => attr_step(a, anns.last()),
        }
    }
}

/// `k` is the smallest width whose capacity `2^k` holds `n` values.
pub open spec fn is_ceil_log2(n: nat, k: nat) -> bool {
    n <= pow2(k) && (k == 0 || pow2((k - 1) as nat) < n)
}

pub open spec fn ceil_log2(n: nat) -> nat {
    choose|k: nat| is_ceil_log2(n, k)
}

/// The width: the explicit one, else `log2` of a variant count that is a power of two.
pub open spec fn width_of(a: Attributes, count: nat) -> Result<nat, DefinitionError> {
    match a.bits {
        Some(b) => Ok(b as nat),
        None => if pow2(ceil_log2(count)) == count {
            Ok(ceil_log2(count))
        } else {
            Err(DefinitionError::VariantCountNotPowerOfTwo { suggested_bits: ceil_log2(count) as u32 })
        },
    }
}

/// The discriminant of variant `i`.
pub open spec fn resolved(vs: Seq<Variant>, i: int) -> nat
    decreases i,
{
    match vs[i].discriminant {
        Some(d) => d as nat,
        None => if i <= 0 {
            0
        } else {
            resolved(vs, i - 1) + 1
        },
    }
}

/// The first unit variant from position `i` on whose discriminant does not fit `w` bits.
pub open spec fn first_out_of_range(vs: Seq<Variant>, w: nat, i: int) -> Option<int>
    decreases vs.len() - i,
{
    if i < 0 || i >= vs.len() {
        None
    } else if vs[i].unit && resolved(vs, i) >= pow2(w) {
        Some(i)
    } else {
        first_out_of_range(vs, w, i + 1)
    }
}

/// The unit variants among the first `n`, with their discriminants.
pub open spec fn units(vs: Seq<Variant>, n: int) -> Seq<UnitVariant>
    decreases n,
{
    if n <= 0 {
        Seq::empty()
    } else if vs[n - 1].unit {
        units(vs, n - 1).push(
            UnitVariant { index: (n - 1) as usize, discriminant: resolved(vs, n - 1) as u128 },
        )
    } else {
        units(vs, n - 1)
    }
}

/// What an enum definition yields: its width and byte order, or the error.
pub open spec fn definition(anns: Seq<Annotation>, vs: Seq<Variant>) -> Result<
    (nat, ByteOrder),
    DefinitionError,
> {
    match attrs_of(anns) {
        Err(e) => Err(e),
        Ok(a) => match width_of(a, vs.len()) {
            Err(e) => Err(e),
            Ok(w) => if w > 128 {
                Err(DefinitionError::WidthTooLarge { bits: w as usize })
            } else {
                match first_out_of_range(vs, w, 0) {
                    Some(i) => Err(DefinitionError::DiscriminantOutOfRange { variant: i as usize }),
                    None => Ok(
                        (
                            w,
                            match a.endian {
                                Some(e) => e,
                                None => ByteOrder::Native,
                            },
                        ),
                    ),
                }
            },
        },
    }
}

/// `r` is what `definition` says of the annotations and variants.
pub open spec fn defines(
    anns: Seq<Annotation>,
    vs: Seq<Variant>,
    r: Result<EnumSpecifier, DefinitionError>,
) -> bool {
    match (r, definition(anns, vs)) {
        (Ok(s), Ok(d)) => s.bits == d.0 && s.endian == d.1 && s.variants@ == units(vs, vs.len() as int),
        (Err(x), Err(y)) => x == y,
        _ => false,
    }
}

impl EnumSpecifier {
    /// The width fits a carrier and every code fits the width.
    pub open spec fn wf(&self) -> bool {
        &&& self.bits <= 128
        &&& forall|k: int|
            0 <= k < self.variants@.len() ==> (#[trigger] self.variants@[k].discriminant as nat)
                < pow2(self.bits as nat)
    }

    pub open spec fn carrier(&self) -> nat {
        carrier_bytes(self.bits as nat)
    }
}

/// Gathers the `bits` and `endian` annotations, refusing a repeated or malformed one.
pub fn parse_attrs(attrs: &Vec<Annotation>) -> (r: Result<Attributes, DefinitionError>)
    ensures
        r == attrs_of(attrs@),
{
    let mut attributes = Attributes { bits: None, endian: None };
    let mut i: usize = 0;
    while i < attrs.len()
        invariant
            i <= attrs@.len(),
            attrs_of(attrs@.subrange(0, i as int)) == Ok::<Attributes, DefinitionError>(attributes),
        decreases attrs@.len() - i,
    {
        let ghost prefix = attrs@.subrange(0, i as int + 1);
        assert(prefix.drop_last() =~= attrs@.subrange(0, i as int));
        assert(prefix.last() == attrs@[i as int]);
        proof {
            if attrs_of(prefix) is Err {
                lemma_attrs_err_prefix(attrs@, i as int + 1);
            }
        }
        match attrs[i] {
            Annotation::Bits(v) => {
                if attributes.bits.is_some() {
                    return Err(DefinitionError::DuplicateBits);
                }
                match v {
                    None => {
                        return Err(DefinitionError::MalformedBits);
                    },
                    Some(b) => {
                        attributes = Attributes { bits: Some(b), ..attributes };
                    },
                }
            },
            Annotation::Endian(v) => {
                if attributes.endian.is_some() {
                    return Err(DefinitionError::DuplicateEndian);
                }
                match v {
                    None => {
                        return Err(DefinitionError::MalformedEndian);
                    },
                    Some(c) => {
                        attributes = Attributes { endian: Some(ByteOrder::from_code(c)), ..attributes };
                    },
                }
            },
        }
        i = i + 1;
    }
    assert(attrs@.subrange(0, i as int) =~= attrs@);
    Ok(attributes)
}

/// Once an annotation fails, the ones after it change nothing.
pub proof fn lemma_attrs_err_prefix(anns: Seq<Annotation>, j: int)
    requires
        0 <= j <= anns.len(),
        attrs_of(anns.subrange(0, j)) is Err,
    ensures
        attrs_of(anns) == attrs_of(anns.subrange(0, j)),
    decreases anns.len() - j,
{
    if j < anns.len() {
        let next = anns.subrange(0, j + 1);
        assert(next.drop_last() =~= anns.subrange(0, j));
        lemma_attrs_err_prefix(anns, j + 1);
    } else {
        assert(anns.subrange(0, j) =~= anns);
    }
}

/// A smallest width is unique.
pub proof fn lemma_ceil_log2_unique(n: nat, k1: nat, k2: nat)
    requires
        is_ceil_log2(n, k1),
        is_ceil_log2(n, k2),
    ensures
        k1 == k2,
{
    if k1 < k2 {
        if k1 < (k2 - 1) as nat {
            lemma_pow2_strictly_increases(k1, (k2 - 1) as nat);
        }
    } else if k2 < k1 {
        if k2 < (k1 - 1) as nat {
            lemma_pow2_strictly_increases(k2, (k1 - 1) as nat);
        }
    }
}

/// The smallest `k` with `n <= 2^k`, and whether `n` is exactly `2^k`.
fn ceil_log2_of(n: usize) -> (r: (u32, bool))
    ensures
        r.0 as nat == ceil_log2(n as nat),
        is_ceil_log2(n as nat, r.0 as nat),
        r.1 == (pow2(r.0 as nat) == n),
        r.0 <= 64,
{
    let mut p: u128 = 1;
    let mut k: u32 = 0;
    proof {
        lemma2_to64();
    }
    while p < n as u128
        invariant
            p as nat == pow2(k as nat),
            k == 0 || pow2((k - 1) as nat) < n,
            k <= 64,
        decreases 64 - k,
    {
        proof {
            lemma2_to64();
            vstd::arithmetic::power2::lemma_pow2_unfold((k + 1) as nat);
            if k == 64 {
                assert(pow2(63) < n);
                assert(false);
            }
        }
        p = p * 2;
        k = k + 1;
    }
    proof {
        assert(is_ceil_log2(n as nat, k as nat));
        assert(is_ceil_log2(n as nat, ceil_log2(n as nat)));
        lemma_ceil_log2_unique(n as nat, k as nat, ceil_log2(n as nat));
    }
    (k, p == n as u128)
}

/// Whether `v` fits in `bits` bits.
fn fits_width(v: u128, bits: usize) -> (r: bool)
    requires
        bits <= 128,
    ensures
        r == ((v as nat) < pow2(bits as nat)),
{
    if bits == 128 {
        proof {
            lemma_pow2_128();
        }
        true
    } else {
        proof {
            vstd::bits::lemma_u128_shr_is_div(v, bits as u128);
            lemma_pow2_pos(bits as nat);
            let d = pow2(bits as nat);
            assert((v as nat / d == 0) == ((v as nat) < d)) by (nonlinear_arith)
                requires
                    d > 0,
            ;
        }
        (v >> (bits as u128)) == 0
    }
}

proof fn lemma_pow2_128()
    ensures
        pow2(128) == u128::MAX + 1,
{
    lemma2_to64();
    vstd::arithmetic::power2::lemma_pow2_adds(64, 64);
}

/// Makes a specifier of an enum definition: resolves its width, checks that every
/// unit variant's discriminant fits it, and lists the unit variants.
pub fn generate_enum(attrs: &Vec<Annotation>, variants: &Vec<Variant>) -> (r: Result<
    EnumSpecifier,
    DefinitionError,
>)
    ensures
        defines(attrs@, variants@, r),
        r matches Ok(s) ==> s.wf(),
{
    let attributes = match parse_attrs(attrs) {
        Ok(a) => a,
        Err(e) => {
            return Err(e);
        },
    };
    let bits: usize = match attributes.bits {
        Some(bits) => bits,
        None => {
            let (k, exact) = ceil_log2_of(variants.len());
            if !exact {
                return Err(DefinitionError::VariantCountNotPowerOfTwo { suggested_bits: k });
            }
            k as usize
        },
    };
    if bits > 128 {
        return Err(DefinitionError::WidthTooLarge { bits });
    }
    let endian = match attributes.endian {
        Some(endian) => endian,
        None => ByteOrder::Native,
    };
    let ghost vs = variants@;
    let mut codes: Vec<UnitVariant> = Vec::new();
    let mut prev: u128 = 0;
    let mut over: bool = false;
    let mut i: usize = 0;
    proof {
        lemma_pow2_128();
        if bits < 128 {
            lemma_pow2_strictly_increases(bits as nat, 128);
        }
    }
    while i < variants.len()
        invariant
            vs == variants@,
            attrs_of(attrs@) == Ok::<Attributes, DefinitionError>(attributes),
            width_of(attributes, vs.len()) == Ok::<nat, DefinitionError>(bits as nat),
            i <= vs.len(),
            bits <= 128,
            pow2(bits as nat) <= u128::MAX + 1,
            i > 0 ==> (over ==> resolved(vs, i - 1) > u128::MAX),
            i > 0 ==> (!over ==> prev as nat == resolved(vs, i - 1)),
            codes@ == units(vs, i as int),
            first_out_of_range(vs, bits as nat, 0) == first_out_of_range(vs, bits as nat, i as int),
            forall|k: int|
                0 <= k < codes@.len() ==> (#[trigger] codes@[k].discriminant as nat) < pow2(
                    bits as nat,
                ),
        decreases vs.len() - i,
    {
        let v = variants[i];
        let mut cur: u128 = 0;
        let mut cur_over = false;
        match v.discriminant {
            Some(d) => {
                cur = d;
            },
            None => {
                if i == 0 {
                    cur = 0;
                } else if over || prev == u128::MAX {
                    cur_over = true;
                } else {
                    cur = prev + 1;
                }
            },
        }
        let fits = !cur_over && fits_width(cur, bits);
        assert(cur_over ==> resolved(vs, i as int) > u128::MAX);
        assert(!cur_over ==> cur as nat == resolved(vs, i as int));
        if v.unit && !fits {
            assert(resolved(vs, i as int) >= pow2(bits as nat));
            assert(first_out_of_range(vs, bits as nat, i as int) == Some(i as int));
            return Err(DefinitionError::DiscriminantOutOfRange { variant: i });
        }
        if v.unit {
            codes.push(UnitVariant { index: i, discriminant: cur });
        }
        prev = cur;
        over = cur_over;
        i = i + 1;
    }
    Ok(EnumSpecifier { bits, endian, variants: codes })
}

/// Makes a specifier of a definition, which must be an enum.
pub fn generate_or_error(input: &ItemShape, attrs: &Vec<Annotation>) -> (r: Result<
    EnumSpecifier,
    DefinitionError,
>)
    ensures
        match input {
            ItemShape::Enum(vs) => defines(attrs@, vs@, r) && (r matches Ok(s) ==> s.wf()),
            ItemShape::Struct => r == Err::<EnumSpecifier, DefinitionError>(
                DefinitionError::StructNotSupported,
            ),
            ItemShape::Union => r == Err::<EnumSpecifier, DefinitionError>(
                DefinitionError::UnionNotSupported,
            ),
        },
{
    match input {
        ItemShape::Enum(variants) => generate_enum(attrs, variants),
        ItemShape::Struct => Err(DefinitionError::StructNotSupported),
        ItemShape::Union => Err(DefinitionError::UnionNotSupported),
    }
}

impl EnumSpecifier {
    /// The raw code of the unit variant at position `k` of `variants`, in the
    /// declared byte order. Total: every code fits the width.
    pub fn into_bytes(&self, k: usize, host: Endianness) -> (r: u128)
        requires
            self.wf(),
            k < self.variants@.len(),
        ensures
            r as nat == reorder(
                self.variants@[k as int].discriminant as nat,
                self.carrier(),
                self.endian,
                host,
            ),
    {
        let size = carrier_size(self.bits);
        let code = self.variants[k].discriminant;
        proof {
            assert((code as nat) < pow2(self.bits as nat));
            lemma_carrier_holds(self.bits as nat);
        }
        reorder_bytes(code, size, self.endian, host)
    }

    /// The position in `variants` of the first unit variant whose code is `raw`
    /// once taken out of the declared byte order; else that code, as an error.
    pub fn from_bytes(&self, raw: u128, host: Endianness) -> (r: Result<usize, InvalidBitPattern>)
        requires
            self.bits <= 128,
            (raw as nat) < pow2(8 * self.carrier()),
        ensures
            ({
                let code = reorder(raw as nat, self.carrier(), self.endian, host);
                match r {
                    Ok(k) => k < self.variants@.len() && self.variants@[k as int].discriminant as nat
                        == code && forall|j: int|
                        0 <= j < k ==> (#[trigger] self.variants@[j].discriminant) as nat != code,
                    Err(e) => e.invalid_bytes as nat == code && forall|j: int|
                        0 <= j < self.variants@.len() ==> (
                        #[trigger] self.variants@[j].discriminant) as nat != code,
                }
            }),
    {
        let size = carrier_size(self.bits);
        let bytes = reorder_bytes(raw, size, self.endian, host);
        let mut k: usize = 0;
        while k < self.variants.len()
            invariant
                k <= self.variants@.len(),
                bytes as nat == reorder(raw as nat, self.carrier(), self.endian, host),
                forall|j: int| 0 <= j < k ==> #[trigger] self.variants@[j].discriminant != bytes,
            decreases self.variants@.len() - k,
        {
            if self.variants[k].discriminant == bytes {
                return Ok(k);
            }
            k = k + 1;
        }
        Err(InvalidBitPattern { invalid_bytes: bytes })
    }
}

/// A field of `bits` bits fits in its carrier.
proof fn lemma_carrier_holds(bits: nat)
    requires
        bits <= 128,
    ensures
        pow2(bits) <= pow2(8 * carrier_bytes(bits)),
        carrier_bytes(bits) <= 16,
{
    if bits < 8 * carrier_bytes(bits) {
        lemma_pow2_strictly_increases(bits, 8 * carrier_bytes(bits));
    }
}

/// The raw code that `into_bytes` gives for a variant is a valid input of
/// `from_bytes`, which takes it back to that variant's own discriminant; decoding
/// therefore finds the variant, or an earlier one with the same discriminant.
pub proof fn lemma_decode_encoded(s: EnumSpecifier, k: int, host: Endianness)
    requires
        s.wf(),
        0 <= k < s.variants@.len(),
    ensures
        ({
            let d = s.variants@[k].discriminant as nat;
            let raw = reorder(d, s.carrier(), s.endian, host);
            &&& raw < pow2(8 * s.carrier())
            &&& reorder(raw, s.carrier(), s.endian, host) == d
        }),
{
    let d = s.variants@[k].discriminant as nat;
    assert(d < pow2(s.bits as nat));
    lemma_carrier_holds(s.bits as nat);
    lemma_reverse_bound(d, s.carrier());
    lemma_reorder_twice(d, s.carrier(), s.endian, host);
}

} // verus!
