use bitfield_pack::order::{host_endianness, swap_bytes, ByteOrder, Endianness};
use bitfield_pack::specifier::{
    generate_enum, generate_or_error, parse_attrs, Annotation, DefinitionError, EnumSpecifier,
    InvalidBitPattern, ItemShape, Variant,
};

fn unit(discriminant: Option<u128>) -> Variant {
    Variant { discriminant, unit: true }
}

fn implicit(n: usize) -> Vec<Variant> {
    (0..n).map(|_| unit(None)).collect()
}

fn make(attrs: Vec<Annotation>, variants: Vec<Variant>) -> EnumSpecifier {
    generate_enum(&attrs, &variants).unwrap()
}

#[test]
fn four_variants_infer_two_bits() {
    let s = make(vec![], implicit(4));
    assert_eq!(s.bits, 2);
    assert_eq!(s.endian, ByteOrder::Native);
    let codes: Vec<u128> = s.variants.iter().map(|v| v.discriminant).collect();
    assert_eq!(codes, vec![0, 1, 2, 3]);
}

#[test]
fn three_variants_need_explicit_width() {
    let r = generate_enum(&vec![], &implicit(3));
    assert_eq!(r.err(), Some(DefinitionError::VariantCountNotPowerOfTwo { suggested_bits: 2 }));
    let r = generate_enum(&vec![], &implicit(5));
    assert_eq!(r.err(), Some(DefinitionError::VariantCountNotPowerOfTwo { suggested_bits: 3 }));
}

#[test]
fn explicit_width_may_be_wider_than_needed() {
    let s = make(vec![Annotation::Bits(Some(3))], implicit(4));
    assert_eq!(s.bits, 3);
    assert_eq!(s.variants.len(), 4);
}

#[test]
fn single_variant_has_zero_width() {
    let s = make(vec![], implicit(1));
    assert_eq!(s.bits, 0);
}

#[test]
fn repeated_annotations_are_refused() {
    let r = generate_enum(&vec![Annotation::Bits(Some(2)), Annotation::Bits(Some(2))], &implicit(4));
    assert_eq!(r.err(), Some(DefinitionError::DuplicateBits));
    let r = generate_enum(&vec![Annotation::Endian(Some(1)), Annotation::Endian(Some(2))], &implicit(4));
    assert_eq!(r.err(), Some(DefinitionError::DuplicateEndian));
}

#[test]
fn malformed_annotations_are_refused() {
    let r = generate_enum(&vec![Annotation::Bits(None)], &implicit(4));
    assert_eq!(r.err(), Some(DefinitionError::MalformedBits));
    let r = generate_enum(&vec![Annotation::Endian(None)], &implicit(4));
    assert_eq!(r.err(), Some(DefinitionError::MalformedEndian));
}

#[test]
fn parse_attrs_reads_both_annotations() {
    let a = parse_attrs(&vec![Annotation::Endian(Some(2)), Annotation::Bits(Some(7))]).unwrap();
    assert_eq!(a.bits, Some(7));
    assert_eq!(a.endian, Some(ByteOrder::Little));
    // a duplicate is refused before its value is looked at
    let r = parse_attrs(&vec![Annotation::Bits(Some(1)), Annotation::Bits(None)]);
    assert_eq!(r, Err(DefinitionError::DuplicateBits));
}

#[test]
fn endian_codes() {
    assert_eq!(ByteOrder::from_code(0), ByteOrder::Native);
    assert_eq!(ByteOrder::from_code(1), ByteOrder::Big);
    assert_eq!(ByteOrder::from_code(2), ByteOrder::Little);
    assert_eq!(ByteOrder::from_code(9), ByteOrder::Native);
}

#[test]
fn structs_and_unions_are_refused() {
    assert_eq!(generate_or_error(&ItemShape::Struct, &vec![]).err(), Some(DefinitionError::StructNotSupported));
    assert_eq!(generate_or_error(&ItemShape::Union, &vec![]).err(), Some(DefinitionError::UnionNotSupported));
    let s = generate_or_error(&ItemShape::Enum(implicit(2)), &vec![]).unwrap();
    assert_eq!(s.bits, 1);
}

#[test]
fn width_beyond_carrier_is_refused() {
    let r = generate_enum(&vec![Annotation::Bits(Some(129))], &implicit(2));
    assert_eq!(r.err(), Some(DefinitionError::WidthTooLarge { bits: 129 }));
}

#[test]
fn discriminant_out_of_range_is_refused() {
    let vs = vec![unit(None), unit(Some(4)), unit(None)];
    let r = generate_enum(&vec![Annotation::Bits(Some(2))], &vs);
    assert_eq!(r.err(), Some(DefinitionError::DiscriminantOutOfRange { variant: 1 }));
}

#[test]
fn implicit_discriminants_follow_explicit_ones() {
    let vs = vec![unit(Some(5)), unit(None), Variant { discriminant: None, unit: false }, unit(None)];
    let s = make(vec![Annotation::Bits(Some(4))], vs.clone());
    let got: Vec<(usize, u128)> = s.variants.iter().map(|v| (v.index, v.discriminant)).collect();
    assert_eq!(got, vec![(0, 5), (1, 6), (3, 8)]);
    let r = generate_enum(&vec![Annotation::Bits(Some(3))], &vs);
    assert_eq!(r.err(), Some(DefinitionError::DiscriminantOutOfRange { variant: 3 }));
}

#[test]
fn data_variants_are_skipped() {
    let vs = vec![unit(None), Variant { discriminant: Some(100), unit: false }];
    let s = make(vec![Annotation::Bits(Some(1))], vs);
    assert_eq!(s.variants.len(), 1);
    assert_eq!(s.variants[0].index, 0);
}

#[test]
fn big_and_little_tags_order_bytes() {
    let host = host_endianness();
    let vs = vec![unit(Some(0x0001))];
    let big = make(vec![Annotation::Bits(Some(16)), Annotation::Endian(Some(1))], vs.clone());
    assert_eq!((big.into_bytes(0, host) as u16).to_ne_bytes(), [0x00, 0x01]);
    let little = make(vec![Annotation::Bits(Some(16)), Annotation::Endian(Some(2))], vs.clone());
    assert_eq!((little.into_bytes(0, host) as u16).to_ne_bytes(), [0x01, 0x00]);
    let native = make(vec![Annotation::Bits(Some(16))], vs);
    assert_eq!((native.into_bytes(0, host) as u16).to_ne_bytes(), 0x0001u16.to_ne_bytes());
}

#[test]
fn host_endianness_matches_target() {
    let expected = if 1u16.to_be() == 1 { Endianness::Big } else { Endianness::Little };
    assert_eq!(host_endianness(), expected);
}

#[test]
fn swap_reverses_carrier_bytes() {
    assert_eq!(swap_bytes(0x0102, 2), 0x0201);
    assert_eq!(swap_bytes(0x0102_0304, 4), 0x0403_0201);
    assert_eq!(swap_bytes(0x7F, 1), 0x7F);
}

#[test]
fn unknown_code_is_rejected() {
    let vs = vec![unit(Some(0)), unit(Some(1)), unit(Some(2))];
    let s = make(vec![Annotation::Bits(Some(2))], vs);
    let host = host_endianness();
    assert_eq!(s.from_bytes(3, host), Err(InvalidBitPattern { invalid_bytes: 3 }));
    assert_eq!(s.from_bytes(2, host), Ok(2));
    assert_eq!(s.from_bytes(0, host), Ok(0));
}

#[test]
fn decode_undoes_encode_in_every_order() {
    let host = host_endianness();
    for code in [None, Some(1), Some(2)] {
        let mut attrs = vec![Annotation::Bits(Some(12))];
        if let Some(c) = code {
            attrs.push(Annotation::Endian(Some(c)));
        }
        let vs = vec![unit(Some(0x0ABC)), unit(Some(7)), unit(Some(0x100))];
        let s = make(attrs, vs);
        for k in 0..3 {
            let raw = s.into_bytes(k, host);
            assert_eq!(s.from_bytes(raw, host), Ok(k));
        }
    }
}

#[test]
fn first_matching_variant_wins() {
    let vs = vec![unit(Some(1)), unit(Some(1))];
    let s = make(vec![Annotation::Bits(Some(1))], vs);
    assert_eq!(s.from_bytes(1, host_endianness()), Ok(0));
}
