use leb128plus::{decode, encode, encode_into, DecodeError, Decoder, Step};

#[test]
fn single_bytes() {
    assert_eq!(decode::<u8>(&[0x00]), Ok((0, 1)));
    assert_eq!(decode::<u8>(&[0x01]), Ok((1, 1)));
    assert_eq!(decode::<u8>(&[0x7F]), Ok((127, 1)));
}

#[test]
fn two_and_three_bytes() {
    assert_eq!(decode::<u32>(&[0x80, 0x00]), Ok((128, 2)));
    assert_eq!(decode::<u32>(&[0xFF, 0x00]), Ok((0xFF, 2)));
    assert_eq!(decode::<u32>(&[0xFF, 0x01]), Ok((0x17F, 2)));
    assert_eq!(decode::<u32>(&[0xFF, 0x7F]), Ok((0x407F, 2)));
    assert_eq!(decode::<u32>(&[0x80, 0x80, 0x00]), Ok((0x4080, 3)));
    assert_eq!(decode::<u32>(&[0xC0, 0x83, 0x3C]), Ok((1_000_000, 3)));
}

#[test]
fn a_lone_continuation_byte_is_truncated() {
    assert_eq!(decode::<u8>(&[0x80]), Err(DecodeError::TruncatedInput));
    assert_eq!(decode::<u16>(&[0x80]), Err(DecodeError::TruncatedInput));
    assert_eq!(decode::<u32>(&[0x80]), Err(DecodeError::TruncatedInput));
    assert_eq!(decode::<u64>(&[0x80]), Err(DecodeError::TruncatedInput));
    assert_eq!(decode::<u128>(&[0x80]), Err(DecodeError::TruncatedInput));
}

#[test]
fn no_bytes_at_all_is_truncated() {
    assert_eq!(decode::<u32>(&[]), Err(DecodeError::TruncatedInput));
}

#[test]
fn a_run_that_nothing_closes_is_truncated() {
    assert_eq!(decode::<u32>(&[0xFF, 0xFF, 0x80]), Err(DecodeError::TruncatedInput));
}

#[test]
fn bytes_behind_the_number_are_left_alone() {
    assert_eq!(decode::<u16>(&[0x05, 0xFF, 0xFF, 0xFF, 0xFF]), Ok((5, 1)));
    assert_eq!(decode::<u16>(&[0x80, 0x00, 0x80]), Ok((128, 2)));
}

#[test]
fn concatenation() {
    let mut bytes = Vec::new();
    encode_into(0u32, &mut bytes);
    encode_into(127u32, &mut bytes);
    encode_into(128u32, &mut bytes);
    assert_eq!(bytes, [0x00, 0x7F, 0x80, 0x00]);

    let mut at = 0;
    let (first, used) = decode::<u32>(&bytes[at..]).unwrap();
    assert_eq!((first, used), (0, 1));
    at += used;
    let (second, used) = decode::<u32>(&bytes[at..]).unwrap();
    assert_eq!((second, used), (127, 1));
    at += used;
    let (third, used) = decode::<u32>(&bytes[at..]).unwrap();
    assert_eq!((third, used), (128, 2));
    at += used;
    assert_eq!(at, bytes.len());
    assert_eq!(decode::<u32>(&bytes[at..]), Err(DecodeError::TruncatedInput));
}

#[test]
fn numbers_of_several_widths_one_after_another() {
    let bytes = [0, 127, 128, 0, 0xFF, 0, 0xFF, 1, 0xFF, 0x7F, 0x80, 0x80, 0, 128];
    let mut at = 0;

    let (a, used) = decode::<u8>(&bytes[at..]).unwrap();
    assert_eq!(a, 0);
    at += used;
    let (b, used) = decode::<u16>(&bytes[at..]).unwrap();
    assert_eq!(b, 127);
    at += used;
    let (c, used) = decode::<u32>(&bytes[at..]).unwrap();
    assert_eq!(c, 128);
    at += used;
    let (d, used) = decode::<u64>(&bytes[at..]).unwrap();
    assert_eq!(d, 0xFF);
    at += used;
    let (e, used) = decode::<u128>(&bytes[at..]).unwrap();
    assert_eq!(e, 0x17F);
    at += used;
    let (f, used) = decode::<u16>(&bytes[at..]).unwrap();
    assert_eq!(f, 0x407F);
    at += used;
    let (g, used) = decode::<u32>(&bytes[at..]).unwrap();
    assert_eq!(g, 0x4080);
    at += used;
    assert_eq!(at, 13);
    assert!(decode::<u64>(&bytes[at..]).is_err());
}

#[test]
fn largest_of_each_width_comes_back() {
    assert_eq!(decode::<u8>(&[0xFF, 0x00]), Ok((u8::MAX, 2)));
    assert_eq!(decode::<u16>(&[0xFF, 0xFE, 0x02]), Ok((u16::MAX, 3)));
    assert_eq!(decode::<u32>(&[0xFF, 0xFE, 0xFE, 0xFE, 0x0E]), Ok((u32::MAX, 5)));
    assert_eq!(
        decode::<u64>(&[0xFF, 0xFE, 0xFE, 0xFE, 0xFE, 0xFE, 0xFE, 0xFE, 0xFE, 0x00]),
        Ok((u64::MAX, 10))
    );
    let mut widest = vec![0xFEu8; 19];
    widest[0] = 0xFF;
    widest[18] = 0x02;
    assert_eq!(decode::<u128>(&widest), Ok((u128::MAX, 19)));
}

#[test]
fn one_above_the_largest_overflows() {
    assert_eq!(decode::<u8>(&[0x80, 0x01]), Err(DecodeError::Overflow));
    assert_eq!(decode::<u16>(&[0x80, 0xFF, 0x02]), Err(DecodeError::Overflow));
    assert_eq!(decode::<u32>(&[0x80, 0xFF, 0xFE, 0xFE, 0x0E]), Err(DecodeError::Overflow));
    assert_eq!(
        decode::<u64>(&[0x80, 0xFF, 0xFE, 0xFE, 0xFE, 0xFE, 0xFE, 0xFE, 0xFE, 0x00]),
        Err(DecodeError::Overflow)
    );
    let mut widest = vec![0xFEu8; 19];
    widest[0] = 0xFF;
    widest[18] = 0x03;
    assert_eq!(decode::<u128>(&widest), Err(DecodeError::Overflow));
}

#[test]
fn what_overflows_a_narrow_type_fits_a_wider_one() {
    assert_eq!(decode::<u16>(&[0x80, 0x01]), Ok((256, 2)));
    assert_eq!(decode::<u32>(&[0x80, 0xFF, 0x02]), Ok((1 << 16, 3)));
    assert_eq!(decode::<u64>(&[0x80, 0xFF, 0xFE, 0xFE, 0x0E]), Ok((1 << 32, 5)));
    assert_eq!(
        decode::<u128>(&[0x80, 0xFF, 0xFE, 0xFE, 0xFE, 0xFE, 0xFE, 0xFE, 0xFE, 0x00]),
        Ok((1 << 64, 10))
    );
}

#[test]
fn a_long_run_overflows() {
    assert_eq!(decode::<u8>(&[0x80; 3]), Err(DecodeError::Overflow));
    assert_eq!(decode::<u64>(&[0x80; 20]), Err(DecodeError::Overflow));
    assert_eq!(decode::<u128>(&[0xFF; 64]), Err(DecodeError::Overflow));
    let mut closed = vec![0x80u8; 40];
    closed.push(0x00);
    assert_eq!(decode::<u128>(&closed), Err(DecodeError::Overflow));
}

#[test]
fn a_run_that_is_too_large_overflows_before_its_end() {
    // 0x80 + 0x80 * 128 is above 255 whatever follows.
    assert_eq!(decode::<u8>(&[0x80, 0x80]), Err(DecodeError::Overflow));
    // 255 fits, and nothing closes the run.
    assert_eq!(decode::<u8>(&[0xFF]), Err(DecodeError::TruncatedInput));
}

#[test]
fn a_zero_byte_far_out_adds_nothing_but_the_run_before_it_does() {
    assert_eq!(decode::<u8>(&[0x80, 0x00]), Ok((128, 2)));
    assert_eq!(decode::<u8>(&[0xFF, 0x00]), Ok((255, 2)));
    assert_eq!(decode::<u8>(&[0xFF, 0x01]), Err(DecodeError::Overflow));
}

#[test]
fn decoder_takes_bytes_one_at_a_time() {
    let decoder = Decoder::<u32>::new();
    let decoder = match decoder.push(0x80) {
        Step::More(next) => next,
        _ => panic!("a byte with the high bit set leaves the number open"),
    };
    let decoder = match decoder.push(0x80) {
        Step::More(next) => next,
        _ => panic!("a byte with the high bit set leaves the number open"),
    };
    match decoder.push(0x00) {
        Step::Done(value) => assert_eq!(value, 0x4080),
        _ => panic!("a byte with the high bit clear closes the number"),
    }
}

#[test]
fn decoder_closes_on_the_first_byte() {
    match Decoder::<u8>::new().push(0x7F) {
        Step::Done(value) => assert_eq!(value, 127),
        _ => panic!("a byte with the high bit clear closes the number"),
    }
}

#[test]
fn decoder_reports_overflow() {
    let decoder = match Decoder::<u8>::new().push(0xFF) {
        Step::More(next) => next,
        _ => panic!("255 fits in eight bits"),
    };
    assert!(matches!(decoder.push(0x01), Step::Overflow));

    let decoder = match Decoder::<u8>::new().push(0x80) {
        Step::More(next) => next,
        _ => panic!("128 fits in eight bits"),
    };
    assert!(matches!(decoder.push(0x80), Step::Overflow));
}

#[test]
fn decoder_agrees_with_decode() {
    for v in [0u64, 1, 127, 128, 255, 0x4080, 1 << 40, u64::MAX] {
        let bytes = encode(v);
        let mut decoder = Decoder::<u64>::new();
        let mut result = None;
        for byte in &bytes {
            match decoder.push(*byte) {
                Step::More(next) => decoder = next,
                Step::Done(value) => {
                    result = Some(value);
                    break;
                }
                Step::Overflow => panic!("{} fits in 64 bits", v),
            }
        }
        assert_eq!(result, Some(v));
        assert_eq!(decode::<u64>(&bytes), Ok((v, bytes.len())));
    }
}

#[test]
fn errors_compare_and_copy() {
    let e = DecodeError::Overflow;
    let f = e;
    assert_eq!(e, f);
    assert_ne!(DecodeError::Overflow, DecodeError::TruncatedInput);
    assert_eq!(format!("{:?}", DecodeError::TruncatedInput), "TruncatedInput");
}
