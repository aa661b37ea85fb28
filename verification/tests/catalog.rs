use poi_catalog::catalog::{encode_catalog, HEADER_SIZE, MAX_RECORDS, RECORD_SIZE};
use poi_catalog::decode::{decode_catalog, record_count};
use poi_catalog::error::{ConvError, EncodeFault};
use poi_catalog::poi::Poi;

fn poi(label: &str, latitude_fixed: i32, longitude_fixed: i32) -> Poi {
    Poi { label: label.to_string(), latitude_fixed, longitude_fixed }
}

fn sample() -> Vec<Poi> {
    vec![
        poi("Cafe", 488_566_000, 23_522_000),
        poi("", -900_000_000, -1_800_000_000),
        poi("Z\u{fc}rich \u{1f3d4}", 473_769_000, 85_417_000),
    ]
}

#[test]
fn one_record_is_laid_out_byte_for_byte() {
    let bytes = encode_catalog(&vec![poi("AB", 1, -2)]).unwrap();
    let mut expected = vec![0x50, 0x4f, 0x49, 0x43, 0x01, 0x00, 0x01, 0x00];
    expected.extend_from_slice(&[0x01, 0x00, 0x00, 0x00]);
    expected.extend_from_slice(&[0xfe, 0xff, 0xff, 0xff]);
    expected.push(2);
    expected.extend_from_slice(b"AB");
    expected.extend_from_slice(&[0u8; 29]);
    assert_eq!(bytes, expected);
}

#[test]
fn coordinates_are_little_endian() {
    let bytes = encode_catalog(&vec![poi("", 0x0102_0304, -0x0102_0304)]).unwrap();
    assert_eq!(&bytes[8..12], &[0x04, 0x03, 0x02, 0x01]);
    assert_eq!(&bytes[12..16], &[0xfc, 0xfc, 0xfd, 0xfe]);
    let bytes = encode_catalog(&vec![poi("", i32::MAX, i32::MIN)]).unwrap();
    assert_eq!(&bytes[8..12], &[0xff, 0xff, 0xff, 0x7f]);
    assert_eq!(&bytes[12..16], &[0x00, 0x00, 0x00, 0x80]);
}

#[test]
fn count_field_is_little_endian() {
    let pois: Vec<Poi> = (0..258).map(|i| poi("p", i, -i)).collect();
    let bytes = encode_catalog(&pois).unwrap();
    assert_eq!(&bytes[6..8], &[0x02, 0x01]);
    assert_eq!(bytes.len(), HEADER_SIZE + RECORD_SIZE * 258);
    assert_eq!(record_count(&bytes), Some(258));
}

#[test]
fn no_records_give_the_header_alone() {
    let bytes = encode_catalog(&Vec::new()).unwrap();
    assert_eq!(bytes, vec![0x50, 0x4f, 0x49, 0x43, 1, 0, 0, 0]);
    assert_eq!(record_count(&bytes), Some(0));
    assert_eq!(decode_catalog(&bytes), Some(Vec::new()));
}

#[test]
fn records_stand_in_order() {
    let pois = sample();
    let bytes = encode_catalog(&pois).unwrap();
    assert_eq!(bytes.len(), HEADER_SIZE + RECORD_SIZE * 3);
    for (n, p) in pois.iter().enumerate() {
        let at = HEADER_SIZE + RECORD_SIZE * n;
        let alone = encode_catalog(&vec![p.clone()]).unwrap();
        assert_eq!(&bytes[at..at + RECORD_SIZE], &alone[HEADER_SIZE..]);
    }
}

#[test]
fn label_of_full_width_fills_the_field() {
    let label = "x".repeat(31);
    let bytes = encode_catalog(&vec![poi(&label, 0, 0)]).unwrap();
    assert_eq!(bytes[16], 31);
    assert_eq!(&bytes[17..48], label.as_bytes());
}

#[test]
fn wide_label_is_an_encode_error() {
    let pois = vec![poi("ok", 0, 0), poi(&"x".repeat(32), 0, 0), poi(&"y".repeat(40), 0, 0)];
    assert_eq!(
        encode_catalog(&pois),
        Err(ConvError::EncodeError { fault: EncodeFault::LabelTooLong { index: 1 } })
    );
    let pois = vec![poi(&"\u{e9}".repeat(16), 0, 0)];
    assert_eq!(
        encode_catalog(&pois),
        Err(ConvError::EncodeError { fault: EncodeFault::LabelTooLong { index: 0 } })
    );
}

#[test]
fn most_records_that_fit_are_accepted() {
    let pois: Vec<Poi> = (0..MAX_RECORDS).map(|_| poi("", 0, 0)).collect();
    let bytes = encode_catalog(&pois).unwrap();
    assert_eq!(&bytes[6..8], &[0xff, 0xff]);
    assert_eq!(bytes.len(), HEADER_SIZE + RECORD_SIZE * MAX_RECORDS);
}

#[test]
fn one_record_too_many_is_an_encode_error() {
    let mut pois: Vec<Poi> = (0..MAX_RECORDS + 1).map(|_| poi("", 0, 0)).collect();
    pois[3].label = "z".repeat(50);
    assert_eq!(
        encode_catalog(&pois),
        Err(ConvError::EncodeError { fault: EncodeFault::TooManyRecords { count: 65536 } })
    );
}

#[test]
fn decoding_gives_back_what_was_encoded() {
    let pois = sample();
    let bytes = encode_catalog(&pois).unwrap();
    assert_eq!(record_count(&bytes), Some(3));
    assert_eq!(decode_catalog(&bytes), Some(pois));
}

#[test]
fn encoding_gives_back_what_was_decoded() {
    let bytes = encode_catalog(&sample()).unwrap();
    let pois = decode_catalog(&bytes).unwrap();
    assert_eq!(encode_catalog(&pois), Ok(bytes));
}

#[test]
fn bytes_without_a_header_are_not_a_catalog() {
    assert_eq!(record_count(&[]), None);
    assert_eq!(decode_catalog(&[]), None);
    assert_eq!(record_count(&[0x50, 0x4f, 0x49, 0x43, 1, 0, 0]), None);
    assert_eq!(decode_catalog(&[0x50, 0x4f, 0x49, 0x43, 1, 0, 0]), None);
}

#[test]
fn wrong_magic_or_version_is_not_a_catalog() {
    let good = encode_catalog(&sample()).unwrap();
    for at in 0..6 {
        let mut bad = good.clone();
        bad[at] ^= 0x20;
        assert_eq!(record_count(&bad), None);
        assert_eq!(decode_catalog(&bad), None);
    }
}

#[test]
fn length_must_match_the_count() {
    let good = encode_catalog(&sample()).unwrap();
    let mut long = good.clone();
    long.push(0);
    assert_eq!(record_count(&long), None);
    assert_eq!(decode_catalog(&long), None);
    let short = &good[..good.len() - 1];
    assert_eq!(record_count(short), None);
    assert_eq!(decode_catalog(short), None);
    let mut miscounted = good.clone();
    miscounted[6] = 2;
    assert_eq!(record_count(&miscounted), None);
    assert_eq!(decode_catalog(&miscounted), None);
}

#[test]
fn malformed_label_field_is_not_a_catalog() {
    let good = encode_catalog(&vec![poi("Cafe", 1, 2)]).unwrap();
    assert_eq!(record_count(&good), Some(1));

    let mut long_label = good.clone();
    long_label[16] = 32;
    assert_eq!(decode_catalog(&long_label), None);

    let mut dirty_padding = good.clone();
    dirty_padding[47] = 1;
    assert_eq!(decode_catalog(&dirty_padding), None);

    let mut dirty_padding = good.clone();
    dirty_padding[21] = b'!';
    assert_eq!(decode_catalog(&dirty_padding), None);

    let mut not_utf8 = good.clone();
    not_utf8[17] = 0xff;
    assert_eq!(decode_catalog(&not_utf8), None);

    let mut cut_character = good.clone();
    cut_character[20] = 0xc3;
    assert_eq!(decode_catalog(&cut_character), None);
    assert_eq!(record_count(&cut_character), Some(1));
}

#[test]
fn label_with_a_zero_character_survives() {
    let pois = vec![poi("a\0b", 5, 6), poi("\0", 7, 8)];
    let bytes = encode_catalog(&pois).unwrap();
    assert_eq!(bytes[16], 3);
    assert_eq!(decode_catalog(&bytes), Some(pois));
}
