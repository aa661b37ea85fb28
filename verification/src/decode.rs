//! Reading a catalog back.
//!
//! A catalog describes itself: the number of records stands in its
//! header, and every record has the same size. Decoding accepts exactly
//! the byte strings that encoding produces, and gives back the records
//! that were encoded.
use crate::catalog::{
    all_labels_fit, catalog_bytes, encode_fault, header_bytes, label_field, label_fits, le16, le32,
    lemma_catalog_layout, lemma_encode_fault, magic, record_bytes, records_bytes, twos_complement,
    zeros, FORMAT_VERSION, HEADER_SIZE, RECORD_SIZE,
};
use crate::label::LABEL_WIDTH;
use crate::poi::{poi_views, Poi, PoiView};
use vstd::prelude::*;
use vstd::utf8::*;

verus! {

/// The number whose two bytes, low byte first, are `b`.
pub open spec fn from_le16(b: Seq<u8>) -> u16
    recommends
        b.len() == 2,
{
    (b[0] + 0x100 * b[1]) as u16
}

/// The number whose four bytes, low byte first, are `b`.
pub open spec fn from_le32(b: Seq<u8>) -> u32
    recommends
        b.len() == 4,
{
    (b[0] + 0x100 * b[1] + 0x1_0000 * b[2] + 0x100_0000 * b[3]) as u32
}

/// The signed number with the same thirty-two bits as `u` in two's
/// complement.
pub open spec fn from_twos_complement(u: u32) -> i32 {
    if u >= 0x8000_0000 {
        (u - 0x1_0000_0000) as i32
    } else {
        u as i32
    }
}

/// The number of records that the header of `bytes` announces, if
/// `bytes` starts with a header of this format and is as long as a
/// catalog of that many records.
pub open spec fn catalog_count(bytes: Seq<u8>) -> Option<u16> {
    if bytes.len() >= HEADER_SIZE && bytes.subrange(0, 4) == magic() && bytes.subrange(4, 6)
        == le16(FORMAT_VERSION) && bytes.len() == HEADER_SIZE + RECORD_SIZE * from_le16(
        bytes.subrange(6, 8),
    ) {
        Some(from_le16(bytes.subrange(6, 8)))
    } else {
        None
    }
}

/// The bytes of the `n`th record of a catalog.
pub open spec fn record_at(bytes: Seq<u8>, n: int) -> Seq<u8> {
    bytes.subrange(HEADER_SIZE + RECORD_SIZE * n, HEADER_SIZE + RECORD_SIZE * n + RECORD_SIZE)
}

/// The record that forty bytes hold, if they are a well-formed record:
/// a label length within the width, that many bytes of valid UTF-8, and
/// zero bytes after them.
pub open spec fn parse_record(record: Seq<u8>) -> Option<PoiView> {
    let len = record[8] as int;
    if record.len() == RECORD_SIZE && len <= LABEL_WIDTH && valid_utf8(record.subrange(9, 9 + len))
        && record.subrange(9 + len, RECORD_SIZE as int) == zeros((LABEL_WIDTH - len) as nat) {
        Some(
            PoiView {
                label: decode_utf8(record.subrange(9, 9 + len)),
                latitude_fixed: from_twos_complement(from_le32(record.subrange(0, 4))),
                longitude_fixed: from_twos_complement(from_le32(record.subrange(4, 8))),
            },
        )
    } else {
        None
    }
}

/// The records that `bytes` hold, if `bytes` is a well-formed catalog.
pub open spec fn parse_catalog(bytes: Seq<u8>) -> Option<Seq<PoiView>> {
    match catalog_count(bytes) {
        Some(count) => if forall|n: int|
            0 <= n < count ==> (#[trigger] parse_record(record_at(bytes, n))) is Some {
            Some(Seq::new(count as nat, |n: int| parse_record(record_at(bytes, n))->0))
        } else {
            None
        },
        None => None,
    }
}

/// Reads two bytes, low byte first.
fn read_le16(bytes: &[u8], at: usize) -> (v: u16)
    requires
        at + 2 <= bytes@.len(),
    ensures
        v == from_le16(bytes@.subrange(at as int, at + 2)),
{
    bytes[at] as u16 + 0x100 * (bytes[at + 1] as u16)
}

/// Reads four bytes, low byte first, as a signed number in two's
/// complement.
fn read_i32(bytes: &[u8], at: usize) -> (v: i32)
    requires
        at + 4 <= bytes@.len(),
    ensures
        v == from_twos_complement(from_le32(bytes@.subrange(at as int, at + 4))),
{
    let u: u32 = bytes[at] as u32 + 0x100 * (bytes[at + 1] as u32) + 0x1_0000 * (bytes[at
        + 2] as u32) + 0x100_0000 * (bytes[at + 3] as u32);
    if u >= 0x8000_0000 {
        (u as i64 - 0x1_0000_0000) as i32
    } else {
        u as i32
    }
}

/// The number of records in a catalog, read from its header: `None` if
/// the bytes do not start with a header of this format or are not as
/// long as the header says.
pub fn record_count(catalog: &[u8]) -> (r: Option<u16>)
    ensures
        r == catalog_count(catalog@),
{
    if catalog.len() < HEADER_SIZE {
        return None;
    }
    let magic_ok = catalog[0] == 0x50 && catalog[1] == 0x4f && catalog[2] == 0x49 && catalog[3]
        == 0x43;
    proof {
        let head = catalog@.subrange(0, 4);
        if magic_ok {
            assert(head =~= magic());
        } else {
            assert(head[0] == catalog@[0] && head[1] == catalog@[1] && head[2] == catalog@[2]
                && head[3] == catalog@[3]);
        }
    }
    if !magic_ok {
        return None;
    }
    let version = read_le16(catalog, 4);
    proof {
        let field = catalog@.subrange(4, 6);
        if version == FORMAT_VERSION {
            assert(field =~= le16(FORMAT_VERSION));
        } else {
            assert(field[0] == catalog@[4] && field[1] == catalog@[5]);
        }
    }
    if version != FORMAT_VERSION {
        return None;
    }
    let count = read_le16(catalog, 6);
    if catalog.len() - HEADER_SIZE != RECORD_SIZE * (count as usize) {
        return None;
    }
    Some(count)
}

/// Calls `String::from_utf8`.
///
/// Not proved: that it accepts exactly the byte strings that are valid
/// UTF-8, and that the text it gives back is the one those bytes encode.
#[verifier::external_body]
fn text_from_utf8(bytes: Vec<u8>) -> (r: Option<String>)
    ensures
        r.is_some() <==> valid_utf8(bytes@),
        r matches Some(text) ==> text@ == decode_utf8(bytes@),
{
    String::from_utf8(bytes).ok()
}

/// Reads the record that starts at byte `at`.
fn decode_record(catalog: &[u8], at: usize) -> (r: Option<Poi>)
    requires
        at + RECORD_SIZE <= catalog@.len(),
    ensures
        match parse_record(catalog@.subrange(at as int, at + RECORD_SIZE)) {
            Some(poi) => r matches Some(read) && read@ == poi,
            None => r is None,
        },
{
    let ghost record = catalog@.subrange(at as int, at + RECORD_SIZE);
    assert(at + RECORD_SIZE <= catalog.len());
    let latitude_fixed = read_i32(catalog, at);
    let longitude_fixed = read_i32(catalog, at + 4);
    let len = catalog[at + 8] as usize;
    proof {
        assert(record.subrange(0, 4) =~= catalog@.subrange(at as int, at + 4));
        assert(record.subrange(4, 8) =~= catalog@.subrange(at + 4, at + 8));
        assert(record[8] == catalog@[at + 8]);
    }
    if len > LABEL_WIDTH {
        return None;
    }
    let mut text: Vec<u8> = Vec::new();
    let mut i: usize = 0;
    while i < len
        invariant
            i <= len <= LABEL_WIDTH,
            at + RECORD_SIZE <= catalog@.len() <= usize::MAX,
            record == catalog@.subrange(at as int, at + RECORD_SIZE),
            text@ == record.subrange(9, 9 + i),
        decreases len - i,
    {
        text.push(catalog[at + 9 + i]);
        assert(text@ =~= record.subrange(9, 9 + i + 1));
        i = i + 1;
    }
    let mut k: usize = len;
    while k < LABEL_WIDTH
        invariant
            len <= k <= LABEL_WIDTH,
            at + RECORD_SIZE <= catalog@.len() <= usize::MAX,
            record == catalog@.subrange(at as int, at + RECORD_SIZE),
            len == record[8],
            forall|j: int| 9 + len <= j < 9 + k ==> record[j] == 0,
        decreases LABEL_WIDTH - k,
    {
        if catalog[at + 9 + k] != 0 {
            proof {
                let padding = record.subrange(9 + len, RECORD_SIZE as int);
                assert(padding[k - len] == record[9 + k]);
                assert(zeros((LABEL_WIDTH - len) as nat)[k - len] == 0);
            }
            return None;
        }
        k = k + 1;
    }
    assert(record.subrange(9 + len, RECORD_SIZE as int) =~= zeros((LABEL_WIDTH - len) as nat));
    match text_from_utf8(text) {
        Some(label) => Some(Poi { label, latitude_fixed, longitude_fixed }),
        None => None,
    }
}

/// Reads a catalog back into its records, in order. Gives `None` for
/// bytes that are not a well-formed catalog.
pub fn decode_catalog(catalog: &[u8]) -> (r: Option<Vec<Poi>>)
    ensures
        match parse_catalog(catalog@) {
            Some(pois) => r matches Some(read) && poi_views(read@) == pois,
            None => r is None,
        },
{
    let count = match record_count(catalog) {
        Some(count) => count as usize,
        None => {
            return None;
        },
    };
    let mut pois: Vec<Poi> = Vec::new();
    let mut n: usize = 0;
    while n < count
        invariant
            n <= count,
            catalog_count(catalog@) == Some(count as u16),
            count <= u16::MAX,
            pois.len() == n,
            forall|j: int|
                0 <= j < n ==> (#[trigger] parse_record(record_at(catalog@, j))) == Some(
                    pois[j]@,
                ),
        decreases count - n,
    {
        assert(catalog@.len() == HEADER_SIZE + RECORD_SIZE * count);
        match decode_record(catalog, HEADER_SIZE + RECORD_SIZE * n) {
            Some(poi) => {
                pois.push(poi);
            },
            None => {
                assert(parse_record(record_at(catalog@, n as int)) is None);
                return None;
            },
        }
        n = n + 1;
    }
    proof {
        let parsed = Seq::new(count as nat, |j: int| parse_record(record_at(catalog@, j))->0);
        assert(parse_catalog(catalog@) == Some(parsed));
        assert(poi_views(pois@) =~= parsed);
    }
    Some(pois)
}

/// Reading the two bytes written for a number gives the number.
pub proof fn lemma_le16_read_written(v: u16)
    ensures
        from_le16(le16(v)) == v,
{
}

/// Writing the number read from two bytes gives the two bytes.
pub proof fn lemma_le16_write_read(b: Seq<u8>)
    requires
        b.len() == 2,
    ensures
        le16(from_le16(b)) == b,
{
    assert(le16(from_le16(b)) =~= b);
}

/// A number below two to the power 32 is the sum of its four base-256
/// digits, each with its weight.
proof fn lemma_digits_of(v: int)
    requires
        0 <= v < 0x1_0000_0000,
    ensures
        v == v % 256 + 0x100 * (v / 0x100 % 256) + 0x1_0000 * (v / 0x1_0000 % 256) + 0x100_0000
            * (v / 0x100_0000),
        0 <= v / 0x100_0000 < 256,
{
    let q1 = v / 0x100;
    let q2 = v / 0x1_0000;
    let q3 = v / 0x100_0000;
    assert(q2 == q1 / 0x100);
    assert(q3 == q2 / 0x100);
}

/// Four base-256 digits, each with its weight, sum to a number below
/// two to the power 32 that has exactly those digits.
proof fn lemma_number_of(d0: int, d1: int, d2: int, d3: int)
    requires
        0 <= d0 < 256,
        0 <= d1 < 256,
        0 <= d2 < 256,
        0 <= d3 < 256,
    ensures
        ({
            let v = d0 + 0x100 * d1 + 0x1_0000 * d2 + 0x100_0000 * d3;
            &&& 0 <= v < 0x1_0000_0000
            &&& v % 256 == d0
            &&& v / 0x100 % 256 == d1
            &&& v / 0x1_0000 % 256 == d2
            &&& v / 0x100_0000 == d3
        }),
{
    let v = d0 + 0x100 * d1 + 0x1_0000 * d2 + 0x100_0000 * d3;
    let q1 = d1 + 0x100 * d2 + 0x1_0000 * d3;
    let q2 = d2 + 0x100 * d3;
    assert(v == 0x100 * q1 + d0);
    assert(v / 0x100 == q1 && v % 0x100 == d0);
    assert(v == 0x1_0000 * q2 + (d0 + 0x100 * d1));
    assert(v / 0x1_0000 == q2);
    assert(q1 % 256 == d1);
    assert(q2 % 256 == d2);
    assert(v == 0x100_0000 * d3 + (d0 + 0x100 * d1 + 0x1_0000 * d2));
    assert(v / 0x100_0000 == d3);
}

/// Reading the four bytes written for a number gives the number, also
/// through two's complement.
pub proof fn lemma_le32_read_written(v: i32)
    ensures
        from_le32(le32(twos_complement(v))) == twos_complement(v),
        from_twos_complement(twos_complement(v)) == v,
{
    lemma_digits_of(twos_complement(v) as int);
}

/// Writing the number read from four bytes gives the four bytes, also
/// through two's complement.
pub proof fn lemma_le32_write_read(b: Seq<u8>)
    requires
        b.len() == 4,
    ensures
        le32(from_le32(b)) == b,
        twos_complement(from_twos_complement(from_le32(b))) == from_le32(b),
{
    lemma_number_of(b[0] as int, b[1] as int, b[2] as int, b[3] as int);
    assert(le32(from_le32(b)) =~= b);
}

/// A record's bytes parse back to the record.
pub proof fn lemma_record_round_trip(poi: PoiView)
    requires
        label_fits(poi),
    ensures
        parse_record(record_bytes(poi)) == Some(poi),
{
    broadcast use group_utf8_lib;

    let record = record_bytes(poi);
    let text = encode_utf8(poi.label);
    let len = text.len() as int;
    lemma_le32_read_written(poi.latitude_fixed);
    lemma_le32_read_written(poi.longitude_fixed);
    assert(record.subrange(0, 4) =~= le32(twos_complement(poi.latitude_fixed)));
    assert(record.subrange(4, 8) =~= le32(twos_complement(poi.longitude_fixed)));
    assert(record[8] == len);
    assert(record.subrange(9, 9 + len) =~= text);
    assert(record.subrange(9 + len, RECORD_SIZE as int) =~= zeros((LABEL_WIDTH - len) as nat));
    let parsed = parse_record(record)->0;
    assert(parsed.label == poi.label);
}

/// The bytes of a well-formed record are the bytes of the record they
/// parse to.
pub proof fn lemma_record_is_canonical(record: Seq<u8>)
    requires
        parse_record(record) is Some,
    ensures
        label_fits(parse_record(record)->0),
        record_bytes(parse_record(record)->0) == record,
{
    broadcast use group_utf8_lib;

    let poi = parse_record(record)->0;
    let len = record[8] as int;
    let text = record.subrange(9, 9 + len);
    decode_utf8_encode_utf8(text);
    lemma_le32_write_read(record.subrange(0, 4));
    lemma_le32_write_read(record.subrange(4, 8));
    assert(label_field(poi.label) =~= record.subrange(8, RECORD_SIZE as int));
    assert(record_bytes(poi) =~= record);
}

/// Decoding undoes encoding: the catalog of any records that can be
/// laid out parses back to those records, in the same order, and its
/// header gives their number.
pub proof fn law_decode_inverts_encode(pois: Seq<PoiView>)
    requires
        encode_fault(pois) is None,
    ensures
        catalog_count(catalog_bytes(pois)) == Some(pois.len() as u16),
        parse_catalog(catalog_bytes(pois)) == Some(pois),
{
    lemma_encode_fault(pois);
    lemma_catalog_layout(pois);
    let bytes = catalog_bytes(pois);
    let count = pois.len() as u16;
    lemma_le16_read_written(count);
    assert(catalog_count(bytes) == Some(count));
    assert forall|n: int| 0 <= n < count implies (#[trigger] parse_record(record_at(bytes, n)))
        == Some(pois[n]) by {
        lemma_record_round_trip(pois[n]);
    }
    assert(parse_catalog(bytes)->0 =~= pois);
}

/// The first `k` records of a well-formed catalog are the bytes that
/// follow its header.
proof fn lemma_records_prefix(bytes: Seq<u8>, k: int)
    requires
        parse_catalog(bytes) is Some,
        0 <= k <= parse_catalog(bytes)->0.len(),
    ensures
        records_bytes(parse_catalog(bytes)->0.take(k)) == bytes.subrange(
            HEADER_SIZE as int,
            HEADER_SIZE + RECORD_SIZE * k,
        ),
    decreases k,
{
    let pois = parse_catalog(bytes)->0;
    if k == 0 {
        assert(pois.take(0) =~= Seq::<PoiView>::empty());
        assert(bytes.subrange(HEADER_SIZE as int, HEADER_SIZE as int) =~= Seq::<u8>::empty());
    } else {
        lemma_records_prefix(bytes, k - 1);
        let front = pois.take(k);
        assert(front.drop_last() =~= pois.take(k - 1));
        assert(front.last() == pois[k - 1]);
        assert(parse_record(record_at(bytes, k - 1)) is Some);
        lemma_record_is_canonical(record_at(bytes, k - 1));
        assert(bytes.subrange(HEADER_SIZE as int, HEADER_SIZE + RECORD_SIZE * k)
            =~= bytes.subrange(HEADER_SIZE as int, HEADER_SIZE + RECORD_SIZE * (k - 1))
            + record_at(bytes, k - 1));
    }
}

/// Encoding undoes decoding: bytes that parse as a catalog are exactly
/// the catalog of the records they parse to. So no two byte strings
/// hold the same records.
pub proof fn law_encode_inverts_decode(bytes: Seq<u8>)
    requires
        parse_catalog(bytes) is Some,
    ensures
        encode_fault(parse_catalog(bytes)->0) is None,
        catalog_bytes(parse_catalog(bytes)->0) == bytes,
{
    let pois = parse_catalog(bytes)->0;
    let count = catalog_count(bytes)->0;
    assert(pois.len() == count);
    assert(all_labels_fit(pois)) by {
        assert forall|i: int| 0 <= i < pois.len() implies label_fits(#[trigger] pois[i]) by {
            assert(parse_record(record_at(bytes, i)) is Some);
            lemma_record_is_canonical(record_at(bytes, i));
        }
    }
    lemma_encode_fault(pois);
    lemma_records_prefix(bytes, pois.len() as int);
    assert(pois.take(pois.len() as int) =~= pois);
    lemma_le16_write_read(bytes.subrange(6, 8));
    assert(header_bytes(count) =~= bytes.subrange(0, HEADER_SIZE as int)) by {
        assert(bytes.subrange(0, HEADER_SIZE as int) =~= bytes.subrange(0, 4) + bytes.subrange(
            4,
            6,
        ) + bytes.subrange(6, 8));
    }
    assert(catalog_bytes(pois) =~= bytes);
}

} // verus!
