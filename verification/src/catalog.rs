//! The catalog: the binary file the device loads.
//!
//! All integers are little-endian. A catalog is an eight-byte header
//! followed by the records, forty bytes each, in order:
//!
//! | offset | size | header field                         |
//! |--------|------|--------------------------------------|
//! | 0      | 4    | the bytes `50 4F 49 43` ("POIC")     |
//! | 4      | 2    | format version, 1                    |
//! | 6      | 2    | number of records                    |
//!
//! | offset | size | record field                                   |
//! |--------|------|------------------------------------------------|
//! | 0      | 4    | latitude, signed, units of 1/10 000 000 degree |
//! | 4      | 4    | longitude, likewise                            |
//! | 8      | 1    | number of label bytes, at most 31              |
//! | 9      | 31   | the label in UTF-8, then zero bytes            |
use crate::error::{ConvError, EncodeFault};
use crate::label::LABEL_WIDTH;
use crate::poi::{poi_views, Poi, PoiView};
use vstd::prelude::*;
use vstd::utf8::*;

verus! {

/// The version of the layout written into the header.
pub const FORMAT_VERSION: u16 = 1;

/// Bytes in the header.
pub const HEADER_SIZE: usize = 8;

/// Bytes in one record.
pub const RECORD_SIZE: usize = 40;

/// The most records the header's count field can express.
pub const MAX_RECORDS: usize = 65535;

/// The four bytes every catalog starts with.
pub open spec fn magic() -> Seq<u8> {
    seq![0x50u8, 0x4fu8, 0x49u8, 0x43u8]
}

/// The two bytes of `v`, low byte first.
pub open spec fn le16(v: u16) -> Seq<u8> {
    seq![(v % 256) as u8, (v / 256) as u8]
}

/// The four bytes of `v`, low byte first.
pub open spec fn le32(v: u32) -> Seq<u8> {
    seq![
        (v % 256) as u8,
        (v / 0x100 % 256) as u8,
        (v / 0x1_0000 % 256) as u8,
        (v / 0x100_0000) as u8,
    ]
}

/// The unsigned number with the same thirty-two bits as `v` in two's
/// complement.
pub open spec fn twos_complement(v: i32) -> u32 {
    if v < 0 {
        (v + 0x1_0000_0000) as u32
    } else {
        v as u32
    }
}

/// `n` zero bytes.
pub open spec fn zeros(n: nat) -> Seq<u8> {
    Seq::new(n, |i: int| 0u8)
}

/// The thirty-two bytes of a label field: the length of the text, the
/// text, and zero bytes up to the field's width.
pub open spec fn label_field(label: Seq<char>) -> Seq<u8>
    recommends
        encode_utf8(label).len() <= LABEL_WIDTH,
{
    let text = encode_utf8(label);
    seq![text.len() as u8] + text + zeros((LABEL_WIDTH - text.len()) as nat)
}

/// The forty bytes of one record.
pub open spec fn record_bytes(poi: PoiView) -> Seq<u8>
    recommends
        encode_utf8(poi.label).len() <= LABEL_WIDTH,
{
    le32(twos_complement(poi.latitude_fixed)) + le32(twos_complement(poi.longitude_fixed)) + label_field(
        poi.label,
    )
}

/// The records one after another, in order.
pub open spec fn records_bytes(pois: Seq<PoiView>) -> Seq<u8>
    decreases pois.len(),
{
    if pois.len() == 0 {
        Seq::empty()
    } else {
        records_bytes(pois.drop_last()) + record_bytes(pois.last())
    }
}

/// The eight bytes of the header of a catalog of `count` records.
pub open spec fn header_bytes(count: u16) -> Seq<u8> {
    magic() + le16(FORMAT_VERSION) + le16(count)
}

/// The whole catalog for the given records.
pub open spec fn catalog_bytes(pois: Seq<PoiView>) -> Seq<u8>
    recommends
        pois.len() <= MAX_RECORDS,
{
    header_bytes(pois.len() as u16) + records_bytes(pois)
}

/// Whether the record's label fits the label field.
pub open spec fn label_fits(poi: PoiView) -> bool {
    encode_utf8(poi.label).len() <= LABEL_WIDTH
}

/// The first record at or after position `from` whose label does not fit.
pub open spec fn first_wide_label_from(pois: Seq<PoiView>, from: int) -> Option<int>
    decreases pois.len() - from,
{
    if from < 0 || from >= pois.len() {
        None
    } else if !label_fits(pois[from]) {
        Some(from)
    } else {
        first_wide_label_from(pois, from + 1)
    }
}

/// Why the records cannot be laid out, if they cannot: too many of them,
/// or else the first label that is too wide.
pub open spec fn encode_fault(pois: Seq<PoiView>) -> Option<EncodeFault> {
    if pois.len() > MAX_RECORDS {
        Some(EncodeFault::TooManyRecords { count: pois.len() as usize })
    } else {
        match first_wide_label_from(pois, 0) {
            Some(index) => Some(EncodeFault::LabelTooLong { index: index as usize }),
            None => None,
        }
    }
}

/// Appends the two bytes of `v`, low byte first.
fn push_le16(out: &mut Vec<u8>, v: u16)
    ensures
        final(out)@ == old(out)@ + le16(v),
{
    out.push((v % 256) as u8);
    out.push((v / 256) as u8);
    assert(out@ =~= old(out)@ + le16(v));
}

/// Appends the four bytes of `v` in two's complement, low byte first.
fn push_i32(out: &mut Vec<u8>, v: i32)
    ensures
        final(out)@ == old(out)@ + le32(twos_complement(v)),
{
    let u: u32 = if v < 0 {
        (v as i64 + 0x1_0000_0000) as u32
    } else {
        v as u32
    };
    out.push((u % 256) as u8);
    out.push((u / 0x100 % 256) as u8);
    out.push((u / 0x1_0000 % 256) as u8);
    out.push((u / 0x100_0000) as u8);
    assert(out@ =~= old(out)@ + le32(twos_complement(v)));
}

/// Appends the label field for `label`.
fn push_label(out: &mut Vec<u8>, label: &str)
    requires
        encode_utf8(label@).len() <= LABEL_WIDTH,
    ensures
        final(out)@ == old(out)@ + label_field(label@),
{
    let text = label.as_bytes();
    let n = text.len();
    out.push(n as u8);
    let mut i: usize = 0;
    while i < n
        invariant
            i <= n == text@.len() <= LABEL_WIDTH,
            out@ == old(out)@ + seq![n as u8] + text@.take(i as int),
        decreases n - i,
    {
        out.push(text[i]);
        assert(out@ =~= old(out)@ + seq![n as u8] + text@.take(i + 1));
        i = i + 1;
    }
    assert(text@.take(n as int) =~= text@);
    let mut k: usize = n;
    while k < LABEL_WIDTH
        invariant
            n <= k <= LABEL_WIDTH,
            out@ == old(out)@ + seq![n as u8] + text@ + zeros((k - n) as nat),
        decreases LABEL_WIDTH - k,
    {
        out.push(0);
        assert(out@ =~= old(out)@ + seq![n as u8] + text@ + zeros((k + 1 - n) as nat));
        k = k + 1;
    }
    assert(out@ =~= old(out)@ + label_field(label@));
}

/// Appends the bytes of one record.
fn push_record(out: &mut Vec<u8>, poi: &Poi)
    requires
        label_fits(poi@),
    ensures
        final(out)@ == old(out)@ + record_bytes(poi@),
{
    push_i32(out, poi.latitude_fixed);
    push_i32(out, poi.longitude_fixed);
    push_label(out, poi.label.as_str());
    assert(out@ =~= old(out)@ + record_bytes(poi@));
}

/// Lays the records out as a catalog.
///
/// Fails, writing nothing, if there are more than [`MAX_RECORDS`]
/// records or if a label is wider than the label field.
pub fn encode_catalog(pois: &Vec<Poi>) -> (r: Result<Vec<u8>, ConvError>)
    ensures
        match encode_fault(poi_views(pois@)) {
            None => r matches Ok(bytes) && bytes@ == catalog_bytes(poi_views(pois@)),
            Some(fault) => r == Err::<Vec<u8>, ConvError>(ConvError::EncodeError { fault }),
        },
{
    let ghost views = poi_views(pois@);
    let n = pois.len();
    if n > MAX_RECORDS {
        return Err(ConvError::EncodeError { fault: EncodeFault::TooManyRecords { count: n } });
    }
    let mut out: Vec<u8> = Vec::new();
    out.push(0x50);
    out.push(0x4f);
    out.push(0x49);
    out.push(0x43);
    push_le16(&mut out, FORMAT_VERSION);
    push_le16(&mut out, n as u16);
    assert(out@ =~= header_bytes(n as u16));
    assert(views.take(0) =~= Seq::<PoiView>::empty());
    let mut i: usize = 0;
    while i < n
        invariant
            views == poi_views(pois@),
            i <= n == pois.len() <= MAX_RECORDS,
            out@ == header_bytes(n as u16) + records_bytes(views.take(i as int)),
            first_wide_label_from(views, 0) == first_wide_label_from(views, i as int),
        decreases n - i,
    {
        assert(views[i as int] == pois[i as int]@);
        if pois[i].label.as_str().as_bytes().len() > LABEL_WIDTH {
            return Err(ConvError::EncodeError { fault: EncodeFault::LabelTooLong { index: i } });
        }
        push_record(&mut out, &pois[i]);
        proof {
            let next = views.take(i + 1);
            assert(next.drop_last() =~= views.take(i as int));
            assert(next.last() == views[i as int]);
            assert(out@ =~= header_bytes(n as u16) + records_bytes(next));
        }
        i = i + 1;
    }
    assert(views.take(n as int) =~= views);
    Ok(out)
}

/// Whether every label fits the label field.
pub open spec fn all_labels_fit(pois: Seq<PoiView>) -> bool {
    forall|i: int| 0 <= i < pois.len() ==> label_fits(#[trigger] pois[i])
}

/// `first_wide_label_from` finds nothing exactly when every label from
/// `from` on fits, and otherwise finds the earliest that does not.
pub proof fn lemma_first_wide_label(pois: Seq<PoiView>, from: int)
    requires
        0 <= from <= pois.len(),
    ensures
        first_wide_label_from(pois, from) is None <==> forall|i: int|
            from <= i < pois.len() ==> label_fits(#[trigger] pois[i]),
        first_wide_label_from(pois, from) matches Some(index) ==> {
            &&& from <= index < pois.len()
            &&& !label_fits(pois[index])
            &&& forall|i: int| from <= i < index ==> label_fits(#[trigger] pois[i])
        },
    decreases pois.len() - from,
{
    if from < pois.len() && label_fits(pois[from]) {
        lemma_first_wide_label(pois, from + 1);
    }
}

/// The records can be laid out exactly when there are no more than
/// [`MAX_RECORDS`] of them and every label fits.
pub proof fn lemma_encode_fault(pois: Seq<PoiView>)
    ensures
        encode_fault(pois) is None <==> pois.len() <= MAX_RECORDS && all_labels_fit(pois),
{
    lemma_first_wide_label(pois, 0);
}

/// A record takes exactly [`RECORD_SIZE`] bytes, whatever its label.
pub proof fn lemma_record_size(poi: PoiView)
    requires
        label_fits(poi),
    ensures
        record_bytes(poi).len() == RECORD_SIZE,
        label_field(poi.label).len() == LABEL_WIDTH + 1,
{
}

/// The records take [`RECORD_SIZE`] bytes each, and the `n`th of them
/// stands at the `n`th place.
pub proof fn lemma_records_layout(pois: Seq<PoiView>)
    requires
        all_labels_fit(pois),
    ensures
        records_bytes(pois).len() == RECORD_SIZE * pois.len(),
        forall|n: int|
            0 <= n < pois.len() ==> #[trigger] records_bytes(pois).subrange(
                RECORD_SIZE * n,
                RECORD_SIZE * n + RECORD_SIZE,
            ) == record_bytes(pois[n]),
    decreases pois.len(),
{
    if pois.len() > 0 {
        let front = pois.drop_last();
        let last = pois.len() - 1;
        assert(all_labels_fit(front)) by {
            assert forall|i: int| 0 <= i < front.len() implies label_fits(#[trigger] front[i]) by {
                assert(front[i] == pois[i]);
            }
        }
        lemma_records_layout(front);
        lemma_record_size(pois.last());
        let all = records_bytes(pois);
        assert forall|n: int| 0 <= n < pois.len() implies #[trigger] all.subrange(
            RECORD_SIZE * n,
            RECORD_SIZE * n + RECORD_SIZE,
        ) == record_bytes(pois[n]) by {
            if n < last {
                assert(front[n] == pois[n]);
                assert(all.subrange(RECORD_SIZE * n, RECORD_SIZE * n + RECORD_SIZE)
                    =~= records_bytes(front).subrange(
                    RECORD_SIZE * n,
                    RECORD_SIZE * n + RECORD_SIZE,
                ));
            } else {
                assert(all.subrange(RECORD_SIZE * n, RECORD_SIZE * n + RECORD_SIZE)
                    =~= record_bytes(pois.last()));
            }
        }
    }
}

/// How a catalog is laid out: the header with the number of records in
/// its count field, then the records in order, the `n`th at offset
/// `HEADER_SIZE + RECORD_SIZE * n`.
pub proof fn lemma_catalog_layout(pois: Seq<PoiView>)
    requires
        encode_fault(pois) is None,
    ensures
        catalog_bytes(pois).len() == HEADER_SIZE + RECORD_SIZE * pois.len(),
        catalog_bytes(pois).subrange(0, HEADER_SIZE as int) == header_bytes(pois.len() as u16),
        catalog_bytes(pois).subrange(0, 4) == magic(),
        catalog_bytes(pois).subrange(4, 6) == le16(FORMAT_VERSION),
        catalog_bytes(pois).subrange(6, 8) == le16(pois.len() as u16),
        forall|n: int|
            0 <= n < pois.len() ==> #[trigger] catalog_bytes(pois).subrange(
                HEADER_SIZE + RECORD_SIZE * n,
                HEADER_SIZE + RECORD_SIZE * n + RECORD_SIZE,
            ) == record_bytes(pois[n]),
{
    lemma_encode_fault(pois);
    lemma_records_layout(pois);
    let all = catalog_bytes(pois);
    let header = header_bytes(pois.len() as u16);
    let records = records_bytes(pois);
    assert(header.len() == 8);
    assert(all.subrange(0, HEADER_SIZE as int) =~= header);
    assert(all.subrange(0, 4) =~= magic());
    assert(all.subrange(4, 6) =~= le16(FORMAT_VERSION));
    assert(all.subrange(6, 8) =~= le16(pois.len() as u16));
    assert forall|n: int| 0 <= n < pois.len() implies #[trigger] all.subrange(
        HEADER_SIZE + RECORD_SIZE * n,
        HEADER_SIZE + RECORD_SIZE * n + RECORD_SIZE,
    ) == record_bytes(pois[n]) by {
        assert(records.subrange(RECORD_SIZE * n, RECORD_SIZE * n + RECORD_SIZE) == record_bytes(
            pois[n],
        ));
        assert(all.subrange(
            HEADER_SIZE + RECORD_SIZE * n,
            HEADER_SIZE + RECORD_SIZE * n + RECORD_SIZE,
        ) =~= records.subrange(RECORD_SIZE * n, RECORD_SIZE * n + RECORD_SIZE));
    }
}

} // verus!
