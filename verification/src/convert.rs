//! The whole conversion: waypoints in, catalog out.
//!
//! The stages run one after the other, each on the complete output of
//! the one before: every waypoint is mapped before any record is laid
//! out. The first failure ends the conversion and no catalog is
//! produced.
use crate::catalog::{
    all_labels_fit, catalog_bytes, encode_catalog, encode_fault, header_bytes, label_field,
    lemma_catalog_layout, lemma_encode_fault, record_bytes, HEADER_SIZE, MAX_RECORDS, RECORD_SIZE,
};
use crate::error::{ConvError, EncodeFault};
use crate::label::{cut_point, lemma_truncated, truncated, LABEL_WIDTH};
use crate::poi::{first_fault, lemma_first_fault, map_waypoints, poi_of, pois_of, range_fault};
use crate::waypoint::{waypoint_views, Waypoint, WaypointView};
use vstd::prelude::*;
use vstd::utf8::*;

verus! {

/// What converting the waypoints `ws` gives: the catalog of their
/// records, or the first failure. A coordinate out of range is found
/// before any fault of layout.
pub open spec fn conversion(ws: Seq<WaypointView>) -> Result<Seq<u8>, ConvError> {
    match first_fault(ws) {
        Some((index, axis)) => Err(ConvError::RangeError { index: index as usize, axis }),
        None => match encode_fault(pois_of(ws)) {
            Some(fault) => Err(ConvError::EncodeError { fault }),
            None => Ok(catalog_bytes(pois_of(ws))),
        },
    }
}

/// A result with its bytes as a sequence.
pub open spec fn outcome(r: Result<Vec<u8>, ConvError>) -> Result<Seq<u8>, ConvError> {
    match r {
        Ok(bytes) => Ok(bytes@),
        Err(error) => Err(error),
    }
}

/// Converts waypoints to a catalog: maps them to records and lays the
/// records out.
pub fn convert_waypoints(waypoints: &Vec<Waypoint>) -> (r: Result<Vec<u8>, ConvError>)
    ensures
        outcome(r) == conversion(waypoint_views(waypoints@)),
{
    match map_waypoints(waypoints) {
        Ok(pois) => encode_catalog(&pois),
        Err(error) => Err(error),
    }
}

/// Mapped records always fit the label field: the mapping cuts every
/// name to the label width.
pub proof fn lemma_mapped_labels_fit(ws: Seq<WaypointView>)
    ensures
        all_labels_fit(pois_of(ws)),
{
    assert forall|i: int| 0 <= i < ws.len() implies encode_utf8(
        (#[trigger] pois_of(ws)[i]).label,
    ).len() <= LABEL_WIDTH by {
        match ws[i].name {
            Some(text) => {
                lemma_truncated(text);
            },
            None => {},
        }
    }
}

/// When a conversion succeeds and how it fails: it succeeds exactly
/// when every coordinate is in range and there are no more than
/// [`MAX_RECORDS`] waypoints; a coordinate out of range gives a
/// `RangeError`, and too many waypoints, all in range, an `EncodeError`.
pub proof fn lemma_conversion_cases(ws: Seq<WaypointView>)
    ensures
        conversion(ws) is Ok <==> first_fault(ws) is None && ws.len() <= MAX_RECORDS,
        first_fault(ws) is Some ==> conversion(ws) matches Err(ConvError::RangeError { .. }),
        first_fault(ws) is None && ws.len() > MAX_RECORDS ==> conversion(ws) == Err::<
            Seq<u8>,
            ConvError,
        >(
            ConvError::EncodeError {
                fault: EncodeFault::TooManyRecords { count: ws.len() as usize },
            },
        ),
{
    lemma_mapped_labels_fit(ws);
    lemma_encode_fault(pois_of(ws));
}

/// Converting the same waypoints twice gives the same outcome, byte for
/// byte: whatever two conversions return for waypoints that are alike
/// in every field, the two results are equal.
pub proof fn law_same_waypoints_same_catalog(
    first_input: Seq<Waypoint>,
    second_input: Seq<Waypoint>,
    first: Result<Seq<u8>, ConvError>,
    second: Result<Seq<u8>, ConvError>,
)
    requires
        waypoint_views(first_input) == waypoint_views(second_input),
        first == conversion(waypoint_views(first_input)),
        second == conversion(waypoint_views(second_input)),
    ensures
        first == second,
{
}

/// A catalog comes out only of waypoints whose every coordinate is in
/// range, and of no more than [`MAX_RECORDS`] of them. Anything else
/// fails, and gives no catalog.
pub proof fn law_catalog_only_from_valid_input(ws: Seq<WaypointView>)
    requires
        conversion(ws) is Ok,
    ensures
        ws.len() <= MAX_RECORDS,
        forall|i: int| 0 <= i < ws.len() ==> range_fault(#[trigger] ws[i]) is None,
        conversion(ws) == Ok::<Seq<u8>, ConvError>(catalog_bytes(pois_of(ws))),
{
    lemma_conversion_cases(ws);
    lemma_first_fault(ws);
}

/// The record of a waypoint depends on its name and its two coordinates
/// alone: elevation and time are not carried into the catalog.
pub proof fn law_record_ignores_elevation_and_time(a: WaypointView, b: WaypointView)
    requires
        a.name == b.name,
        a.latitude == b.latitude,
        a.longitude == b.longitude,
    ensures
        range_fault(a) == range_fault(b),
        poi_of(a) == poi_of(b),
{
}

/// The records of a catalog stand in the order of the waypoints: the
/// `n`th record in the catalog is the record of the `n`th waypoint, and
/// the count field holds the number of waypoints. This is said of
/// waypoints that convert, that is, by [`lemma_conversion_cases`], of
/// no more than [`MAX_RECORDS`] waypoints with every coordinate in
/// range.
pub proof fn law_order_preserved(ws: Seq<WaypointView>, n: int)
    requires
        conversion(ws) is Ok,
        0 <= n < ws.len(),
    ensures
        conversion(ws)->Ok_0.len() == HEADER_SIZE + RECORD_SIZE * ws.len(),
        conversion(ws)->Ok_0.subrange(0, HEADER_SIZE as int) == header_bytes(ws.len() as u16),
        conversion(ws)->Ok_0.subrange(
            HEADER_SIZE + RECORD_SIZE * n,
            HEADER_SIZE + RECORD_SIZE * n + RECORD_SIZE,
        ) == record_bytes(poi_of(ws[n])),
{
    lemma_catalog_layout(pois_of(ws));
}

/// A waypoint whose latitude is outside -90 to 90 degrees, or whose
/// longitude is outside -180 to 180, makes the whole conversion fail
/// with a `RangeError` that names it or an earlier such waypoint; no
/// catalog is produced. (The waypoints are as many as a `Vec` can hold.)
pub proof fn law_out_of_range_fails(ws: Seq<WaypointView>, i: int)
    requires
        ws.len() <= usize::MAX,
        0 <= i < ws.len(),
        range_fault(ws[i]) is Some,
    ensures
        conversion(ws) matches Err(ConvError::RangeError { index, axis }) && index <= i
            && range_fault(ws[index as int]) == Some(axis),
{
    lemma_first_fault(ws);
}

/// A name wider than the label field appears in the catalog cut at the
/// last character boundary within the width. The label field of the
/// record holds the length of the cut text, then the cut text, which is
/// a prefix of the name's encoding, then zero bytes. The cut text
/// misses the full width by less than one character, and fills it
/// exactly where a character ends there. This is said of waypoints that
/// convert, that is, by [`lemma_conversion_cases`], of no more than
/// [`MAX_RECORDS`] waypoints with every coordinate in range.
pub proof fn law_long_name_is_truncated(ws: Seq<WaypointView>, n: int, name: Seq<char>)
    requires
        conversion(ws) is Ok,
        0 <= n < ws.len(),
        ws[n].name == Some(name),
        encode_utf8(name).len() > LABEL_WIDTH,
    ensures
        ({
            let at = HEADER_SIZE + RECORD_SIZE * n + 8;
            let bytes = conversion(ws)->Ok_0;
            let cut = cut_point(encode_utf8(name));
            &&& bytes.subrange(at, at + 1 + LABEL_WIDTH) == label_field(truncated(name))
            &&& LABEL_WIDTH - 3 <= cut <= LABEL_WIDTH
            &&& is_char_boundary(encode_utf8(name), cut)
            &&& is_char_boundary(encode_utf8(name), LABEL_WIDTH as int) ==> cut == LABEL_WIDTH
            &&& bytes[at] == cut
            &&& bytes.subrange(at + 1, at + 1 + cut) == encode_utf8(name).subrange(0, cut)
            &&& valid_utf8(bytes.subrange(at + 1, at + 1 + cut))
            &&& forall|k: int| at + 1 + cut <= k < at + 1 + LABEL_WIDTH ==> bytes[k] == 0
        }),
{
    broadcast use group_utf8_lib;

    lemma_catalog_layout(pois_of(ws));
    lemma_truncated(name);
    crate::label::lemma_floor_boundary(encode_utf8(name), LABEL_WIDTH as int);
    let at = HEADER_SIZE + RECORD_SIZE * n + 8;
    let bytes = conversion(ws)->Ok_0;
    let cut = cut_point(encode_utf8(name));
    let record = record_bytes(poi_of(ws[n]));
    let field = label_field(truncated(name));
    assert(record == bytes.subrange(
        HEADER_SIZE + RECORD_SIZE * n,
        HEADER_SIZE + RECORD_SIZE * n + RECORD_SIZE,
    ));
    assert(bytes.subrange(at, at + 1 + LABEL_WIDTH) =~= record.subrange(8, 40));
    assert(record.subrange(8, 40) =~= field);
    assert(bytes[at] == field[0]);
    assert(bytes.subrange(at + 1, at + 1 + cut) =~= field.subrange(1, 1 + cut));
    assert(field.subrange(1, 1 + cut) =~= encode_utf8(truncated(name)));
    assert forall|k: int| at + 1 + cut <= k < at + 1 + LABEL_WIDTH implies bytes[k] == 0 by {
        assert(bytes[k] == field[k - at]);
    }
}

/// No waypoints give a catalog all the same: the header alone, with a
/// count of zero.
pub proof fn law_empty_input(ws: Seq<WaypointView>)
    requires
        ws.len() == 0,
    ensures
        conversion(ws) == Ok::<Seq<u8>, ConvError>(header_bytes(0)),
        header_bytes(0) == seq![0x50u8, 0x4fu8, 0x49u8, 0x43u8, 1u8, 0u8, 0u8, 0u8],
{
    lemma_conversion_cases(ws);
    assert(pois_of(ws) =~= Seq::<crate::poi::PoiView>::empty());
    assert(catalog_bytes(pois_of(ws)) =~= header_bytes(0));
    assert(header_bytes(0) =~= seq![0x50u8, 0x4fu8, 0x49u8, 0x43u8, 1u8, 0u8, 0u8, 0u8]);
}

} // verus!
