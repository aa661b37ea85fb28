//! Points of interest: the device's record, and the mapping from
//! waypoints to records.
//!
//! The mapping keeps the name, cut to the label width, and the two
//! coordinates, rounded to device units. Elevation and time are dropped:
//! the device has no place for them. A coordinate outside its range is
//! refused, never clamped.
use crate::error::{Axis, ConvError};
use crate::fixed::{latitude_units, longitude_units, scaled, within, LATITUDE_LIMIT, LONGITUDE_LIMIT};
use crate::label::{label_of, make_label, LABEL_WIDTH};
use crate::waypoint::{waypoint_views, Waypoint, WaypointView};
use vstd::prelude::*;
use vstd::utf8::*;

verus! {

/// One record of the device's catalog.
#[derive(Debug, Clone, PartialEq, Eq)]
pub struct Poi {
    /// The text shown for the point.
    pub label: String,
    /// Latitude in units of 1/10 000 000 degree, north positive.
    pub latitude_fixed: i32,
    /// Longitude in units of 1/10 000 000 degree, east positive.
    pub longitude_fixed: i32,
}

/// What a record is, with its label as a sequence of characters.
pub struct PoiView {
    pub label: Seq<char>,
    pub latitude_fixed: i32,
    pub longitude_fixed: i32,
}

impl View for Poi {
    type V = PoiView;

    open spec fn view(&self) -> PoiView {
        PoiView {
            label: self.label@,
            latitude_fixed: self.latitude_fixed,
            longitude_fixed: self.longitude_fixed,
        }
    }
}

/// The views of a sequence of records, in order.
pub open spec fn poi_views(pois: Seq<Poi>) -> Seq<PoiView> {
    Seq::new(pois.len(), |i: int| pois[i]@)
}

/// The coordinate of `w` that is out of range, latitude taking
/// precedence; `None` if both are in range.
pub open spec fn range_fault(w: WaypointView) -> Option<Axis> {
    if !within(w.latitude, LATITUDE_LIMIT as nat) {
        Some(Axis::Latitude)
    } else if !within(w.longitude, LONGITUDE_LIMIT as nat) {
        Some(Axis::Longitude)
    } else {
        None
    }
}

/// The record for a waypoint whose coordinates are in range.
pub open spec fn poi_of(w: WaypointView) -> PoiView
    recommends
        range_fault(w) is None,
{
    PoiView {
        label: label_of(w.name),
        latitude_fixed: scaled(w.latitude) as i32,
        longitude_fixed: scaled(w.longitude) as i32,
    }
}

/// The records for a sequence of waypoints, in the same order.
pub open spec fn pois_of(ws: Seq<WaypointView>) -> Seq<PoiView> {
    Seq::new(ws.len(), |i: int| poi_of(ws[i]))
}

/// The first waypoint at or after position `from` with a coordinate out
/// of range, and which coordinate it is.
pub open spec fn first_fault_from(ws: Seq<WaypointView>, from: int) -> Option<(int, Axis)>
    decreases ws.len() - from,
{
    if from < 0 || from >= ws.len() {
        None
    } else {
        match range_fault(ws[from]) {
            Some(axis) => Some((from, axis)),
            None => first_fault_from(ws, from + 1),
        }
    }
}

/// The first waypoint with a coordinate out of range, if there is one.
pub open spec fn first_fault(ws: Seq<WaypointView>) -> Option<(int, Axis)> {
    first_fault_from(ws, 0)
}

/// `first_fault` finds a fault exactly when there is one, and finds the
/// earliest.
pub proof fn lemma_first_fault(ws: Seq<WaypointView>)
    ensures
        first_fault(ws) is None <==> forall|i: int|
            0 <= i < ws.len() ==> range_fault(#[trigger] ws[i]) is None,
        first_fault(ws) matches Some((index, axis)) ==> {
            &&& 0 <= index < ws.len()
            &&& range_fault(ws[index]) == Some(axis)
            &&& forall|i: int| 0 <= i < index ==> range_fault(#[trigger] ws[i]) is None
        },
{
    lemma_first_fault_from(ws, 0);
}

proof fn lemma_first_fault_from(ws: Seq<WaypointView>, from: int)
    requires
        0 <= from <= ws.len(),
    ensures
        first_fault_from(ws, from) is None <==> forall|i: int|
            from <= i < ws.len() ==> range_fault(#[trigger] ws[i]) is None,
        first_fault_from(ws, from) matches Some((index, axis)) ==> {
            &&& from <= index < ws.len()
            &&& range_fault(ws[index]) == Some(axis)
            &&& forall|i: int| from <= i < index ==> range_fault(#[trigger] ws[i]) is None
        },
    decreases ws.len() - from,
{
    if from < ws.len() {
        if range_fault(ws[from]) is None {
            lemma_first_fault_from(ws, from + 1);
        }
    }
}

/// Maps one waypoint to its record, or reports which coordinate is out
/// of range.
pub fn map_waypoint(w: &Waypoint) -> (r: Result<Poi, Axis>)
    ensures
        match range_fault(w@) {
            None => r matches Ok(poi) && poi@ == poi_of(w@),
            Some(axis) => r == Err::<Poi, Axis>(axis),
        },
        r matches Ok(poi) ==> encode_utf8(poi.label@).len() <= LABEL_WIDTH,
{
    let latitude_fixed = match latitude_units(w.latitude) {
        Some(units) => units,
        None => {
            return Err(Axis::Latitude);
        },
    };
    let longitude_fixed = match longitude_units(w.longitude) {
        Some(units) => units,
        None => {
            return Err(Axis::Longitude);
        },
    };
    Ok(Poi { label: make_label(&w.name), latitude_fixed, longitude_fixed })
}

/// Maps every waypoint to its record, keeping the order. The first
/// waypoint with a coordinate out of range stops the mapping.
pub fn map_waypoints(waypoints: &Vec<Waypoint>) -> (r: Result<Vec<Poi>, ConvError>)
    ensures
        match first_fault(waypoint_views(waypoints@)) {
            None => r matches Ok(pois) && poi_views(pois@) == pois_of(waypoint_views(waypoints@)),
            Some((index, axis)) => r == Err::<Vec<Poi>, ConvError>(
                ConvError::RangeError { index: index as usize, axis },
            ),
        },
        r matches Ok(pois) ==> forall|i: int|
            0 <= i < pois.len() ==> encode_utf8(#[trigger] pois[i].label@).len() <= LABEL_WIDTH,
{
    let ghost ws = waypoint_views(waypoints@);
    let mut pois: Vec<Poi> = Vec::new();
    let mut i: usize = 0;
    while i < waypoints.len()
        invariant
            ws == waypoint_views(waypoints@),
            i <= waypoints.len(),
            pois.len() == i,
            first_fault(ws) == first_fault_from(ws, i as int),
            forall|j: int| 0 <= j < i ==> (#[trigger] pois[j])@ == poi_of(ws[j]),
            forall|j: int| 0 <= j < i ==> encode_utf8(#[trigger] pois[j].label@).len() <= LABEL_WIDTH,
        decreases waypoints.len() - i,
    {
        assert(ws[i as int] == waypoints[i as int]@);
        match map_waypoint(&waypoints[i]) {
            Ok(poi) => {
                pois.push(poi);
            },
            Err(axis) => {
                return Err(ConvError::RangeError { index: i, axis });
            },
        }
        i = i + 1;
    }
    assert(poi_views(pois@) =~= pois_of(ws));
    Ok(pois)
}

} // verus!
