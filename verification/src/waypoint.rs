//! Waypoints: the named points read from a document.
use vstd::prelude::*;

verus! {

/// A named geographic point.
///
/// Angles and heights are carried as the bit patterns of IEEE 754
/// binary64 numbers, exactly as read, so that no precision is lost before
/// the one rounding step of the mapping.
#[derive(Debug, Clone, PartialEq, Eq)]
pub struct Waypoint {
    /// The label text, if the point has one.
    pub name: Option<String>,
    /// Latitude in degrees north, as a binary64 bit pattern.
    pub latitude: u64,
    /// Longitude in degrees east, as a binary64 bit pattern.
    pub longitude: u64,
    /// Height in metres, as a binary64 bit pattern, if recorded.
    pub elevation: Option<u64>,
    /// Nanoseconds since the Unix epoch, if recorded.
    pub timestamp: Option<i128>,
}

/// What a waypoint is, with its name as a sequence of characters.
pub struct WaypointView {
    pub name: Option<Seq<char>>,
    pub latitude: u64,
    pub longitude: u64,
    pub elevation: Option<u64>,
    pub timestamp: Option<i128>,
}

impl View for Waypoint {
    type V = WaypointView;

    open spec fn view(&self) -> WaypointView {
        WaypointView {
            name: match self.name {
                Some(text) => Some(text@),
                None => None,
            },
            latitude: self.latitude,
            longitude: self.longitude,
            elevation: self.elevation,
            timestamp: self.timestamp,
        }
    }
}

/// The views of a sequence of waypoints, in order.
pub open spec fn waypoint_views(waypoints: Seq<Waypoint>) -> Seq<WaypointView> {
    Seq::new(waypoints.len(), |i: int| waypoints[i]@)
}

} // verus!
