use poi_catalog::catalog::{encode_catalog, HEADER_SIZE, RECORD_SIZE};
use poi_catalog::convert::convert_waypoints;
use poi_catalog::decode::{decode_catalog, record_count};
use poi_catalog::error::{Axis, ConvError, EncodeFault};
use poi_catalog::poi::{map_waypoints, Poi};
use poi_catalog::waypoint::Waypoint;

fn point(name: Option<&str>, latitude: f64, longitude: f64) -> Waypoint {
    Waypoint {
        name: name.map(|n| n.to_string()),
        latitude: latitude.to_bits(),
        longitude: longitude.to_bits(),
        elevation: None,
        timestamp: None,
    }
}

fn record(label: &str, latitude_fixed: i32, longitude_fixed: i32) -> Poi {
    Poi { label: label.to_string(), latitude_fixed, longitude_fixed }
}

fn count_of(catalog: &[u8]) -> usize {
    u16::from_le_bytes([catalog[6], catalog[7]]) as usize
}

fn coordinates_of(catalog: &[u8], n: usize) -> (i32, i32) {
    let at = HEADER_SIZE + RECORD_SIZE * n;
    let lat = i32::from_le_bytes([catalog[at], catalog[at + 1], catalog[at + 2], catalog[at + 3]]);
    let lon =
        i32::from_le_bytes([catalog[at + 4], catalog[at + 5], catalog[at + 6], catalog[at + 7]]);
    (lat, lon)
}

fn text_of(catalog: &[u8], n: usize) -> Vec<u8> {
    let at = HEADER_SIZE + RECORD_SIZE * n + 8;
    let len = catalog[at] as usize;
    catalog[at + 1..at + 1 + len].to_vec()
}

#[test]
fn one_waypoint_gives_one_record() {
    let catalog = convert_waypoints(&vec![point(Some("Cafe"), 48.8566, 2.3522)]).unwrap();
    assert_eq!(catalog.len(), 48);
    assert_eq!(&catalog[0..4], b"POIC");
    assert_eq!(&catalog[4..6], &[1, 0]);
    assert_eq!(count_of(&catalog), 1);
    assert_eq!(record_count(&catalog), Some(1));
    let (lat, lon) = coordinates_of(&catalog, 0);
    assert_eq!(lat, 488_566_000);
    assert_eq!(lon, 23_522_000);
    assert!((lat as f64 / 1e7 - 48.8566).abs() <= 0.5e-7);
    assert!((lon as f64 / 1e7 - 2.3522).abs() <= 0.5e-7);
    assert_eq!(text_of(&catalog, 0), b"Cafe".to_vec());
    assert_eq!(decode_catalog(&catalog), Some(vec![record("Cafe", 488_566_000, 23_522_000)]));
}

#[test]
fn no_waypoints_gives_empty_catalog() {
    let catalog = convert_waypoints(&Vec::new()).unwrap();
    assert_eq!(catalog, vec![0x50, 0x4f, 0x49, 0x43, 1, 0, 0, 0]);
    assert_eq!(count_of(&catalog), 0);
    assert_eq!(record_count(&catalog), Some(0));
}

#[test]
fn records_follow_the_order_of_the_waypoints() {
    let ws = vec![
        point(Some("one"), 1.0, 10.0),
        point(Some("two"), 2.0, 20.0),
        point(None, -33.8688, 151.2093),
        point(Some("four"), 35.6762, 139.6503),
    ];
    let catalog = convert_waypoints(&ws).unwrap();
    assert_eq!(count_of(&catalog), 4);
    assert_eq!(
        decode_catalog(&catalog),
        Some(vec![
            record("one", 10_000_000, 100_000_000),
            record("two", 20_000_000, 200_000_000),
            record("", -338_688_000, 1_512_093_000),
            record("four", 356_762_000, 1_396_503_000),
        ])
    );
    for (n, w) in ws.iter().enumerate() {
        let alone = convert_waypoints(&vec![w.clone()]).unwrap();
        let at = HEADER_SIZE + RECORD_SIZE * n;
        assert_eq!(&catalog[at..at + RECORD_SIZE], &alone[HEADER_SIZE..]);
    }
}

#[test]
fn same_waypoints_convert_to_the_same_catalog() {
    let ws = vec![point(Some("Cafe"), 48.8566, 2.3522), point(None, -33.8688, 151.2093)];
    let copy = ws.clone();
    let first = convert_waypoints(&ws).unwrap();
    let second = convert_waypoints(&ws).unwrap();
    let third = convert_waypoints(&copy).unwrap();
    assert_eq!(first, second);
    assert_eq!(first, third);
    let bad = vec![point(None, 1.0, 2.0), point(None, 1.0, 200.0)];
    assert_eq!(convert_waypoints(&bad), convert_waypoints(&bad.clone()));
}

#[test]
fn conversion_is_mapping_then_encoding() {
    let ws = vec![point(Some("a"), 12.3456789, -77.0365), point(Some("b"), 0.0, 0.0)];
    let pois = map_waypoints(&ws).unwrap();
    assert_eq!(convert_waypoints(&ws), encode_catalog(&pois));
}

#[test]
fn elevation_and_time_are_not_carried() {
    let bare = point(Some("peak"), 46.5, 8.0);
    let mut full = bare.clone();
    full.elevation = Some(4478.0f64.to_bits());
    full.timestamp = Some(1_653_251_814_804_000_000);
    assert_eq!(convert_waypoints(&vec![bare]), convert_waypoints(&vec![full]));
}

#[test]
fn long_name_is_truncated_in_the_catalog() {
    let ws = vec![
        point(Some("A very long waypoint name that does not fit"), 35.6762, 139.6503),
        point(Some(&format!("{}\u{e9}", "a".repeat(30))), 0.0, 0.0),
    ];
    let catalog = convert_waypoints(&ws).unwrap();
    assert_eq!(catalog[16], 31);
    assert_eq!(&catalog[17..48], b"A very long waypoint name that ");
    assert_eq!(catalog[56], 30);
    assert_eq!(&catalog[57..87], "a".repeat(30).as_bytes());
    assert_eq!(catalog[87], 0);
    let pois = decode_catalog(&catalog).unwrap();
    assert_eq!(pois[0], record("A very long waypoint name that ", 356_762_000, 1_396_503_000));
    assert_eq!(pois[1], record(&"a".repeat(30), 0, 0));
}

#[test]
fn latitude_out_of_range_is_a_range_error() {
    let ws = vec![point(Some("a"), 10.0, 20.0), point(Some("b"), 90.5, 20.0)];
    assert_eq!(
        convert_waypoints(&ws),
        Err(ConvError::RangeError { index: 1, axis: Axis::Latitude })
    );
}

#[test]
fn longitude_out_of_range_is_a_range_error() {
    let ws = vec![point(None, 0.0, -180.5), point(None, 95.0, 0.0)];
    assert_eq!(
        convert_waypoints(&ws),
        Err(ConvError::RangeError { index: 0, axis: Axis::Longitude })
    );
}

#[test]
fn coordinate_that_is_not_a_number_is_a_range_error() {
    for (lat, lon, axis) in [
        (f64::NAN, 0.0, Axis::Latitude),
        (0.0, f64::NAN, Axis::Longitude),
        (f64::INFINITY, 0.0, Axis::Latitude),
        (0.0, f64::NEG_INFINITY, Axis::Longitude),
    ] {
        assert_eq!(
            convert_waypoints(&vec![point(None, lat, lon)]),
            Err(ConvError::RangeError { index: 0, axis })
        );
    }
}

#[test]
fn range_is_checked_before_the_count() {
    let mut ws: Vec<Waypoint> = (0..65536).map(|_| point(None, 1.0, 2.0)).collect();
    ws[65535] = point(None, 91.0, 2.0);
    assert_eq!(
        convert_waypoints(&ws),
        Err(ConvError::RangeError { index: 65535, axis: Axis::Latitude })
    );
}

#[test]
fn too_many_waypoints_is_an_encode_error() {
    let ws: Vec<Waypoint> = (0..65536).map(|_| point(None, 1.0, 2.0)).collect();
    assert_eq!(
        convert_waypoints(&ws),
        Err(ConvError::EncodeError { fault: EncodeFault::TooManyRecords { count: 65536 } })
    );
}

#[test]
fn most_waypoints_that_fit_are_converted() {
    let ws: Vec<Waypoint> = (0..65535).map(|_| point(Some("p"), 1.0, 2.0)).collect();
    let catalog = convert_waypoints(&ws).unwrap();
    assert_eq!(count_of(&catalog), 65535);
    assert_eq!(catalog.len(), HEADER_SIZE + RECORD_SIZE * 65535);
}
