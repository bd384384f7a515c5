use place_snapshot::event::{
    is_within_cutoff, parse_event, parse_geometry, str_to_timestamp, Event, EventError, Geometry,
};
use place_snapshot::palette::{color_to_index, index_to_pixel};

#[test]
fn palette_tokens_map_to_indices() {
    assert_eq!(color_to_index(b"#000000"), Ok(0));
    assert_eq!(color_to_index(b"#00CCC0"), Ok(1));
    assert_eq!(color_to_index(b"#FF4500"), Ok(25));
    assert_eq!(color_to_index(b"#FFFFFF"), Ok(31));
}

#[test]
fn palette_tokens_are_case_sensitive() {
    assert_eq!(color_to_index(b"#ffffff"), Err(EventError::UnknownColor));
    assert_eq!(color_to_index(b"#ff4500"), Err(EventError::UnknownColor));
}

#[test]
fn unknown_color_tokens_are_refused() {
    assert_eq!(color_to_index(b"#123456"), Err(EventError::UnknownColor));
    assert_eq!(color_to_index(b"#FFFFF"), Err(EventError::UnknownColor));
    assert_eq!(color_to_index(b"FFFFFFF"), Err(EventError::UnknownColor));
    assert_eq!(color_to_index(b"#FFFFFFF"), Err(EventError::UnknownColor));
    assert_eq!(color_to_index(b""), Err(EventError::UnknownColor));
    assert_eq!(color_to_index(b"#GGGGGG"), Err(EventError::UnknownColor));
}

#[test]
fn palette_pixels() {
    assert_eq!(index_to_pixel(0), (0, 0, 0));
    assert_eq!(index_to_pixel(2), (148, 179, 255));
    assert_eq!(index_to_pixel(25), (255, 69, 0));
    assert_eq!(index_to_pixel(31), (255, 255, 255));
}

#[test]
fn every_palette_index_round_trips_through_its_token() {
    for i in 0u8..32 {
        let (r, g, b) = index_to_pixel(i);
        let token = format!("#{:02X}{:02X}{:02X}", r, g, b);
        assert_eq!(color_to_index(token.as_bytes()), Ok(i));
    }
}

#[test]
fn timestamp_key_uses_day_hour_minute_second() {
    assert_eq!(str_to_timestamp("2022-04-04 18:00:00.000 UTC"), Ok(4 * 86400 + 18 * 3600));
    assert_eq!(str_to_timestamp("2022-04-01 00:00:07 UTC"), Ok(86400 + 7));
    assert_eq!(
        str_to_timestamp("2022-04-05 01:02:03.456 UTC"),
        Ok(5 * 86400 + 3600 + 2 * 60 + 3)
    );
}

#[test]
fn timestamp_ignores_month_and_year() {
    assert_eq!(
        str_to_timestamp("2021-03-04 18:00:00.000 UTC"),
        str_to_timestamp("2022-04-04 18:00:00.000 UTC")
    );
}

#[test]
fn malformed_timestamps_are_refused() {
    assert_eq!(str_to_timestamp("2022-04-04"), Err(EventError::MalformedTimestamp));
    assert_eq!(str_to_timestamp(""), Err(EventError::MalformedTimestamp));
    assert_eq!(str_to_timestamp("2022-04-04 1x:00:00.000 UTC"), Err(EventError::MalformedTimestamp));
    assert_eq!(str_to_timestamp("2022/04/04 18:00:00.000 UTC"), Err(EventError::MalformedTimestamp));
}

#[test]
fn cutoff_boundary() {
    let cutoff = "2022-04-04 18:00:00.000 UTC";
    assert!(is_within_cutoff("2022-04-04 18:00:00.000 UTC", cutoff));
    assert!(!is_within_cutoff("2022-04-04 18:00:00.001 UTC", cutoff));
    assert!(is_within_cutoff("2022-04-04 17:59:59.999 UTC", cutoff));
    assert!(is_within_cutoff("2022-04-04 18:00:00", cutoff));
    assert!(!is_within_cutoff(cutoff, "2022-04-04 18:00:00"));
    assert!(is_within_cutoff("", cutoff));
}

#[test]
fn geometry_points_and_rectangles() {
    assert_eq!(parse_geometry("3,4"), Ok(Geometry::Point { x: 3, y: 4 }));
    assert_eq!(
        parse_geometry("1,2,30,40"),
        Ok(Geometry::Rect { x1: 1, y1: 2, x2: 30, y2: 40 })
    );
    assert_eq!(parse_geometry("0,1999"), Ok(Geometry::Point { x: 0, y: 1999 }));
    assert_eq!(parse_geometry("65535,007"), Ok(Geometry::Point { x: 65535, y: 7 }));
}

#[test]
fn geometry_arity_errors() {
    assert_eq!(parse_geometry("1,2,3"), Err(EventError::InvalidGeometryArity));
    assert_eq!(parse_geometry("1"), Err(EventError::InvalidGeometryArity));
    assert_eq!(parse_geometry(""), Err(EventError::InvalidGeometryArity));
    assert_eq!(parse_geometry("1,2,3,4,5"), Err(EventError::InvalidGeometryArity));
    assert_eq!(parse_geometry("a,b,c"), Err(EventError::InvalidGeometryArity));
}

#[test]
fn geometry_coordinate_errors() {
    assert_eq!(parse_geometry("1,a"), Err(EventError::MalformedCoordinate));
    assert_eq!(parse_geometry("1,"), Err(EventError::MalformedCoordinate));
    assert_eq!(parse_geometry("-1,5"), Err(EventError::MalformedCoordinate));
    assert_eq!(parse_geometry("65536,5"), Err(EventError::MalformedCoordinate));
    assert_eq!(parse_geometry("1, 2"), Err(EventError::MalformedCoordinate));
}

#[test]
fn parse_event_builds_event() {
    assert_eq!(
        parse_event("2022-04-04 18:00:00.000 UTC", "#FF4500", "10,20"),
        Ok(Event {
            timestamp: 4 * 86400 + 18 * 3600,
            color: 25,
            geometry: Geometry::Point { x: 10, y: 20 },
        })
    );
}

#[test]
fn parse_event_reports_first_bad_field() {
    assert_eq!(
        parse_event("bad", "#nope", "1,2,3"),
        Err(EventError::MalformedTimestamp)
    );
    assert_eq!(
        parse_event("2022-04-04 18:00:00.000 UTC", "#nope", "1,2,3"),
        Err(EventError::UnknownColor)
    );
    assert_eq!(
        parse_event("2022-04-04 18:00:00.000 UTC", "#FFFFFF", "1,2,3"),
        Err(EventError::InvalidGeometryArity)
    );
    assert_eq!(
        parse_event("2022-04-04 18:00:00.000 UTC", "#FFFFFF", "1,x"),
        Err(EventError::MalformedCoordinate)
    );
}
