use place_snapshot::event::{Event, EventError, Geometry};
use place_snapshot::grid::{update_color, Cell, Grid, CELL_COUNT};

const BLACK: u8 = 0;
const BLUE: u8 = 9;
const RED: u8 = 25;
const WHITE: u8 = 31;

fn point(x: u16, y: u16, color: u8, timestamp: i64) -> Event {
    Event { timestamp, color, geometry: Geometry::Point { x, y } }
}

fn rect(x1: u16, y1: u16, x2: u16, y2: u16, color: u8, timestamp: i64) -> Event {
    Event { timestamp, color, geometry: Geometry::Rect { x1, y1, x2, y2 } }
}

fn white_cell() -> Cell {
    Cell { color: WHITE, stamp: 0, touched: false }
}

#[test]
fn new_grid_is_white_and_untouched() {
    let g = Grid::new();
    assert_eq!(g.cell(0, 0), white_cell());
    assert_eq!(g.cell(1999, 1999), white_cell());
    assert_eq!(g.untouched_count(), CELL_COUNT);
}

#[test]
fn newer_write_replaces_older_is_ignored() {
    let mut g = Grid::new();
    assert_eq!(g.apply(&point(5, 6, BLACK, 10)), Ok(()));
    assert_eq!(g.apply(&point(5, 6, RED, 5)), Ok(()));
    assert_eq!(g.cell(5, 6), Cell { color: BLACK, stamp: 10, touched: true });
    assert_eq!(g.apply(&point(5, 6, BLUE, 11)), Ok(()));
    assert_eq!(g.cell(5, 6), Cell { color: BLUE, stamp: 11, touched: true });
}

#[test]
fn monotone_stream_ends_with_last_write() {
    let mut g = Grid::new();
    for (ts, color) in [(1i64, BLACK), (2, RED), (2, BLUE), (7, RED)] {
        assert_eq!(g.apply(&point(0, 3, color, ts)), Ok(()));
    }
    assert_eq!(g.cell(0, 3), Cell { color: RED, stamp: 7, touched: true });
}

#[test]
fn ties_go_to_the_later_event() {
    let mut g = Grid::new();
    assert_eq!(g.apply(&point(7, 7, RED, 100)), Ok(()));
    assert_eq!(g.apply(&point(7, 7, BLUE, 100)), Ok(()));
    assert_eq!(g.cell(7, 7).color, BLUE);
}

#[test]
fn rectangle_equals_its_points() {
    let mut by_rect = Grid::new();
    assert_eq!(by_rect.apply(&rect(10, 20, 13, 22, RED, 50)), Ok(()));
    let mut by_points = Grid::new();
    for y in (20u16..=22).rev() {
        for x in [12u16, 10, 13, 11] {
            assert_eq!(by_points.apply(&point(x, y, RED, 50)), Ok(()));
        }
    }
    for y in 18u16..25 {
        for x in 8u16..16 {
            assert_eq!(by_rect.cell(x, y), by_points.cell(x, y));
        }
    }
    assert_eq!(by_rect.cell(10, 20), Cell { color: RED, stamp: 50, touched: true });
    assert_eq!(by_rect.cell(14, 20), white_cell());
    assert_eq!(by_rect.untouched_count(), CELL_COUNT - 12);
    assert_eq!(by_rect.untouched_cells(), by_points.untouched_cells());
}

#[test]
fn rectangle_keeps_newer_cells() {
    let mut g = Grid::new();
    assert_eq!(g.apply(&point(1, 1, BLACK, 500)), Ok(()));
    assert_eq!(g.apply(&point(2, 1, BLACK, 200)), Ok(()));
    assert_eq!(g.apply(&rect(0, 0, 2, 2, RED, 300)), Ok(()));
    assert_eq!(g.cell(1, 1), Cell { color: BLACK, stamp: 500, touched: true });
    assert_eq!(g.cell(2, 1), Cell { color: RED, stamp: 300, touched: true });
    assert_eq!(g.cell(0, 0), Cell { color: RED, stamp: 300, touched: true });
    assert_eq!(g.cell(2, 2), Cell { color: RED, stamp: 300, touched: true });
}

#[test]
fn empty_rectangle_writes_nothing() {
    let mut g = Grid::new();
    assert_eq!(g.apply(&rect(5, 5, 4, 9, RED, 1)), Ok(()));
    assert_eq!(g.untouched_count(), CELL_COUNT);
}

#[test]
fn bounds_are_checked() {
    let mut g = Grid::new();
    assert_eq!(g.apply(&point(1999, 1999, RED, 1)), Ok(()));
    assert_eq!(g.cell(1999, 1999).color, RED);
    assert_eq!(g.apply(&point(2000, 0, RED, 1)), Err(EventError::CoordinateOutOfBounds));
    assert_eq!(g.apply(&point(0, 2000, RED, 1)), Err(EventError::CoordinateOutOfBounds));
    assert_eq!(
        g.apply(&rect(1990, 0, 2000, 5, RED, 1)),
        Err(EventError::CoordinateOutOfBounds)
    );
    assert_eq!(g.cell(1990, 0), white_cell());
    assert_eq!(g.untouched_count(), CELL_COUNT - 1);
}

#[test]
fn coverage_counts_distinct_cells() {
    let mut g = Grid::new();
    assert_eq!(g.apply(&point(3, 0, RED, 1)), Ok(()));
    assert_eq!(g.apply(&point(3, 0, BLUE, 2)), Ok(()));
    assert_eq!(g.apply(&point(0, 1, RED, 1)), Ok(()));
    assert_eq!(g.apply(&point(1999, 1999, RED, 1)), Ok(()));
    assert_eq!(g.untouched_count(), CELL_COUNT - 3);
    let untouched = g.untouched_cells();
    assert_eq!(untouched.len(), CELL_COUNT - 3);
    assert_eq!(&untouched[..4], &[(0, 0), (1, 0), (2, 0), (4, 0)]);
    assert!(!untouched.contains(&(0, 1)));
    assert_eq!(untouched[untouched.len() - 1], (1998, 1999));
}

#[test]
fn older_write_on_fresh_cell_is_not_accepted() {
    let mut g = Grid::new();
    assert_eq!(g.apply(&point(4, 4, RED, -1)), Ok(()));
    assert_eq!(g.cell(4, 4), white_cell());
    assert_eq!(g.untouched_count(), CELL_COUNT);
}

#[test]
fn end_to_end_three_records() {
    let cutoff = "2022-04-04 23:59:59.999 UTC";
    let mut g = Grid::new();
    assert_eq!(g.process_record("2022-04-01 00:00:10.000 UTC", "#000000", "0,0", cutoff), Ok(true));
    assert_eq!(g.process_record("2022-04-01 00:00:05.000 UTC", "#FFFFFF", "0,0", cutoff), Ok(true));
    assert_eq!(g.process_record("2022-04-01 00:00:20.000 UTC", "#FF4500", "0,0,1,1", cutoff), Ok(true));
    for (x, y) in [(0u16, 0u16), (1, 0), (0, 1), (1, 1)] {
        assert_eq!(g.cell(x, y).color, RED);
    }
    assert_eq!(g.cell(2, 0), white_cell());
    assert_eq!(g.cell(0, 2), white_cell());
    assert_eq!(g.untouched_count(), CELL_COUNT - 4);
}

#[test]
fn records_after_cutoff_are_skipped() {
    let cutoff = "2022-04-04 18:00:00.000 UTC";
    let mut g = Grid::new();
    assert_eq!(g.process_record("2022-04-04 18:00:00.001 UTC", "#000000", "1,1", cutoff), Ok(false));
    assert_eq!(g.process_record("2022-04-04 18:00:00.000 UTC", "#000000", "2,2", cutoff), Ok(true));
    assert_eq!(g.process_record("2022-04-04 18:00:01 UTC", "bogus", "x", cutoff), Ok(false));
    assert_eq!(g.cell(1, 1), white_cell());
    assert_eq!(g.cell(2, 2).color, BLACK);
}

#[test]
fn bad_records_write_nothing() {
    let cutoff = "2022-04-04 18:00:00.000 UTC";
    let mut g = Grid::new();
    assert_eq!(
        g.process_record("2022-04-01 00:00:00.000 UTC", "#000001", "1,1", cutoff),
        Err(EventError::UnknownColor)
    );
    assert_eq!(
        g.process_record("2022-04-01 00:00:00.000 UTC", "#000000", "1,1,1", cutoff),
        Err(EventError::InvalidGeometryArity)
    );
    assert_eq!(
        g.process_record("2022-04-01 00:00:00.000 UTC", "#000000", "2000,0", cutoff),
        Err(EventError::CoordinateOutOfBounds)
    );
    assert_eq!(
        g.process_record("2022-04-01 0:00:00.000 UTC", "#000000", "1,1", cutoff),
        Err(EventError::MalformedTimestamp)
    );
    assert_eq!(g.untouched_count(), CELL_COUNT);
}

#[test]
fn render_uses_palette_rgb() {
    let mut g = Grid::new();
    assert_eq!(g.apply(&point(1, 0, RED, 1)), Ok(()));
    assert_eq!(g.apply(&point(0, 1, BLUE, 1)), Ok(()));
    let raster = g.render();
    assert_eq!(raster.len(), 3 * CELL_COUNT);
    assert_eq!(&raster[0..3], &[255, 255, 255]);
    assert_eq!(&raster[3..6], &[255, 69, 0]);
    assert_eq!(&raster[6000..6003], &[36, 80, 164]);
}

#[test]
fn update_color_on_plain_vectors() {
    let mut canvas = vec![WHITE; CELL_COUNT];
    let mut stamps = vec![0i64; CELL_COUNT];
    let mut touched = vec![false; CELL_COUNT];
    update_color(3, 2, 40, RED, &mut canvas, &mut stamps, &mut touched);
    assert_eq!((canvas[4003], stamps[4003], touched[4003]), (RED, 40, true));
    update_color(3, 2, 39, BLUE, &mut canvas, &mut stamps, &mut touched);
    assert_eq!((canvas[4003], stamps[4003], touched[4003]), (RED, 40, true));
    update_color(3, 2, 40, BLUE, &mut canvas, &mut stamps, &mut touched);
    assert_eq!((canvas[4003], stamps[4003], touched[4003]), (BLUE, 40, true));
    assert!(!touched[4002]);
}

#[test]
fn replay_events_stops_at_first_out_of_bounds() {
    let mut g = Grid::new();
    let events = vec![
        point(0, 0, BLACK, 10),
        point(0, 0, WHITE, 5),
        rect(0, 0, 1, 1, RED, 20),
        point(2000, 0, BLUE, 30),
        point(5, 5, BLUE, 30),
    ];
    assert_eq!(g.replay_events(&events), Err(3));
    assert_eq!(g.cell(0, 0), Cell { color: RED, stamp: 20, touched: true });
    assert_eq!(g.cell(5, 5), white_cell());
    assert_eq!(g.untouched_count(), CELL_COUNT - 4);
    let mut h = Grid::new();
    assert_eq!(h.replay_events(&events[..3]), Ok(()));
    assert_eq!(h.cell(1, 1), Cell { color: RED, stamp: 20, touched: true });
}
