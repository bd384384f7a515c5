use vstd::prelude::*;
use vstd::string::StringSliceAdditionalSpecFns;
use crate::event::{event_of, is_within_cutoff, lex_le, parse_event, Event, EventError, Geometry};
use crate::palette::{index_to_pixel, pixel_of, WHITE};

verus! {

/// Width of the canvas in cells.
pub const WIDTH: u16 = 2000;

/// Height of the canvas in cells.
pub const HEIGHT: u16 = 2000;

/// Number of cells on the canvas.
pub const CELL_COUNT: usize = 4000000;

/// The state of one cell.
#[derive(Clone, Copy, Debug, PartialEq, Eq, Structural)]
pub struct Cell {
    pub color: u8,
    pub stamp: i64,
    pub touched: bool,
}

/// The cell state every cell starts with: white, stamp 0, never written.
pub open spec fn initial_cell() -> Cell {
    Cell { color: 31, stamp: 0, touched: false }
}

/// The canvas before any write.
pub open spec fn initial_cells() -> Seq<Cell> {
    Seq::new(CELL_COUNT as nat, |i: int| initial_cell())
}

/// One write under last-writer-wins: a strictly older write loses; an equal or
/// newer one replaces color and stamp and marks the cell touched.
pub open spec fn write_cell(c: Cell, timestamp: i64, color: u8) -> Cell {
    if timestamp < c.stamp {
        c
    } else {
        Cell { color, stamp: timestamp, touched: true }
    }
}

/// Column of the cell at linear index `i`.
pub open spec fn cell_x(i: int) -> int {
    i % 2000
}

/// Row of the cell at linear index `i`.
pub open spec fn cell_y(i: int) -> int {
    i / 2000
}

/// Linear index of the cell at column `x`, row `y`.
pub open spec fn cell_index(x: int, y: int) -> int {
    y * 2000 + x
}

/// Whether geometry `g` targets the cell at linear index `i`.
pub open spec fn covers(g: Geometry, i: int) -> bool {
    match g {
        Geometry::Point { x, y } => cell_x(i) == x && cell_y(i) == y,
        Geometry::Rect { x1, y1, x2, y2 } => x1 <= cell_x(i) <= x2 && y1 <= cell_y(i) <= y2,
    }
}

/// Whether every coordinate of `g` lies on the canvas.
pub open spec fn in_bounds(g: Geometry) -> bool {
    match g {
        Geometry::Point { x, y } => x < 2000 && y < 2000,
        Geometry::Rect { x1, y1, x2, y2 } => x1 < 2000 && y1 < 2000 && x2 < 2000 && y2 < 2000,
    }
}

/// An event that can be applied: a palette color and a geometry on the canvas.
pub open spec fn valid_event(e: Event) -> bool {
    e.color < 32 && in_bounds(e.geometry)
}

/// The canvas after applying `e`: every targeted cell takes the write independently.
pub open spec fn apply_event(cells: Seq<Cell>, e: Event) -> Seq<Cell> {
    Seq::new(
        cells.len(),
        |i: int|
            if covers(e.geometry, i) {
                write_cell(cells[i], e.timestamp, e.color)
            } else {
                cells[i]
            },
    )
}

/// The canvas after applying `es` in order.
pub open spec fn replay(cells: Seq<Cell>, es: Seq<Event>) -> Seq<Cell>
    decreases es.len(),
{
    if es.len() == 0 {
        cells
    } else {
        apply_event(replay(cells, es.drop_last()), es.last())
    }
}

/// Coordinates of the cells among the first `n` (by linear index) that no
/// accepted write has touched, in index order.
pub open spec fn untouched_upto(cells: Seq<Cell>, n: int) -> Seq<(u16, u16)>
    decreases n,
{
    if n <= 0 {
        Seq::empty()
    } else if !cells[n - 1].touched {
        untouched_upto(cells, n - 1).push((cell_x(n - 1) as u16, cell_y(n - 1) as u16))
    } else {
        untouched_upto(cells, n - 1)
    }
}

/// How many of the first `n` cells some accepted write has touched.
pub open spec fn touched_count(cells: Seq<Cell>, n: int) -> nat
    decreases n,
{
    if n <= 0 {
        0
    } else if cells[n - 1].touched {
        touched_count(cells, n - 1) + 1
    } else {
        touched_count(cells, n - 1)
    }
}

/// The cells held by three parallel vectors.
pub open spec fn cells_of(colors: Seq<u8>, stamps: Seq<i64>, touched: Seq<bool>) -> Seq<Cell> {
    Seq::new(
        colors.len(),
        |i: int| Cell { color: colors[i], stamp: stamps[i], touched: touched[i] },
    )
}

pub proof fn lemma_cell_coords(i: int)
    requires
        0 <= i,
    ensures
        i == cell_index(cell_x(i), cell_y(i)),
        0 <= cell_x(i) < 2000,
        0 <= cell_y(i),
        i < 4000000 ==> cell_y(i) < 2000,
{
    assert(i == (i / 2000) * 2000 + i % 2000) by (nonlinear_arith)
        requires 0 <= i;
    assert(i < 4000000 ==> i / 2000 < 2000) by (nonlinear_arith)
        requires 0 <= i;
}

pub proof fn lemma_index_coords(x: int, y: int)
    requires
        0 <= x < 2000,
        0 <= y < 2000,
    ensures
        cell_x(cell_index(x, y)) == x,
        cell_y(cell_index(x, y)) == y,
        0 <= cell_index(x, y) < 4000000,
{
    assert((y * 2000 + x) % 2000 == x && (y * 2000 + x) / 2000 == y) by (nonlinear_arith)
        requires 0 <= x < 2000, 0 <= y < 2000;
    assert(y * 2000 + x < 4000000) by (nonlinear_arith)
        requires 0 <= x < 2000, 0 <= y < 2000;
}

/// Writes one cell under last-writer-wins, on the canvas held as three
/// parallel vectors indexed by `y * 2000 + x`.
pub fn update_color(
    x: u16,
    y: u16,
    timestamp: i64,
    color: u8,
    canvas: &mut Vec<u8>,
    canvas_timestamps: &mut Vec<i64>,
    canvas_touched: &mut Vec<bool>,
)
    requires
        x < 2000,
        y < 2000,
        old(canvas)@.len() == CELL_COUNT,
        old(canvas_timestamps)@.len() == CELL_COUNT,
        old(canvas_touched)@.len() == CELL_COUNT,
    ensures
        final(canvas)@.len() == CELL_COUNT,
        final(canvas_timestamps)@.len() == CELL_COUNT,
        final(canvas_touched)@.len() == CELL_COUNT,
        cells_of(final(canvas)@, final(canvas_timestamps)@, final(canvas_touched)@) == ({
            let before = cells_of(old(canvas)@, old(canvas_timestamps)@, old(canvas_touched)@);
            let i = cell_index(x as int, y as int);
            before.update(i, write_cell(before[i], timestamp, color))
        }),
{
    proof {
        lemma_index_coords(x as int, y as int);
    }
    let index: u32 = (y as u32 * 2000) + x as u32;
    let ghost before = cells_of(canvas@, canvas_timestamps@, canvas_touched@);
    let previous_timestamp: i64 = canvas_timestamps[index as usize];
    if previous_timestamp > timestamp {
        assert(cells_of(canvas@, canvas_timestamps@, canvas_touched@) =~= before.update(
            index as int,
            write_cell(before[index as int], timestamp, color),
        ));
        return ;
    }
    canvas_timestamps.set(index as usize, timestamp);
    canvas.set(index as usize, color);
    canvas_touched.set(index as usize, true);
    assert(cells_of(canvas@, canvas_timestamps@, canvas_touched@) =~= before.update(
        index as int,
        write_cell(before[index as int], timestamp, color),
    ));
}

/// The canvas being replayed: per cell a palette index, the stamp of the
/// write it holds, and whether any write was accepted.
pub struct Grid {
    colors: Vec<u8>,
    stamps: Vec<i64>,
    touched: Vec<bool>,
}

impl View for Grid {
    type V = Seq<Cell>;

    closed spec fn view(&self) -> Seq<Cell> {
        cells_of(self.colors@, self.stamps@, self.touched@)
    }
}

impl Grid {
    /// The three vectors have one entry per cell.
    pub closed spec fn sized(&self) -> bool {
        self.colors@.len() == CELL_COUNT && self.stamps@.len() == CELL_COUNT
            && self.touched@.len() == CELL_COUNT
    }

    /// Well-formed: one entry per cell, and every color in the palette.
    pub open spec fn wf(&self) -> bool {
        self.sized() && self@.len() == CELL_COUNT && forall|i: int|
            0 <= i < CELL_COUNT ==> #[trigger] self@[i].color < 32
    }

    /// An all-white canvas on which no write has been accepted.
    pub fn new() -> (r: Grid)
        ensures
            r.wf(),
            r@ == initial_cells(),
    {
        let colors: Vec<u8> = vec![WHITE; CELL_COUNT];
        let stamps: Vec<i64> = vec![0i64; CELL_COUNT];
        let touched: Vec<bool> = vec![false; CELL_COUNT];
        let r = Grid { colors, stamps, touched };
        assert(r@ =~= initial_cells());
        r
    }

    /// The cell at column `x`, row `y`.
    pub fn cell(&self, x: u16, y: u16) -> (r: Cell)
        requires
            self.wf(),
            x < 2000,
            y < 2000,
        ensures
            r == self@[cell_index(x as int, y as int)],
    {
        proof {
            lemma_index_coords(x as int, y as int);
        }
        let i: usize = y as usize * 2000 + x as usize;
        Cell { color: self.colors[i], stamp: self.stamps[i], touched: self.touched[i] }
    }

    /// Applies one event under last-writer-wins. A geometry that leaves the
    /// canvas is refused and nothing is written.
    pub fn apply(&mut self, event: &Event) -> (r: Result<(), EventError>)
        requires
            old(self).wf(),
            event.color < 32,
        ensures
            final(self).wf(),
            in_bounds(event.geometry) ==> r == Ok::<(), EventError>(()) && final(self)@
                == apply_event(old(self)@, *event),
            !in_bounds(event.geometry) ==> r == Err::<(), EventError>(
                EventError::CoordinateOutOfBounds,
            ) && final(self)@ == old(self)@,
    {
        let ghost start = self@;
        match event.geometry {
            Geometry::Point { x, y } => {
                if x >= WIDTH || y >= HEIGHT {
                    return Err(EventError::CoordinateOutOfBounds);
                }
                update_color(
                    x,
                    y,
                    event.timestamp,
                    event.color,
                    &mut self.colors,
                    &mut self.stamps,
                    &mut self.touched,
                );
                proof {
                    lemma_index_coords(x as int, y as int);
                    assert forall|i: int| 0 <= i < CELL_COUNT implies #[trigger] self@[i]
                        == apply_event(start, *event)[i] by {
                        lemma_cell_coords(i);
                    }
                    assert(self@ =~= apply_event(start, *event));
                }
                Ok(())
            },
            Geometry::Rect { x1, y1, x2, y2 } => {
                if x1 >= WIDTH || y1 >= HEIGHT || x2 >= WIDTH || y2 >= HEIGHT {
                    return Err(EventError::CoordinateOutOfBounds);
                }
                let ghost g = event.geometry;
                let mut cx: u16 = x1;
                while cx <= x2
                    invariant
                        self.wf(),
                        x1 <= cx,
                        cx <= x2 + 1 || cx == x1,
                        x2 < 2000,
                        event.color < 32,
                        start.len() == CELL_COUNT,
                        y2 < 2000,
                        g == event.geometry,
                        g == (Geometry::Rect { x1, y1, x2, y2 }),
                        self@ == Seq::new(
                            CELL_COUNT as nat,
                            |i: int|
                                if covers(g, i) && cell_x(i) < cx {
                                    write_cell(start[i], event.timestamp, event.color)
                                } else {
                                    start[i]
                                },
                        ),
                    decreases x2 + 1 - cx,
                {
                    let mut cy: u16 = y1;
                    while cy <= y2
                        invariant
                            self.wf(),
                            x1 <= cx <= x2,
                            y1 <= cy,
                            cy <= y2 + 1 || cy == y1,
                            x2 < 2000,
                            event.color < 32,
                            start.len() == CELL_COUNT,
                            y2 < 2000,
                            g == (Geometry::Rect { x1, y1, x2, y2 }),
                            self@ == Seq::new(
                                CELL_COUNT as nat,
                                |i: int|
                                    if covers(g, i) && (cell_x(i) < cx || (cell_x(i) == cx
                                        && cell_y(i) < cy)) {
                                        write_cell(start[i], event.timestamp, event.color)
                                    } else {
                                        start[i]
                                    },
                            ),
                        decreases y2 + 1 - cy,
                    {
                        let ghost before = self@;
                        update_color(
                            cx,
                            cy,
                            event.timestamp,
                            event.color,
                            &mut self.colors,
                            &mut self.stamps,
                            &mut self.touched,
                        );
                        proof {
                            lemma_index_coords(cx as int, cy as int);
                            assert forall|i: int| 0 <= i < CELL_COUNT implies #[trigger] self@[i]
                                == (if covers(g, i) && (cell_x(i) < cx || (cell_x(i) == cx
                                && cell_y(i) < cy + 1)) {
                                write_cell(start[i], event.timestamp, event.color)
                            } else {
                                start[i]
                            }) by {
                                lemma_cell_coords(i);
                            }
                        }
                        cy = cy + 1;
                        assert(self@ =~= Seq::new(
                            CELL_COUNT as nat,
                            |i: int|
                                if covers(g, i) && (cell_x(i) < cx || (cell_x(i) == cx
                                    && cell_y(i) < cy)) {
                                    write_cell(start[i], event.timestamp, event.color)
                                } else {
                                    start[i]
                                },
                        ));
                    }
                    proof {
                        assert forall|i: int| 0 <= i < CELL_COUNT implies #[trigger] self@[i]
                            == (if covers(g, i) && cell_x(i) < cx + 1 {
                            write_cell(start[i], event.timestamp, event.color)
                        } else {
                            start[i]
                        }) by {
                            lemma_cell_coords(i);
                        }
                    }
                    cx = cx + 1;
                    assert(self@ =~= Seq::new(
                        CELL_COUNT as nat,
                        |i: int|
                            if covers(g, i) && cell_x(i) < cx {
                                write_cell(start[i], event.timestamp, event.color)
                            } else {
                                start[i]
                            },
                    ));
                }
                proof {
                    assert forall|i: int| 0 <= i < CELL_COUNT implies #[trigger] self@[i]
                        == apply_event(start, *event)[i] by {
                        lemma_cell_coords(i);
                    }
                    assert(self@ =~= apply_event(start, *event));
                }
                Ok(())
            },
        }
    }

    /// Applies `events` in order, stopping at the first one whose geometry
    /// leaves the canvas; that event's position is returned and the events
    /// before it stay applied.
    pub fn replay_events(&mut self, events: &[Event]) -> (r: Result<(), usize>)
        requires
            old(self).wf(),
            forall|j: int| 0 <= j < events@.len() ==> (#[trigger] events@[j]).color < 32,
        ensures
            final(self).wf(),
            r is Ok ==> (forall|j: int| 0 <= j < events@.len() ==> in_bounds(
                (#[trigger] events@[j]).geometry,
            )) && final(self)@ == replay(old(self)@, events@),
            r matches Err(k) ==> k < events@.len() && !in_bounds(events@[k as int].geometry),
            r matches Err(k) ==> forall|j: int| 0 <= j < k ==> in_bounds((#[trigger] events@[j]).geometry),
            r matches Err(k) ==> final(self)@ == replay(old(self)@, events@.take(k as int)),
    {
        let ghost start = self@;
        let mut k: usize = 0;
        assert(events@.take(0) =~= Seq::<Event>::empty());
        while k < events.len()
            invariant
                self.wf(),
                k <= events@.len(),
                forall|j: int| 0 <= j < events@.len() ==> (#[trigger] events@[j]).color < 32,
                forall|j: int| 0 <= j < k ==> in_bounds((#[trigger] events@[j]).geometry),
                self@ == replay(start, events@.take(k as int)),
                start == old(self)@,
            decreases events@.len() - k,
        {
            let event = &events[k];
            assert(*event == events@[k as int]);
            match self.apply(event) {
                Ok(()) => {},
                Err(_) => {
                    return Err(k);
                },
            }
            assert(events@.take(k + 1).drop_last() =~= events@.take(k as int));
            k = k + 1;
        }
        assert(events@.take(k as int) =~= events@);
        Ok(())
    }

    /// Takes one record: drops it when its timestamp text sorts after
    /// `cutoff` (`Ok(false)`), else parses and applies it (`Ok(true)`).
    /// On an error nothing is written.
    pub fn process_record(&mut self, timestamp: &str, color: &str, geometry: &str, cutoff: &str) -> (r:
        Result<bool, EventError>)
        requires
            old(self).wf(),
        ensures
            final(self).wf(),
            !lex_le(timestamp.spec_bytes(), cutoff.spec_bytes()) ==> r == Ok::<bool, EventError>(
                false,
            ) && final(self)@ == old(self)@,
            lex_le(timestamp.spec_bytes(), cutoff.spec_bytes()) ==> match event_of(
                timestamp.spec_bytes(),
                color.spec_bytes(),
                geometry.spec_bytes(),
            ) {
                Err(e) => r == Err::<bool, EventError>(e) && final(self)@ == old(self)@,
                Ok(ev) => if in_bounds(ev.geometry) {
                    r == Ok::<bool, EventError>(true) && final(self)@ == apply_event(old(self)@, ev)
                } else {
                    r == Err::<bool, EventError>(EventError::CoordinateOutOfBounds) && final(self)@
                        == old(self)@
                },
            },
    {
        if !is_within_cutoff(timestamp, cutoff) {
            return Ok(false);
        }
        let event = match parse_event(timestamp, color, geometry) {
            Ok(ev) => ev,
            Err(e) => {
                return Err(e);
            },
        };
        match self.apply(&event) {
            Ok(()) => Ok(true),
            Err(e) => Err(e),
        }
    }

    /// Coordinates `(x, y)` of every cell that no accepted write touched, by
    /// increasing linear index.
    pub fn untouched_cells(&self) -> (r: Vec<(u16, u16)>)
        requires
            self.wf(),
        ensures
            r@ == untouched_upto(self@, CELL_COUNT as int),
    {
        let mut r: Vec<(u16, u16)> = Vec::new();
        let mut i: usize = 0;
        while i < CELL_COUNT
            invariant
                self.wf(),
                i <= CELL_COUNT,
                r@ == untouched_upto(self@, i as int),
            decreases CELL_COUNT - i,
        {
            if !self.touched[i] {
                r.push(((i % 2000) as u16, (i / 2000) as u16));
            }
            i = i + 1;
        }
        r
    }

    /// How many cells no accepted write touched.
    pub fn untouched_count(&self) -> (r: usize)
        requires
            self.wf(),
        ensures
            r == untouched_upto(self@, CELL_COUNT as int).len(),
    {
        let mut count: usize = 0;
        let mut i: usize = 0;
        while i < CELL_COUNT
            invariant
                self.wf(),
                i <= CELL_COUNT,
                count == untouched_upto(self@, i as int).len(),
                count <= i,
            decreases CELL_COUNT - i,
        {
            if !self.touched[i] {
                count = count + 1;
            }
            i = i + 1;
        }
        count
    }

    /// The canvas as an RGB raster: three bytes per cell, in linear index order.
    pub fn render(&self) -> (r: Vec<u8>)
        requires
            self.wf(),
        ensures
            r@.len() == 3 * CELL_COUNT,
            forall|i: int|
                0 <= i < CELL_COUNT ==> {
                    let p = pixel_of((#[trigger] self@[i]).color as nat);
                    r@[3 * i] == p.0 && r@[3 * i + 1] == p.1 && r@[3 * i + 2] == p.2
                },
    {
        let mut r: Vec<u8> = Vec::new();
        let mut i: usize = 0;
        while i < CELL_COUNT
            invariant
                self.wf(),
                i <= CELL_COUNT,
                r@.len() == 3 * i,
                forall|j: int|
                    0 <= j < i ==> {
                        let p = pixel_of((#[trigger] self@[j]).color as nat);
                        r@[3 * j] == p.0 && r@[3 * j + 1] == p.1 && r@[3 * j + 2] == p.2
                    },
            decreases CELL_COUNT - i,
        {
            assert(self@[i as int].color < 32);
            let (red, green, blue) = index_to_pixel(self.colors[i]);
            r.push(red);
            r.push(green);
            r.push(blue);
            i = i + 1;
        }
        r
    }
}

} // verus!
