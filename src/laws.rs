use vstd::prelude::*;
use crate::event::{lex_le, Event, Geometry};
use crate::grid::{
    apply_event, cell_x, cell_y, covers, in_bounds, initial_cells, lemma_cell_coords, replay,
    touched_count, untouched_upto, write_cell, Cell, CELL_COUNT,
};

verus! {

/// Whether event `es[j]` was accepted at cell `i` when the events `es` were
/// replayed onto `cells`: it targets the cell and is not older than what the
/// cell held at that moment.
pub open spec fn accepted_at(cells: Seq<Cell>, es: Seq<Event>, j: int, i: int) -> bool {
    covers(es[j].geometry, i) && es[j].timestamp >= replay(cells, es.take(j))[i].stamp
}

/// Whether some event of `es` was accepted at cell `i`.
pub open spec fn received_write(cells: Seq<Cell>, es: Seq<Event>, i: int) -> bool {
    exists|j: int| 0 <= j < es.len() && #[trigger] accepted_at(cells, es, j, i)
}

/// How many of the first `n` cells received at least one accepted write.
pub open spec fn received_count(cells: Seq<Cell>, es: Seq<Event>, n: int) -> nat
    decreases n,
{
    if n <= 0 {
        0
    } else if received_write(cells, es, n - 1) {
        received_count(cells, es, n - 1) + 1
    } else {
        received_count(cells, es, n - 1)
    }
}

/// Whether column `x`, row `y` lies inside rectangle `g`.
pub open spec fn rect_contains(g: Geometry, x: int, y: int) -> bool {
    match g {
        Geometry::Rect { x1, y1, x2, y2 } => x1 <= x <= x2 && y1 <= y <= y2,
        Geometry::Point { .. } => false,
    }
}

pub proof fn lemma_replay_len(cells: Seq<Cell>, es: Seq<Event>)
    ensures
        replay(cells, es).len() == cells.len(),
    decreases es.len(),
{
    if es.len() > 0 {
        lemma_replay_len(cells, es.drop_last());
    }
}

/// A cell's stamp never decreases during a replay.
pub proof fn lemma_replay_stamp_monotone(cells: Seq<Cell>, es: Seq<Event>, i: int)
    requires
        0 <= i < cells.len(),
    ensures
        replay(cells, es)[i].stamp >= cells[i].stamp,
    decreases es.len(),
{
    if es.len() > 0 {
        lemma_replay_stamp_monotone(cells, es.drop_last(), i);
        lemma_replay_len(cells, es.drop_last());
    }
}

/// A write strictly older than what a cell holds leaves the cell unchanged.
pub proof fn lemma_older_write_ignored(cells: Seq<Cell>, e: Event, i: int)
    requires
        0 <= i < cells.len(),
        e.timestamp < cells[i].stamp,
    ensures
        apply_event(cells, e)[i] == cells[i],
{
}

/// What a cell holds after a replay is either what it held before, or exactly
/// the write of one event that targets it.
proof fn lemma_replay_origin(cells: Seq<Cell>, es: Seq<Event>, i: int)
    requires
        0 <= i < cells.len(),
    ensures
        replay(cells, es)[i] == cells[i] || exists|j: int|
            0 <= j < es.len() && covers(#[trigger] es[j].geometry, i) && replay(cells, es)[i] == (
            Cell { color: es[j].color, stamp: es[j].timestamp, touched: true }),
    decreases es.len(),
{
    if es.len() > 0 {
        let p = es.drop_last();
        lemma_replay_origin(cells, p, i);
        lemma_replay_len(cells, p);
        let prev = replay(cells, p)[i];
        let e = es.last();
        if covers(e.geometry, i) && e.timestamp >= prev.stamp {
            assert(covers(es[es.len() - 1].geometry, i));
        } else if prev != cells[i] {
            let j = choose|j: int|
                0 <= j < p.len() && covers(#[trigger] p[j].geometry, i) && prev == (Cell {
                    color: p[j].color,
                    stamp: p[j].timestamp,
                    touched: true,
                });
            assert(es[j] == p[j]);
        }
    }
}

/// Events that do not target a cell leave it as it was.
proof fn lemma_replay_untargeted_suffix(cells: Seq<Cell>, es: Seq<Event>, m: int, i: int)
    requires
        0 <= i < cells.len(),
        0 <= m <= es.len(),
        forall|j: int| m <= j < es.len() ==> !covers(#[trigger] es[j].geometry, i),
    ensures
        replay(cells, es)[i] == replay(cells, es.take(m))[i],
    decreases es.len(),
{
    if es.len() > m {
        let p = es.drop_last();
        assert(p.take(m) =~= es.take(m));
        assert(covers(es[es.len() - 1].geometry, i) == false);
        lemma_replay_untargeted_suffix(cells, p, m, i);
        lemma_replay_len(cells, p);
    } else {
        assert(es.take(m) =~= es);
    }
}

/// Last-writer-wins over a stream: when the events that target cell `i` come
/// with non-decreasing timestamps and `es[k]` is the last of them, the cell
/// ends holding the write of `es[k]` (later events win ties) if that write is
/// not older than what the cell held before the replay, and is unchanged
/// otherwise.
pub proof fn lemma_last_writer_wins(cells: Seq<Cell>, es: Seq<Event>, i: int, k: int)
    requires
        0 <= i < cells.len(),
        0 <= k < es.len(),
        covers(es[k].geometry, i),
        forall|j: int| k < j < es.len() ==> !covers(#[trigger] es[j].geometry, i),
        forall|a: int, b: int|
            0 <= a < b < es.len() && covers(#[trigger] es[a].geometry, i) && covers(
                #[trigger] es[b].geometry,
                i,
            ) ==> es[a].timestamp <= es[b].timestamp,
    ensures
        es[k].timestamp >= cells[i].stamp ==> replay(cells, es)[i] == (Cell {
            color: es[k].color,
            stamp: es[k].timestamp,
            touched: true,
        }),
        es[k].timestamp < cells[i].stamp ==> replay(cells, es)[i] == cells[i],
{
    lemma_replay_untargeted_suffix(cells, es, k + 1, i);
    let upto = es.take(k + 1);
    let before = es.take(k);
    assert(upto.drop_last() =~= before);
    lemma_replay_len(cells, before);
    lemma_replay_stamp_monotone(cells, before, i);
    lemma_replay_origin(cells, before, i);
    let prev = replay(cells, before)[i];
    if prev != cells[i] {
        let j = choose|j: int|
            0 <= j < before.len() && covers(#[trigger] before[j].geometry, i) && prev == (Cell {
                color: before[j].color,
                stamp: before[j].timestamp,
                touched: true,
            });
        assert(before[j] == es[j]);
        assert(es[j].timestamp <= es[k].timestamp);
    }
}

/// Applying the same write to a cell twice is the same as once.
proof fn lemma_write_cell_idempotent(c: Cell, timestamp: i64, color: u8)
    ensures
        write_cell(write_cell(c, timestamp, color), timestamp, color) == write_cell(
            c,
            timestamp,
            color,
        ),
{
}

/// Replaying writes that all carry one timestamp and color: a cell takes that
/// write once if any of them targets it.
proof fn lemma_replay_same_write(cells: Seq<Cell>, ps: Seq<Event>, timestamp: i64, color: u8, i: int)
    requires
        0 <= i < cells.len(),
        forall|j: int|
            0 <= j < ps.len() ==> (#[trigger] ps[j]).timestamp == timestamp && ps[j].color == color,
    ensures
        replay(cells, ps)[i] == (if exists|j: int|
            0 <= j < ps.len() && covers(#[trigger] ps[j].geometry, i) {
            write_cell(cells[i], timestamp, color)
        } else {
            cells[i]
        }),
    decreases ps.len(),
{
    if ps.len() > 0 {
        let p = ps.drop_last();
        assert forall|j: int| 0 <= j < p.len() implies (#[trigger] p[j]).timestamp == timestamp
            && p[j].color == color by {
            assert(p[j] == ps[j]);
        }
        lemma_replay_same_write(cells, p, timestamp, color, i);
        lemma_replay_len(cells, p);
        lemma_write_cell_idempotent(cells[i], timestamp, color);
        assert(ps.last() == ps[ps.len() - 1]);
        if exists|j: int| 0 <= j < p.len() && covers(#[trigger] p[j].geometry, i) {
            let j = choose|j: int| 0 <= j < p.len() && covers(#[trigger] p[j].geometry, i);
            assert(ps[j] == p[j]);
        }
        if exists|j: int| 0 <= j < ps.len() && covers(#[trigger] ps[j].geometry, i) {
            let j = choose|j: int| 0 <= j < ps.len() && covers(#[trigger] ps[j].geometry, i);
            if j < p.len() {
                assert(ps[j] == p[j]);
            }
        }
    }
}

/// A rectangle write is the same as one point write, with its timestamp and
/// color, at each cell of the rectangle, made in any order (repeats allowed).
pub proof fn lemma_rect_as_points(cells: Seq<Cell>, rect: Event, points: Seq<Event>)
    requires
        cells.len() == CELL_COUNT,
        rect.geometry is Rect,
        in_bounds(rect.geometry),
        forall|j: int|
            0 <= j < points.len() ==> (#[trigger] points[j]).timestamp == rect.timestamp
                && points[j].color == rect.color && points[j].geometry is Point && rect_contains(
                rect.geometry,
                points[j].geometry->x as int,
                points[j].geometry->y as int,
            ),
        forall|x: int, y: int|
            #[trigger] rect_contains(rect.geometry, x, y) ==> exists|j: int|
                0 <= j < points.len() && (#[trigger] points[j]).geometry == (Geometry::Point {
                    x: x as u16,
                    y: y as u16,
                }),
    ensures
        replay(cells, points) == apply_event(cells, rect),
{
    lemma_replay_len(cells, points);
    assert forall|i: int| 0 <= i < cells.len() implies #[trigger] replay(cells, points)[i]
        == apply_event(cells, rect)[i] by {
        lemma_replay_same_write(cells, points, rect.timestamp, rect.color, i);
        lemma_cell_coords(i);
        if covers(rect.geometry, i) {
            assert(rect_contains(rect.geometry, cell_x(i), cell_y(i)));
            let j = choose|j: int|
                0 <= j < points.len() && (#[trigger] points[j]).geometry == (Geometry::Point {
                    x: cell_x(i) as u16,
                    y: cell_y(i) as u16,
                });
            assert(covers(points[j].geometry, i));
        } else {
            if exists|j: int| 0 <= j < points.len() && covers(#[trigger] points[j].geometry, i) {
                let j = choose|j: int|
                    0 <= j < points.len() && covers(#[trigger] points[j].geometry, i);
                assert(rect_contains(
                    rect.geometry,
                    points[j].geometry->x as int,
                    points[j].geometry->y as int,
                ));
            }
        }
    }
    assert(replay(cells, points) =~= apply_event(cells, rect));
}

/// Inside a rectangle each cell is judged on its own: a cell holding a
/// strictly newer write keeps it, any other cell takes the rectangle's write.
pub proof fn lemma_rect_cells_independent(cells: Seq<Cell>, rect: Event, i: int)
    requires
        0 <= i < cells.len(),
        rect.geometry is Rect,
        covers(rect.geometry, i),
    ensures
        cells[i].stamp > rect.timestamp ==> apply_event(cells, rect)[i] == cells[i],
        cells[i].stamp <= rect.timestamp ==> apply_event(cells, rect)[i] == (Cell {
            color: rect.color,
            stamp: rect.timestamp,
            touched: true,
        }),
{
}

/// After a replay a cell is touched exactly when it was before, or some event
/// was accepted at it.
pub proof fn lemma_touched_iff_received(cells: Seq<Cell>, es: Seq<Event>, i: int)
    requires
        0 <= i < cells.len(),
    ensures
        replay(cells, es)[i].touched == (cells[i].touched || received_write(cells, es, i)),
    decreases es.len(),
{
    if es.len() > 0 {
        let n = es.len() - 1;
        let p = es.drop_last();
        lemma_touched_iff_received(cells, p, i);
        lemma_replay_len(cells, p);
        assert(es.take(n) =~= p);
        assert forall|j: int| 0 <= j < n implies #[trigger] accepted_at(cells, es, j, i)
            == accepted_at(cells, p, j, i) by {
            assert(es.take(j) =~= p.take(j));
            assert(es[j] == p[j]);
        }
        if received_write(cells, p, i) {
            let j = choose|j: int| 0 <= j < p.len() && #[trigger] accepted_at(cells, p, j, i);
            assert(accepted_at(cells, es, j, i));
        }
        if received_write(cells, es, i) {
            let j = choose|j: int| 0 <= j < es.len() && #[trigger] accepted_at(cells, es, j, i);
            if j < n {
                assert(accepted_at(cells, p, j, i));
            }
        }
        assert(es.last() == es[n]);
        let prev = replay(cells, p)[i];
        if covers(es[n].geometry, i) && es[n].timestamp >= prev.stamp {
            assert(accepted_at(cells, es, n, i));
        }
    }
}

proof fn lemma_untouched_plus_touched(cells: Seq<Cell>, n: int)
    requires
        0 <= n <= cells.len(),
    ensures
        untouched_upto(cells, n).len() + touched_count(cells, n) == n,
    decreases n,
{
    if n > 0 {
        lemma_untouched_plus_touched(cells, n - 1);
    }
}

proof fn lemma_touched_count_received(es: Seq<Event>, n: int)
    requires
        0 <= n <= CELL_COUNT,
    ensures
        touched_count(replay(initial_cells(), es), n) == received_count(initial_cells(), es, n),
    decreases n,
{
    if n > 0 {
        lemma_touched_count_received(es, n - 1);
        lemma_touched_iff_received(initial_cells(), es, n - 1);
    }
}

/// Coverage accounting: after replaying `es` onto a fresh canvas, the cells
/// reported untouched number the cell count less the number of distinct cells
/// that received at least one accepted write.
pub proof fn lemma_coverage(es: Seq<Event>)
    ensures
        untouched_upto(replay(initial_cells(), es), CELL_COUNT as int).len() == CELL_COUNT
            - received_count(initial_cells(), es, CELL_COUNT as int),
{
    lemma_replay_len(initial_cells(), es);
    lemma_untouched_plus_touched(replay(initial_cells(), es), CELL_COUNT as int);
    lemma_touched_count_received(es, CELL_COUNT as int);
}

/// A record whose timestamp text equals the cutoff text is inside the replay.
pub proof fn lemma_cutoff_includes_equal(t: Seq<u8>)
    ensures
        lex_le(t, t),
    decreases t.len(),
{
    if t.len() > 0 {
        lemma_cutoff_includes_equal(t.drop_first());
    }
}

} // verus!
