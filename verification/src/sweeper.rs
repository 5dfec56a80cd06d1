use vstd::prelude::*;
use vstd::pervasive::unreached;
use crate::field::{
    adjacent, flags_preserved, flood_closed, is_near, is_neighbour, kinds_preserved,
    lemma_kinds_agree_transfer, lemma_placeable_any_start, max_zone_size, reveal_from,
    revealed_monotone, same_shape, uncover_rel, ConfigError, Field,
};
use crate::tile::{classified_kind, Tile, TileKind};

verus! {

broadcast use vstd::seq_lib::lemma_seq_contains_after_push;

/// A board coordinate that may lie outside the board, or even be negative:
/// the form in which neighbour offsets and cursor movements are computed.
#[derive(Clone, Copy, PartialEq, Eq, Structural, Debug)]
pub struct UnsafePosition(pub i32, pub i32);

impl UnsafePosition {
    pub fn to_safe(&self) -> (p: Position)
        requires
            0 <= self.0,
            0 <= self.1,
        ensures
            p.0 == self.0,
            p.1 == self.1,
    {
        Position(self.0 as usize, self.1 as usize)
    }
}

/// A non-negative board coordinate: row then column.
#[derive(Clone, Copy, PartialEq, Eq, Structural, Debug)]
pub struct Position(pub usize, pub usize);

impl Position {
    pub fn to_unsafe(&self) -> (p: UnsafePosition)
        requires
            self.0 <= i32::MAX,
            self.1 <= i32::MAX,
        ensures
            p.0 == self.0,
            p.1 == self.1,
    {
        UnsafePosition(self.0 as i32, self.1 as i32)
    }
}

/// Named board presets, plus `Custom` for caller-chosen dimensions.
#[derive(Clone, Copy, PartialEq, Eq, Structural, Debug)]
pub enum Difficulty {
    Easy,
    Medium,
    Hard,
    Nightmare,
    Custom,
}

/// One step of cursor movement.
#[derive(Clone, Copy, PartialEq, Eq, Structural, Debug)]
pub enum CursorDirection {
    Up,
    Down,
    Left,
    Right,
}

/// The row-major index of `(r, c)` on a board `cols` columns wide.
spec fn vidx(cols: int, r: int, c: int) -> int {
    r * cols + c
}

proof fn lemma_vidx_bound(rows: int, cols: int, r: int, c: int)
    requires
        0 <= r < rows,
        0 <= c < cols,
    ensures
        0 <= vidx(cols, r, c),
        vidx(cols, r, c) < rows * cols,
        r * cols + c < rows * cols,
{
    assert(r * cols + c < rows * cols) by (nonlinear_arith)
        requires
            0 <= r < rows,
            0 <= c < cols,
    ;
    assert(0 <= r * cols) by (nonlinear_arith)
        requires
            0 <= r,
            0 <= cols,
    ;
}

proof fn lemma_vidx_inj(cols: int, r1: int, c1: int, r2: int, c2: int)
    requires
        1 <= cols,
        0 <= r1,
        0 <= c1 < cols,
        0 <= r2,
        0 <= c2 < cols,
        vidx(cols, r1, c1) == vidx(cols, r2, c2),
    ensures
        r1 == r2,
        c1 == c2,
{
    assert(r1 == r2 && c1 == c2) by (nonlinear_arith)
        requires
            1 <= cols,
            0 <= r1,
            0 <= c1 < cols,
            0 <= r2,
            0 <= c2 < cols,
            r1 * cols + c1 == r2 * cols + c2,
    ;
}

/// How many entries of `s` are still false.
spec fn count_unvisited(s: Seq<bool>) -> int
    decreases s.len(),
{
    if s.len() <= 0 {
        0
    } else {
        count_unvisited(s.drop_last()) + (if s.last() {
            0int
        } else {
            1int
        })
    }
}

proof fn lemma_count_unvisited_bounds(s: Seq<bool>)
    ensures
        0 <= count_unvisited(s) <= s.len(),
    decreases s.len(),
{
    if s.len() > 0 {
        lemma_count_unvisited_bounds(s.drop_last());
    }
}

/// The work-queue reveal engine: processes every queued position, each
/// at most once (a visited set bounds the work), revealing hidden
/// unflagged tiles, flooding outward from empty tiles, and ending the
/// game the moment a bomb is revealed. Returns whether a bomb went off.
#[verifier::rlimit(100)]
#[verifier::spinoff_prover]
fn run_cascade(field: &mut Field, queue: Vec<Position>) -> (hit: bool)
    requires
        old(field).wf(),
        forall|k: int|
            0 <= k < queue@.len() ==> old(field).in_bounds(
                (#[trigger] queue@[k]).0 as int,
                queue@[k].1 as int,
            ),
        forall|r: int, c: int|
            old(field).is_bomb_at(r, c) ==> !old(field).tile_at(r, c).revealed,
    ensures
        final(field).wf(),
        same_shape(*old(field), *final(field)),
        kinds_preserved(*old(field), *final(field)),
        revealed_monotone(*old(field), *final(field)),
        !hit ==> flags_preserved(*old(field), *final(field)),
        !hit ==> forall|r: int, c: int|
            final(field).is_bomb_at(r, c) ==> !final(field).tile_at(r, c).revealed,
        hit ==> final(field).all_revealed_unflagged(),
        forall|k: int|
            0 <= k < queue@.len() && !old(field).tile_at(
                (#[trigger] queue@[k]).0 as int,
                queue@[k].1 as int,
            ).flagged ==> final(field).tile_at(queue@[k].0 as int, queue@[k].1 as int).revealed,
        forall|k: int|
            0 <= k < queue@.len() && !old(field).tile_at(
                (#[trigger] queue@[k]).0 as int,
                queue@[k].1 as int,
            ).flagged && old(field).tile_at(queue@[k].0 as int, queue@[k].1 as int).kind
                == TileKind::Bomb ==> hit,
        old(field).classified() && (forall|k: int|
            0 <= k < queue@.len() ==> !old(field).is_bomb_at(
                (#[trigger] queue@[k]).0 as int,
                queue@[k].1 as int,
            )) ==> !hit,
        flood_closed(*old(field), *final(field)),
        !hit ==> forall|r: int, c: int|
            #![trigger final(field).tile_at(r, c)]
            final(field).in_bounds(r, c) && final(field).tile_at(r, c).revealed && !old(
                field,
            ).tile_at(r, c).revealed ==> queue@.contains(Position(r as usize, c as usize)) || (
            exists|r2: int, c2: int|
                adjacent(r, c, r2, c2) && final(field).in_bounds(r2, c2) && (
                #[trigger] final(field).tile_at(r2, c2)).revealed && !old(field).tile_at(
                    r2,
                    c2,
                ).revealed && final(field).tile_at(r2, c2).kind == TileKind::Empty),
{
    let ghost f0 = *field;
    let ghost qinit = queue@;
    let ghost safe = f0.classified() && (forall|k: int|
        0 <= k < qinit.len() ==> !f0.is_bomb_at((#[trigger] qinit[k]).0 as int, qinit[k].1 as int));
    let rows = field.rows;
    let cols = field.cols;
    let cells: usize = rows * cols;
    let mut visited: Vec<bool> = vec![false; cells];
    let mut q: Vec<Position> = queue;
    let mut hit: bool = false;
    proof {
        lemma_count_unvisited_bounds(visited@);
        assert forall|k: int| 0 <= k < qinit.len() implies f0.in_bounds(
            (#[trigger] qinit[k]).0 as int,
            qinit[k].1 as int,
        ) by {
            assert(queue@[k] == qinit[k]);
        }
        assert forall|r: int, c: int| field.in_bounds(r, c) implies !visited@[vidx(
            cols as int,
            r,
            c,
        )] by {
            lemma_vidx_bound(rows as int, cols as int, r, c);
        }
        assert forall|k: int| 0 <= k < q@.len() implies qinit.contains(#[trigger] q@[k]) by {
            assert(qinit[k] == q@[k]);
        }
    }
    while q.len() > 0
        invariant_except_break
            !hit,
            f0.wf(),
            safe == (f0.classified() && (forall|k: int|
                0 <= k < qinit.len() ==> !f0.is_bomb_at(
                    (#[trigger] qinit[k]).0 as int,
                    qinit[k].1 as int,
                ))),
            forall|k: int|
                0 <= k < qinit.len() ==> f0.in_bounds(
                    (#[trigger] qinit[k]).0 as int,
                    qinit[k].1 as int,
                ),
            field.wf(),
            field.rows == f0.rows,
            field.cols == f0.cols,
            field.bombs == f0.bombs,
            rows == f0.rows,
            cols == f0.cols,
            cells == rows * cols,
            visited@.len() == cells,
            0 <= count_unvisited(visited@),
            kinds_preserved(f0, *field),
            revealed_monotone(f0, *field),
            flags_preserved(f0, *field),
            forall|r: int, c: int|
                #[trigger] field.is_bomb_at(r, c) ==> !field.tile_at(r, c).revealed,
            forall|k: int|
                0 <= k < q@.len() ==> field.in_bounds(
                    (#[trigger] q@[k]).0 as int,
                    q@[k].1 as int,
                ),
            forall|r: int, c: int|
                field.in_bounds(r, c) && #[trigger] visited@[vidx(cols as int, r, c)]
                    ==> field.tile_at(r, c).revealed || field.tile_at(r, c).flagged,
            forall|k: int|
                0 <= k < qinit.len() && !f0.tile_at(
                    (#[trigger] qinit[k]).0 as int,
                    qinit[k].1 as int,
                ).flagged ==> q@.contains(qinit[k]) || (field.tile_at(
                    qinit[k].0 as int,
                    qinit[k].1 as int,
                ).revealed && field.tile_at(qinit[k].0 as int, qinit[k].1 as int).kind
                    != TileKind::Bomb),
            forall|r: int, c: int, r2: int, c2: int|
                #![trigger field.tile_at(r, c), field.tile_at(r2, c2)]
                field.in_bounds(r, c) && !f0.tile_at(r, c).revealed && field.tile_at(
                    r,
                    c,
                ).revealed && field.tile_at(r, c).kind == TileKind::Empty && adjacent(r, c, r2, c2)
                    && field.in_bounds(r2, c2) ==> q@.contains(
                    Position(r2 as usize, c2 as usize),
                ) || field.tile_at(r2, c2).revealed || field.tile_at(r2, c2).flagged,
            forall|k: int|
                0 <= k < q@.len() ==> qinit.contains(#[trigger] q@[k]) || (exists|r2: int, c2: int|
                    adjacent(q@[k].0 as int, q@[k].1 as int, r2, c2) && field.in_bounds(r2, c2)
                        && (#[trigger] field.tile_at(r2, c2)).revealed && !f0.tile_at(
                        r2,
                        c2,
                    ).revealed && field.tile_at(r2, c2).kind == TileKind::Empty),
            forall|r: int, c: int|
                #![trigger field.tile_at(r, c)]
                field.in_bounds(r, c) && field.tile_at(r, c).revealed && !f0.tile_at(
                    r,
                    c,
                ).revealed ==> qinit.contains(Position(r as usize, c as usize)) || (exists|
                    r2: int,
                    c2: int,
                |
                    adjacent(r, c, r2, c2) && field.in_bounds(r2, c2) && (#[trigger] field.tile_at(
                        r2,
                        c2,
                    )).revealed && !f0.tile_at(r2, c2).revealed && field.tile_at(r2, c2).kind
                        == TileKind::Empty),
            safe ==> forall|k: int|
                0 <= k < q@.len() ==> !f0.is_bomb_at((#[trigger] q@[k]).0 as int, q@[k].1 as int),
        ensures
            field.wf(),
            field.rows == f0.rows,
            field.cols == f0.cols,
            field.bombs == f0.bombs,
            kinds_preserved(f0, *field),
            revealed_monotone(f0, *field),
            !hit ==> flags_preserved(f0, *field),
            !hit ==> forall|r: int, c: int|
                #[trigger] field.is_bomb_at(r, c) ==> !field.tile_at(r, c).revealed,
            hit ==> field.all_revealed_unflagged(),
            !hit ==> q@.len() == 0,
            !hit ==> forall|k: int|
                0 <= k < qinit.len() && !f0.tile_at(
                    (#[trigger] qinit[k]).0 as int,
                    qinit[k].1 as int,
                ).flagged ==> field.tile_at(qinit[k].0 as int, qinit[k].1 as int).revealed
                    && field.tile_at(qinit[k].0 as int, qinit[k].1 as int).kind != TileKind::Bomb,
            !hit ==> forall|r: int, c: int, r2: int, c2: int|
                #![trigger field.tile_at(r, c), field.tile_at(r2, c2)]
                field.in_bounds(r, c) && !f0.tile_at(r, c).revealed && field.tile_at(
                    r,
                    c,
                ).revealed && field.tile_at(r, c).kind == TileKind::Empty && adjacent(r, c, r2, c2)
                    && field.in_bounds(r2, c2) ==> field.tile_at(r2, c2).revealed || field.tile_at(
                    r2,
                    c2,
                ).flagged,
            !hit ==> forall|r: int, c: int|
                #![trigger field.tile_at(r, c)]
                field.in_bounds(r, c) && field.tile_at(r, c).revealed && !f0.tile_at(
                    r,
                    c,
                ).revealed ==> qinit.contains(Position(r as usize, c as usize)) || (exists|
                    r2: int,
                    c2: int,
                |
                    adjacent(r, c, r2, c2) && field.in_bounds(r2, c2) && (#[trigger] field.tile_at(
                        r2,
                        c2,
                    )).revealed && !f0.tile_at(r2, c2).revealed && field.tile_at(r2, c2).kind
                        == TileKind::Empty),
            safe ==> !hit,
        decreases count_unvisited(visited@), q@.len(),
    {
        let ghost q_top = q@;
        let ghost f_top = *field;
        let ghost vis_top = visited@;
        let pos = q.remove(0);
        let ghost q_rm = q@;
        proof {
            lemma_vidx_bound(rows as int, cols as int, pos.0 as int, pos.1 as int);
        }
        let vi: usize = pos.0 * cols + pos.1;
        let was_visited = visited[vi];
        if !was_visited {
            visited[vi] = true;
            proof {
                lemma_count_unvisited_set(vis_top, vi as int);
            }
            let t = field.tile_matrix[pos.0][pos.1];
            if !t.flagged && !t.revealed {
                let newf = field.uncover(&pos);
                *field = newf;
                if t.is_bomb() {
                    proof {
                        if safe {
                            assert(qinit.len() > 0 ==> !f0.is_bomb_at(
                                qinit[0].0 as int,
                                qinit[0].1 as int,
                            ));
                            assert(!f0.is_bomb_at(q_top[0].0 as int, q_top[0].1 as int));
                            assert(f_top.tile_at(pos.0 as int, pos.1 as int).kind == f0.tile_at(
                                pos.0 as int,
                                pos.1 as int,
                            ).kind);
                            assert(false);
                        }
                    }
                    let g = field.game_over();
                    *field = g;
                    hit = true;
                    proof {
                        assert(kinds_preserved(f0, *field));
                        assert(revealed_monotone(f0, *field));
                    }
                    break ;
                } else if t.is_empty() {
                    proof {
                        if safe {
                            assert(f0.classified());
                            assert(f0.in_bounds(pos.0 as int, pos.1 as int));
                            assert(f_top.tile_at(pos.0 as int, pos.1 as int) == t);
                            assert(f_top.tile_at(pos.0 as int, pos.1 as int).kind == f0.tile_at(
                                pos.0 as int,
                                pos.1 as int,
                            ).kind);
                            assert(f0.tile_at(pos.0 as int, pos.1 as int).kind
                                == TileKind::Empty);
                            assert(f0.tile_at(pos.0 as int, pos.1 as int).kind == classified_kind(
                                f0.tile_at(pos.0 as int, pos.1 as int).kind,
                                f0.adj_bombs(pos.0 as int, pos.1 as int),
                            ));
                            assert(f0.adj_bombs(pos.0 as int, pos.1 as int) == 0);
                            assert(f0.bomb_ind(pos.0 - 1, pos.1 - 1) == 0);
                            assert(f0.bomb_ind(pos.0 - 1, pos.1 as int) == 0);
                            assert(f0.bomb_ind(pos.0 - 1, pos.1 + 1) == 0);
                            assert(f0.bomb_ind(pos.0 as int, pos.1 - 1) == 0);
                            assert(f0.bomb_ind(pos.0 as int, pos.1 + 1) == 0);
                            assert(f0.bomb_ind(pos.0 + 1, pos.1 - 1) == 0);
                            assert(f0.bomb_ind(pos.0 + 1, pos.1 as int) == 0);
                            assert(f0.bomb_ind(pos.0 + 1, pos.1 + 1) == 0);
                        }
                    }
                    if pos.0 > 0 && pos.1 > 0 {
                        q.push(Position(pos.0 - 1, pos.1 - 1));
                    }
                    if pos.0 > 0 {
                        q.push(Position(pos.0 - 1, pos.1));
                    }
                    if pos.0 > 0 && pos.1 + 1 < cols {
                        q.push(Position(pos.0 - 1, pos.1 + 1));
                    }
                    if pos.1 > 0 {
                        q.push(Position(pos.0, pos.1 - 1));
                    }
                    if pos.1 + 1 < cols {
                        q.push(Position(pos.0, pos.1 + 1));
                    }
                    if pos.0 + 1 < rows && pos.1 > 0 {
                        q.push(Position(pos.0 + 1, pos.1 - 1));
                    }
                    if pos.0 + 1 < rows {
                        q.push(Position(pos.0 + 1, pos.1));
                    }
                    if pos.0 + 1 < rows && pos.1 + 1 < cols {
                        q.push(Position(pos.0 + 1, pos.1 + 1));
                    }
                }
            }
        }
        proof {
            // How this iteration's final board relates to the board at
            // the top of the iteration: at most the popped position was
            // revealed, and nothing else about any tile changed.
            assert forall|r: int, c: int| f0.in_bounds(r, c) implies {
                &&& (#[trigger] field.tile_at(r, c)).kind == f_top.tile_at(r, c).kind
                &&& field.tile_at(r, c).position == f_top.tile_at(r, c).position
                &&& field.tile_at(r, c).selected == f_top.tile_at(r, c).selected
                &&& field.tile_at(r, c).flagged == f_top.tile_at(r, c).flagged
                &&& (f_top.tile_at(r, c).revealed ==> field.tile_at(r, c).revealed)
                &&& (!(r == pos.0 && c == pos.1) ==> field.tile_at(r, c) == f_top.tile_at(r, c))
            } by {
            }
            // The popped position is now accounted for: if it was not
            // flagged, it is revealed and is not a bomb (a visited skip
            // relies on the visited set's meaning at the top).
            if was_visited {
                assert(vis_top[vidx(cols as int, pos.0 as int, pos.1 as int)]);
                assert(field.tile_at(pos.0 as int, pos.1 as int).revealed || field.tile_at(
                    pos.0 as int,
                    pos.1 as int,
                ).flagged);
            }
            assert(field.tile_at(pos.0 as int, pos.1 as int).revealed || field.tile_at(
                pos.0 as int,
                pos.1 as int,
            ).flagged);
            assert(!f0.tile_at(pos.0 as int, pos.1 as int).flagged ==> (field.tile_at(
                pos.0 as int,
                pos.1 as int,
            ).revealed && field.tile_at(pos.0 as int, pos.1 as int).kind != TileKind::Bomb)) by {
                if !f0.tile_at(pos.0 as int, pos.1 as int).flagged {
                    assert(f_top.tile_at(pos.0 as int, pos.1 as int).flagged == f0.tile_at(
                        pos.0 as int,
                        pos.1 as int,
                    ).flagged);
                    if f_top.tile_at(pos.0 as int, pos.1 as int).revealed {
                        assert(!f_top.is_bomb_at(pos.0 as int, pos.1 as int));
                    }
                }
            }
            // Bombs other than a just-detonated one stay unrevealed.
            assert forall|r: int, c: int| #[trigger] field.is_bomb_at(r, c) implies !field.tile_at(
                r,
                c,
            ).revealed by {
                assert(f_top.is_bomb_at(r, c) ==> !f_top.tile_at(r, c).revealed);
            }
            // The visited set still only marks accounted positions.
            assert forall|r: int, c: int|
                field.in_bounds(r, c) && #[trigger] visited@[vidx(cols as int, r, c)] implies field
                .tile_at(r, c).revealed || field.tile_at(r, c).flagged by {
                lemma_vidx_bound(rows as int, cols as int, r, c);
                if vidx(cols as int, r, c) == vi as int {
                    lemma_vidx_inj(cols as int, r, c, pos.0 as int, pos.1 as int);
                } else {
                    assert(vis_top[vidx(cols as int, r, c)] == visited@[vidx(cols as int, r, c)]);
                    assert(f_top.tile_at(r, c).revealed || f_top.tile_at(r, c).flagged);
                }
            }
            // Every initially queued, unflagged position is still queued
            // or already revealed.
            assert forall|k: int|
                0 <= k < qinit.len() && !f0.tile_at(
                    (#[trigger] qinit[k]).0 as int,
                    qinit[k].1 as int,
                ).flagged implies q@.contains(qinit[k]) || (field.tile_at(
                qinit[k].0 as int,
                qinit[k].1 as int,
            ).revealed && field.tile_at(qinit[k].0 as int, qinit[k].1 as int).kind
                != TileKind::Bomb) by {
                let e = qinit[k];
                if q_top.contains(e) {
                    assert(exists|j: int| 0 <= j < q_top.len() && q_top[j] == e);
                    let j = choose|j: int| 0 <= j < q_top.len() && q_top[j] == e;
                    if j == 0 {
                        assert(e == pos);
                    } else {
                        assert(q_rm[j - 1] == q_top[j]);
                        assert(q_rm.contains(e));
                        assert(q@.contains(e));
                    }
                } else {
                    assert(f_top.tile_at(e.0 as int, e.1 as int).revealed && f_top.tile_at(
                        e.0 as int,
                        e.1 as int,
                    ).kind != TileKind::Bomb);
                    assert(f0.in_bounds(e.0 as int, e.1 as int));
                    if e.0 == pos.0 && e.1 == pos.1 {
                        assert(field.tile_at(e.0 as int, e.1 as int).revealed && field.tile_at(
                            e.0 as int,
                            e.1 as int,
                        ).kind != TileKind::Bomb);
                    } else {
                        assert(field.tile_at(e.0 as int, e.1 as int) == f_top.tile_at(
                            e.0 as int,
                            e.1 as int,
                        ));
                    }
                }
            }
            // Every newly revealed empty tile still has each existing
            // neighbour queued or already accounted for.
            assert forall|r: int, c: int, r2: int, c2: int|
                field.in_bounds(r, c) && !f0.tile_at(r, c).revealed && (#[trigger] field.tile_at(
                    r,
                    c,
                )).revealed && field.tile_at(r, c).kind == TileKind::Empty && adjacent(r, c, r2, c2)
                    && field.in_bounds(r2, c2) implies q@.contains(
                Position(r2 as usize, c2 as usize),
            ) || (#[trigger] field.tile_at(r2, c2)).revealed || field.tile_at(
                r2,
                c2,
            ).flagged by {
                let n2 = Position(r2 as usize, c2 as usize);
                if r == pos.0 as int && c == pos.1 as int && !f_top.tile_at(r, c).revealed {
                    // the popped tile itself was just revealed and is
                    // empty, so every existing neighbour was enqueued
                    assert(q@.contains(n2));
                } else {
                    // the obligation already held at the top of the
                    // iteration
                    assert(f_top.tile_at(r, c).revealed && f_top.tile_at(r, c).kind
                        == TileKind::Empty);
                    if q_top.contains(n2) {
                        let j = choose|j: int| 0 <= j < q_top.len() && q_top[j] == n2;
                        if j == 0 {
                            assert(n2 == pos);
                            assert(field.tile_at(r2, c2).revealed || field.tile_at(
                                r2,
                                c2,
                            ).flagged);
                        } else {
                            assert(q_rm[j - 1] == q_top[j]);
                            assert(q_rm.contains(n2));
                            assert(q@.contains(n2));
                        }
                    } else {
                        assert(f_top.tile_at(r2, c2).revealed || f_top.tile_at(r2, c2).flagged);
                    }
                }
            }
            // Queue provenance: every queued position was queued at the
            // start or borders a newly revealed empty tile.
            assert forall|k: int| 0 <= k < q@.len() implies qinit.contains(#[trigger] q@[k]) || (
            exists|r2: int, c2: int|
                adjacent(q@[k].0 as int, q@[k].1 as int, r2, c2) && field.in_bounds(r2, c2) && (
                #[trigger] field.tile_at(r2, c2)).revealed && !f0.tile_at(r2, c2).revealed
                    && field.tile_at(r2, c2).kind == TileKind::Empty) by {
                if k < q_rm.len() {
                    assert(q@[k] == q_rm[k]);
                    assert(q_rm[k] == q_top[k + 1]);
                    if !qinit.contains(q_top[k + 1]) {
                        let (r2, c2) = choose|r2: int, c2: int|
                            adjacent(q_top[k + 1].0 as int, q_top[k + 1].1 as int, r2, c2)
                                && f_top.in_bounds(r2, c2) && (#[trigger] f_top.tile_at(
                                r2,
                                c2,
                            )).revealed && !f0.tile_at(r2, c2).revealed && f_top.tile_at(
                                r2,
                                c2,
                            ).kind == TileKind::Empty;
                        assert(field.tile_at(r2, c2).revealed && field.tile_at(r2, c2).kind
                            == TileKind::Empty);
                    }
                } else {
                    // a freshly enqueued neighbour of the just revealed
                    // empty tile
                    assert(adjacent(q@[k].0 as int, q@[k].1 as int, pos.0 as int, pos.1 as int));
                    assert(field.in_bounds(pos.0 as int, pos.1 as int));
                    assert(field.tile_at(pos.0 as int, pos.1 as int).revealed);
                    assert(!f0.tile_at(pos.0 as int, pos.1 as int).revealed);
                    assert(field.tile_at(pos.0 as int, pos.1 as int).kind == TileKind::Empty);
                }
            }
            // Revealed provenance: every newly revealed tile was queued
            // at the start or borders a newly revealed empty tile.
            assert forall|r: int, c: int|
                field.in_bounds(r, c) && (#[trigger] field.tile_at(r, c)).revealed && !f0.tile_at(
                    r,
                    c,
                ).revealed implies qinit.contains(Position(r as usize, c as usize)) || (exists|
                r2: int,
                c2: int,
            |
                adjacent(r, c, r2, c2) && field.in_bounds(r2, c2) && (#[trigger] field.tile_at(
                    r2,
                    c2,
                )).revealed && !f0.tile_at(r2, c2).revealed && field.tile_at(r2, c2).kind
                    == TileKind::Empty) by {
                let here = Position(r as usize, c as usize);
                if r == pos.0 as int && c == pos.1 as int && !f_top.tile_at(r, c).revealed {
                    // the popped position was revealed this iteration;
                    // its own queue provenance at the top carries over
                    assert(q_top[0] == pos);
                    if !qinit.contains(pos) {
                        let (r2, c2) = choose|r2: int, c2: int|
                            adjacent(pos.0 as int, pos.1 as int, r2, c2) && f_top.in_bounds(r2, c2)
                                && (#[trigger] f_top.tile_at(r2, c2)).revealed && !f0.tile_at(
                                r2,
                                c2,
                            ).revealed && f_top.tile_at(r2, c2).kind == TileKind::Empty;
                        assert(field.tile_at(r2, c2).revealed && field.tile_at(r2, c2).kind
                            == TileKind::Empty);
                    }
                } else {
                    assert(f_top.tile_at(r, c).revealed && !f0.tile_at(r, c).revealed);
                    if !qinit.contains(here) {
                        let (r2, c2) = choose|r2: int, c2: int|
                            adjacent(r, c, r2, c2) && f_top.in_bounds(r2, c2) && (
                            #[trigger] f_top.tile_at(r2, c2)).revealed && !f0.tile_at(
                                r2,
                                c2,
                            ).revealed && f_top.tile_at(r2, c2).kind == TileKind::Empty;
                        assert(field.tile_at(r2, c2).revealed && field.tile_at(r2, c2).kind
                            == TileKind::Empty);
                    }
                }
            }
        }
    }
    proof {
        if !hit {
            assert forall|k: int|
                0 <= k < qinit.len() && !f0.tile_at(
                    (#[trigger] qinit[k]).0 as int,
                    qinit[k].1 as int,
                ).flagged && f0.tile_at(qinit[k].0 as int, qinit[k].1 as int).kind
                == TileKind::Bomb implies hit by {
                assert(field.tile_at(qinit[k].0 as int, qinit[k].1 as int).kind == f0.tile_at(
                    qinit[k].0 as int,
                    qinit[k].1 as int,
                ).kind);
            }
        }
        if hit {
            assert forall|k: int|
                0 <= k < qinit.len() && !f0.tile_at(
                    (#[trigger] qinit[k]).0 as int,
                    qinit[k].1 as int,
                ).flagged implies field.tile_at(qinit[k].0 as int, qinit[k].1 as int).revealed by {
                assert(field.in_bounds(qinit[k].0 as int, qinit[k].1 as int));
            }
        }
    }
    hit
}

/// Collects the positions of every existing, unflagged neighbour of `p`,
/// the tiles a chord reveals.
fn unflagged_neighbour_positions(field: &Field, p: Position) -> (res: Vec<Position>)
    requires
        field.wf(),
        field.in_bounds(p.0 as int, p.1 as int),
    ensures
        forall|k: int|
            0 <= k < res@.len() ==> {
                &&& field.in_bounds((#[trigger] res@[k]).0 as int, res@[k].1 as int)
                &&& is_neighbour(p, res@[k].0 as int, res@[k].1 as int)
                &&& !field.tile_at(res@[k].0 as int, res@[k].1 as int).flagged
            },
        forall|r: int, c: int|
            field.in_bounds(r, c) && is_neighbour(p, r, c) && !field.tile_at(r, c).flagged
                ==> res@.contains(Position(r as usize, c as usize)),
{
    let lo_r: usize = if p.0 >= 1 {
        p.0 - 1
    } else {
        0
    };
    let hi_r: usize = if p.0 + 1 <= field.rows - 1 {
        p.0 + 1
    } else {
        field.rows - 1
    };
    let lo_c: usize = if p.1 >= 1 {
        p.1 - 1
    } else {
        0
    };
    let hi_c: usize = if p.1 + 1 <= field.cols - 1 {
        p.1 + 1
    } else {
        field.cols - 1
    };
    let mut res: Vec<Position> = Vec::new();
    let mut i: usize = lo_r;
    while i <= hi_r
        invariant
            field.wf(),
            field.in_bounds(p.0 as int, p.1 as int),
            lo_r <= i,
            i <= hi_r + 1,
            hi_r < field.rows,
            lo_r == (if p.0 >= 1 {
                p.0 - 1
            } else {
                0
            }),
            hi_r as int == (if p.0 + 1 <= field.rows - 1 {
                p.0 + 1
            } else {
                field.rows - 1
            }),
            lo_c == (if p.1 >= 1 {
                p.1 - 1
            } else {
                0
            }),
            hi_c as int == (if p.1 + 1 <= field.cols - 1 {
                p.1 + 1
            } else {
                field.cols - 1
            }),
            forall|k: int|
                0 <= k < res@.len() ==> {
                    &&& field.in_bounds((#[trigger] res@[k]).0 as int, res@[k].1 as int)
                    &&& is_neighbour(p, res@[k].0 as int, res@[k].1 as int)
                    &&& !field.tile_at(res@[k].0 as int, res@[k].1 as int).flagged
                },
            forall|r: int, c: int|
                field.in_bounds(r, c) && is_neighbour(p, r, c) && !field.tile_at(r, c).flagged && r
                    < i ==> res@.contains(Position(r as usize, c as usize)),
        decreases hi_r + 1 - i,
    {
        let mut j: usize = lo_c;
        while j <= hi_c
            invariant
                field.wf(),
                field.in_bounds(p.0 as int, p.1 as int),
                lo_r <= i <= hi_r,
                hi_r < field.rows,
                lo_c <= j,
                j <= hi_c + 1,
                lo_r == (if p.0 >= 1 {
                    p.0 - 1
                } else {
                    0
                }),
                hi_r as int == (if p.0 + 1 <= field.rows - 1 {
                    p.0 + 1
                } else {
                    field.rows - 1
                }),
                lo_c == (if p.1 >= 1 {
                    p.1 - 1
                } else {
                    0
                }),
                hi_c as int == (if p.1 + 1 <= field.cols - 1 {
                    p.1 + 1
                } else {
                    field.cols - 1
                }),
                forall|k: int|
                    0 <= k < res@.len() ==> {
                        &&& field.in_bounds((#[trigger] res@[k]).0 as int, res@[k].1 as int)
                        &&& is_neighbour(p, res@[k].0 as int, res@[k].1 as int)
                        &&& !field.tile_at(res@[k].0 as int, res@[k].1 as int).flagged
                    },
                forall|r: int, c: int|
                    field.in_bounds(r, c) && is_neighbour(p, r, c) && !field.tile_at(r, c).flagged
                        && (r < i || (r == i && c < j)) ==> res@.contains(
                        Position(r as usize, c as usize),
                    ),
            decreases hi_c + 1 - j,
        {
            if !(i == p.0 && j == p.1) && !field.tile_matrix[i][j].flagged {
                res.push(Position(i, j));
            }
            j += 1;
        }
        i += 1;
    }
    res
}

/// What carries over between two boards whose tiles agree on kind and
/// revealedness everywhere (flags and selection may differ).
proof fn lemma_play_state_transfer(f1: Field, f2: Field)
    requires
        f1.wf(),
        f2.rows == f1.rows,
        f2.cols == f1.cols,
        f2.tile_matrix@.len() == f1.tile_matrix@.len(),
        forall|r: int|
            0 <= r < f1.rows ==> (#[trigger] f2.tile_matrix@[r])@.len()
                == f1.tile_matrix@[r]@.len(),
        forall|r: int, c: int|
            f1.in_bounds(r, c) ==> {
                &&& (#[trigger] f2.tile_at(r, c)).kind == f1.tile_at(r, c).kind
                &&& f2.tile_at(r, c).revealed == f1.tile_at(r, c).revealed
            },
    ensures
        f2.total_bombs() == f1.total_bombs(),
        f1.classified() ==> f2.classified(),
        f2.all_safe_revealed() <==> f1.all_safe_revealed(),
        (forall|r: int, c: int| #[trigger] f2.is_bomb_at(r, c) ==> !f2.tile_at(r, c).revealed)
            <==> (forall|r: int, c: int|
            #[trigger] f1.is_bomb_at(r, c) ==> !f1.tile_at(r, c).revealed),
        forall|p: Position| f1.safe_zone_clear(p) ==> #[trigger] f2.safe_zone_clear(p),
{
    assert forall|r: int, c: int| f1.in_bounds(r, c) implies (#[trigger] f2.tile_at(r, c)).kind
        == f1.tile_at(r, c).kind by {}
    lemma_kinds_agree_transfer(f1, f2);
    if f1.all_safe_revealed() {
        assert forall|r: int, c: int|
            f2.in_bounds(r, c) && (#[trigger] f2.tile_at(r, c)).kind
                != TileKind::Bomb implies f2.tile_at(r, c).revealed by {
            assert(f1.tile_at(r, c).revealed);
        }
    }
    if f2.all_safe_revealed() {
        assert forall|r: int, c: int|
            f1.in_bounds(r, c) && (#[trigger] f1.tile_at(r, c)).kind
                != TileKind::Bomb implies f1.tile_at(r, c).revealed by {
            assert(f2.tile_at(r, c).kind != TileKind::Bomb);
            assert(f2.tile_at(r, c).revealed);
        }
    }
    if (forall|r: int, c: int| #[trigger] f1.is_bomb_at(r, c) ==> !f1.tile_at(r, c).revealed) {
        assert forall|r: int, c: int| #[trigger] f2.is_bomb_at(r, c) implies !f2.tile_at(
            r,
            c,
        ).revealed by {
            assert(f1.is_bomb_at(r, c));
        }
    }
    if (forall|r: int, c: int| #[trigger] f2.is_bomb_at(r, c) ==> !f2.tile_at(r, c).revealed) {
        assert forall|r: int, c: int| #[trigger] f1.is_bomb_at(r, c) implies !f1.tile_at(
            r,
            c,
        ).revealed by {
            assert(f2.is_bomb_at(r, c));
        }
    }
}

/// Where the game stands.
#[derive(Clone, Copy, PartialEq, Eq, Structural, Debug)]
pub enum GameStatus {
    AwaitingFirstReveal,
    InProgress,
    Won,
    Lost,
}

/// An abstract player action, handed to the session by the input layer.
#[derive(Clone, Copy, PartialEq, Eq, Structural, Debug)]
pub enum Action {
    Reveal(Position),
    ToggleFlag(Position),
    Restart,
    Quit,
}

/// The game session: the chosen difficulty, the board it owns, and
/// where the game stands.
#[derive(Debug)]
pub struct Sweeper {
    pub difficulty: Difficulty,
    pub field: Field,
    pub status: GameStatus,
}

/// A session freshly built for `difficulty`, before the first reveal.
pub open spec fn fresh_session(
    res: Result<Sweeper, ConfigError>,
    difficulty: Difficulty,
    rows: int,
    cols: int,
    bombs: int,
) -> bool {
    res matches Ok(s) && {
        &&& s.inv()
        &&& s.difficulty == difficulty
        &&& s.status == GameStatus::AwaitingFirstReveal
        &&& s.field.rows == rows
        &&& s.field.cols == cols
        &&& s.field.bomb_count() == bombs
        &&& s.field.blank()
    }
}

pub open spec fn clamp_coord(v: int, hi: int) -> int {
    if v < 0 {
        0
    } else if v > hi {
        hi
    } else {
        v
    }
}

pub open spec fn moved_row(r: int, direction: CursorDirection) -> int {
    match direction {
        CursorDirection::Up => r - 1,
        CursorDirection::Down => r + 1,
        _ => r,
    }
}

pub open spec fn moved_col(c: int, direction: CursorDirection) -> int {
    match direction {
        CursorDirection::Left => c - 1,
        CursorDirection::Right => c + 1,
        _ => c,
    }
}

impl Sweeper {
    /// The session invariant. The board is well formed and its bomb
    /// target leaves room for a safe zone; before the first reveal every
    /// tile is an unrevealed `Empty`; once generated, the board carries
    /// exactly the target number of bombs, each non-bomb tile classified
    /// by its true adjacent-bomb count; while the game runs no bomb is
    /// revealed and at least one safe tile is still hidden; a win means
    /// every safe tile is revealed; a loss leaves the whole board
    /// revealed and unflagged.
    pub open spec fn inv(self) -> bool {
        &&& self.field.wf()
        &&& self.field.placeable()
        &&& (self.status == GameStatus::AwaitingFirstReveal ==> forall|r: int, c: int|
            self.field.in_bounds(r, c) ==> (#[trigger] self.field.tile_at(r, c)).kind
                == TileKind::Empty && !self.field.tile_at(r, c).revealed)
        &&& (self.status != GameStatus::AwaitingFirstReveal ==> self.field.classified()
            && self.field.total_bombs() == self.field.bomb_count())
        &&& (self.status == GameStatus::InProgress ==> forall|r: int, c: int|
            #[trigger] self.field.is_bomb_at(r, c) ==> !self.field.tile_at(r, c).revealed)
        &&& (self.status == GameStatus::InProgress ==> !self.field.all_safe_revealed())
        &&& (self.status == GameStatus::Won ==> self.field.all_safe_revealed())
        &&& (self.status == GameStatus::Won ==> forall|r: int, c: int|
            #[trigger] self.field.is_bomb_at(r, c) ==> !self.field.tile_at(r, c).revealed)
        &&& (self.status == GameStatus::Lost ==> self.field.all_revealed_unflagged())
    }

    /// Builds a session for the given difficulty. The named presets
    /// always succeed; a custom game succeeds exactly when its dimensions
    /// and bomb count can make a board.
    pub fn new(difficulty: Difficulty, custom_params: Option<(usize, usize, usize)>) -> (res:
        Result<Sweeper, ConfigError>)
        ensures
            difficulty == Difficulty::Easy ==> fresh_session(res, difficulty, 9, 9, 10),
            difficulty == Difficulty::Medium ==> fresh_session(res, difficulty, 16, 16, 40),
            difficulty == Difficulty::Hard ==> fresh_session(res, difficulty, 16, 30, 99),
            difficulty == Difficulty::Nightmare ==> fresh_session(res, difficulty, 25, 55, 481),
            difficulty == Difficulty::Custom && (custom_params matches None) ==> res == Err::<
                Sweeper,
                ConfigError,
            >(ConfigError::MissingCustomParameters),
            difficulty == Difficulty::Custom ==> (custom_params matches Some(t) ==> {
                &&& (t.0 == 0 || t.1 == 0) ==> res == Err::<Sweeper, ConfigError>(
                    ConfigError::ZeroDimensions,
                )
                &&& (t.0 >= 1 && t.1 >= 1 && t.0 * t.1 > usize::MAX) ==> res == Err::<
                    Sweeper,
                    ConfigError,
                >(ConfigError::GridTooLarge)
                &&& (t.0 >= 1 && t.1 >= 1 && t.0 * t.1 <= usize::MAX && t.2 + max_zone_size(
                    t.0 as int,
                    t.1 as int,
                ) > t.0 * t.1) ==> res == Err::<Sweeper, ConfigError>(ConfigError::TooManyBombs)
                &&& (t.0 >= 1 && t.1 >= 1 && t.0 * t.1 <= usize::MAX && t.2 + max_zone_size(
                    t.0 as int,
                    t.1 as int,
                ) <= t.0 * t.1) ==> fresh_session(
                    res,
                    difficulty,
                    t.0 as int,
                    t.1 as int,
                    t.2 as int,
                )
            }),
    {
        let created: Result<Field, ConfigError> = match difficulty {
            Difficulty::Custom => {
                match custom_params {
                    None => {
                        return Err(ConfigError::MissingCustomParameters);
                    },
                    Some((rows, cols, bombs)) => Field::create(rows, cols, bombs),
                }
            },
            Difficulty::Easy => Field::create(9, 9, 10),
            Difficulty::Medium => Field::create(16, 16, 40),
            Difficulty::Hard => Field::create(16, 30, 99),
            Difficulty::Nightmare => Field::create(25, 55, 481),
        };
        match created {
            Ok(field) => Ok(
                Sweeper { difficulty, field, status: GameStatus::AwaitingFirstReveal },
            ),
            Err(e) => Err(e),
        }
    }

    /// Moves the cursor one step, clamped to the board.
    pub fn move_cursor(&self, current_cursor: UnsafePosition, direction: CursorDirection) -> (p:
        Position)
        requires
            self.inv(),
        ensures
            p.0 as int == clamp_coord(
                moved_row(current_cursor.0 as int, direction),
                self.field.rows - 1,
            ),
            p.1 as int == clamp_coord(
                moved_col(current_cursor.1 as int, direction),
                self.field.cols - 1,
            ),
    {
        let r0: i64 = current_cursor.0 as i64;
        let c0: i64 = current_cursor.1 as i64;
        let (r1, c1): (i64, i64) = match direction {
            CursorDirection::Up => (r0 - 1, c0),
            CursorDirection::Down => (r0 + 1, c0),
            CursorDirection::Left => (r0, c0 - 1),
            CursorDirection::Right => (r0, c0 + 1),
        };
        let pr: usize = if r1 < 0 {
            0
        } else {
            let ru = r1 as usize;
            if ru > self.field.rows - 1 {
                self.field.rows - 1
            } else {
                ru
            }
        };
        let pc: usize = if c1 < 0 {
            0
        } else {
            let cu = c1 as usize;
            if cu > self.field.cols - 1 {
                self.field.cols - 1
            } else {
                cu
            }
        };
        Position(pr, pc)
    }

    /// Moves the selection mark to `position`, deselecting every other
    /// tile. Selection is cursor display state and runs in any status.
    pub fn select(&mut self, position: &Position)
        requires
            old(self).inv(),
        ensures
            final(self).inv(),
            final(self).status == old(self).status,
            final(self).difficulty == old(self).difficulty,
            same_shape(old(self).field, final(self).field),
            forall|r: int, c: int|
                old(self).field.in_bounds(r, c) ==> #[trigger] final(self).field.tile_at(r, c)
                    == (Tile {
                    selected: r == position.0 && c == position.1,
                    ..old(self).field.tile_at(r, c)
                }),
    {
        let f = self.field.select(*position);
        proof {
            lemma_play_state_transfer(self.field, f);
            if self.field.all_revealed_unflagged() {
                assert forall|r: int, c: int| f.in_bounds(r, c) implies (#[trigger] f.tile_at(
                    r,
                    c,
                )).revealed && !f.tile_at(r, c).flagged by {
                    assert(self.field.tile_at(r, c).revealed && !self.field.tile_at(r, c).flagged);
                }
            }
        }
        self.field = f;
    }
}

/// The full contract of a reveal action at `p`, relating the session
/// after the action to the session before it.
pub open spec fn reveal_post(pre: Sweeper, post: Sweeper, p: Position) -> bool {
    &&& post.difficulty == pre.difficulty
    &&& same_shape(pre.field, post.field)
    &&& flood_closed(pre.field, post.field)
    &&& (post.status != GameStatus::Lost ==> reveal_from(pre.field, post.field, p))
    &&& ((pre.status == GameStatus::Won || pre.status == GameStatus::Lost || !pre.field.in_bounds(
        p.0 as int,
        p.1 as int,
    )) ==> post == pre)
    &&& ((pre.status == GameStatus::AwaitingFirstReveal && pre.field.in_bounds(
        p.0 as int,
        p.1 as int,
    )) ==> {
        &&& post.field.classified()
        &&& post.field.total_bombs() == post.field.bomb_count()
        &&& post.field.safe_zone_clear(p)
        &&& post.field.tile_at(p.0 as int, p.1 as int).revealed
        &&& (post.status == GameStatus::InProgress || post.status == GameStatus::Won)
    })
    &&& ((pre.status == GameStatus::InProgress && pre.field.in_bounds(p.0 as int, p.1 as int))
        ==> {
        let t = pre.field.tile_at(p.0 as int, p.1 as int);
        &&& kinds_preserved(pre.field, post.field)
        &&& revealed_monotone(pre.field, post.field)
        &&& (post.status == GameStatus::InProgress || post.status == GameStatus::Won
            || post.status == GameStatus::Lost)
        &&& (post.status != GameStatus::Lost ==> flags_preserved(pre.field, post.field))
        &&& (post.status == GameStatus::Lost ==> post.field.all_revealed_unflagged())
        &&& (t.flagged ==> post == pre)
        &&& ((t.revealed && t.kind == TileKind::Empty) ==> post == pre)
        &&& (match t.kind {
            TileKind::Safe(n) => (t.revealed && !t.flagged) ==> {
                &&& (pre.field.adj_flags(p.0 as int, p.1 as int) != n ==> post == pre)
                &&& (pre.field.adj_flags(p.0 as int, p.1 as int) == n ==> chorded(
                    pre.field,
                    post.field,
                    p,
                ))
            },
            _ => true,
        })
        &&& ((!t.revealed && !t.flagged) ==> {
            &&& post.field.tile_at(p.0 as int, p.1 as int).revealed
            &&& (t.kind == TileKind::Bomb ==> post.status == GameStatus::Lost)
            &&& (t.kind == TileKind::Empty ==> post.status != GameStatus::Lost)
            &&& (match t.kind {
                TileKind::Safe(n) => {
                    &&& (pre.field.adj_flags(p.0 as int, p.1 as int) == n ==> chorded(
                        pre.field,
                        post.field,
                        p,
                    ))
                    &&& (pre.field.adj_flags(p.0 as int, p.1 as int) != n ==> (uncover_rel(
                        pre.field,
                        post.field,
                        p,
                    ) && post.status != GameStatus::Lost))
                },
                _ => true,
            })
        })
    })
}

/// What a chord at `p` guarantees: every existing neighbour of `p` that
/// was not flagged is revealed afterwards.
pub open spec fn chorded(pre: Field, post: Field, p: Position) -> bool {
    forall|r: int, c: int|
        pre.in_bounds(r, c) && is_neighbour(p, r, c) && !(#[trigger] pre.tile_at(r, c)).flagged
            ==> post.tile_at(r, c).revealed
}

impl Sweeper {
    /// The reveal action. On the very first reveal it generates the board
    /// around the chosen tile, then always runs the cascading reveal
    /// engine: a bomb loses the game and bares the whole board; an empty
    /// tile floods its region; a revealed numbered tile chords when
    /// exactly its number of neighbours is flagged. Revealing every safe
    /// tile wins. Terminal sessions, flagged tiles and out-of-range
    /// positions are left untouched.
    pub fn reveal_recursively(&mut self, position: &Position)
        requires
            old(self).inv(),
        ensures
            final(self).inv(),
            reveal_post(*old(self), *final(self), *position),
    {
        let p = *position;
        match self.status {
            GameStatus::Won => {
                return ;
            },
            GameStatus::Lost => {
                return ;
            },
            GameStatus::AwaitingFirstReveal => {
                if !(p.0 < self.field.rows && p.1 < self.field.cols) {
                    return ;
                }
                self.first_reveal(p);
                return ;
            },
            GameStatus::InProgress => {
                if !(p.0 < self.field.rows && p.1 < self.field.cols) {
                    return ;
                }
                let t = self.field.tile_matrix[p.0][p.1];
                if t.flagged {
                    return ;
                }
                if t.revealed {
                    match t.kind {
                        TileKind::Safe(_) => {
                            self.chord_revealed(p);
                            return ;
                        },
                        _ => {
                            return ;
                        },
                    }
                } else {
                    self.reveal_hidden(p);
                    return ;
                }
            },
        }
    }

    /// The very first reveal: generates the board around `p` (which is
    /// then bomb-free together with all its neighbours, so the reveal
    /// cannot lose) and floods outward from `p`.
    fn first_reveal(&mut self, p: Position)
        requires
            old(self).inv(),
            old(self).status == GameStatus::AwaitingFirstReveal,
            old(self).field.in_bounds(p.0 as int, p.1 as int),
        ensures
            final(self).inv(),
            final(self).difficulty == old(self).difficulty,
            same_shape(old(self).field, final(self).field),
            final(self).field.classified(),
            final(self).field.total_bombs() == final(self).field.bomb_count(),
            final(self).field.safe_zone_clear(p),
            final(self).field.tile_at(p.0 as int, p.1 as int).revealed,
            final(self).status == GameStatus::InProgress || final(self).status == GameStatus::Won,
            flood_closed(old(self).field, final(self).field),
            reveal_from(old(self).field, final(self).field, p),
    {
        self.generate_board(p);
        let ghost mid = self.field;
        self.status = GameStatus::InProgress;
        self.reveal_generated(p);
        proof {
            // the generated board is all hidden, so closure relative to
            // it is closure relative to the board before generation too
            assert forall|r: int, c: int, r2: int, c2: int|
                #![trigger self.field.tile_at(r, c), self.field.tile_at(r2, c2)]
                self.field.in_bounds(r, c) && !old(self).field.tile_at(r, c).revealed && self
                    .field.tile_at(r, c).revealed && self.field.tile_at(r, c).kind
                    == TileKind::Empty && adjacent(r, c, r2, c2) && self.field.in_bounds(r2, c2)
                    && !self.field.tile_at(r2, c2).flagged implies self.field.tile_at(
                r2,
                c2,
            ).revealed by {
                assert(!mid.tile_at(r, c).revealed);
            }
            assert forall|r: int, c: int|
                self.field.in_bounds(r, c) && (#[trigger] self.field.tile_at(r, c)).revealed
                    && !old(self).field.tile_at(r, c).revealed && !(r == p.0 && c == p.1)
                    && !is_neighbour(p, r, c) implies exists|r2: int, c2: int|
                adjacent(r, c, r2, c2) && self.field.in_bounds(r2, c2) && (
                #[trigger] self.field.tile_at(r2, c2)).revealed && !old(self).field.tile_at(
                    r2,
                    c2,
                ).revealed && self.field.tile_at(r2, c2).kind == TileKind::Empty by {
                assert(!mid.tile_at(r, c).revealed);
                let (r2, c2) = choose|r2: int, c2: int|
                    adjacent(r, c, r2, c2) && self.field.in_bounds(r2, c2) && (
                    #[trigger] self.field.tile_at(r2, c2)).revealed && !mid.tile_at(
                        r2,
                        c2,
                    ).revealed && self.field.tile_at(r2, c2).kind == TileKind::Empty;
                assert(!old(self).field.tile_at(r2, c2).revealed);
            }
        }
    }

    /// Runs the opening cascade on a freshly generated board: the safe
    /// zone around `p` is bomb-free, so this reveal can never lose.
    fn reveal_generated(&mut self, p: Position)
        requires
            old(self).status == GameStatus::InProgress,
            old(self).field.wf(),
            old(self).field.placeable(),
            old(self).field.classified(),
            old(self).field.total_bombs() == old(self).field.bomb_count(),
            old(self).field.safe_zone_clear(p),
            old(self).field.all_hidden(),
            old(self).field.in_bounds(p.0 as int, p.1 as int),
        ensures
            final(self).inv(),
            final(self).difficulty == old(self).difficulty,
            same_shape(old(self).field, final(self).field),
            final(self).field.safe_zone_clear(p),
            final(self).field.tile_at(p.0 as int, p.1 as int).revealed,
            final(self).status == GameStatus::InProgress || final(self).status == GameStatus::Won,
            flood_closed(old(self).field, final(self).field),
            reveal_from(old(self).field, final(self).field, p),
    {
        let ghost fp = self.field;
        proof {
            assert forall|r: int, c: int| #[trigger] self.field.is_bomb_at(r, c) implies !self
                .field.tile_at(r, c).revealed by {
                assert(!self.field.tile_at(r, c).revealed);
            }
        }
        let mut queue: Vec<Position> = Vec::new();
        queue.push(p);
        proof {
            assert forall|k: int| 0 <= k < queue@.len() implies !fp.is_bomb_at(
                (#[trigger] queue@[k]).0 as int,
                queue@[k].1 as int,
            ) by {
                assert(queue@[k] == p);
                assert(is_near(p, p.0 as int, p.1 as int));
            }
        }
        let ghost q0 = queue@;
        let hit = run_cascade(&mut self.field, queue);
        proof {
            assert(is_near(p, p.0 as int, p.1 as int));
            assert(!fp.is_bomb_at(p.0 as int, p.1 as int));
            assert(!hit);
            assert(q0[0] == p);
            assert(!fp.tile_at(p.0 as int, p.1 as int).flagged);
            assert(self.field.tile_at(p.0 as int, p.1 as int).revealed);
        }
        self.finish_after_cascade(Ghost(fp), hit);
        proof {
            assert(self.field.safe_zone_clear(p));
            assert forall|r: int, c: int|
                self.field.in_bounds(r, c) && (#[trigger] self.field.tile_at(r, c)).revealed
                    && !fp.tile_at(r, c).revealed && !(r == p.0 && c == p.1) && !is_neighbour(
                    p,
                    r,
                    c,
                ) implies exists|r2: int, c2: int|
                adjacent(r, c, r2, c2) && self.field.in_bounds(r2, c2) && (
                #[trigger] self.field.tile_at(r2, c2)).revealed && !fp.tile_at(r2, c2).revealed
                    && self.field.tile_at(r2, c2).kind == TileKind::Empty by {
                let here = Position(r as usize, c as usize);
                if q0.contains(here) {
                    let j = choose|j: int| 0 <= j < q0.len() && q0[j] == here;
                    assert(here == p);
                    assert(false);
                }
            }
        }
    }

    /// Generates the board for the first reveal at `p`: exactly the
    /// target number of bombs land outside the safe zone around `p`, and
    /// every non-bomb tile is classified.
    fn generate_board(&mut self, p: Position)
        requires
            old(self).inv(),
            old(self).status == GameStatus::AwaitingFirstReveal,
            old(self).field.in_bounds(p.0 as int, p.1 as int),
        ensures
            final(self).status == old(self).status,
            final(self).difficulty == old(self).difficulty,
            same_shape(old(self).field, final(self).field),
            final(self).field.wf(),
            final(self).field.placeable(),
            final(self).field.classified(),
            final(self).field.total_bombs() == final(self).field.bomb_count(),
            final(self).field.safe_zone_clear(p),
            final(self).field.all_hidden(),
            final(self).field.in_bounds(p.0 as int, p.1 as int),
    {
        proof {
            lemma_placeable_any_start(self.field, p);
        }
        let populated = match self.field.populate(&p) {
            Ok(f) => f,
            Err(_) => unreached(),
        };
        self.field = populated;
    }

    /// Settles the status after a cascade: a detonation loses the game,
    /// revealing the last safe tile wins it, and otherwise play goes on.
    /// Re-establishes the session invariant from the cascade's effects.
    fn finish_after_cascade(&mut self, Ghost(base): Ghost<Field>, hit: bool)
        requires
            old(self).status == GameStatus::InProgress,
            old(self).field.wf(),
            old(self).field.placeable(),
            base.wf(),
            base.classified(),
            base.total_bombs() == base.bomb_count(),
            same_shape(base, old(self).field),
            kinds_preserved(base, old(self).field),
            hit ==> old(self).field.all_revealed_unflagged(),
            !hit ==> forall|r: int, c: int|
                #[trigger] old(self).field.is_bomb_at(r, c) ==> !old(self).field.tile_at(
                    r,
                    c,
                ).revealed,
        ensures
            final(self).inv(),
            final(self).field == old(self).field,
            final(self).difficulty == old(self).difficulty,
            hit ==> final(self).status == GameStatus::Lost,
            !hit ==> (final(self).status == GameStatus::InProgress || final(self).status
                == GameStatus::Won),
            !hit ==> (final(self).status == GameStatus::Won
                <==> final(self).field.all_safe_revealed()),
            forall|pz: Position|
                base.safe_zone_clear(pz) ==> #[trigger] final(self).field.safe_zone_clear(pz),
    {
        proof {
            assert forall|r: int|
                0 <= r < base.rows implies (#[trigger] self.field.tile_matrix@[r])@.len()
                == base.tile_matrix@[r]@.len() by {}
            lemma_kinds_agree_transfer(base, self.field);
        }
        if hit {
            self.status = GameStatus::Lost;
        } else if self.field.is_cleared() {
            self.status = GameStatus::Won;
        } else {
            self.status = GameStatus::InProgress;
        }
    }

    /// A chord on an already revealed numbered tile: when exactly its
    /// number of neighbours carries a flag, every unflagged neighbour is
    /// revealed through the cascade engine; otherwise nothing happens.
    fn chord_revealed(&mut self, p: Position)
        requires
            old(self).inv(),
            old(self).status == GameStatus::InProgress,
            old(self).field.in_bounds(p.0 as int, p.1 as int),
            old(self).field.tile_at(p.0 as int, p.1 as int).revealed,
            old(self).field.tile_at(p.0 as int, p.1 as int).kind matches TileKind::Safe(_),
        ensures
            final(self).inv(),
            final(self).difficulty == old(self).difficulty,
            same_shape(old(self).field, final(self).field),
            kinds_preserved(old(self).field, final(self).field),
            revealed_monotone(old(self).field, final(self).field),
            final(self).status == GameStatus::InProgress || final(self).status == GameStatus::Won
                || final(self).status == GameStatus::Lost,
            final(self).status != GameStatus::Lost ==> flags_preserved(
                old(self).field,
                final(self).field,
            ),
            final(self).status == GameStatus::Lost ==> final(self).field.all_revealed_unflagged(),
            flood_closed(old(self).field, final(self).field),
            final(self).status != GameStatus::Lost ==> reveal_from(
                old(self).field,
                final(self).field,
                p,
            ),
            match old(self).field.tile_at(p.0 as int, p.1 as int).kind {
                TileKind::Safe(n) => {
                    &&& (old(self).field.adj_flags(p.0 as int, p.1 as int) != n ==> *final(self)
                        == *old(self))
                    &&& (old(self).field.adj_flags(p.0 as int, p.1 as int) == n ==> chorded(
                        old(self).field,
                        final(self).field,
                        p,
                    ))
                },
                _ => true,
            },
    {
        let ghost pre = *self;
        let t = self.field.tile_matrix[p.0][p.1];
        let n = match t.kind {
            TileKind::Safe(n) => n,
            _ => unreached(),
        };
        let k = self.field.count_flagged_neighbours(p.0, p.1);
        if k == n {
            let nbrs = unflagged_neighbour_positions(&self.field, p);
            let ghost nbrs0 = nbrs@;
            let hit = run_cascade(&mut self.field, nbrs);
            self.finish_after_cascade(Ghost(pre.field), hit);
            proof {
                assert forall|r: int, c: int|
                    pre.field.in_bounds(r, c) && is_neighbour(p, r, c) && !(
                #[trigger] pre.field.tile_at(r, c)).flagged implies self.field.tile_at(
                    r,
                    c,
                ).revealed by {
                    assert(nbrs0.contains(Position(r as usize, c as usize)));
                    let i = choose|i: int|
                        0 <= i < nbrs0.len() && nbrs0[i] == Position(r as usize, c as usize);
                    assert(!pre.field.tile_at(nbrs0[i].0 as int, nbrs0[i].1 as int).flagged);
                }
                if !hit {
                    assert forall|r: int, c: int|
                        self.field.in_bounds(r, c) && (#[trigger] self.field.tile_at(
                            r,
                            c,
                        )).revealed && !pre.field.tile_at(r, c).revealed && !(r == p.0 && c == p.1)
                            && !is_neighbour(p, r, c) implies exists|r2: int, c2: int|
                        adjacent(r, c, r2, c2) && self.field.in_bounds(r2, c2) && (
                        #[trigger] self.field.tile_at(r2, c2)).revealed && !pre.field.tile_at(
                            r2,
                            c2,
                        ).revealed && self.field.tile_at(r2, c2).kind == TileKind::Empty by {
                        let here = Position(r as usize, c as usize);
                        if nbrs0.contains(here) {
                            let j = choose|j: int| 0 <= j < nbrs0.len() && nbrs0[j] == here;
                            assert(is_neighbour(p, nbrs0[j].0 as int, nbrs0[j].1 as int));
                            assert(false);
                        }
                    }
                }
            }
        }
    }

    /// Reveals a hidden, unflagged tile: a bomb loses the game, an empty
    /// tile floods its region, and a numbered tile whose exact number of
    /// neighbours is flagged chords immediately.
    fn reveal_hidden(&mut self, p: Position)
        requires
            old(self).inv(),
            old(self).status == GameStatus::InProgress,
            old(self).field.in_bounds(p.0 as int, p.1 as int),
            !old(self).field.tile_at(p.0 as int, p.1 as int).revealed,
            !old(self).field.tile_at(p.0 as int, p.1 as int).flagged,
        ensures
            final(self).inv(),
            final(self).difficulty == old(self).difficulty,
            same_shape(old(self).field, final(self).field),
            kinds_preserved(old(self).field, final(self).field),
            revealed_monotone(old(self).field, final(self).field),
            final(self).status == GameStatus::InProgress || final(self).status == GameStatus::Won
                || final(self).status == GameStatus::Lost,
            final(self).status != GameStatus::Lost ==> flags_preserved(
                old(self).field,
                final(self).field,
            ),
            final(self).status == GameStatus::Lost ==> final(self).field.all_revealed_unflagged(),
            flood_closed(old(self).field, final(self).field),
            final(self).status != GameStatus::Lost ==> reveal_from(
                old(self).field,
                final(self).field,
                p,
            ),
            final(self).field.tile_at(p.0 as int, p.1 as int).revealed,
            old(self).field.tile_at(p.0 as int, p.1 as int).kind == TileKind::Bomb
                ==> final(self).status == GameStatus::Lost,
            old(self).field.tile_at(p.0 as int, p.1 as int).kind == TileKind::Empty
                ==> final(self).status != GameStatus::Lost,
            match old(self).field.tile_at(p.0 as int, p.1 as int).kind {
                TileKind::Safe(n) => {
                    &&& (old(self).field.adj_flags(p.0 as int, p.1 as int) == n ==> chorded(
                        old(self).field,
                        final(self).field,
                        p,
                    ))
                    &&& (old(self).field.adj_flags(p.0 as int, p.1 as int) != n ==> (uncover_rel(
                        old(self).field,
                        final(self).field,
                        p,
                    ) && final(self).status != GameStatus::Lost))
                },
                _ => true,
            },
    {
        let ghost pre = *self;
        let t = self.field.tile_matrix[p.0][p.1];
        match t.kind {
            TileKind::Bomb => {
                // reveal the stepped-on bomb, then bare the whole board
                // for the end-of-game display
                let f1 = self.field.uncover(&p);
                let f2 = f1.game_over();
                proof {
                    assert forall|r: int|
                        0 <= r < pre.field.rows implies (#[trigger] f2.tile_matrix@[r])@.len()
                        == pre.field.tile_matrix@[r]@.len() by {}
                    lemma_kinds_agree_transfer(pre.field, f2);
                }
                self.field = f2;
                self.status = GameStatus::Lost;
            },
            TileKind::Empty => {
                let mut queue: Vec<Position> = Vec::new();
                queue.push(p);
                let ghost q0 = queue@;
                let hit = run_cascade(&mut self.field, queue);
                self.finish_after_cascade(Ghost(pre.field), hit);
                proof {
                    assert(q0[0] == p);
                    assert(self.field.tile_at(p.0 as int, p.1 as int).revealed);
                    assert(pre.field.classified());
                    assert forall|k: int| 0 <= k < q0.len() implies !pre.field.is_bomb_at(
                        (#[trigger] q0[k]).0 as int,
                        q0[k].1 as int,
                    ) by {}
                    assert(!hit);
                    assert forall|r: int, c: int|
                        self.field.in_bounds(r, c) && (#[trigger] self.field.tile_at(
                            r,
                            c,
                        )).revealed && !pre.field.tile_at(r, c).revealed && !(r == p.0 && c == p.1)
                            && !is_neighbour(p, r, c) implies exists|r2: int, c2: int|
                        adjacent(r, c, r2, c2) && self.field.in_bounds(r2, c2) && (
                        #[trigger] self.field.tile_at(r2, c2)).revealed && !pre.field.tile_at(
                            r2,
                            c2,
                        ).revealed && self.field.tile_at(r2, c2).kind == TileKind::Empty by {
                        let here = Position(r as usize, c as usize);
                        if q0.contains(here) {
                            let j = choose|j: int| 0 <= j < q0.len() && q0[j] == here;
                            assert(here == p);
                            assert(false);
                        }
                    }
                }
            },
            TileKind::Safe(n) => {
                let k = self.field.count_flagged_neighbours(p.0, p.1);
                if k == n {
                    let mut queue: Vec<Position> = Vec::new();
                    queue.push(p);
                    let mut nbrs = unflagged_neighbour_positions(&self.field, p);
                    let ghost nbrs0 = nbrs@;
                    queue.append(&mut nbrs);
                    let ghost q0 = queue@;
                    let hit = run_cascade(&mut self.field, queue);
                    self.finish_after_cascade(Ghost(pre.field), hit);
                    proof {
                        assert(q0[0] == p);
                        assert(self.field.tile_at(p.0 as int, p.1 as int).revealed);
                        assert forall|r: int, c: int|
                            pre.field.in_bounds(r, c) && is_neighbour(p, r, c) && !(
                        #[trigger] pre.field.tile_at(r, c)).flagged implies self.field.tile_at(
                            r,
                            c,
                        ).revealed by {
                            assert(nbrs0.contains(Position(r as usize, c as usize)));
                            let i = choose|i: int|
                                0 <= i < nbrs0.len() && nbrs0[i] == Position(
                                    r as usize,
                                    c as usize,
                                );
                            assert(q0[1 + i] == nbrs0[i]);
                            assert(!pre.field.tile_at(
                                q0[1 + i].0 as int,
                                q0[1 + i].1 as int,
                            ).flagged);
                        }
                        if !hit {
                            assert forall|r: int, c: int|
                                self.field.in_bounds(r, c) && (#[trigger] self.field.tile_at(
                                    r,
                                    c,
                                )).revealed && !pre.field.tile_at(r, c).revealed && !(r == p.0 && c
                                    == p.1) && !is_neighbour(p, r, c) implies exists|
                                r2: int,
                                c2: int,
                            |
                                adjacent(r, c, r2, c2) && self.field.in_bounds(r2, c2) && (
                                #[trigger] self.field.tile_at(r2, c2)).revealed && !pre.field
                                    .tile_at(r2, c2).revealed && self.field.tile_at(r2, c2).kind
                                    == TileKind::Empty by {
                                let here = Position(r as usize, c as usize);
                                if q0.contains(here) {
                                    let j = choose|j: int| 0 <= j < q0.len() && q0[j] == here;
                                    if j == 0 {
                                        assert(here == p);
                                    } else {
                                        assert(q0[j] == nbrs0[j - 1]);
                                        assert(is_neighbour(
                                            p,
                                            nbrs0[j - 1].0 as int,
                                            nbrs0[j - 1].1 as int,
                                        ));
                                    }
                                    assert(false);
                                }
                            }
                        }
                    }
                } else {
                    // no chord fires: exactly this one tile is revealed
                    let f1 = self.field.uncover(&p);
                    proof {
                        assert forall|r: int|
                            0 <= r < pre.field.rows implies (#[trigger] f1.tile_matrix@[r])@.len()
                            == pre.field.tile_matrix@[r]@.len() by {}
                        lemma_kinds_agree_transfer(pre.field, f1);
                        assert forall|r: int, c: int| #[trigger] f1.is_bomb_at(r, c) implies !f1
                            .tile_at(r, c).revealed by {
                            assert(pre.field.is_bomb_at(r, c));
                            assert(!(r == p.0 && c == p.1));
                        }
                    }
                    self.field = f1;
                    self.finish_after_cascade(Ghost(pre.field), false);
                    proof {
                        assert forall|r: int, c: int, r2: int, c2: int|
                            #![trigger self.field.tile_at(r, c), self.field.tile_at(r2, c2)]
                            self.field.in_bounds(r, c) && !pre.field.tile_at(r, c).revealed
                                && self.field.tile_at(r, c).revealed && self.field.tile_at(
                                r,
                                c,
                            ).kind == TileKind::Empty && adjacent(r, c, r2, c2)
                                && self.field.in_bounds(r2, c2) && !self.field.tile_at(
                                r2,
                                c2,
                            ).flagged implies self.field.tile_at(r2, c2).revealed by {
                            // the only newly revealed tile is the numbered
                            // target, which is not empty
                            assert(r == p.0 && c == p.1);
                            assert(self.field.tile_at(r, c).kind == pre.field.tile_at(r, c).kind);
                            assert(false);
                        }
                    }
                }
            },
        }
    }

    /// Dispatches one abstract player action. Once the game is won or
    /// lost, every action but `Restart` leaves the session untouched.
    pub fn apply_action(&mut self, action: Action)
        requires
            old(self).inv(),
        ensures
            final(self).inv(),
            final(self).difficulty == old(self).difficulty,
            same_shape(old(self).field, final(self).field),
            action == Action::Quit ==> *final(self) == *old(self),
            (old(self).status == GameStatus::Won || old(self).status == GameStatus::Lost) && action
                != Action::Restart ==> *final(self) == *old(self),
            action == Action::Restart ==> {
                &&& final(self).status == GameStatus::AwaitingFirstReveal
                &&& final(self).field.blank()
            },
            action matches Action::ToggleFlag(p) ==> ((old(self).status
                == GameStatus::AwaitingFirstReveal || old(self).status == GameStatus::InProgress)
                ==> (crate::field::toggle_rel(old(self).field, final(self).field, p)
                && final(self).status == old(self).status)),
            action matches Action::Reveal(p) ==> reveal_post(*old(self), *final(self), p),
    {
        match action {
            Action::Quit => {},
            Action::Restart => {
                let created = Field::create(self.field.rows, self.field.cols, self.field.bombs);
                let fresh = match created {
                    Ok(f) => f,
                    Err(_) => unreached(),
                };
                self.field = fresh;
                self.status = GameStatus::AwaitingFirstReveal;
            },
            Action::ToggleFlag(p) => {
                match self.status {
                    GameStatus::Won => {},
                    GameStatus::Lost => {},
                    _ => {
                        let f = self.field.toggle_flag(&p);
                        proof {
                            assert forall|r: int|
                                0 <= r < self.field.rows implies (#[trigger] f.tile_matrix@[r])@
                                .len() == self.field.tile_matrix@[r]@.len() by {}
                            lemma_play_state_transfer(self.field, f);
                        }
                        self.field = f;
                    },
                }
            },
            Action::Reveal(p) => {
                self.reveal_recursively(&p);
            },
        }
    }
}

/// Marking one unvisited entry decreases the count by exactly one.
proof fn lemma_count_unvisited_set(s: Seq<bool>, k: int)
    requires
        0 <= k < s.len(),
        !s[k],
    ensures
        count_unvisited(s.update(k, true)) == count_unvisited(s) - 1,
        count_unvisited(s) >= 1,
    decreases s.len(),
{
    lemma_count_unvisited_bounds(s.drop_last());
    if k == s.len() - 1 {
        assert(s.update(k, true).drop_last() =~= s.drop_last());
        assert(s.update(k, true).last());
        assert(!s.last());
    } else {
        assert(s.update(k, true).drop_last() =~= s.drop_last().update(k, true));
        assert(s.update(k, true).last() == s.last());
        lemma_count_unvisited_set(s.drop_last(), k);
    }
}

} // verus!
