//! The game board: a rectangular grid of fields with scalar counters, its
//! well-formedness invariant, and the state-transition operations (construct,
//! reveal with cascade, flag, reveal-all, win test).

use vstd::prelude::*;

use crate::field::Field;
use crate::field::FieldType;
use crate::field::Position;
use crate::field::Visibility;
use crate::grid::adj_bombs;
use crate::grid::b2i;
use crate::grid::cell;
use crate::grid::count_bombs;
use crate::grid::count_visible;
use crate::grid::counts_ok;
use crate::grid::flat;
use crate::grid::lemma_adj_bombs_same;
use crate::grid::lemma_count_if_all;
use crate::grid::lemma_count_if_bounds;
use crate::grid::lemma_count_if_missing;
use crate::grid::lemma_count_if_none;
use crate::grid::lemma_count_if_update;
use crate::grid::lemma_flat_distinct;
use crate::grid::lemma_count_if_present;
use crate::grid::lemma_count_if_same;
use crate::grid::lemma_counts_ok_same_types;
use crate::grid::lemma_positive_area;
use crate::grid::vis_pred;
use crate::grid::bomb_pred;
use crate::grid::bomb_at;
use crate::grid::lemma_flat_divmod;
use crate::grid::lemma_flat_range;
use crate::grid::lemma_flat_unflatten;
use crate::grid::hidden_at;
use crate::grid::hidden_zero_at;
use crate::grid::on_grid;
use crate::cascade::adjacent;
use crate::cascade::cascade_reaches;
use crate::cascade::cascade_reveals;
use crate::cascade::frontier_closed;
use crate::cascade::lemma_cascade_extend;
use crate::cascade::lemma_cascade_exact;
use crate::cascade::lemma_frame_after_reveal;
use crate::cascade::lemma_frontier_after_skip;
use crate::cascade::lemma_frontier_reveal_nonzero;
use crate::cascade::lemma_frontier_reveal_zero;
use crate::cascade::lemma_sound_after_reveal;
use crate::cascade::lemma_cascade_here;
use crate::cascade::lemma_push_contains;
use crate::cascade::reveal_frame;
use crate::cascade::revealed_sound;
use crate::cascade::stack_ok;

verus! {

/// A bomb layout fit for a board: every position on the grid and no
/// position named twice.
pub open spec fn valid_bomb_list(width: int, height: int, list: Seq<Position>) -> bool {
    &&& forall|k: int|
        0 <= k < list.len() ==> on_grid(width, height, (#[trigger] list[k]).row as int, list[k].col as int)
    &&& forall|k1: int, k2: int| 0 <= k1 < k2 < list.len() ==> list[k1] != list[k2]
}

/// Relies on rand::random_range over `0..n`: for a non-empty range it
/// returns a uniformly drawn value within the range.
#[verifier::external_body]
fn random_index(n: usize) -> (r: usize)
    requires
        n > 0,
    ensures
        r < n,
{
    rand::random_range(0..n)
}

/// The error cases of the board operations: a configuration asking for more
/// bombs than the grid has fields, a position outside the grid, and a reveal
/// attempted on a flagged field (which must be unflagged first).
#[derive(Clone, Copy, Debug, PartialEq, Eq, Structural)]
pub enum BoardError {
    InvalidConfiguration,
    OutOfBounds,
    FieldFlagged,
}

/// A rectangular minesweeper board: `height` rows by `width` columns of
/// fields stored row-major, the total bomb count, and the number of fields
/// revealed so far.
#[derive(Debug)]
pub struct Board {
    fields: Vec<Field>,
    pub width: usize,
    pub height: usize,
    bombs: usize,
    fields_cleared: usize,
}

impl Board {
    /// The grid contents as a row-major sequence.
    pub closed spec fn grid(self) -> Seq<Field> {
        self.fields@
    }

    /// The width of the grid, as a mathematical integer.
    pub closed spec fn w(self) -> int {
        self.width as int
    }

    /// The height of the grid, as a mathematical integer.
    pub closed spec fn h(self) -> int {
        self.height as int
    }

    /// The total number of bombs the board was built with.
    pub closed spec fn bomb_total(self) -> int {
        self.bombs as int
    }

    /// The number of fields revealed so far.
    pub closed spec fn cleared(self) -> int {
        self.fields_cleared as int
    }

    /// The grid sequence has exactly one entry per position.
    pub open spec fn dims_ok(self) -> bool {
        self.grid().len() == self.w() * self.h()
    }

    /// True when `pos` addresses a field of this board.
    pub open spec fn pos_on_grid(self, pos: Position) -> bool {
        on_grid(self.w(), self.h(), pos.row as int, pos.col as int)
    }

    /// The field addressed by `pos`.
    pub open spec fn field_of(self, pos: Position) -> Field {
        cell(self.grid(), self.w(), pos.row as int, pos.col as int)
    }

    /// Every safe field carries the exact number of bombs among its up-to-8
    /// neighbors.
    pub open spec fn counts_correct(self) -> bool {
        counts_ok(self.grid(), self.w(), self.h())
    }

    /// The board invariant: the grid has one field per position, the bomb
    /// counter matches the number of bomb fields, the bombs fit on the grid,
    /// the cleared counter matches the number of visible fields, and every
    /// safe field carries its exact neighbor-bomb count.
    pub open spec fn wf(self) -> bool {
        &&& self.dims_ok()
        &&& self.w() * self.h() <= usize::MAX
        &&& self.bomb_total() == count_bombs(self.grid())
        &&& self.bomb_total() <= self.w() * self.h()
        &&& self.cleared() == count_visible(self.grid())
        &&& self.counts_correct()
    }

    /// Writes `vis` into the state of the field at `pos`, keeping its
    /// content and keeping the cleared counter equal to the number of
    /// visible fields.
    fn update_field_vis(&mut self, pos: Position, vis: Visibility)
        requires
            old(self).wf(),
            old(self).pos_on_grid(pos),
        ensures
            final(self).wf(),
            final(self).w() == old(self).w(),
            final(self).h() == old(self).h(),
            final(self).bomb_total() == old(self).bomb_total(),
            final(self).grid() == old(self).grid().update(
                flat(old(self).w(), pos.row as int, pos.col as int),
                (Field { visibility: vis, field_type: old(self).field_of(pos).field_type }),
            ),
            final(self).cleared() == old(self).cleared() - b2i(
                old(self).field_of(pos).is_visible(),
            ) + b2i(vis is Visible),
    {
        proof {
            assert(self.fields.len() == self.grid().len());
            lemma_flat_range(self.w(), self.h(), pos.row as int, pos.col as int);
        }
        let i = pos.row * self.width + pos.col;
        let old_f = self.fields[i];
        let new_f = Field { visibility: vis, field_type: old_f.field_type };
        let was_visible = match old_f.visibility {
            Visibility::Visible => true,
            _ => false,
        };
        let now_visible = match vis {
            Visibility::Visible => true,
            _ => false,
        };
        self.fields[i] = new_f;
        proof {
            lemma_count_if_update(old(self).grid(), vis_pred(), i as int, new_f);
            lemma_count_if_update(old(self).grid(), bomb_pred(), i as int, new_f);
        }
        if was_visible && !now_visible {
            proof {
                lemma_count_if_present(old(self).grid(), vis_pred(), i as int);
            }
            self.fields_cleared = self.fields_cleared - 1;
        } else if !was_visible && now_visible {
            proof {
                lemma_count_if_missing(old(self).grid(), vis_pred(), i as int);
            }
            self.fields_cleared = self.fields_cleared + 1;
        }
        proof {
            assert(forall|j: int|
                0 <= j < old(self).grid().len() ==> old(self).grid()[j].field_type
                    == self.grid()[j].field_type);
            lemma_counts_ok_same_types(old(self).grid(), self.grid(), self.w(), self.h());
        }
    }

    /// Writes `val` into the content of the field at `pos`, keeping its
    /// visibility state. Used only while a board is being populated, so the
    /// scalar counters are left untouched.
    fn update_field_type(&mut self, pos: Position, val: FieldType)
        requires
            old(self).dims_ok(),
            old(self).pos_on_grid(pos),
        ensures
            final(self).dims_ok(),
            final(self).w() == old(self).w(),
            final(self).h() == old(self).h(),
            final(self).bomb_total() == old(self).bomb_total(),
            final(self).cleared() == old(self).cleared(),
            final(self).grid() == old(self).grid().update(
                flat(old(self).w(), pos.row as int, pos.col as int),
                (Field { visibility: old(self).field_of(pos).visibility, field_type: val }),
            ),
    {
        proof {
            assert(self.fields.len() == self.grid().len());
            lemma_flat_range(self.w(), self.h(), pos.row as int, pos.col as int);
        }
        let i = pos.row * self.width + pos.col;
        let old_f = self.fields[i];
        self.fields[i] = Field { visibility: old_f.visibility, field_type: val };
    }

    /// How a successful flag update changes the board: a no-op on a visible
    /// field; otherwise the field's state becomes `Flagged` or `Hidden` as
    /// requested while everything else, the cleared counter included, stays.
    pub open spec fn flag_step(pre: Board, post: Board, pos: Position, flagged: bool) -> bool {
        if pre.field_of(pos).is_visible() {
            post == pre
        } else {
            &&& post.grid() == pre.grid().update(
                flat(pre.w(), pos.row as int, pos.col as int),
                (Field {
                    visibility: if flagged {
                        Visibility::Flagged
                    } else {
                        Visibility::Hidden
                    },
                    field_type: pre.field_of(pos).field_type,
                }),
            )
            &&& post.w() == pre.w()
            &&& post.h() == pre.h()
            &&& post.bomb_total() == pre.bomb_total()
            &&& post.cleared() == pre.cleared()
        }
    }

    /// Flags or unflags the field at `pos`. Fails on a position outside the
    /// grid; on a visible field it is a no-op; otherwise it sets the field's
    /// state to `Flagged` or back to `Hidden` and never touches the cleared
    /// counter.
    pub fn set_flag(&mut self, pos: Position, flagged: bool) -> (r: Result<(), BoardError>)
        requires
            old(self).wf(),
        ensures
            final(self).wf(),
            !old(self).pos_on_grid(pos) ==> r == Err::<(), BoardError>(BoardError::OutOfBounds)
                && *final(self) == *old(self),
            old(self).pos_on_grid(pos) ==> r == Ok::<(), BoardError>(()) && Board::flag_step(
                *old(self),
                *final(self),
                pos,
                flagged,
            ),
    {
        match self.get_field_vis(pos) {
            None => Err(BoardError::OutOfBounds),
            Some(Visibility::Visible) => Ok(()),
            Some(_) => {
                self.update_field_vis(
                    pos,
                    if flagged {
                        Visibility::Flagged
                    } else {
                        Visibility::Hidden
                    },
                );
                Ok(())
            },
        }
    }

    /// Law: flagging a hidden field and then unflagging it returns the board
    /// to its original state, and neither step touches the cleared counter.
    pub proof fn lemma_flag_toggle_twice(b0: Board, b1: Board, b2: Board, pos: Position)
        requires
            b0.wf(),
            b0.pos_on_grid(pos),
            b0.field_of(pos).is_hidden(),
            Board::flag_step(b0, b1, pos, true),
            Board::flag_step(b1, b2, pos, false),
        ensures
            b2.grid() == b0.grid(),
            b2.w() == b0.w(),
            b2.h() == b0.h(),
            b2.bomb_total() == b0.bomb_total(),
            b2.cleared() == b0.cleared(),
    {
        let w = b0.w();
        let h = b0.h();
        let i = flat(w, pos.row as int, pos.col as int);
        lemma_flat_range(w, h, pos.row as int, pos.col as int);
        assert(b1.field_of(pos) == (Field {
            visibility: Visibility::Flagged,
            field_type: b0.field_of(pos).field_type,
        }));
        assert(b2.grid() =~= b0.grid());
    }

    /// The field at `pos`, or `None` for a position outside the grid.
    pub fn get_field(&self, pos: Position) -> (r: Option<Field>)
        requires
            self.dims_ok(),
        ensures
            match r {
                Some(f) => self.pos_on_grid(pos) && f == self.field_of(pos),
                None => !self.pos_on_grid(pos),
            },
    {
        if pos.row < self.height && pos.col < self.width {
            proof {
                assert(self.fields.len() == self.grid().len());
                lemma_flat_range(self.w(), self.h(), pos.row as int, pos.col as int);
            }
            Some(self.fields[pos.row * self.width + pos.col])
        } else {
            None
        }
    }

    /// The visibility state at `pos`, or `None` for a position outside the
    /// grid.
    pub fn get_field_vis(&self, pos: Position) -> (r: Option<Visibility>)
        requires
            self.dims_ok(),
        ensures
            match r {
                Some(v) => self.pos_on_grid(pos) && v == self.field_of(pos).visibility,
                None => !self.pos_on_grid(pos),
            },
    {
        match self.get_field(pos) {
            Some(f) => Some(f.visibility),
            None => None,
        }
    }

    /// The content at `pos`, or `None` for a position outside the grid.
    pub fn get_field_type(&self, pos: Position) -> (r: Option<FieldType>)
        requires
            self.dims_ok(),
        ensures
            match r {
                Some(t) => self.pos_on_grid(pos) && t == self.field_of(pos).field_type,
                None => !self.pos_on_grid(pos),
            },
    {
        match self.get_field(pos) {
            Some(f) => Some(f.field_type),
            None => None,
        }
    }

    /// Whether the field at `pos` is flagged, or `None` for a position
    /// outside the grid.
    pub fn get_field_flagged(&self, pos: Position) -> (r: Option<bool>)
        requires
            self.dims_ok(),
        ensures
            match r {
                Some(b) => self.pos_on_grid(pos) && b == (self.field_of(pos).visibility
                    is Flagged),
                None => !self.pos_on_grid(pos),
            },
    {
        match self.get_field_vis(pos) {
            Some(Visibility::Flagged) => Some(true),
            Some(_) => Some(false),
            None => None,
        }
    }

    /// The number of fields revealed so far.
    pub fn fields_cleared(&self) -> (r: usize)
        ensures
            r as int == self.cleared(),
    {
        self.fields_cleared
    }

    /// Every entry of `s` is an on-grid neighbor of `pos`.
    spec fn sound_neighbors(self, pos: Position, s: Seq<Position>) -> bool {
        forall|k: int|
            0 <= k < s.len() ==> self.pos_on_grid(#[trigger] s[k]) && adjacent(
                pos.row as int,
                pos.col as int,
                s[k].row as int,
                s[k].col as int,
            )
    }

    /// The on-grid positions in the 8-neighborhood of `pos`: each listed
    /// position is adjacent to `pos`, and every on-grid neighbor of `pos` is
    /// listed.
    fn get_fields_around(&self, pos: Position) -> (v: Vec<Position>)
        requires
            self.pos_on_grid(pos),
        ensures
            self.sound_neighbors(pos, v@),
            forall|r: int, c: int|
                on_grid(self.w(), self.h(), r, c) && adjacent(pos.row as int, pos.col as int, r, c)
                    ==> v@.contains((Position { row: r as usize, col: c as usize })),
    {
        let r = pos.row;
        let c = pos.col;
        let mut v: Vec<Position> = Vec::new();
        let ghost mut k1: int = -1;
        let ghost mut k2: int = -1;
        let ghost mut k3: int = -1;
        let ghost mut k4: int = -1;
        let ghost mut k5: int = -1;
        let ghost mut k6: int = -1;
        let ghost mut k7: int = -1;
        let ghost mut k8: int = -1;
        if r > 0 && c > 0 {
            proof {
                k1 = v@.len() as int;
            }
            v.push(Position { row: r - 1, col: c - 1 });
            proof {
                assert(self.sound_neighbors(pos, v@));
            }
        }
        if r > 0 {
            proof {
                k2 = v@.len() as int;
            }
            v.push(Position { row: r - 1, col: c });
            proof {
                assert(self.sound_neighbors(pos, v@));
            }
        }
        if r > 0 && c + 1 < self.width {
            proof {
                k3 = v@.len() as int;
            }
            v.push(Position { row: r - 1, col: c + 1 });
            proof {
                assert(self.sound_neighbors(pos, v@));
            }
        }
        if c > 0 {
            proof {
                k4 = v@.len() as int;
            }
            v.push(Position { row: r, col: c - 1 });
            proof {
                assert(self.sound_neighbors(pos, v@));
            }
        }
        if c + 1 < self.width {
            proof {
                k5 = v@.len() as int;
            }
            v.push(Position { row: r, col: c + 1 });
            proof {
                assert(self.sound_neighbors(pos, v@));
            }
        }
        if r + 1 < self.height && c > 0 {
            proof {
                k6 = v@.len() as int;
            }
            v.push(Position { row: r + 1, col: c - 1 });
            proof {
                assert(self.sound_neighbors(pos, v@));
            }
        }
        if r + 1 < self.height {
            proof {
                k7 = v@.len() as int;
            }
            v.push(Position { row: r + 1, col: c });
            proof {
                assert(self.sound_neighbors(pos, v@));
            }
        }
        if r + 1 < self.height && c + 1 < self.width {
            proof {
                k8 = v@.len() as int;
            }
            v.push(Position { row: r + 1, col: c + 1 });
            proof {
                assert(self.sound_neighbors(pos, v@));
            }
        }
        proof {
            assert forall|r2: int, c2: int|
                on_grid(self.w(), self.h(), r2, c2) && adjacent(
                    pos.row as int,
                    pos.col as int,
                    r2,
                    c2,
                ) implies v@.contains((Position { row: r2 as usize, col: c2 as usize })) by {
                let q = Position { row: r2 as usize, col: c2 as usize };
                if r2 == r - 1 && c2 == c - 1 {
                    assert(v@[k1] == q);
                } else if r2 == r - 1 && c2 == c {
                    assert(v@[k2] == q);
                } else if r2 == r - 1 && c2 == c + 1 {
                    assert(v@[k3] == q);
                } else if r2 == r && c2 == c - 1 {
                    assert(v@[k4] == q);
                } else if r2 == r && c2 == c + 1 {
                    assert(v@[k5] == q);
                } else if r2 == r + 1 && c2 == c - 1 {
                    assert(v@[k6] == q);
                } else if r2 == r + 1 && c2 == c {
                    assert(v@[k7] == q);
                } else {
                    assert(r2 == r + 1 && c2 == c + 1);
                    assert(v@[k8] == q);
                }
            }
        }
        v
    }

    /// Pushes `q` onto the cascade's worklist when it is still hidden. `q`
    /// is an on-grid neighbor of a hidden zero-count field `p` that the
    /// cascade from `(sr, sc)` reaches, so the cascade reaches `q` too.
    fn push_if_hidden(
        &self,
        stack: &mut Vec<Position>,
        q: Position,
        p: Position,
        Ghost(g0): Ghost<Seq<Field>>,
        Ghost(sr): Ghost<int>,
        Ghost(sc): Ghost<int>,
    )
        requires
            self.wf(),
            reveal_frame(g0, self.grid()),
            self.pos_on_grid(q),
            self.pos_on_grid(p),
            adjacent(p.row as int, p.col as int, q.row as int, q.col as int),
            hidden_zero_at(g0, self.w(), self.h(), p.row as int, p.col as int),
            cascade_reaches(g0, self.w(), self.h(), sr, sc, p.row as int, p.col as int),
            stack_ok(g0, self.w(), self.h(), sr, sc, old(stack)@),
        ensures
            stack_ok(g0, self.w(), self.h(), sr, sc, final(stack)@),
            forall|x: Position| old(stack)@.contains(x) ==> final(stack)@.contains(x),
            hidden_at(g0, self.w(), self.h(), q.row as int, q.col as int) ==> (cell(
                self.grid(),
                self.w(),
                q.row as int,
                q.col as int,
            ).is_visible() || final(stack)@.contains(q)),
    {
        proof {
            lemma_flat_range(self.w(), self.h(), q.row as int, q.col as int);
        }
        let vis = match self.get_field_vis(q) {
            Some(vis) => vis,
            None => {
                proof {
                    assert(false);
                }
                Visibility::Hidden
            },
        };
        match vis {
            Visibility::Hidden => {
                let ghost st0 = stack@;
                stack.push(q);
                proof {
                    // hidden now means hidden when the cascade started
                    assert(cell(g0, self.w(), q.row as int, q.col as int).is_hidden());
                    lemma_cascade_extend(
                        g0,
                        self.w(),
                        self.h(),
                        sr,
                        sc,
                        p.row as int,
                        p.col as int,
                        q.row as int,
                        q.col as int,
                    );
                    assert(stack@[st0.len() as int] == q);
                    assert(stack@.contains(q));
                    assert forall|x: Position| st0.contains(x) implies stack@.contains(x) by {
                        lemma_push_contains(st0, q, x);
                    }
                    assert forall|k: int|
                        0 <= k < stack@.len() implies on_grid(
                        self.w(),
                        self.h(),
                        (#[trigger] stack@[k]).row as int,
                        stack@[k].col as int,
                    ) && cascade_reaches(
                        g0,
                        self.w(),
                        self.h(),
                        sr,
                        sc,
                        stack@[k].row as int,
                        stack@[k].col as int,
                    ) && hidden_at(
                        g0,
                        self.w(),
                        self.h(),
                        stack@[k].row as int,
                        stack@[k].col as int,
                    ) by {
                        if k < st0.len() {
                            assert(stack@[k] == st0[k]);
                        }
                    }
                }
            },
            _ => {
                proof {
                    // a field hidden at the start never becomes flagged
                    // while the cascade runs, so a non-hidden one is visible
                    if hidden_at(g0, self.w(), self.h(), q.row as int, q.col as int) {
                        assert(cell(self.grid(), self.w(), q.row as int, q.col as int).is_visible());
                    }
                }
            },
        }
    }

    /// True when `(r, c)` is on the grid and holds a bomb.
    fn bomb_check(&self, r: usize, c: usize) -> (b: bool)
        requires
            self.dims_ok(),
            on_grid(self.w(), self.h(), r as int, c as int),
        ensures
            b == bomb_at(self.grid(), self.w(), self.h(), r as int, c as int),
    {
        proof {
            assert(self.fields.len() == self.grid().len());
            lemma_flat_range(self.w(), self.h(), r as int, c as int);
        }
        match self.fields[r * self.width + c].field_type {
            FieldType::BombField => true,
            FieldType::SafeField(_) => false,
        }
    }

    /// Counts the bombs among the up-to-8 neighbors of `pos`, clipping the
    /// neighborhood at the grid edges.
    fn count_bombs_around(&self, pos: Position) -> (n: i64)
        requires
            self.dims_ok(),
            self.pos_on_grid(pos),
        ensures
            n as int == adj_bombs(self.grid(), self.w(), self.h(), pos.row as int, pos.col as int),
            0 <= n <= 8,
    {
        let r = pos.row;
        let c = pos.col;
        let mut n: i64 = 0;
        if r > 0 && c > 0 && self.bomb_check(r - 1, c - 1) {
            n = n + 1;
        }
        if r > 0 && self.bomb_check(r - 1, c) {
            n = n + 1;
        }
        if r > 0 && c + 1 < self.width && self.bomb_check(r - 1, c + 1) {
            n = n + 1;
        }
        if c > 0 && self.bomb_check(r, c - 1) {
            n = n + 1;
        }
        if c + 1 < self.width && self.bomb_check(r, c + 1) {
            n = n + 1;
        }
        if r + 1 < self.height && c > 0 && self.bomb_check(r + 1, c - 1) {
            n = n + 1;
        }
        if r + 1 < self.height && self.bomb_check(r + 1, c) {
            n = n + 1;
        }
        if r + 1 < self.height && c + 1 < self.width && self.bomb_check(r + 1, c + 1) {
            n = n + 1;
        }
        n
    }

    /// Builds a fully populated, all-hidden board whose bombs sit exactly at
    /// the given positions, which the caller guarantees to be on the grid
    /// and pairwise distinct.
    fn build(width: usize, height: usize, bomb_positions: &Vec<Position>) -> (b: Board)
        requires
            width * height <= usize::MAX,
            forall|k: int|
                0 <= k < bomb_positions@.len() ==> on_grid(
                    width as int,
                    height as int,
                    bomb_positions@[k].row as int,
                    bomb_positions@[k].col as int,
                ),
            forall|k1: int, k2: int|
                0 <= k1 < k2 < bomb_positions@.len() ==> bomb_positions@[k1]
                    != bomb_positions@[k2],
        ensures
            b.wf(),
            b.w() == width as int,
            b.h() == height as int,
            b.bomb_total() == bomb_positions@.len(),
            b.cleared() == 0,
            forall|i: int| 0 <= i < b.grid().len() ==> b.grid()[i].is_hidden(),
            forall|r: int, c: int|
                on_grid(width as int, height as int, r, c) ==> (cell(
                    b.grid(),
                    width as int,
                    r,
                    c,
                ).is_bomb() <==> bomb_positions@.contains(
                    (Position { row: r as usize, col: c as usize }),
                )),
    {
        let ghost w0 = width as int;
        let ghost h0 = height as int;
        let ghost nb = bomb_positions@.len() as int;
        let blank = Field { visibility: Visibility::Hidden, field_type: FieldType::SafeField(0) };
        let total = width * height;
        let mut fields: Vec<Field> = Vec::new();
        while fields.len() < total
            invariant
                fields@.len() <= total,
                forall|i: int| 0 <= i < fields@.len() ==> fields@[i] == blank,
            decreases total - fields@.len(),
        {
            fields.push(blank);
        }
        let mut b = Board {
            fields,
            width,
            height,
            bombs: bomb_positions.len(),
            fields_cleared: 0,
        };
        proof {
            lemma_count_if_none(b.grid(), bomb_pred());
            assert forall|r: int, c: int| on_grid(w0, h0, r, c) implies !cell(
                b.grid(),
                w0,
                r,
                c,
            ).is_bomb() by {
                lemma_flat_range(w0, h0, r, c);
            }
        }
        let mut k: usize = 0;
        while k < bomb_positions.len()
            invariant
                w0 == width as int,
                h0 == height as int,
                k <= bomb_positions@.len(),
                bomb_positions@.len() == nb,
                forall|j: int|
                    0 <= j < nb ==> on_grid(
                        w0,
                        h0,
                        bomb_positions@[j].row as int,
                        bomb_positions@[j].col as int,
                    ),
                forall|k1: int, k2: int|
                    0 <= k1 < k2 < nb ==> bomb_positions@[k1] != bomb_positions@[k2],
                b.w() == w0,
                b.h() == h0,
                b.bomb_total() == nb,
                b.cleared() == 0,
                b.dims_ok(),
                w0 * h0 <= usize::MAX,
                count_bombs(b.grid()) == k,
                forall|i: int| 0 <= i < b.grid().len() ==> b.grid()[i].is_hidden(),
                forall|i: int|
                    0 <= i < b.grid().len() ==> (b.grid()[i].is_bomb() || b.grid()[i].field_type
                        == FieldType::SafeField(0)),
                forall|r: int, c: int|
                    on_grid(w0, h0, r, c) ==> (cell(b.grid(), w0, r, c).is_bomb()
                        <==> exists|j: int|
                        0 <= j < k && bomb_positions@[j] == (Position {
                            row: r as usize,
                            col: c as usize,
                        })),
            decreases bomb_positions@.len() - k,
        {
            let pos = bomb_positions[k];
            let ghost gprev = b.grid();
            proof {
                lemma_flat_range(w0, h0, pos.row as int, pos.col as int);
                // the target field is not yet a bomb: its position differs
                // from every position already placed
                assert(!cell(gprev, w0, pos.row as int, pos.col as int).is_bomb());
            }
            b.update_field_type(pos, FieldType::BombField);
            proof {
                lemma_count_if_update(
                    gprev,
                    bomb_pred(),
                    flat(w0, pos.row as int, pos.col as int),
                    (Field {
                        visibility: cell(gprev, w0, pos.row as int, pos.col as int).visibility,
                        field_type: FieldType::BombField,
                    }),
                );
                assert forall|r: int, c: int| on_grid(w0, h0, r, c) implies (cell(
                    b.grid(),
                    w0,
                    r,
                    c,
                ).is_bomb() <==> exists|j: int|
                    0 <= j < k + 1 && bomb_positions@[j] == (Position {
                        row: r as usize,
                        col: c as usize,
                    })) by {
                    lemma_flat_range(w0, h0, r, c);
                    if r == pos.row as int && c == pos.col as int {
                        assert(bomb_positions@[k as int] == (Position {
                            row: r as usize,
                            col: c as usize,
                        }));
                    } else {
                        lemma_flat_distinct(w0, h0, r, c, pos.row as int, pos.col as int);
                    }
                }
            }
            k = k + 1;
        }
        let ghost g1 = b.grid();
        let mut row: usize = 0;
        while row < height
            invariant
                w0 == width as int,
                h0 == height as int,
                row <= height,
                b.w() == w0,
                b.h() == h0,
                b.bomb_total() == nb,
                b.cleared() == 0,
                b.dims_ok(),
                w0 * h0 <= usize::MAX,
                b.grid().len() == g1.len(),
                forall|i: int| 0 <= i < g1.len() ==> b.grid()[i].is_bomb() == g1[i].is_bomb(),
                forall|i: int|
                    0 <= i < g1.len() ==> b.grid()[i].visibility == g1[i].visibility,
                forall|i: int| 0 <= i < g1.len() ==> g1[i].is_hidden(),
                count_bombs(b.grid()) == nb,
                forall|r: int, c: int|
                    on_grid(w0, h0, r, c) && r < row && !cell(b.grid(), w0, r, c).is_bomb()
                        ==> cell(b.grid(), w0, r, c).field_type == FieldType::SafeField(
                        adj_bombs(b.grid(), w0, h0, r, c) as i64,
                    ),
            decreases height - row,
        {
            let mut col: usize = 0;
            while col < width
                invariant
                    w0 == width as int,
                    h0 == height as int,
                    row < height,
                    col <= width,
                    b.w() == w0,
                    b.h() == h0,
                    b.bomb_total() == nb,
                    b.cleared() == 0,
                    b.dims_ok(),
                    w0 * h0 <= usize::MAX,
                    b.grid().len() == g1.len(),
                    forall|i: int| 0 <= i < g1.len() ==> b.grid()[i].is_bomb() == g1[i].is_bomb(),
                    forall|i: int|
                        0 <= i < g1.len() ==> b.grid()[i].visibility == g1[i].visibility,
                    forall|i: int| 0 <= i < g1.len() ==> g1[i].is_hidden(),
                    count_bombs(b.grid()) == nb,
                    forall|r: int, c: int|
                        on_grid(w0, h0, r, c) && (r < row || (r == row && c < col)) && !cell(
                            b.grid(),
                            w0,
                            r,
                            c,
                        ).is_bomb() ==> cell(b.grid(), w0, r, c).field_type == FieldType::SafeField(
                            adj_bombs(b.grid(), w0, h0, r, c) as i64,
                        ),
                decreases width - col,
            {
                let pos = Position { row, col };
                if !b.bomb_check(row, col) {
                    let cnt = b.count_bombs_around(pos);
                    let ghost gprev = b.grid();
                    b.update_field_type(pos, FieldType::SafeField(cnt));
                    proof {
                        lemma_flat_range(w0, h0, row as int, col as int);
                        assert forall|i: int| 0 <= i < g1.len() implies b.grid()[i].is_bomb()
                            == g1[i].is_bomb() && b.grid()[i].visibility == g1[i].visibility by {
                            assert(gprev[i].is_bomb() == g1[i].is_bomb());
                            assert(gprev[i].visibility == g1[i].visibility);
                        }
                        lemma_count_if_same(gprev, b.grid(), bomb_pred());
                        assert forall|r: int, c: int|
                            on_grid(w0, h0, r, c) && (r < row || (r == row && c < col + 1)) && !cell(
                                b.grid(),
                                w0,
                                r,
                                c,
                            ).is_bomb() implies cell(b.grid(), w0, r, c).field_type
                            == FieldType::SafeField(adj_bombs(b.grid(), w0, h0, r, c) as i64) by {
                            lemma_flat_range(w0, h0, r, c);
                            lemma_adj_bombs_same(gprev, b.grid(), w0, h0, r, c);
                            if r != row as int || c != col as int {
                                lemma_flat_distinct(w0, h0, r, c, row as int, col as int);
                            }
                        }
                    }
                } else {
                    proof {
                        assert forall|r: int, c: int|
                            on_grid(w0, h0, r, c) && (r < row || (r == row && c < col + 1)) && !cell(
                                b.grid(),
                                w0,
                                r,
                                c,
                            ).is_bomb() implies cell(b.grid(), w0, r, c).field_type
                            == FieldType::SafeField(adj_bombs(b.grid(), w0, h0, r, c) as i64) by {
                            lemma_flat_range(w0, h0, r, c);
                        }
                    }
                }
                col = col + 1;
            }
            row = row + 1;
        }
        proof {
            assert forall|i: int| 0 <= i < b.grid().len() implies !vis_pred()(b.grid()[i])
                && b.grid()[i].is_hidden() by {
                assert(b.grid()[i].visibility == g1[i].visibility);
                assert(g1[i].is_hidden());
            }
            lemma_count_if_none(b.grid(), vis_pred());
            lemma_count_if_bounds(b.grid(), bomb_pred());
            assert forall|r: int, c: int| on_grid(w0, h0, r, c) implies (cell(
                b.grid(),
                w0,
                r,
                c,
            ).is_bomb() <==> bomb_positions@.contains(
                (Position { row: r as usize, col: c as usize }),
            )) by {
                lemma_flat_range(w0, h0, r, c);
                assert(cell(b.grid(), w0, r, c).is_bomb() == cell(g1, w0, r, c).is_bomb());
            }
        }
        b
    }

    /// How a successful reveal of a hidden field at `pos` changes the board:
    /// a zero-count field uncovers exactly the cascade's reveal set — the
    /// connected region of hidden zero-count fields around it together with
    /// that region's boundary of hidden safe fields — while any other field
    /// becomes visible alone.
    pub open spec fn reveal_step(pre: Board, post: Board, pos: Position) -> bool {
        if pre.field_of(pos).is_zero() {
            &&& post.grid().len() == pre.grid().len()
            &&& forall|r: int, c: int|
                on_grid(pre.w(), pre.h(), r, c) ==> cell(post.grid(), pre.w(), r, c) == (
                if cascade_reveals(
                    pre.grid(),
                    pre.w(),
                    pre.h(),
                    pos.row as int,
                    pos.col as int,
                    r,
                    c,
                ) {
                    (Field {
                        visibility: Visibility::Visible,
                        field_type: cell(pre.grid(), pre.w(), r, c).field_type,
                    })
                } else {
                    cell(pre.grid(), pre.w(), r, c)
                })
        } else {
            post.grid() == pre.grid().update(
                flat(pre.w(), pos.row as int, pos.col as int),
                (Field {
                    visibility: Visibility::Visible,
                    field_type: pre.field_of(pos).field_type,
                }),
            )
        }
    }

    /// Runs the cascading reveal from the hidden zero-count field at `pos`
    /// with an explicit worklist: exactly the cascade's reveal set becomes
    /// visible, and nothing else changes.
    fn show_zero_fields(&mut self, pos: Position)
        requires
            old(self).wf(),
            old(self).pos_on_grid(pos),
            hidden_zero_at(
                old(self).grid(),
                old(self).w(),
                old(self).h(),
                pos.row as int,
                pos.col as int,
            ),
        ensures
            final(self).wf(),
            final(self).w() == old(self).w(),
            final(self).h() == old(self).h(),
            final(self).bomb_total() == old(self).bomb_total(),
            Board::reveal_step(*old(self), *final(self), pos),
    {
        let ghost g0 = self.grid();
        let ghost w0 = self.w();
        let ghost h0 = self.h();
        let ghost b0 = self.bomb_total();
        let ghost sr = pos.row as int;
        let ghost sc = pos.col as int;
        let mut stack: Vec<Position> = Vec::new();
        stack.push(pos);
        proof {
            lemma_cascade_here(g0, w0, h0, sr, sc);
            assert(stack@[0] == pos);
            assert(stack@.contains(pos));
        }
        while stack.len() > 0
            invariant
                self.wf(),
                self.w() == w0,
                self.h() == h0,
                self.bomb_total() == b0,
                pos.row as int == sr,
                pos.col as int == sc,
                hidden_zero_at(g0, w0, h0, sr, sc),
                g0.len() == w0 * h0,
                reveal_frame(g0, self.grid()),
                revealed_sound(g0, self.grid(), w0, h0, sr, sc),
                stack_ok(g0, w0, h0, sr, sc, stack@),
                cell(self.grid(), w0, sr, sc).is_visible() || stack@.contains(pos),
                frontier_closed(g0, self.grid(), w0, h0, stack@),
            decreases g0.len() - count_visible(self.grid()), stack@.len(),
        {
            proof {
                lemma_count_if_bounds(self.grid(), vis_pred());
            }
            let ghost st0 = stack@;
            let ghost gprev = self.grid();
            let p = match stack.pop() {
                Some(p) => p,
                None => {
                    proof {
                        assert(false);
                    }
                    pos
                },
            };
            let ghost st1 = stack@;
            let ghost pr = p.row as int;
            let ghost pc = p.col as int;
            proof {
                assert(p == st0[st0.len() - 1]);
                assert(hidden_at(g0, w0, h0, pr, pc));
                lemma_flat_range(w0, h0, pr, pc);
                assert forall|k: int| 0 <= k < st1.len() implies st1[k] == st0[k] by {}
            }
            let f = match self.get_field(p) {
                Some(f) => f,
                None => {
                    proof {
                        assert(false);
                    }
                    Field { visibility: Visibility::Hidden, field_type: FieldType::SafeField(0) }
                },
            };
            match f.visibility {
                Visibility::Hidden => {
                    match f.field_type {
                        FieldType::BombField => {
                            proof {
                                // the popped field holds a bomb, which the
                                // cascade never reveals: dropping it leaves
                                // no frontier obligation open
                                assert(cell(g0, w0, pr, pc).is_bomb());
                                lemma_frontier_after_skip(
                                    g0,
                                    self.grid(),
                                    w0,
                                    h0,
                                    st0,
                                    st1,
                                    p,
                                );
                                assert(cell(self.grid(), w0, sr, sc).is_visible()
                                    || stack@.contains(pos)) by {
                                    if !cell(self.grid(), w0, sr, sc).is_visible() {
                                        let k = choose|k: int|
                                            0 <= k < st0.len() && st0[k] == pos;
                                        assert(k < st0.len() - 1);
                                        assert(st1[k] == pos);
                                    }
                                }
                            }
                        },
                        FieldType::SafeField(n) => {
                            proof {
                                assert(cell(gprev, w0, pr, pc) == f);
                                assert(!cell(g0, w0, pr, pc).is_bomb());
                                assert(cascade_reveals(g0, w0, h0, sr, sc, pr, pc));
                            }
                            self.update_field_vis(p, Visibility::Visible);
                            proof {
                                lemma_count_if_bounds(self.grid(), vis_pred());
                                lemma_frame_after_reveal(g0, gprev, self.grid(), w0, h0, p);
                                lemma_sound_after_reveal(
                                    g0,
                                    gprev,
                                    self.grid(),
                                    w0,
                                    h0,
                                    sr,
                                    sc,
                                    p,
                                );
                                assert(cell(self.grid(), w0, pr, pc).is_visible());
                            }
                            if n == 0 {
                                let around = self.get_fields_around(p);
                                let ghost gp = self.grid();
                                proof {
                                    assert(hidden_zero_at(g0, w0, h0, pr, pc));
                                    assert(cascade_reaches(g0, w0, h0, sr, sc, pr, pc)) by {
                                        if pr == sr && pc == sc {
                                            lemma_cascade_here(g0, w0, h0, sr, sc);
                                        }
                                    }
                                }
                                let mut j: usize = 0;
                                while j < around.len()
                                    invariant
                                        j <= around@.len(),
                                        self.wf(),
                                        self.grid() == gp,
                                        self.w() == w0,
                                        self.h() == h0,
                                        g0.len() == w0 * h0,
                                        reveal_frame(g0, gp),
                                        self.pos_on_grid(p),
                                        p.row as int == pr,
                                        p.col as int == pc,
                                        hidden_zero_at(g0, w0, h0, pr, pc),
                                        cascade_reaches(g0, w0, h0, sr, sc, pr, pc),
                                        self.sound_neighbors(p, around@),
                                        stack_ok(g0, w0, h0, sr, sc, stack@),
                                        forall|x: Position|
                                            st1.contains(x) ==> stack@.contains(x),
                                        forall|k: int|
                                            0 <= k < j ==> (hidden_at(
                                                g0,
                                                w0,
                                                h0,
                                                (#[trigger] around@[k]).row as int,
                                                around@[k].col as int,
                                            ) ==> cell(
                                                gp,
                                                w0,
                                                around@[k].row as int,
                                                around@[k].col as int,
                                            ).is_visible() || stack@.contains(around@[k])),
                                    decreases around@.len() - j,
                                {
                                    let q = around[j];
                                    self.push_if_hidden(
                                        &mut stack,
                                        q,
                                        p,
                                        Ghost(g0),
                                        Ghost(sr),
                                        Ghost(sc),
                                    );
                                    j = j + 1;
                                }
                                proof {
                                    assert forall|r3: int, c3: int|
                                        on_grid(w0, h0, r3, c3) && adjacent(pr, pc, r3, c3)
                                            && hidden_at(g0, w0, h0, r3, c3) implies cell(
                                        gp,
                                        w0,
                                        r3,
                                        c3,
                                    ).is_visible() || stack@.contains(
                                        (Position { row: r3 as usize, col: c3 as usize }),
                                    ) by {
                                        let q2 = Position { row: r3 as usize, col: c3 as usize };
                                        assert(around@.contains(q2));
                                        let k = choose|k: int|
                                            0 <= k < around@.len() && around@[k] == q2;
                                        assert(hidden_at(
                                            g0,
                                            w0,
                                            h0,
                                            around@[k].row as int,
                                            around@[k].col as int,
                                        ));
                                    }
                                    lemma_frontier_reveal_zero(
                                        g0,
                                        gprev,
                                        gp,
                                        w0,
                                        h0,
                                        st0,
                                        st1,
                                        stack@,
                                        p,
                                    );
                                    assert(cell(self.grid(), w0, sr, sc).is_visible()
                                        || stack@.contains(pos)) by {
                                        if !cell(self.grid(), w0, sr, sc).is_visible() {
                                            lemma_flat_range(w0, h0, sr, sc);
                                            assert(sr != pr || sc != pc);
                                            lemma_flat_distinct(w0, h0, sr, sc, pr, pc);
                                            assert(!cell(gprev, w0, sr, sc).is_visible());
                                            let k = choose|k: int|
                                                0 <= k < st0.len() && st0[k] == pos;
                                            assert(k < st0.len() - 1);
                                            assert(st1[k] == pos);
                                            assert(st1.contains(pos));
                                        }
                                    }
                                }
                            } else {
                                proof {
                                    assert(cell(gprev, w0, pr, pc).field_type == cell(
                                        g0,
                                        w0,
                                        pr,
                                        pc,
                                    ).field_type);
                                    assert(!cell(g0, w0, pr, pc).is_zero());
                                    lemma_frontier_reveal_nonzero(
                                        g0,
                                        gprev,
                                        self.grid(),
                                        w0,
                                        h0,
                                        st0,
                                        st1,
                                        p,
                                    );
                                    assert(cell(self.grid(), w0, sr, sc).is_visible()
                                        || stack@.contains(pos)) by {
                                        if !cell(self.grid(), w0, sr, sc).is_visible() {
                                            if sr == pr && sc == pc {
                                                assert(cell(
                                                    self.grid(),
                                                    w0,
                                                    sr,
                                                    sc,
                                                ).is_visible());
                                            } else {
                                                lemma_flat_range(w0, h0, sr, sc);
                                                lemma_flat_distinct(w0, h0, sr, sc, pr, pc);
                                                assert(!cell(gprev, w0, sr, sc).is_visible());
                                                let k = choose|k: int|
                                                    0 <= k < st0.len() && st0[k] == pos;
                                                assert(k < st0.len() - 1);
                                                assert(st1[k] == pos);
                                            }
                                        }
                                    }
                                }
                            }
                        },
                    }
                },
                _ => {
                    proof {
                        // the popped field is already visible: a field
                        // hidden at the cascade's start is never flagged
                        // while it runs
                        assert(cell(self.grid(), w0, pr, pc).is_visible());
                        lemma_frontier_after_skip(g0, self.grid(), w0, h0, st0, st1, p);
                        assert(cell(self.grid(), w0, sr, sc).is_visible() || stack@.contains(
                            pos,
                        )) by {
                            if !cell(self.grid(), w0, sr, sc).is_visible() {
                                let k = choose|k: int| 0 <= k < st0.len() && st0[k] == pos;
                                assert(k < st0.len() - 1);
                                assert(st1[k] == pos);
                            }
                        }
                    }
                },
            }
        }
        proof {
            assert(stack@ =~= Seq::<Position>::empty());
            assert(!stack@.contains(pos));
            lemma_cascade_exact(g0, self.grid(), w0, h0, sr, sc);
        }
    }


    /// Reveals the field at `pos`, returning its content. Fails on a
    /// position outside the grid and on a flagged field, both without
    /// mutation; a visible field is returned unchanged; revealing a hidden
    /// zero-count field cascades across the connected zero region and its
    /// boundary.
    pub fn show_field(&mut self, pos: Position) -> (r: Result<FieldType, BoardError>)
        requires
            old(self).wf(),
        ensures
            final(self).wf(),
            final(self).w() == old(self).w(),
            final(self).h() == old(self).h(),
            final(self).bomb_total() == old(self).bomb_total(),
            !old(self).pos_on_grid(pos) ==> r == Err::<FieldType, BoardError>(
                BoardError::OutOfBounds,
            ) && *final(self) == *old(self),
            old(self).pos_on_grid(pos) ==> match old(self).field_of(pos).visibility {
                Visibility::Flagged => r == Err::<FieldType, BoardError>(BoardError::FieldFlagged)
                    && *final(self) == *old(self),
                Visibility::Visible => r == Ok::<FieldType, BoardError>(
                    old(self).field_of(pos).field_type,
                ) && *final(self) == *old(self),
                Visibility::Hidden => r == Ok::<FieldType, BoardError>(
                    old(self).field_of(pos).field_type,
                ) && Board::reveal_step(*old(self), *final(self), pos),
            },
    {
        match self.get_field(pos) {
            None => Err(BoardError::OutOfBounds),
            Some(f) => match f.visibility {
                Visibility::Flagged => Err(BoardError::FieldFlagged),
                Visibility::Visible => Ok(f.field_type),
                Visibility::Hidden => {
                    let zero = match f.field_type {
                        FieldType::SafeField(0) => true,
                        _ => false,
                    };
                    if zero {
                        self.show_zero_fields(pos);
                    } else {
                        self.update_field_vis(pos, Visibility::Visible);
                    }
                    Ok(f.field_type)
                },
            },
        }
    }

    /// Creates a `width` by `height` board with `bombs` bombs placed
    /// uniformly at random, without replacement, over the grid. Every field
    /// starts hidden; safe fields carry their exact neighbor-bomb count.
    /// Fails exactly when more bombs are asked for than the grid has fields.
    pub fn new(width: usize, height: usize, bombs: usize) -> (r: Result<Board, BoardError>)
        requires
            width * height <= usize::MAX,
        ensures
            bombs > width * height ==> r == Err::<Board, BoardError>(
                BoardError::InvalidConfiguration,
            ),
            bombs <= width * height ==> (r matches Ok(b) && b.wf() && b.w() == width as int
                && b.h() == height as int && b.bomb_total() == bombs as int && b.cleared() == 0 && (
            forall|i: int| 0 <= i < b.grid().len() ==> b.grid()[i].is_hidden())),
    {
        let total = width * height;
        if total < bombs {
            return Err(BoardError::InvalidConfiguration);
        }
        let ghost w0 = width as int;
        let ghost h0 = height as int;
        // list every position of the grid, row-major
        let mut candidates: Vec<Position> = Vec::new();
        let mut row: usize = 0;
        while row < height
            invariant
                w0 == width as int,
                h0 == height as int,
                row <= height,
                candidates@.len() == row * width,
                row * width <= w0 * h0,
                forall|k: int|
                    0 <= k < candidates@.len() ==> candidates@[k] == (Position {
                        row: (k / w0) as usize,
                        col: (k % w0) as usize,
                    }),
            decreases height - row,
        {
            let mut col: usize = 0;
            while col < width
                invariant
                    w0 == width as int,
                    h0 == height as int,
                    row < height,
                    col <= width,
                    candidates@.len() == row * width + col,
                    forall|k: int|
                        0 <= k < candidates@.len() ==> candidates@[k] == (Position {
                            row: (k / w0) as usize,
                            col: (k % w0) as usize,
                        }),
                decreases width - col,
            {
                proof {
                    lemma_flat_range(w0, h0, row as int, col as int);
                    lemma_flat_divmod(w0, h0, row as int, col as int);
                }
                candidates.push(Position { row, col });
                col = col + 1;
            }
            proof {
                assert((row + 1) * width == row * width + width) by (nonlinear_arith);
                assert((row + 1) * width <= w0 * h0) by (nonlinear_arith)
                    requires
                        row + 1 <= h0,
                        w0 == width,
                        0 <= width,
                ;
            }
            row = row + 1;
        }
        proof {
            assert(h0 * w0 == w0 * h0) by (nonlinear_arith);
            assert forall|k1: int, k2: int|
                0 <= k1 < k2 < candidates@.len() implies candidates@[k1] != candidates@[k2] by {
                lemma_positive_area(w0, h0, k1);
                lemma_flat_unflatten(w0, h0, k1);
                lemma_flat_unflatten(w0, h0, k2);
            }
            assert forall|k: int| 0 <= k < candidates@.len() implies on_grid(
                w0,
                h0,
                candidates@[k].row as int,
                candidates@[k].col as int,
            ) by {
                lemma_positive_area(w0, h0, k);
                lemma_flat_unflatten(w0, h0, k);
            }
        }
        // draw the bombs without replacement from the shrinking candidate
        // list
        let mut drawn: Vec<Position> = Vec::new();
        let mut i: usize = 0;
        while i < bombs
            invariant
                w0 == width as int,
                h0 == height as int,
                i <= bombs,
                bombs <= w0 * h0,
                drawn@.len() == i as int,
                candidates@.len() == w0 * h0 - i,
                forall|k: int|
                    0 <= k < candidates@.len() ==> on_grid(
                        w0,
                        h0,
                        (#[trigger] candidates@[k]).row as int,
                        candidates@[k].col as int,
                    ),
                forall|k1: int, k2: int|
                    0 <= k1 < k2 < candidates@.len() ==> candidates@[k1] != candidates@[k2],
                forall|k: int|
                    0 <= k < drawn@.len() ==> on_grid(
                        w0,
                        h0,
                        (#[trigger] drawn@[k]).row as int,
                        drawn@[k].col as int,
                    ),
                forall|k1: int, k2: int| 0 <= k1 < k2 < drawn@.len() ==> drawn@[k1] != drawn@[k2],
                forall|k1: int, k2: int|
                    0 <= k1 < drawn@.len() && 0 <= k2 < candidates@.len() ==> drawn@[k1]
                        != candidates@[k2],
            decreases bombs - i,
        {
            let idx = random_index(candidates.len());
            let ghost old_c = candidates@;
            let ghost old_d = drawn@;
            let pos = candidates.remove(idx);
            drawn.push(pos);
            proof {
                old_c.remove_ensures(idx as int);
            }
            i = i + 1;
        }
        Ok(Board::build(width, height, &drawn))
    }

    /// Creates a board with bombs exactly at the given positions; every
    /// field starts hidden. Fails exactly when some position lies outside
    /// the grid or is named twice.
    pub fn new_with_bombs(width: usize, height: usize, bomb_positions: &Vec<Position>) -> (r:
        Result<Board, BoardError>)
        requires
            width * height <= usize::MAX,
        ensures
            valid_bomb_list(width as int, height as int, bomb_positions@) <==> r is Ok,
            !valid_bomb_list(width as int, height as int, bomb_positions@) ==> r == Err::<
                Board,
                BoardError,
            >(BoardError::InvalidConfiguration),
            r matches Ok(b) ==> b.wf() && b.w() == width as int && b.h() == height as int
                && b.bomb_total() == bomb_positions@.len() && b.cleared() == 0 && (forall|i: int|
                0 <= i < b.grid().len() ==> b.grid()[i].is_hidden()) && (forall|r2: int, c2: int|
                on_grid(width as int, height as int, r2, c2) ==> (cell(
                    b.grid(),
                    width as int,
                    r2,
                    c2,
                ).is_bomb() <==> bomb_positions@.contains(
                    (Position { row: r2 as usize, col: c2 as usize }),
                ))),
    {
        let mut k: usize = 0;
        while k < bomb_positions.len()
            invariant
                k <= bomb_positions@.len(),
                forall|j: int|
                    0 <= j < k ==> on_grid(
                        width as int,
                        height as int,
                        (#[trigger] bomb_positions@[j]).row as int,
                        bomb_positions@[j].col as int,
                    ),
                forall|j1: int, j2: int|
                    0 <= j1 < j2 < k ==> bomb_positions@[j1] != bomb_positions@[j2],
            decreases bomb_positions@.len() - k,
        {
            let p = bomb_positions[k];
            if p.row >= height || p.col >= width {
                return Err(BoardError::InvalidConfiguration);
            }
            let mut j: usize = 0;
            while j < k
                invariant
                    j <= k,
                    k < bomb_positions@.len(),
                    p == bomb_positions@[k as int],
                    forall|j2: int| 0 <= j2 < j ==> bomb_positions@[j2] != p,
                decreases k - j,
            {
                if bomb_positions[j] == p {
                    return Err(BoardError::InvalidConfiguration);
                }
                j = j + 1;
            }
            k = k + 1;
        }
        Ok(Board::build(width, height, bomb_positions))
    }

    /// Reveals every field unconditionally; used to show the full board at
    /// the end of a game. Afterwards the cleared counter equals the number of
    /// fields.
    pub fn all_fields_visible(&mut self)
        requires
            old(self).wf(),
        ensures
            final(self).wf(),
            final(self).w() == old(self).w(),
            final(self).h() == old(self).h(),
            final(self).bomb_total() == old(self).bomb_total(),
            final(self).grid().len() == old(self).grid().len(),
            forall|i: int|
                0 <= i < old(self).grid().len() ==> final(self).grid()[i] == (Field {
                    visibility: Visibility::Visible,
                    field_type: old(self).grid()[i].field_type,
                }),
            final(self).cleared() == old(self).w() * old(self).h(),
    {
        let ghost g0 = self.grid();
        let ghost w0 = self.w();
        let ghost h0 = self.h();
        let ghost b0 = self.bomb_total();
        let mut row: usize = 0;
        while row < self.height
            invariant
                self.wf(),
                self.w() == w0,
                self.h() == h0,
                self.bomb_total() == b0,
                row <= self.height,
                self.grid().len() == g0.len(),
                forall|j: int|
                    0 <= j < g0.len() ==> self.grid()[j].field_type == g0[j].field_type,
                forall|r: int, c: int|
                    on_grid(w0, h0, r, c) ==> cell(self.grid(), w0, r, c).visibility == (
                    if r < row {
                        Visibility::Visible
                    } else {
                        cell(g0, w0, r, c).visibility
                    }),
            decreases self.height - row,
        {
            let mut col: usize = 0;
            while col < self.width
                invariant
                    self.wf(),
                    self.w() == w0,
                    self.h() == h0,
                    self.bomb_total() == b0,
                    row < self.height,
                    col <= self.width,
                    self.grid().len() == g0.len(),
                    forall|j: int|
                        0 <= j < g0.len() ==> self.grid()[j].field_type == g0[j].field_type,
                    forall|r: int, c: int|
                        on_grid(w0, h0, r, c) ==> cell(self.grid(), w0, r, c).visibility == (
                        if r < row || (r == row && c < col) {
                            Visibility::Visible
                        } else {
                            cell(g0, w0, r, c).visibility
                        }),
                decreases self.width - col,
            {
                let ghost gprev = self.grid();
                self.update_field_vis(Position { row, col }, Visibility::Visible);
                proof {
                    lemma_flat_range(w0, h0, row as int, col as int);
                    assert forall|j: int| 0 <= j < g0.len() implies self.grid()[j].field_type
                        == g0[j].field_type by {
                        assert(gprev[j].field_type == g0[j].field_type);
                    }
                    assert forall|r: int, c: int| on_grid(w0, h0, r, c) implies cell(
                        self.grid(),
                        w0,
                        r,
                        c,
                    ).visibility == (if r < row || (r == row && c < col + 1) {
                        Visibility::Visible
                    } else {
                        cell(gprev, w0, r, c).visibility
                    }) by {
                        lemma_flat_range(w0, h0, r, c);
                        lemma_flat_range(w0, h0, row as int, col as int);
                        if r != row || c != col {
                            lemma_flat_distinct(w0, h0, r, c, row as int, col as int);
                        }
                    }
                }
                col = col + 1;
            }
            row = row + 1;
        }
        proof {
            assert forall|i: int| 0 <= i < self.grid().len() implies vis_pred()(
                self.grid()[i],
            ) && self.grid()[i] == (Field {
                visibility: Visibility::Visible,
                field_type: g0[i].field_type,
            }) by {
                lemma_positive_area(w0, h0, i);
                lemma_flat_unflatten(w0, h0, i);
                assert(cell(self.grid(), w0, i / w0, i % w0).visibility == Visibility::Visible);
            }
            lemma_count_if_all(self.grid(), vis_pred());
        }
    }

    /// True exactly when every safe field has been revealed, that is, when
    /// the cleared counter has reached `width * height - bombs`.
    pub fn is_win(&self) -> (r: bool)
        requires
            self.wf(),
        ensures
            r == (self.cleared() == self.w() * self.h() - self.bomb_total()),
    {
        self.fields_cleared == self.width * self.height - self.bombs
    }
}

} // verus!
