//! The mathematical description of the cascading reveal: zero-walks across
//! the grid, the set of positions a cascade reaches, and the lemmas that tie
//! a worklist traversal to that set.

use vstd::prelude::*;

use crate::field::Field;
use crate::field::Position;
use crate::field::Visibility;
use crate::grid::cell;
use crate::grid::flat;
use crate::grid::hidden_at;
use crate::grid::hidden_zero_at;
use crate::grid::lemma_flat_distinct;
use crate::grid::lemma_flat_range;
use crate::grid::on_grid;

verus! {

/// True when two distinct positions are 8-neighbors of each other.
pub open spec fn adjacent(r1: int, c1: int, r2: int, c2: int) -> bool {
    (r1 != r2 || c1 != c2) && -1 <= r1 - r2 <= 1 && -1 <= c1 - c2 <= 1
}

/// A walk across grid `g`: consecutive entries are 8-neighbors, every entry
/// is on the grid, and every entry but the last is a hidden zero-count
/// field.
pub open spec fn zero_walk(g: Seq<Field>, w: int, h: int, path: Seq<(int, int)>) -> bool {
    &&& path.len() >= 1
    &&& forall|i: int| 0 <= i < path.len() ==> on_grid(w, h, (#[trigger] path[i]).0, path[i].1)
    &&& forall|i: int|
        0 <= i < path.len() - 1 ==> adjacent(
            (#[trigger] path[i]).0,
            path[i].1,
            path[i + 1].0,
            path[i + 1].1,
        )
    &&& forall|i: int|
        0 <= i < path.len() - 1 ==> hidden_zero_at(g, w, h, (#[trigger] path[i]).0, path[i].1)
}

/// The positions a cascade starting at `(r0, c0)` can walk to on grid `g`:
/// endpoints of zero-walks starting there.
pub open spec fn cascade_reaches(
    g: Seq<Field>,
    w: int,
    h: int,
    r0: int,
    c0: int,
    r: int,
    c: int,
) -> bool {
    exists|path: Seq<(int, int)>|
        zero_walk(g, w, h, path) && path.first() == (r0, c0) && path.last() == (r, c)
}

/// The fields that one reveal at a hidden zero-count field `(r0, c0)`
/// uncovers: the start itself, and every hidden safe field that some
/// zero-walk from the start ends on.
pub open spec fn cascade_reveals(
    g: Seq<Field>,
    w: int,
    h: int,
    r0: int,
    c0: int,
    r: int,
    c: int,
) -> bool {
    ||| (r == r0 && c == c0)
    ||| (cascade_reaches(g, w, h, r0, c0, r, c) && hidden_at(g, w, h, r, c) && !cell(
        g,
        w,
        r,
        c,
    ).is_bomb())
}

/// How a grid may differ from `g0` while a cascade runs: contents never
/// change, and a field's state changes only by a hidden safe field becoming
/// visible.
pub open spec fn reveal_frame(g0: Seq<Field>, g: Seq<Field>) -> bool {
    &&& g.len() == g0.len()
    &&& forall|i: int| 0 <= i < g0.len() ==> (#[trigger] g[i]).field_type == g0[i].field_type
    &&& forall|i: int|
        0 <= i < g0.len() ==> (#[trigger] g[i]).visibility == g0[i].visibility || (
        g0[i].is_hidden() && g[i].is_visible() && !g0[i].is_bomb())
}

/// Every field made visible since `g0` is one the cascade from `(r0, c0)`
/// reveals.
pub open spec fn revealed_sound(
    g0: Seq<Field>,
    g: Seq<Field>,
    w: int,
    h: int,
    r0: int,
    c0: int,
) -> bool {
    forall|r: int, c: int|
        on_grid(w, h, r, c) && cell(g, w, r, c).is_visible() && cell(g0, w, r, c).is_hidden()
            ==> cascade_reveals(g0, w, h, r0, c0, r, c)
}

/// Every entry of the worklist is an on-grid position that the cascade from
/// `(r0, c0)` can walk to and that was hidden when the cascade started.
pub open spec fn stack_ok(
    g0: Seq<Field>,
    w: int,
    h: int,
    r0: int,
    c0: int,
    st: Seq<Position>,
) -> bool {
    forall|k: int|
        0 <= k < st.len() ==> {
            let p = #[trigger] st[k];
            on_grid(w, h, p.row as int, p.col as int) && cascade_reaches(
                g0,
                w,
                h,
                r0,
                c0,
                p.row as int,
                p.col as int,
            ) && hidden_at(g0, w, h, p.row as int, p.col as int)
        }
}

/// Every initially hidden, safe neighbor of a field the traversal has
/// already revealed as a zero field is itself revealed or still on the
/// worklist.
pub open spec fn frontier_closed(
    g0: Seq<Field>,
    g: Seq<Field>,
    w: int,
    h: int,
    st: Seq<Position>,
) -> bool {
    forall|r: int, c: int, r2: int, c2: int|
        on_grid(w, h, r, c) && cell(g, w, r, c).is_visible() && hidden_zero_at(g0, w, h, r, c)
            && #[trigger] adjacent(r, c, r2, c2) && hidden_at(g0, w, h, r2, c2) && !cell(
            g0,
            w,
            r2,
            c2,
        ).is_bomb() ==> cell(g, w, r2, c2).is_visible() || st.contains(
            (Position { row: r2 as usize, col: c2 as usize }),
        )
}

/// Pushing onto a sequence keeps every element it already contains.
pub proof fn lemma_push_contains(s: Seq<Position>, x: Position, y: Position)
    requires
        s.contains(y),
    ensures
        s.push(x).contains(y),
{
    let k = choose|k: int| 0 <= k < s.len() && s[k] == y;
    assert(s.push(x)[k] == y);
}

/// A one-entry walk: every on-grid position is reached from itself.
pub proof fn lemma_cascade_here(g: Seq<Field>, w: int, h: int, r: int, c: int)
    requires
        on_grid(w, h, r, c),
    ensures
        cascade_reaches(g, w, h, r, c, r, c),
{
    let path: Seq<(int, int)> = seq![(r, c)];
    assert(path[0] == (r, c));
    assert(path.first() == (r, c));
    assert(path.last() == (r, c));
    assert(zero_walk(g, w, h, path));
}

/// A walk that ends on a hidden zero-count field extends to any on-grid
/// neighbor of that field.
pub proof fn lemma_cascade_extend(
    g: Seq<Field>,
    w: int,
    h: int,
    r0: int,
    c0: int,
    pr: int,
    pc: int,
    qr: int,
    qc: int,
)
    requires
        cascade_reaches(g, w, h, r0, c0, pr, pc),
        hidden_zero_at(g, w, h, pr, pc),
        adjacent(pr, pc, qr, qc),
        on_grid(w, h, qr, qc),
    ensures
        cascade_reaches(g, w, h, r0, c0, qr, qc),
{
    let path = choose|path: Seq<(int, int)>|
        zero_walk(g, w, h, path) && path.first() == (r0, c0) && path.last() == (pr, pc);
    let path2 = path.push((qr, qc));
    assert(path2.last() == (qr, qc));
    assert(path2[0] == path[0]);
    assert(zero_walk(g, w, h, path2)) by {
        assert forall|i: int| 0 <= i < path2.len() implies on_grid(
            w,
            h,
            (#[trigger] path2[i]).0,
            path2[i].1,
        ) by {
            if i < path.len() {
                assert(path2[i] == path[i]);
            }
        }
        assert forall|i: int| 0 <= i < path2.len() - 1 implies adjacent(
            (#[trigger] path2[i]).0,
            path2[i].1,
            path2[i + 1].0,
            path2[i + 1].1,
        ) by {
            assert(path2[i] == path[i]);
            if i < path.len() - 1 {
                assert(path2[i + 1] == path[i + 1]);
            } else {
                assert(path[i] == path.last());
            }
        }
        assert forall|i: int| 0 <= i < path2.len() - 1 implies hidden_zero_at(
            g,
            w,
            h,
            (#[trigger] path2[i]).0,
            path2[i].1,
        ) by {
            assert(path2[i] == path[i]);
            if i == path.len() - 1 {
                assert(path[i] == path.last());
            }
        }
    }
}

/// Any set of positions that holds the start of a zero-walk and expands
/// across every initially hidden safe neighbor of each of its hidden
/// zero-count members also holds the walk's endpoint.
pub proof fn lemma_zero_walk_closure(
    g: Seq<Field>,
    w: int,
    h: int,
    path: Seq<(int, int)>,
    s: spec_fn(int, int) -> bool,
)
    requires
        zero_walk(g, w, h, path),
        s(path.first().0, path.first().1),
        path.len() > 1 ==> hidden_at(g, w, h, path.last().0, path.last().1) && !cell(
            g,
            w,
            path.last().0,
            path.last().1,
        ).is_bomb(),
        forall|r: int, c: int, r2: int, c2: int|
            s(r, c) && hidden_zero_at(g, w, h, r, c) && #[trigger] adjacent(r, c, r2, c2)
                && hidden_at(g, w, h, r2, c2) && !cell(g, w, r2, c2).is_bomb() ==> s(r2, c2),
    ensures
        s(path.last().0, path.last().1),
    decreases path.len(),
{
    if path.len() > 1 {
        let pre = path.drop_last();
        assert(pre.first() == path.first());
        assert(pre.last() == path[path.len() - 2]);
        assert(zero_walk(g, w, h, pre)) by {
            assert forall|i: int| 0 <= i < pre.len() implies on_grid(
                w,
                h,
                (#[trigger] pre[i]).0,
                pre[i].1,
            ) by {
                assert(pre[i] == path[i]);
            }
            assert forall|i: int| 0 <= i < pre.len() - 1 implies adjacent(
                (#[trigger] pre[i]).0,
                pre[i].1,
                pre[i + 1].0,
                pre[i + 1].1,
            ) by {
                assert(pre[i] == path[i]);
                assert(pre[i + 1] == path[i + 1]);
            }
            assert forall|i: int| 0 <= i < pre.len() - 1 implies hidden_zero_at(
                g,
                w,
                h,
                (#[trigger] pre[i]).0,
                pre[i].1,
            ) by {
                assert(pre[i] == path[i]);
            }
        }
        assert(hidden_zero_at(g, w, h, pre.last().0, pre.last().1));
        lemma_zero_walk_closure(g, w, h, pre, s);
        assert(adjacent(pre.last().0, pre.last().1, path.last().0, path.last().1));
    }
}

/// Dropping the worklist's last entry keeps the frontier covered when that
/// entry is already visible or holds a bomb.
pub proof fn lemma_frontier_after_skip(
    g0: Seq<Field>,
    g: Seq<Field>,
    w: int,
    h: int,
    st0: Seq<Position>,
    st: Seq<Position>,
    p: Position,
)
    requires
        frontier_closed(g0, g, w, h, st0),
        st0.len() >= 1,
        p == st0.last(),
        st == st0.drop_last(),
        on_grid(w, h, p.row as int, p.col as int),
        0 <= w <= usize::MAX,
        0 <= h <= usize::MAX,
        g0.len() == w * h,
        g.len() == w * h,
        cell(g, w, p.row as int, p.col as int).is_visible() || cell(
            g0,
            w,
            p.row as int,
            p.col as int,
        ).is_bomb(),
    ensures
        frontier_closed(g0, g, w, h, st),
{
    assert forall|r2: int, c2: int, r3: int, c3: int|
        on_grid(w, h, r2, c2) && cell(g, w, r2, c2).is_visible() && hidden_zero_at(g0, w, h, r2, c2)
            && #[trigger] adjacent(r2, c2, r3, c3) && hidden_at(g0, w, h, r3, c3) && !cell(
            g0,
            w,
            r3,
            c3,
        ).is_bomb() implies cell(g, w, r3, c3).is_visible() || st.contains(
        (Position { row: r3 as usize, col: c3 as usize }),
    ) by {
        let q2 = Position { row: r3 as usize, col: c3 as usize };
        if !cell(g, w, r3, c3).is_visible() {
            assert(st0.contains(q2));
            let k = choose|k: int| 0 <= k < st0.len() && st0[k] == q2;
            if k == st0.len() - 1 {
                assert(q2 == p);
                assert(r3 == p.row as int && c3 == p.col as int);
                assert(false);
            } else {
                assert(st[k] == q2);
            }
        }
    }
}

/// Revealing one hidden safe field keeps the frame relation to the starting
/// grid.
pub proof fn lemma_frame_after_reveal(
    g0: Seq<Field>,
    gprev: Seq<Field>,
    g2: Seq<Field>,
    w: int,
    h: int,
    p: Position,
)
    requires
        reveal_frame(g0, gprev),
        on_grid(w, h, p.row as int, p.col as int),
        g0.len() == w * h,
        g2 == gprev.update(
            flat(w, p.row as int, p.col as int),
            (Field {
                visibility: Visibility::Visible,
                field_type: cell(gprev, w, p.row as int, p.col as int).field_type,
            }),
        ),
        hidden_at(g0, w, h, p.row as int, p.col as int),
        !cell(g0, w, p.row as int, p.col as int).is_bomb(),
    ensures
        reveal_frame(g0, g2),
{
    lemma_flat_range(w, h, p.row as int, p.col as int);
    assert forall|i: int|
        0 <= i < g0.len() implies (#[trigger] g2[i]).field_type == g0[i].field_type && (
    g2[i].visibility == g0[i].visibility || (g0[i].is_hidden() && g2[i].is_visible()
        && !g0[i].is_bomb())) by {
        assert(gprev[i].field_type == g0[i].field_type);
        if i != flat(w, p.row as int, p.col as int) {
            assert(g2[i] == gprev[i]);
        }
    }
}

/// Revealing one field of the cascade's reveal set keeps every newly
/// visible field within that set.
pub proof fn lemma_sound_after_reveal(
    g0: Seq<Field>,
    gprev: Seq<Field>,
    g2: Seq<Field>,
    w: int,
    h: int,
    r0: int,
    c0: int,
    p: Position,
)
    requires
        revealed_sound(g0, gprev, w, h, r0, c0),
        g0.len() == w * h,
        gprev.len() == w * h,
        on_grid(w, h, p.row as int, p.col as int),
        g2 == gprev.update(
            flat(w, p.row as int, p.col as int),
            (Field {
                visibility: Visibility::Visible,
                field_type: cell(gprev, w, p.row as int, p.col as int).field_type,
            }),
        ),
        cascade_reveals(g0, w, h, r0, c0, p.row as int, p.col as int),
    ensures
        revealed_sound(g0, g2, w, h, r0, c0),
{
    lemma_flat_range(w, h, p.row as int, p.col as int);
    assert forall|r: int, c: int|
        on_grid(w, h, r, c) && cell(g2, w, r, c).is_visible() && cell(g0, w, r, c).is_hidden()
            implies cascade_reveals(g0, w, h, r0, c0, r, c) by {
        lemma_flat_range(w, h, r, c);
        if r != p.row as int || c != p.col as int {
            lemma_flat_distinct(w, h, r, c, p.row as int, p.col as int);
            assert(cell(gprev, w, r, c).is_visible());
        }
    }
}

/// Revealing a field whose count is not zero imposes no new frontier
/// obligation: dropping it from the worklist keeps the frontier covered.
pub proof fn lemma_frontier_reveal_nonzero(
    g0: Seq<Field>,
    gprev: Seq<Field>,
    g2: Seq<Field>,
    w: int,
    h: int,
    st0: Seq<Position>,
    st: Seq<Position>,
    p: Position,
)
    requires
        frontier_closed(g0, gprev, w, h, st0),
        st0.len() >= 1,
        p == st0.last(),
        st == st0.drop_last(),
        on_grid(w, h, p.row as int, p.col as int),
        0 <= w <= usize::MAX,
        0 <= h <= usize::MAX,
        g0.len() == w * h,
        gprev.len() == w * h,
        g2 == gprev.update(
            flat(w, p.row as int, p.col as int),
            (Field {
                visibility: Visibility::Visible,
                field_type: cell(gprev, w, p.row as int, p.col as int).field_type,
            }),
        ),
        !cell(g0, w, p.row as int, p.col as int).is_zero(),
    ensures
        frontier_closed(g0, g2, w, h, st),
{
    lemma_flat_range(w, h, p.row as int, p.col as int);
    assert forall|r2: int, c2: int, r3: int, c3: int|
        on_grid(w, h, r2, c2) && cell(g2, w, r2, c2).is_visible() && hidden_zero_at(
            g0,
            w,
            h,
            r2,
            c2,
        ) && #[trigger] adjacent(r2, c2, r3, c3) && hidden_at(g0, w, h, r3, c3) && !cell(
            g0,
            w,
            r3,
            c3,
        ).is_bomb() implies cell(g2, w, r3, c3).is_visible() || st.contains(
        (Position { row: r3 as usize, col: c3 as usize }),
    ) by {
        let q2 = Position { row: r3 as usize, col: c3 as usize };
        lemma_flat_range(w, h, r2, c2);
        lemma_flat_range(w, h, r3, c3);
        assert(r2 != p.row as int || c2 != p.col as int);
        lemma_flat_distinct(w, h, r2, c2, p.row as int, p.col as int);
        assert(cell(gprev, w, r2, c2).is_visible());
        if !cell(g2, w, r3, c3).is_visible() {
            assert(r3 != p.row as int || c3 != p.col as int);
            lemma_flat_distinct(w, h, r3, c3, p.row as int, p.col as int);
            assert(!cell(gprev, w, r3, c3).is_visible());
            assert(st0.contains(q2));
            let k = choose|k: int| 0 <= k < st0.len() && st0[k] == q2;
            if k == st0.len() - 1 {
                assert(q2 == p);
                assert(false);
            } else {
                assert(st[k] == q2);
            }
        }
    }
}

/// Revealing a zero-count field keeps the frontier covered once all of its
/// initially hidden neighbors are visible or on the worklist, provided the
/// worklist kept everything it held after the field was popped.
pub proof fn lemma_frontier_reveal_zero(
    g0: Seq<Field>,
    gprev: Seq<Field>,
    g2: Seq<Field>,
    w: int,
    h: int,
    st0: Seq<Position>,
    st1: Seq<Position>,
    st: Seq<Position>,
    p: Position,
)
    requires
        frontier_closed(g0, gprev, w, h, st0),
        st0.len() >= 1,
        p == st0.last(),
        st1 == st0.drop_last(),
        on_grid(w, h, p.row as int, p.col as int),
        0 <= w <= usize::MAX,
        0 <= h <= usize::MAX,
        g0.len() == w * h,
        gprev.len() == w * h,
        g2 == gprev.update(
            flat(w, p.row as int, p.col as int),
            (Field {
                visibility: Visibility::Visible,
                field_type: cell(gprev, w, p.row as int, p.col as int).field_type,
            }),
        ),
        forall|x: Position| st1.contains(x) ==> st.contains(x),
        forall|r3: int, c3: int|
            on_grid(w, h, r3, c3) && adjacent(p.row as int, p.col as int, r3, c3) && hidden_at(
                g0,
                w,
                h,
                r3,
                c3,
            ) ==> cell(g2, w, r3, c3).is_visible() || st.contains(
                (Position { row: r3 as usize, col: c3 as usize }),
            ),
    ensures
        frontier_closed(g0, g2, w, h, st),
{
    lemma_flat_range(w, h, p.row as int, p.col as int);
    assert forall|r2: int, c2: int, r3: int, c3: int|
        on_grid(w, h, r2, c2) && cell(g2, w, r2, c2).is_visible() && hidden_zero_at(
            g0,
            w,
            h,
            r2,
            c2,
        ) && #[trigger] adjacent(r2, c2, r3, c3) && hidden_at(g0, w, h, r3, c3) && !cell(
            g0,
            w,
            r3,
            c3,
        ).is_bomb() implies cell(g2, w, r3, c3).is_visible() || st.contains(
        (Position { row: r3 as usize, col: c3 as usize }),
    ) by {
        let q2 = Position { row: r3 as usize, col: c3 as usize };
        lemma_flat_range(w, h, r2, c2);
        lemma_flat_range(w, h, r3, c3);
        if r2 == p.row as int && c2 == p.col as int {
        } else {
            lemma_flat_distinct(w, h, r2, c2, p.row as int, p.col as int);
            assert(cell(gprev, w, r2, c2).is_visible());
            if !cell(g2, w, r3, c3).is_visible() {
                assert(r3 != p.row as int || c3 != p.col as int);
                lemma_flat_distinct(w, h, r3, c3, p.row as int, p.col as int);
                assert(!cell(gprev, w, r3, c3).is_visible());
                assert(st0.contains(q2));
                let k = choose|k: int| 0 <= k < st0.len() && st0[k] == q2;
                if k == st0.len() - 1 {
                    assert(q2 == p);
                    assert(false);
                } else {
                    assert(st1[k] == q2);
                    assert(st1.contains(q2));
                }
            }
        }
    }
}

/// With an empty worklist the traversal's invariants pin the final grid
/// down: exactly the cascade's reveal set has become visible, everything
/// else is untouched.
pub proof fn lemma_cascade_exact(g0: Seq<Field>, gf: Seq<Field>, w: int, h: int, r0: int, c0: int)
    requires
        g0.len() == w * h,
        hidden_zero_at(g0, w, h, r0, c0),
        reveal_frame(g0, gf),
        revealed_sound(g0, gf, w, h, r0, c0),
        frontier_closed(g0, gf, w, h, Seq::<Position>::empty()),
        cell(gf, w, r0, c0).is_visible(),
    ensures
        forall|r: int, c: int|
            on_grid(w, h, r, c) ==> cell(gf, w, r, c) == (if cascade_reveals(
                g0,
                w,
                h,
                r0,
                c0,
                r,
                c,
            ) {
                (Field {
                    visibility: Visibility::Visible,
                    field_type: cell(g0, w, r, c).field_type,
                })
            } else {
                cell(g0, w, r, c)
            }),
{
    let s = |r: int, c: int| on_grid(w, h, r, c) && cell(gf, w, r, c).is_visible();
    assert(s(r0, c0));
    assert forall|r2: int, c2: int, r3: int, c3: int|
        s(r2, c2) && hidden_zero_at(g0, w, h, r2, c2) && #[trigger] adjacent(r2, c2, r3, c3)
            && hidden_at(g0, w, h, r3, c3) && !cell(g0, w, r3, c3).is_bomb() implies s(r3, c3) by {
        assert(!Seq::<Position>::empty().contains(
            (Position { row: r3 as usize, col: c3 as usize }),
        ));
    }
    assert forall|r: int, c: int| on_grid(w, h, r, c) implies cell(gf, w, r, c) == (
    if cascade_reveals(g0, w, h, r0, c0, r, c) {
        (Field { visibility: Visibility::Visible, field_type: cell(g0, w, r, c).field_type })
    } else {
        cell(g0, w, r, c)
    }) by {
        lemma_flat_range(w, h, r, c);
        if cascade_reveals(g0, w, h, r0, c0, r, c) {
            if r == r0 && c == c0 {
            } else {
                let path = choose|path: Seq<(int, int)>|
                    zero_walk(g0, w, h, path) && path.first() == (r0, c0) && path.last() == (r, c);
                assert(path.first().0 == r0 && path.first().1 == c0);
                lemma_zero_walk_closure(g0, w, h, path, s);
                assert(s(r, c));
            }
            assert(cell(gf, w, r, c).visibility == Visibility::Visible);
        } else {
            assert(cell(gf, w, r, c).visibility == cell(g0, w, r, c).visibility);
        }
    }
}

} // verus!
