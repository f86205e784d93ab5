//! Mathematical model of a rectangular grid of fields, stored row-major in a
//! flat sequence: flat indexing, neighborhood and adjacency-count
//! definitions, counting of bombs and visible fields, and the zero-walk
//! reachability that specifies the cascading reveal.

use vstd::prelude::*;

use crate::field::Field;
use crate::field::FieldType;

verus! {

/// Flat row-major index of the field at `(r, c)` on a grid `w` columns wide.
pub open spec fn flat(w: int, r: int, c: int) -> int {
    r * w + c
}

/// True when `(r, c)` lies on a grid of `w` columns and `h` rows.
pub open spec fn on_grid(w: int, h: int, r: int, c: int) -> bool {
    0 <= r < h && 0 <= c < w
}

/// The field stored at `(r, c)` of the row-major grid sequence `g`.
pub open spec fn cell(g: Seq<Field>, w: int, r: int, c: int) -> Field {
    g[flat(w, r, c)]
}

/// 1 for a true condition, 0 for a false one; used to sum up counts.
pub open spec fn b2i(b: bool) -> int {
    if b {
        1
    } else {
        0
    }
}

/// True when `(r, c)` is on the grid and holds a bomb.
pub open spec fn bomb_at(g: Seq<Field>, w: int, h: int, r: int, c: int) -> bool {
    on_grid(w, h, r, c) && cell(g, w, r, c).is_bomb()
}

/// The number of bombs among the up-to-8 neighbors of `(r, c)`: positions
/// outside the grid contribute nothing.
pub open spec fn adj_bombs(g: Seq<Field>, w: int, h: int, r: int, c: int) -> int {
    b2i(bomb_at(g, w, h, r - 1, c - 1)) + b2i(bomb_at(g, w, h, r - 1, c)) + b2i(
        bomb_at(g, w, h, r - 1, c + 1),
    ) + b2i(bomb_at(g, w, h, r, c - 1)) + b2i(bomb_at(g, w, h, r, c + 1)) + b2i(
        bomb_at(g, w, h, r + 1, c - 1),
    ) + b2i(bomb_at(g, w, h, r + 1, c)) + b2i(bomb_at(g, w, h, r + 1, c + 1))
}

/// True of an on-grid field that is hidden.
pub open spec fn hidden_at(g: Seq<Field>, w: int, h: int, r: int, c: int) -> bool {
    on_grid(w, h, r, c) && cell(g, w, r, c).is_hidden()
}

/// True of an on-grid field that is hidden and has a zero neighbor count:
/// the cascading reveal walks through exactly these fields.
pub open spec fn hidden_zero_at(g: Seq<Field>, w: int, h: int, r: int, c: int) -> bool {
    hidden_at(g, w, h, r, c) && cell(g, w, r, c).is_zero()
}

/// The number of fields of `g` satisfying `p`.
pub open spec fn count_if(g: Seq<Field>, p: spec_fn(Field) -> bool) -> int
    decreases g.len(),
{
    if g.len() == 0 {
        0
    } else {
        count_if(g.drop_last(), p) + b2i(p(g.last()))
    }
}

/// The predicate picking out bomb fields, in a form the counting lemmas can
/// be instantiated with.
pub open spec fn bomb_pred() -> spec_fn(Field) -> bool {
    |f: Field| f.is_bomb()
}

/// The predicate picking out visible fields.
pub open spec fn vis_pred() -> spec_fn(Field) -> bool {
    |f: Field| f.is_visible()
}

/// The number of bomb fields of `g`.
pub open spec fn count_bombs(g: Seq<Field>) -> int {
    count_if(g, bomb_pred())
}

/// The number of visible fields of `g`.
pub open spec fn count_visible(g: Seq<Field>) -> int {
    count_if(g, vis_pred())
}

/// Every safe field of `g` carries the exact number of bombs among its
/// up-to-8 neighbors.
pub open spec fn counts_ok(g: Seq<Field>, w: int, h: int) -> bool {
    forall|r: int, c: int|
        on_grid(w, h, r, c) && !cell(g, w, r, c).is_bomb() ==> cell(g, w, r, c).field_type
            == FieldType::SafeField(#[trigger] adj_bombs(g, w, h, r, c) as i64)
}

/// A flat index of a field on a `w` by `h` grid is within the sequence.
pub proof fn lemma_flat_range(w: int, h: int, r: int, c: int)
    requires
        on_grid(w, h, r, c),
    ensures
        0 <= flat(w, r, c) < w * h,
{
    assert(0 <= r * w + c < w * h) by (nonlinear_arith)
        requires
            0 <= r < h,
            0 <= c < w,
    ;
}

/// Distinct on-grid positions have distinct flat indices.
pub proof fn lemma_flat_distinct(w: int, h: int, r1: int, c1: int, r2: int, c2: int)
    requires
        on_grid(w, h, r1, c1),
        on_grid(w, h, r2, c2),
        r1 != r2 || c1 != c2,
    ensures
        flat(w, r1, c1) != flat(w, r2, c2),
{
    assert(r1 * w + c1 != r2 * w + c2) by (nonlinear_arith)
        requires
            0 <= r1 < h,
            0 <= c1 < w,
            0 <= r2 < h,
            0 <= c2 < w,
            r1 != r2 || c1 != c2,
    ;
}

/// A grid with at least one field has a positive width and height.
pub proof fn lemma_positive_area(w: int, h: int, i: int)
    requires
        0 <= w,
        0 <= h,
        0 <= i < w * h,
    ensures
        0 < w && 0 < h,
{
    assert(0 < w && 0 < h) by (nonlinear_arith)
        requires
            0 <= w,
            0 <= h,
            0 <= i < w * h,
    ;
}

/// Every index below `w * h` is the flat index of exactly one grid position,
/// recovered by division and remainder.
pub proof fn lemma_flat_unflatten(w: int, h: int, i: int)
    requires
        0 < w,
        0 <= i < w * h,
    ensures
        on_grid(w, h, i / w, i % w),
        flat(w, i / w, i % w) == i,
{
    assert(0 <= i % w < w && w * (i / w) + i % w == i) by (nonlinear_arith)
        requires
            0 < w,
            0 <= i,
    ;
    assert(i / w < h) by (nonlinear_arith)
        requires
            0 < w,
            0 <= i < w * h,
            w * (i / w) + i % w == i,
            0 <= i % w < w,
    ;
    assert((i / w) * w == w * (i / w)) by (nonlinear_arith);
}

/// Division and remainder by the width recover the position a flat index
/// came from.
pub proof fn lemma_flat_divmod(w: int, h: int, r: int, c: int)
    requires
        on_grid(w, h, r, c),
    ensures
        flat(w, r, c) / w == r,
        flat(w, r, c) % w == c,
{
    assert((r * w + c) / w == r && (r * w + c) % w == c) by (nonlinear_arith)
        requires
            0 <= r,
            0 <= c < w,
    ;
}

/// Updating one field adjusts the count by the difference at that index.
pub proof fn lemma_count_if_update(g: Seq<Field>, p: spec_fn(Field) -> bool, i: int, f: Field)
    requires
        0 <= i < g.len(),
    ensures
        count_if(g.update(i, f), p) == count_if(g, p) - b2i(p(g[i])) + b2i(p(f)),
    decreases g.len(),
{
    let g2 = g.update(i, f);
    if i == g.len() - 1 {
        assert(g2.drop_last() =~= g.drop_last());
    } else {
        assert(g2.drop_last() =~= g.drop_last().update(i, f));
        lemma_count_if_update(g.drop_last(), p, i, f);
    }
}

/// A count over a sequence lies between 0 and the sequence's length.
pub proof fn lemma_count_if_bounds(g: Seq<Field>, p: spec_fn(Field) -> bool)
    ensures
        0 <= count_if(g, p) <= g.len(),
    decreases g.len(),
{
    if g.len() > 0 {
        lemma_count_if_bounds(g.drop_last(), p);
    }
}

/// When every field satisfies `p`, the count is the length.
pub proof fn lemma_count_if_all(g: Seq<Field>, p: spec_fn(Field) -> bool)
    requires
        forall|i: int| 0 <= i < g.len() ==> p(g[i]),
    ensures
        count_if(g, p) == g.len(),
    decreases g.len(),
{
    if g.len() > 0 {
        lemma_count_if_all(g.drop_last(), p);
    }
}

/// When no field satisfies `p`, the count is zero.
pub proof fn lemma_count_if_none(g: Seq<Field>, p: spec_fn(Field) -> bool)
    requires
        forall|i: int| 0 <= i < g.len() ==> !p(g[i]),
    ensures
        count_if(g, p) == 0,
    decreases g.len(),
{
    if g.len() > 0 {
        lemma_count_if_none(g.drop_last(), p);
    }
}

/// A field that fails `p` keeps the count strictly below the length.
pub proof fn lemma_count_if_missing(g: Seq<Field>, p: spec_fn(Field) -> bool, i: int)
    requires
        0 <= i < g.len(),
        !p(g[i]),
    ensures
        count_if(g, p) < g.len(),
    decreases g.len(),
{
    lemma_count_if_bounds(g.drop_last(), p);
    if i < g.len() - 1 {
        lemma_count_if_missing(g.drop_last(), p, i);
    }
}

/// A field that satisfies `p` keeps the count at 1 or more.
pub proof fn lemma_count_if_present(g: Seq<Field>, p: spec_fn(Field) -> bool, i: int)
    requires
        0 <= i < g.len(),
        p(g[i]),
    ensures
        count_if(g, p) >= 1,
    decreases g.len(),
{
    lemma_count_if_bounds(g.drop_last(), p);
    if i < g.len() - 1 {
        lemma_count_if_present(g.drop_last(), p, i);
    }
}

/// Two sequences on which `p` agrees pointwise have the same count.
pub proof fn lemma_count_if_same(g1: Seq<Field>, g2: Seq<Field>, p: spec_fn(Field) -> bool)
    requires
        g1.len() == g2.len(),
        forall|i: int| 0 <= i < g1.len() ==> p(g1[i]) == p(g2[i]),
    ensures
        count_if(g1, p) == count_if(g2, p),
    decreases g1.len(),
{
    if g1.len() > 0 {
        lemma_count_if_same(g1.drop_last(), g2.drop_last(), p);
    }
}

/// Two grids with the same field contents everywhere (visibility aside)
/// either both satisfy `counts_ok` or neither does.
pub proof fn lemma_counts_ok_same_types(g1: Seq<Field>, g2: Seq<Field>, w: int, h: int)
    requires
        g1.len() == w * h,
        g2.len() == w * h,
        forall|i: int| 0 <= i < g1.len() ==> g1[i].field_type == g2[i].field_type,
        counts_ok(g1, w, h),
    ensures
        counts_ok(g2, w, h),
{
    assert forall|r: int, c: int|
        on_grid(w, h, r, c) && !cell(g2, w, r, c).is_bomb() implies cell(
        g2,
        w,
        r,
        c,
    ).field_type == FieldType::SafeField(adj_bombs(g2, w, h, r, c) as i64) by {
        lemma_flat_range(w, h, r, c);
        lemma_adj_bombs_same(g1, g2, w, h, r, c);
    }
}

/// Two grids with bombs in the same places give every position the same
/// neighbor-bomb count.
pub proof fn lemma_adj_bombs_same(g1: Seq<Field>, g2: Seq<Field>, w: int, h: int, r: int, c: int)
    requires
        g1.len() == w * h,
        g2.len() == w * h,
        forall|i: int| 0 <= i < g1.len() ==> g1[i].is_bomb() == g2[i].is_bomb(),
    ensures
        adj_bombs(g1, w, h, r, c) == adj_bombs(g2, w, h, r, c),
{
    lemma_bomb_at_same(g1, g2, w, h, r - 1, c - 1);
    lemma_bomb_at_same(g1, g2, w, h, r - 1, c);
    lemma_bomb_at_same(g1, g2, w, h, r - 1, c + 1);
    lemma_bomb_at_same(g1, g2, w, h, r, c - 1);
    lemma_bomb_at_same(g1, g2, w, h, r, c + 1);
    lemma_bomb_at_same(g1, g2, w, h, r + 1, c - 1);
    lemma_bomb_at_same(g1, g2, w, h, r + 1, c);
    lemma_bomb_at_same(g1, g2, w, h, r + 1, c + 1);
}

/// Two grids with bombs in the same places agree on `bomb_at` everywhere.
pub proof fn lemma_bomb_at_same(g1: Seq<Field>, g2: Seq<Field>, w: int, h: int, r: int, c: int)
    requires
        g1.len() == w * h,
        g2.len() == w * h,
        forall|i: int| 0 <= i < g1.len() ==> g1[i].is_bomb() == g2[i].is_bomb(),
    ensures
        bomb_at(g1, w, h, r, c) == bomb_at(g2, w, h, r, c),
{
    if on_grid(w, h, r, c) {
        lemma_flat_range(w, h, r, c);
    }
}


} // verus!
