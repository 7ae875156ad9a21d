//! The generations of the floor: which tiles are black on the next day.
//!
//! A black tile stays black if one or two of the six tiles around it are
//! black. A white tile turns black if exactly two of them are. Every tile is
//! judged by the floor as it was before the day began.

use crate::grid::{adjacent, lemma_adjacent_symmetric, neighbors, Cell};
use vstd::prelude::*;

verus! {

/// How many of `among` are black on the floor `s`, counted with repetition.
pub open spec fn count_black(s: Set<Cell>, among: Seq<Cell>) -> nat
    decreases among.len(),
{
    if among.len() == 0 {
        0
    } else {
        count_black(s, among.drop_last()) + if s.contains(among.last()) {
            1nat
        } else {
            0nat
        }
    }
}

/// How many of the six cells around `c` are black on the floor `s`.
pub open spec fn black_neighbors(s: Set<Cell>, c: Cell) -> nat {
    count_black(s, neighbors(c))
}

/// Whether `c` is black on the day after the floor was `s`.
pub open spec fn black_after(s: Set<Cell>, c: Cell) -> bool {
    let n = black_neighbors(s, c);
    if s.contains(c) {
        n == 1 || n == 2
    } else {
        n == 2
    }
}

/// The floor on the day after it was `s`.
pub open spec fn next_generation(s: Set<Cell>) -> Set<Cell> {
    Set::new(|c: Cell| black_after(s, c))
}

/// The floor `days` days after it was `s`.
pub open spec fn generation(s: Set<Cell>, days: nat) -> Set<Cell>
    decreases days,
{
    if days == 0 {
        s
    } else {
        next_generation(generation(s, (days - 1) as nat))
    }
}

/// The white cells that share an edge with a black cell of `s`: the only
/// white cells that can turn black.
pub open spec fn frontier(s: Set<Cell>) -> Set<Cell> {
    Set::new(|c: Cell| !s.contains(c) && exists|b: Cell| s.contains(b) && adjacent(b, c))
}

/// Whether every black cell of `s` is at least `margin` cells away from the
/// edge of the grid of machine coordinates.
pub open spec fn has_margin(s: Set<Cell>, margin: int) -> bool {
    forall|c: Cell|
        s.contains(c) ==> i64::MIN + margin <= c.0 <= i64::MAX - margin && i64::MIN + margin
            <= c.1 <= i64::MAX - margin
}

/// A count above zero has a witness: one of the cells counted is black.
pub proof fn lemma_count_black_witness(s: Set<Cell>, among: Seq<Cell>)
    requires
        count_black(s, among) > 0,
    ensures
        exists|i: int| 0 <= i < among.len() && s.contains(#[trigger] among[i]),
    decreases among.len(),
{
    if s.contains(among.last()) {
        assert(s.contains(among[among.len() - 1]));
    } else {
        lemma_count_black_witness(s, among.drop_last());
        let i = choose|i: int|
            0 <= i < among.drop_last().len() && s.contains(#[trigger] among.drop_last()[i]);
        assert(s.contains(among[i]));
    }
}

/// No more cells are black than are counted, and none where no cell is black.
pub proof fn lemma_count_black_bounds(s: Set<Cell>, among: Seq<Cell>)
    ensures
        count_black(s, among) <= among.len(),
        (forall|i: int| 0 <= i < among.len() ==> !s.contains(#[trigger] among[i]))
            ==> count_black(s, among) == 0,
    decreases among.len(),
{
    if among.len() > 0 {
        lemma_count_black_bounds(s, among.drop_last());
        if forall|i: int| 0 <= i < among.len() ==> !s.contains(#[trigger] among[i]) {
            assert forall|i: int| 0 <= i < among.drop_last().len() implies !s.contains(
                #[trigger] among.drop_last()[i],
            ) by {
                assert(among.drop_last()[i] == among[i]);
            }
            assert(!s.contains(among[among.len() - 1]));
        }
    }
}

/// Nothing turns black but a black cell or a white cell next to one.
pub proof fn lemma_next_generation_is_near(s: Set<Cell>)
    ensures
        next_generation(s).subset_of(s.union(frontier(s))),
{
    assert forall|c: Cell| next_generation(s).contains(c) implies s.union(frontier(s)).contains(
        c,
    ) by {
        if !s.contains(c) {
            lemma_count_black_witness(s, neighbors(c));
            let i = choose|i: int| 0 <= i < 6 && s.contains(#[trigger] neighbors(c)[i]);
            let b = neighbors(c)[i];
            lemma_adjacent_symmetric(c, b);
            assert(s.contains(b) && adjacent(b, c));
        }
    }
}

/// Black spreads by at most one cell a day: a floor that keeps `margin` cells
/// clear on every side keeps `margin - 1` clear the day after.
pub proof fn lemma_margin_shrinks(s: Set<Cell>, margin: int)
    requires
        has_margin(s, margin),
    ensures
        has_margin(next_generation(s), margin - 1),
{
    lemma_next_generation_is_near(s);
    assert forall|c: Cell| next_generation(s).contains(c) implies i64::MIN + margin - 1 <= c.0
        <= i64::MAX - (margin - 1) && i64::MIN + margin - 1 <= c.1 <= i64::MAX - (margin
        - 1) by {
        assert(s.union(frontier(s)).contains(c));
        if !s.contains(c) {
            let b = choose|b: Cell| s.contains(b) && adjacent(b, c);
            let i = choose|i: int| 0 <= i < 6 && neighbors(b)[i] == c;
            assert(neighbors(b)[i] == c);
        }
    }
}

/// After no days the floor is as it was.
pub proof fn lemma_generation_zero(s: Set<Cell>)
    ensures
        generation(s, 0) == s,
{
}

/// Advancing by `a + b` days is advancing by `a` days and then by `b` days.
pub proof fn lemma_generation_composes(s: Set<Cell>, a: nat, b: nat)
    ensures
        generation(s, a + b) == generation(generation(s, a), b),
    decreases b,
{
    if b > 0 {
        lemma_generation_composes(s, a, (b - 1) as nat);
        assert((a + b - 1) as nat == a + (b - 1) as nat);
    }
}

/// A floor without black tiles stays without black tiles, day after day.
pub proof fn lemma_empty_is_fixed_point(days: nat)
    ensures
        next_generation(Set::<Cell>::empty()) == Set::<Cell>::empty(),
        generation(Set::<Cell>::empty(), days) == Set::<Cell>::empty(),
    decreases days,
{
    let empty = Set::<Cell>::empty();
    assert forall|c: Cell| !next_generation(empty).contains(c) by {
        lemma_count_black_bounds(empty, neighbors(c));
    }
    assert(next_generation(empty) =~= empty);
    if days > 0 {
        lemma_empty_is_fixed_point((days - 1) as nat);
    }
}

/// A floor with finitely many black tiles has finitely many the day after,
/// and on every later day.
pub proof fn lemma_generation_finite(s: Set<Cell>, days: nat)
    requires
        s.finite(),
    ensures
        next_generation(s).finite(),
        generation(s, days).finite(),
    decreases days,
{
    lemma_next_generation_finite(s);
    if days > 0 {
        lemma_generation_finite(s, (days - 1) as nat);
        lemma_next_generation_finite(generation(s, (days - 1) as nat));
    }
}

proof fn lemma_next_generation_finite(s: Set<Cell>)
    requires
        s.finite(),
    ensures
        next_generation(s).finite(),
{
    let moved = |i: int| s.map(|b: Cell| neighbors(b)[i]);
    let near = s.union(moved(0)).union(moved(1)).union(moved(2)).union(moved(3)).union(
        moved(4),
    ).union(moved(5));
    assert(near.finite()) by {
        s.lemma_map_finite(|b: Cell| neighbors(b)[0]);
        s.lemma_map_finite(|b: Cell| neighbors(b)[1]);
        s.lemma_map_finite(|b: Cell| neighbors(b)[2]);
        s.lemma_map_finite(|b: Cell| neighbors(b)[3]);
        s.lemma_map_finite(|b: Cell| neighbors(b)[4]);
        s.lemma_map_finite(|b: Cell| neighbors(b)[5]);
        vstd::set::axiom_set_union_finite(s, moved(0));
        vstd::set::axiom_set_union_finite(s.union(moved(0)), moved(1));
        vstd::set::axiom_set_union_finite(s.union(moved(0)).union(moved(1)), moved(2));
        vstd::set::axiom_set_union_finite(
            s.union(moved(0)).union(moved(1)).union(moved(2)),
            moved(3),
        );
        vstd::set::axiom_set_union_finite(
            s.union(moved(0)).union(moved(1)).union(moved(2)).union(moved(3)),
            moved(4),
        );
        vstd::set::axiom_set_union_finite(
            s.union(moved(0)).union(moved(1)).union(moved(2)).union(moved(3)).union(moved(4)),
            moved(5),
        );
    }
    lemma_next_generation_is_near(s);
    assert forall|c: Cell| next_generation(s).contains(c) implies near.contains(c) by {
        assert(s.union(frontier(s)).contains(c));
        if !s.contains(c) {
            let b = choose|b: Cell| s.contains(b) && adjacent(b, c);
            let i = choose|i: int| 0 <= i < 6 && neighbors(b)[i] == c;
            assert(moved(i).contains(c));
        }
    }
    vstd::set_lib::lemma_set_subset_finite(near, next_generation(s));
}

} // verus!
