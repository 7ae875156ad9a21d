//! The floor on one day, and the step that takes it to the next.

use crate::generation::{
    black_after, black_neighbors, count_black, frontier, generation, has_margin,
    lemma_margin_shrinks, lemma_next_generation_is_near, next_generation,
};
use crate::grid::{
    adjacent, cell, cells, clockwise, lemma_neighbors_are_steps, neighbors, on_grid, step, Cell,
    Coordinate, Direction,
};
use crate::tile_set::TileSet;
use vstd::prelude::*;

verus! {

/// The white cells of `s` that share an edge with one of `centers`.
spec fn white_around(s: Set<Cell>, centers: Seq<Cell>) -> Set<Cell> {
    Set::new(
        |c: Cell|
            !s.contains(c) && exists|j: int|
                0 <= j < centers.len() && adjacent(#[trigger] centers[j], c),
    )
}

/// Those of `among` that are black on the day after the floor was `s`.
spec fn black_after_among(s: Set<Cell>, among: Seq<Cell>) -> Set<Cell> {
    Set::new(|c: Cell| among.contains(c) && black_after(s, c))
}

/// The first `i + 1` members of `v` are its first `i` members and `v[i]`.
proof fn lemma_contains_one_more(v: Seq<Cell>, i: int)
    requires
        0 <= i < v.len(),
    ensures
        forall|c: Cell|
            v.take(i + 1).contains(c) <==> (v.take(i).contains(c) || c == v[i]),
{
    let wider = v.take(i + 1);
    let narrower = v.take(i);
    assert forall|c: Cell| wider.contains(c) implies (narrower.contains(c) || c == v[i]) by {
        let j = choose|j: int| 0 <= j < wider.len() && wider[j] == c;
        if j < i {
            assert(narrower[j] == c);
        }
    }
    assert forall|c: Cell| (narrower.contains(c) || c == v[i]) implies wider.contains(c) by {
        if c == v[i] {
            assert(wider[i] == c);
        } else {
            let j = choose|j: int| 0 <= j < narrower.len() && narrower[j] == c;
            assert(wider[j] == c);
        }
    }
}

/// The floor on one day, ready to be advanced to the next.
pub struct TileGame {
    state: TileSet,
}

impl View for TileGame {
    type V = Set<Cell>;

    closed spec fn view(&self) -> Set<Cell> {
        self.state@
    }
}

impl TileGame {
    /// The black tiles are finitely many, and all lie on the grid of machine
    /// coordinates.
    pub proof fn lemma_finite_on_grid(&self)
        ensures
            self@.finite(),
            forall|c: Cell| self@.contains(c) ==> on_grid(c),
    {
        self.state.lemma_finite_on_grid();
    }

    /// A game that starts from the floor `state`.
    pub fn new(state: TileSet) -> (game: TileGame)
        ensures
            game@ == state@,
    {
        TileGame { state }
    }

    /// The six coordinates around `coordinates`, clockwise from the
    /// north-east. The tile must not lie on the edge of the grid, where some
    /// of them would not be machine coordinates.
    pub fn adjacent_coordinates(&self, coordinates: Coordinate) -> (adjacent: Vec<Coordinate>)
        requires
            i64::MIN < coordinates.0 < i64::MAX,
            i64::MIN < coordinates.1 < i64::MAX,
        ensures
            cells(adjacent@) == neighbors(cell(coordinates)),
    {
        let (q, r) = coordinates;
        let mut adjacent: Vec<Coordinate> = Vec::with_capacity(6);
        adjacent.push((q + 1, r - 1));
        adjacent.push((q + 1, r));
        adjacent.push((q, r + 1));
        adjacent.push((q - 1, r + 1));
        adjacent.push((q - 1, r));
        adjacent.push((q, r - 1));
        assert(cells(adjacent@) =~= neighbors(cell(coordinates)));
        adjacent
    }

    /// How many of the six tiles around `coordinate` are black. A tile beyond
    /// the edge of the grid is white.
    pub fn adjacent_black_tile_count(&self, coordinate: Coordinate) -> (count: usize)
        ensures
            count == black_neighbors(self@, cell(coordinate)),
    {
        let around: [Direction; 6] = [
            Direction::NorthEast,
            Direction::East,
            Direction::SouthEast,
            Direction::SouthWest,
            Direction::West,
            Direction::NorthWest,
        ];
        let ghost among = neighbors(cell(coordinate));
        let mut count: usize = 0;
        for i in 0..6
            invariant
                around@ == clockwise(),
                among == neighbors(cell(coordinate)),
                count == count_black(self@, among.take(i as int)),
                count <= i,
        {
            let (dq, dr) = around[i].offset();
            let black = match (coordinate.0.checked_add(dq), coordinate.1.checked_add(dr)) {
                (Some(q), Some(r)) => self.state.contains((q, r)),
                _ => false,
            };
            proof {
                lemma_neighbors_are_steps(cell(coordinate));
                self.state.lemma_finite_on_grid();
                assert(among.take(i + 1).drop_last() =~= among.take(i as int));
                assert(among[i as int] == step(cell(coordinate), around[i as int]));
                if !on_grid(among[i as int]) {
                    assert(!self@.contains(among[i as int]));
                }
            }
            if black {
                count = count + 1;
            }
        }
        assert(among.take(6) =~= among);
        count
    }

    /// The number of black tiles.
    pub fn black_tile_count(&self) -> (count: usize)
        ensures
            count == self@.len(),
    {
        self.state.len()
    }

    /// The white tiles that share an edge with a black tile: the only white
    /// tiles that the next day can turn black. No black tile may lie on the
    /// edge of the grid.
    pub fn white_tiles_to_test(&self) -> (to_test: TileSet)
        requires
            has_margin(self@, 1),
        ensures
            to_test@ == frontier(self@),
    {
        let mut to_test = TileSet::new();
        let blacks = self.state.tiles();
        let ghost centers = cells(blacks@);
        assert(to_test@ =~= white_around(self@, centers.take(0)));
        for i in 0..blacks.len()
            invariant
                has_margin(self@, 1),
                centers == cells(blacks@),
                centers.to_set() == self@,
                to_test@ == white_around(self@, centers.take(i as int)),
        {
            let center = blacks[i];
            assert(self@.contains(centers[i as int]));
            let beside = self.adjacent_coordinates(center);
            let ghost around = neighbors(cell(center));
            let ghost before = to_test@;
            assert(beside@.len() == cells(beside@).len() == 6);
            assert(to_test@ =~= before.union(
                Set::new(
                    |c: Cell|
                        !self@.contains(c) && exists|m: int|
                            0 <= m < 0 && #[trigger] around[m] == c,
                ),
            ));
            for k in 0..6
                invariant
                    i < blacks.len(),
                    beside@.len() == 6,
                    centers == cells(blacks@),
                    cell(center) == centers[i as int],
                    around == neighbors(cell(center)),
                    cells(beside@) == around,
                    before == white_around(self@, centers.take(i as int)),
                    to_test@ == before.union(
                        Set::new(
                            |c: Cell|
                                !self@.contains(c) && exists|m: int|
                                    0 <= m < k && #[trigger] around[m] == c,
                        ),
                    ),
            {
                assert(cells(beside@)[k as int] == cell(beside@[k as int]));
                let coordinate = beside[k];
                if !self.state.contains(coordinate) {
                    to_test.insert(coordinate);
                }
                assert(to_test@ =~= before.union(
                    Set::new(
                        |c: Cell|
                            !self@.contains(c) && exists|m: int|
                                0 <= m < k + 1 && #[trigger] around[m] == c,
                    ),
                )) by {
                    assert(around[k as int] == cell(coordinate));
                }
            }
            assert(to_test@ =~= white_around(self@, centers.take(i + 1))) by {
                let wider = centers.take(i + 1);
                let narrower = centers.take(i as int);
                assert forall|c: Cell| to_test@.contains(c) implies white_around(
                    self@,
                    wider,
                ).contains(c) by {
                    if before.contains(c) {
                        let j = choose|j: int|
                            0 <= j < narrower.len() && adjacent(#[trigger] narrower[j], c);
                        assert(adjacent(wider[j], c));
                    } else {
                        assert(adjacent(wider[i as int], c));
                    }
                }
                assert forall|c: Cell| white_around(self@, wider).contains(
                    c,
                ) implies to_test@.contains(c) by {
                    let j = choose|j: int|
                        0 <= j < wider.len() && adjacent(#[trigger] wider[j], c);
                    if j < i {
                        assert(adjacent(narrower[j], c));
                    } else {
                        let m = choose|m: int| 0 <= m < 6 && around[m] == c;
                        assert(around[m] == c);
                    }
                }
            }
        }
        assert(to_test@ =~= frontier(self@)) by {
            assert(centers.take(blacks.len() as int) =~= centers);
            assert forall|c: Cell| frontier(self@).contains(c) implies white_around(
                self@,
                centers,
            ).contains(c) by {
                let b = choose|b: Cell| self@.contains(b) && adjacent(b, c);
                assert(centers.to_set().contains(b));
                let j = choose|j: int| 0 <= j < centers.len() && centers[j] == b;
                assert(adjacent(centers[j], c));
            }
            assert forall|c: Cell| white_around(self@, centers).contains(
                c,
            ) implies frontier(self@).contains(c) by {
                let j = choose|j: int|
                    0 <= j < centers.len() && adjacent(#[trigger] centers[j], c);
                assert(centers.to_set().contains(centers[j]));
            }
        }
        to_test
    }

    /// Replaces the floor by the floor of the next day. No black tile may lie
    /// on the edge of the grid, where a tile that turns black could fall off
    /// it.
    pub fn advance(&mut self)
        requires
            has_margin(old(self)@, 1),
        ensures
            final(self)@ == next_generation(old(self)@),
    {
        let mut new_state = TileSet::new();
        let blacks = self.state.tiles();
        let ghost black_cells = cells(blacks@);
        assert(new_state@ =~= black_after_among(self@, black_cells.take(0)));
        for i in 0..blacks.len()
            invariant
                black_cells == cells(blacks@),
                black_cells.to_set() == self@,
                new_state@ == black_after_among(self@, black_cells.take(i as int)),
        {
            let tile = blacks[i];
            let adjacent = self.adjacent_black_tile_count(tile);
            if adjacent == 1 || adjacent == 2 {
                new_state.insert(tile);
            }
            assert(new_state@ =~= black_after_among(self@, black_cells.take(i + 1))) by {
                lemma_contains_one_more(black_cells, i as int);
                assert(self@.contains(black_cells[i as int]));
            }
        }
        assert(black_cells.take(blacks.len() as int) =~= black_cells);
        let whites = self.white_tiles_to_test().tiles();
        let ghost white_cells = cells(whites@);
        let ghost black_kept = new_state@;
        assert(new_state@ =~= black_kept.union(black_after_among(self@, white_cells.take(0))));
        for i in 0..whites.len()
            invariant
                white_cells == cells(whites@),
                white_cells.to_set() == frontier(self@),
                new_state@ == black_kept.union(
                    black_after_among(self@, white_cells.take(i as int)),
                ),
        {
            let tile = whites[i];
            let adjacent = self.adjacent_black_tile_count(tile);
            if adjacent == 2 {
                new_state.insert(tile);
            }
            assert(new_state@ =~= black_kept.union(
                black_after_among(self@, white_cells.take(i + 1)),
            )) by {
                lemma_contains_one_more(white_cells, i as int);
                assert(frontier(self@).contains(white_cells[i as int]));
            }
        }
        assert(new_state@ =~= next_generation(self@)) by {
            assert(white_cells.take(whites.len() as int) =~= white_cells);
            lemma_next_generation_is_near(self@);
            assert forall|c: Cell| next_generation(self@).contains(c) implies new_state@.contains(
                c,
            ) by {
                if self@.contains(c) {
                    assert(black_cells.to_set().contains(c));
                } else {
                    assert(self@.union(frontier(self@)).contains(c));
                    assert(white_cells.to_set().contains(c));
                }
            }
        }
        self.state = new_state;
    }

    /// Replaces the floor by the floor `n` days later. Every black tile must
    /// lie at least `n` tiles away from the edge of the grid, since black can
    /// spread by one tile a day.
    pub fn advance_n(&mut self, n: usize)
        requires
            has_margin(old(self)@, n as int),
        ensures
            final(self)@ == generation(old(self)@, n as nat),
            n == 0 ==> final(self)@ == old(self)@,
    {
        for day in 0..n
            invariant
                self@ == generation(old(self)@, day as nat),
                has_margin(self@, n - day),
        {
            proof {
                lemma_margin_shrinks(self@, n - day);
            }
            self.advance();
        }
    }

    /// Whether the floor can be advanced by `n` days: whether every black
    /// tile lies at least `n` tiles away from the edge of the grid.
    pub fn can_advance_n(&self, n: usize) -> (possible: bool)
        ensures
            possible == has_margin(self@, n as int),
    {
        let blacks = self.state.tiles();
        let ghost black_cells = cells(blacks@);
        for i in 0..blacks.len()
            invariant
                black_cells == cells(blacks@),
                black_cells.to_set() == self@,
                forall|j: int|
                    0 <= j < i ==> i64::MIN + n <= (#[trigger] black_cells[j]).0 <= i64::MAX - n
                        && i64::MIN + n <= black_cells[j].1 <= i64::MAX - n,
        {
            let (q, r) = blacks[i];
            let fits = i64::MIN as i128 + n as i128 <= q as i128 && q as i128 <= i64::MAX as i128
                - n as i128 && i64::MIN as i128 + n as i128 <= r as i128 && r as i128
                <= i64::MAX as i128 - n as i128;
            if !fits {
                assert(self@.contains(black_cells[i as int]));
                return false;
            }
        }
        assert forall|c: Cell| self@.contains(c) implies i64::MIN + n <= c.0 <= i64::MAX - n
            && i64::MIN + n <= c.1 <= i64::MAX - n by {
            assert(black_cells.to_set().contains(c));
        }
        true
    }

    /// The floor as it is now.
    pub fn state(&self) -> (state: &TileSet)
        ensures
            state@ == self@,
    {
        &self.state
    }
}

} // verus!
