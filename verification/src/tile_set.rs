//! The set of black tiles. Every tile that is not in the set is white.

use crate::grid::{cell, cells, on_grid, Cell, Coordinate};
use std::collections::HashSet;
use vstd::prelude::*;
use vstd::std_specs::hash::*;
use vstd::std_specs::iter::IteratorSpec;

verus! {

broadcast use vstd::std_specs::hash::group_hash_axioms;

/// The number of values of a coordinate: 2^64.
const SPAN: u128 = 0x1_0000_0000_0000_0000;

/// What is added to a coordinate to make it non-negative: 2^63.
const SHIFT: i128 = 0x8000_0000_0000_0000;

/// The number under which a cell of the grid is stored: its two coordinates,
/// each shifted to be non-negative, as the two digits of a number in base 2^64.
spec fn key_of(c: Cell) -> int {
    (c.0 + SHIFT) * SPAN + (c.1 + SHIFT)
}

/// The cell that is stored under `k`.
spec fn cell_of(k: int) -> Cell {
    (k / (SPAN as int) - SHIFT, k % (SPAN as int) - SHIFT)
}

proof fn lemma_key_round_trip(c: Cell)
    requires
        on_grid(c),
    ensures
        0 <= key_of(c) <= u128::MAX,
        cell_of(key_of(c)) == c,
{
}

proof fn lemma_cell_round_trip(k: int)
    requires
        0 <= k <= u128::MAX,
    ensures
        on_grid(cell_of(k)),
        key_of(cell_of(k)) == k,
{
}

fn key(c: Coordinate) -> (k: u128)
    ensures
        k == key_of(cell(c)),
{
    let high: u128 = (c.0 as i128 + SHIFT) as u128;
    let low: u128 = (c.1 as i128 + SHIFT) as u128;
    high * SPAN + low
}

fn coordinate(k: u128) -> (c: Coordinate)
    ensures
        cell(c) == cell_of(k as int),
{
    let q: i64 = ((k / SPAN) as i128 - SHIFT) as i64;
    let r: i64 = ((k % SPAN) as i128 - SHIFT) as i64;
    (q, r)
}

/// A finite set of tiles of the grid.
pub struct TileSet {
    keys: HashSet<u128>,
}

impl View for TileSet {
    type V = Set<Cell>;

    closed spec fn view(&self) -> Set<Cell> {
        Set::new(|c: Cell| on_grid(c) && self.keys@.contains(key_of(c) as u128))
    }
}

impl TileSet {
    /// The set is finite, and all its tiles lie on the grid of machine
    /// coordinates.
    pub proof fn lemma_finite_on_grid(&self)
        ensures
            self@.finite(),
            forall|c: Cell| self@.contains(c) ==> on_grid(c),
    {
        self.lemma_view_is_image();
    }

    proof fn lemma_view_is_image(&self)
        ensures
            self@ == self.keys@.map(|k: u128| cell_of(k as int)),
            self@.finite(),
            self@.len() == self.keys@.len(),
    {
        let f = |k: u128| cell_of(k as int);
        let image = self.keys@.map(f);
        assert forall|c: Cell| self@.contains(c) <==> image.contains(c) by {
            if self@.contains(c) {
                lemma_key_round_trip(c);
                let k = key_of(c) as u128;
                assert(self.keys@.contains(k) && f(k) == c);
            }
            if image.contains(c) {
                let k = choose|k: u128| self.keys@.contains(k) && f(k) == c;
                lemma_cell_round_trip(k as int);
            }
        }
        assert(self@ =~= image);
        assert(vstd::relations::injective_on(f, self.keys@)) by {
            assert forall|a: u128, b: u128| #[trigger] f(a) == #[trigger] f(b) implies a == b by {
                lemma_cell_round_trip(a as int);
                lemma_cell_round_trip(b as int);
            }
        }
        assert(self.keys@.finite()) by {
            let listed = spec_hash_keys_iter(&self.keys).remaining().unref();
            assert(listed.to_set() == self.keys@);
            vstd::seq_lib::seq_to_set_is_finite(listed);
        }
        vstd::set_lib::lemma_map_size(self.keys@, image, f);
    }

    /// The empty set: every tile is white.
    pub fn new() -> (tiles: TileSet)
        ensures
            tiles@ == Set::<Cell>::empty(),
    {
        let tiles = TileSet { keys: HashSet::new() };
        assert(tiles@ =~= Set::<Cell>::empty());
        tiles
    }

    /// The number of black tiles.
    pub fn len(&self) -> (n: usize)
        ensures
            n == self@.len(),
    {
        proof {
            self.lemma_view_is_image();
        }
        self.keys.len()
    }

    /// Whether the tile at `c` is black.
    pub fn contains(&self, c: Coordinate) -> (black: bool)
        ensures
            black == self@.contains(cell(c)),
    {
        let k = key(c);
        proof {
            lemma_key_round_trip(cell(c));
        }
        self.keys.contains(&k)
    }

    /// Makes the tile at `c` black. Returns whether it was white before.
    pub fn insert(&mut self, c: Coordinate) -> (fresh: bool)
        ensures
            final(self)@ == old(self)@.insert(cell(c)),
            fresh == !old(self)@.contains(cell(c)),
    {
        let k = key(c);
        let fresh = self.keys.insert(k);
        proof {
            lemma_key_round_trip(cell(c));
            assert forall|x: Cell| self@.contains(x) <==> old(self)@.insert(cell(c)).contains(
                x,
            ) by {
                if on_grid(x) {
                    lemma_key_round_trip(x);
                }
            }
            assert(self@ =~= old(self)@.insert(cell(c)));
        }
        fresh
    }

    /// Makes the tile at `c` white. Returns whether it was black before.
    pub fn remove(&mut self, c: Coordinate) -> (present: bool)
        ensures
            final(self)@ == old(self)@.remove(cell(c)),
            present == old(self)@.contains(cell(c)),
    {
        let k = key(c);
        let present = self.keys.remove(&k);
        proof {
            lemma_key_round_trip(cell(c));
            assert forall|x: Cell| self@.contains(x) <==> old(self)@.remove(cell(c)).contains(
                x,
            ) by {
                if on_grid(x) {
                    lemma_key_round_trip(x);
                }
            }
            assert(self@ =~= old(self)@.remove(cell(c)));
        }
        present
    }

    /// Flips the tile at `c`: black becomes white, and white becomes black.
    pub fn toggle(&mut self, c: Coordinate)
        ensures
            final(self)@ == toggled(old(self)@, cell(c)),
    {
        if self.contains(c) {
            self.remove(c);
        } else {
            self.insert(c);
        }
    }

    /// The black tiles, each once, in no particular order.
    pub fn tiles(&self) -> (listed: Vec<Coordinate>)
        ensures
            cells(listed@).no_duplicates(),
            cells(listed@).to_set() == self@,
            listed@.len() == self@.len(),
    {
        let mut listed: Vec<Coordinate> = Vec::new();
        let ghost keys = spec_hash_keys_iter(&self.keys).remaining().unref();
        for k in it: self.keys.iter()
            invariant
                it.seq().unref() == keys,
                listed@.len() == it.index(),
                forall|i: int|
                    0 <= i < listed@.len() ==> cell(#[trigger] listed@[i]) == cell_of(
                        keys[i] as int,
                    ),
        {
            let c = coordinate(*k);
            listed.push(c);
        }
        proof {
            let found = cells(listed@);
            assert(keys.len() == found.len());
            assert(spec_hash_keys_iter(&self.keys).remaining().no_duplicates());
            assert(keys.no_duplicates()) by {
                let refs = spec_hash_keys_iter(&self.keys).remaining();
                assert forall|i: int, j: int|
                    0 <= i < keys.len() && 0 <= j < keys.len() && i != j implies keys[i]
                    != keys[j] by {
                    assert(refs[i] != refs[j]);
                }
            }
            self.lemma_view_is_image();
            assert forall|i: int, j: int|
                0 <= i < found.len() && 0 <= j < found.len() && i != j implies found[i]
                != found[j] by {
                lemma_cell_round_trip(keys[i] as int);
                lemma_cell_round_trip(keys[j] as int);
            }
            assert forall|c: Cell| found.to_set().contains(c) <==> self@.contains(c) by {
                if found.to_set().contains(c) {
                    let i = choose|i: int| 0 <= i < found.len() && found[i] == c;
                    assert(keys.to_set().contains(keys[i]));
                    lemma_cell_round_trip(keys[i] as int);
                }
                if self@.contains(c) {
                    lemma_key_round_trip(c);
                    let k = key_of(c) as u128;
                    assert(keys.to_set().contains(k));
                    let i = choose|i: int| 0 <= i < keys.len() && keys[i] == k;
                    assert(found[i] == c);
                }
            }
            assert(found.to_set() =~= self@);
            found.unique_seq_to_set();
        }
        listed
    }
}

/// The set `s` with the tile at `c` flipped.
pub open spec fn toggled(s: Set<Cell>, c: Cell) -> Set<Cell> {
    if s.contains(c) {
        s.remove(c)
    } else {
        s.insert(c)
    }
}

/// The set `s` with the tile at `c` flipped `times` times.
pub open spec fn toggled_times(s: Set<Cell>, c: Cell, times: nat) -> Set<Cell>
    decreases times,
{
    if times == 0 {
        s
    } else {
        toggled(toggled_times(s, c, (times - 1) as nat), c)
    }
}

/// Flipping changes the colour of the tile flipped and of no other.
pub proof fn lemma_toggle_flips_one(s: Set<Cell>, c: Cell, other: Cell)
    ensures
        toggled(s, c).contains(c) == !s.contains(c),
        other != c ==> toggled(s, c).contains(other) == s.contains(other),
{
}

/// Flipping a tile twice leaves the floor as it was.
pub proof fn lemma_toggle_twice(s: Set<Cell>, c: Cell)
    ensures
        toggled(toggled(s, c), c) == s,
{
    assert(toggled(toggled(s, c), c) =~= s);
}

/// Flipping a tile an even number of times leaves the floor as it was, and
/// flipping it an odd number of times is flipping it once.
pub proof fn lemma_toggle_parity(s: Set<Cell>, c: Cell, times: nat)
    ensures
        times % 2 == 0 ==> toggled_times(s, c, times) == s,
        times % 2 == 1 ==> toggled_times(s, c, times) == toggled(s, c),
    decreases times,
{
    if times > 0 {
        lemma_toggle_parity(s, c, (times - 1) as nat);
        lemma_toggle_twice(s, c);
    }
}

} // verus!
