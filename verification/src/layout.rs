//! Laying the floor out: every path flips the tile that it leads to.

use crate::grid::Cell;
use crate::path::{destination, ToDirections, TokenError};
use crate::tile_set::{lemma_toggle_twice, toggled, TileSet};
use vstd::prelude::*;

verus! {

/// The characters of each path of a list.
pub open spec fn texts(paths: Seq<&str>) -> Seq<Seq<char>> {
    paths.map_values(|p: &str| p@)
}

/// The black tiles after every path of the list, taken in order, has flipped
/// the tile at its end, starting from a floor that is all white; or the
/// malformed token of the first path that cannot be decoded.
pub open spec fn black_tiles(paths: Seq<Seq<char>>) -> Result<Set<Cell>, TokenError>
    decreases paths.len(),
{
    if paths.len() == 0 {
        Ok(Set::empty())
    } else {
        match black_tiles(paths.drop_last()) {
            Err(e) => Err(e),
            Ok(s) => match destination(paths.last()) {
                Err(e) => Err(e),
                Ok(c) => Ok(toggled(s, c)),
            },
        }
    }
}

/// How many paths of the list lead to `c`.
pub open spec fn visits(paths: Seq<Seq<char>>, c: Cell) -> nat
    decreases paths.len(),
{
    if paths.len() == 0 {
        0
    } else {
        visits(paths.drop_last(), c) + if destination(paths.last()) == Ok::<Cell, TokenError>(c) {
            1nat
        } else {
            0nat
        }
    }
}

/// Two further paths that lead to the same tile leave the floor as it was:
/// what counts is where a path ends, not how it is written.
pub proof fn lemma_equal_paths_cancel(paths: Seq<Seq<char>>, a: Seq<char>, b: Seq<char>)
    requires
        destination(a) is Ok,
        destination(a) == destination(b),
    ensures
        black_tiles(paths.push(a).push(b)) == black_tiles(paths),
{
    let one = paths.push(a);
    let two = one.push(b);
    assert(two.drop_last() =~= one && two.last() == b);
    assert(one.drop_last() =~= paths && one.last() == a);
    match black_tiles(paths) {
        Ok(s) => {
            let c = destination(a)->Ok_0;
            lemma_toggle_twice(s, c);
            assert(black_tiles(one) == Ok::<Set<Cell>, TokenError>(toggled(s, c)));
            assert(black_tiles(two) == Ok::<Set<Cell>, TokenError>(toggled(toggled(s, c), c)));
        },
        Err(e) => {
            assert(black_tiles(one) == Err::<Set<Cell>, TokenError>(e));
            assert(black_tiles(two) == Err::<Set<Cell>, TokenError>(e));
        },
    }
}

/// A list is laid out if and only if every path of it can be decoded, and
/// the error of a list is that of its first path that cannot.
pub proof fn lemma_first_malformed_path(paths: Seq<Seq<char>>)
    ensures
        black_tiles(paths) is Ok <==> forall|i: int|
            0 <= i < paths.len() ==> destination(#[trigger] paths[i]) is Ok,
        black_tiles(paths) matches Err(e) ==> exists|i: int|
            0 <= i < paths.len() && destination(#[trigger] paths[i]) == Err::<Cell, TokenError>(e)
                && forall|j: int| 0 <= j < i ==> destination(#[trigger] paths[j]) is Ok,
    decreases paths.len(),
{
    if paths.len() > 0 {
        let front = paths.drop_last();
        lemma_first_malformed_path(front);
        assert forall|i: int| 0 <= i < front.len() implies front[i] == paths[i] by {}
        match black_tiles(front) {
            Err(e) => {
                let i = choose|i: int|
                    0 <= i < front.len() && destination(#[trigger] front[i]) == Err::<
                        Cell,
                        TokenError,
                    >(e) && forall|j: int| 0 <= j < i ==> destination(#[trigger] front[j]) is Ok;
                assert(destination(paths[i]) == Err::<Cell, TokenError>(e));
                assert forall|j: int| 0 <= j < i implies destination(
                    #[trigger] paths[j],
                ) is Ok by {
                    assert(front[j] == paths[j]);
                }
            },
            Ok(s) => {
                assert forall|j: int| 0 <= j < paths.len() - 1 implies destination(
                    #[trigger] paths[j],
                ) is Ok by {
                    assert(front[j] == paths[j]);
                }
                if destination(paths.last()) is Err {
                    assert(destination(paths[paths.len() - 1]) is Err);
                }
            },
        }
    }
}

/// A tile is black if and only if an odd number of paths lead to it. So the
/// order of the paths does not matter, and an even number of visits leaves a
/// tile as it was.
pub proof fn lemma_black_iff_odd_visits(paths: Seq<Seq<char>>, c: Cell)
    requires
        black_tiles(paths) is Ok,
    ensures
        black_tiles(paths)->Ok_0.contains(c) <==> visits(paths, c) % 2 == 1,
    decreases paths.len(),
{
    if paths.len() > 0 {
        lemma_black_iff_odd_visits(paths.drop_last(), c);
    }
}

/// The visits of a list in two parts are those of its parts together.
pub proof fn lemma_visits_concat(first: Seq<Seq<char>>, second: Seq<Seq<char>>, c: Cell)
    ensures
        visits(first + second, c) == visits(first, c) + visits(second, c),
    decreases second.len(),
{
    if second.len() == 0 {
        assert(first + second =~= first);
    } else {
        lemma_visits_concat(first, second.drop_last(), c);
        assert((first + second).drop_last() =~= first + second.drop_last());
        assert((first + second).last() == second.last());
    }
}

/// The order of the paths does not matter: a list in two parts gives the
/// same floor with the parts exchanged.
pub proof fn lemma_order_does_not_matter(first: Seq<Seq<char>>, second: Seq<Seq<char>>)
    requires
        black_tiles(first + second) is Ok,
    ensures
        black_tiles(second + first) == black_tiles(first + second),
{
    let one = first + second;
    let other = second + first;
    lemma_first_malformed_path(one);
    lemma_first_malformed_path(other);
    assert forall|i: int| 0 <= i < other.len() implies destination(#[trigger] other[i]) is Ok by {
        if i < second.len() {
            assert(other[i] == one[first.len() + i]);
        } else {
            assert(other[i] == one[i - second.len()]);
        }
    }
    let s = black_tiles(one)->Ok_0;
    let t = black_tiles(other)->Ok_0;
    assert forall|c: Cell| s.contains(c) == t.contains(c) by {
        lemma_black_iff_odd_visits(one, c);
        lemma_black_iff_odd_visits(other, c);
        lemma_visits_concat(first, second, c);
        lemma_visits_concat(second, first, c);
    }
    assert(s =~= t);
}

/// An error met before the end of a list is the error of the whole list.
proof fn lemma_error_persists(paths: Seq<Seq<char>>, n: int)
    requires
        0 <= n <= paths.len(),
        black_tiles(paths.take(n)) is Err,
    ensures
        black_tiles(paths) == black_tiles(paths.take(n)),
    decreases paths.len() - n,
{
    if n < paths.len() {
        assert(paths.take(n + 1).drop_last() =~= paths.take(n));
        lemma_error_persists(paths, n + 1);
    } else {
        assert(paths.take(n) =~= paths);
    }
}

/// Lays the floor out: starting from a floor that is all white, flips the
/// tile at the end of each path, in order. A malformed token in any path
/// fails the whole list, with the error of the first path that has one.
///
/// A coordinate moves by at most one per character, so no path may have more
/// characters than the largest `i64`.
pub fn get_black_tiles(instructions: &[&str]) -> (outcome: Result<TileSet, TokenError>)
    requires
        forall|i: int|
            0 <= i < instructions@.len() ==> (#[trigger] instructions@[i])@.len() <= i64::MAX,
    ensures
        match black_tiles(texts(instructions@)) {
            Ok(s) => outcome matches Ok(tiles) && tiles@ == s,
            Err(e) => outcome matches Err(f) && f == e,
        },
{
    let mut tiles = TileSet::new();
    let ghost paths = texts(instructions@);
    assert(paths.take(0) =~= Seq::<Seq<char>>::empty());
    for i in 0..instructions.len()
        invariant
            paths == texts(instructions@),
            forall|i: int|
                0 <= i < instructions@.len() ==> (#[trigger] instructions@[i])@.len() <= i64::MAX,
            black_tiles(paths.take(i as int)) == Ok::<Set<Cell>, TokenError>(tiles@),
    {
        let path: &str = instructions[i];
        proof {
            assert(paths.take(i + 1).drop_last() =~= paths.take(i as int));
            assert(paths.take(i + 1).last() == path@);
        }
        match path.to_directions().coordinates() {
            Ok(coordinates) => {
                tiles.toggle(coordinates);
            },
            Err(e) => {
                proof {
                    lemma_error_persists(paths, i + 1);
                }
                return Err(e);
            },
        }
    }
    assert(paths.take(instructions.len() as int) =~= paths);
    Ok(tiles)
}

} // verus!
