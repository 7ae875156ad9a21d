//! Decoding a path: a string of direction tokens, read from left to right.
//!
//! `e` and `w` are tokens by themselves; `n` and `s` each begin a token of two
//! characters, completed by `e` or `w`. Anything else is malformed.

use crate::grid::{cell, step, Cell, Coordinate, Direction};
use vstd::prelude::*;

verus! {

/// Why a path could not be decoded: the malformed token that stopped it.
#[derive(Copy, Clone, PartialEq, Eq, Debug, Structural)]
pub enum TokenError {
    /// `found` stands where a token must begin, and begins none.
    UnexpectedChar { found: char },
    /// `found` follows `lead` (an `n` or an `s`) and is neither `e` nor `w`.
    UnexpectedCharAfter { lead: char, found: char },
    /// The path ends with `lead` (an `n` or an `s`): half a token.
    MissingCharAfter { lead: char },
}

/// The number of characters of the token that spells `d`.
pub open spec fn width(d: Direction) -> nat {
    match d {
        Direction::East | Direction::West => 1,
        _ => 2,
    }
}

/// The token that `lead` (an `n` or an `s`) forms with the character after it,
/// if there is one.
pub open spec fn long_token(lead: char, follow: Option<char>) -> Result<Direction, TokenError> {
    match follow {
        None => Err(TokenError::MissingCharAfter { lead }),
        Some(c) => if c == 'e' {
            Ok(if lead == 'n' { Direction::NorthEast } else { Direction::SouthEast })
        } else if c == 'w' {
            Ok(if lead == 'n' { Direction::NorthWest } else { Direction::SouthWest })
        } else {
            Err(TokenError::UnexpectedCharAfter { lead, found: c })
        },
    }
}

/// The token that begins at position `i` of `s`: `None` past the end, else
/// the direction it spells or the reason why it spells none.
pub open spec fn token_at(s: Seq<char>, i: int) -> Option<Result<Direction, TokenError>> {
    if i < 0 || i >= s.len() {
        None
    } else if s[i] == 'e' {
        Some(Ok(Direction::East))
    } else if s[i] == 'w' {
        Some(Ok(Direction::West))
    } else if s[i] == 'n' || s[i] == 's' {
        Some(long_token(s[i], if i + 1 < s.len() { Some(s[i + 1]) } else { None }))
    } else {
        Some(Err(TokenError::UnexpectedChar { found: s[i] }))
    }
}

/// The directions spelled by `s` from position `i` to its end, or the first
/// malformed token met on the way.
pub open spec fn decode_from(s: Seq<char>, i: int) -> Result<Seq<Direction>, TokenError>
    decreases s.len() - i,
{
    match token_at(s, i) {
        None => Ok(Seq::empty()),
        Some(Err(e)) => Err(e),
        Some(Ok(d)) => match decode_from(s, i + width(d)) {
            Ok(rest) => Ok(seq![d] + rest),
            Err(e) => Err(e),
        },
    }
}

/// Where decoding `s` from position `i` comes to rest: at the end of `s`, or
/// at the first malformed token.
pub open spec fn resting_place(s: Seq<char>, i: int) -> int
    decreases s.len() - i,
{
    match token_at(s, i) {
        Some(Ok(d)) => resting_place(s, i + width(d)),
        _ => i,
    }
}

/// The directions that the whole of `s` spells.
pub open spec fn decode(s: Seq<char>) -> Result<Seq<Direction>, TokenError> {
    decode_from(s, 0)
}

/// The cell reached from `origin` by taking the steps of `path` in order.
pub open spec fn walk(origin: Cell, path: Seq<Direction>) -> Cell
    decreases path.len(),
{
    if path.len() == 0 {
        origin
    } else {
        step(walk(origin, path.drop_last()), path.last())
    }
}

/// The net displacement of a sequence of steps: where it leads from `(0, 0)`.
pub open spec fn displacement(path: Seq<Direction>) -> Cell {
    walk((0, 0), path)
}

/// The cell that the path written as `s` leads to from `(0, 0)`.
pub open spec fn destination(s: Seq<char>) -> Result<Cell, TokenError> {
    match decode(s) {
        Ok(path) => Ok(displacement(path)),
        Err(e) => Err(e),
    }
}

/// The token that spells `d`.
pub open spec fn spelling(d: Direction) -> Seq<char> {
    match d {
        Direction::East => seq!['e'],
        Direction::SouthEast => seq!['s', 'e'],
        Direction::SouthWest => seq!['s', 'w'],
        Direction::West => seq!['w'],
        Direction::NorthWest => seq!['n', 'w'],
        Direction::NorthEast => seq!['n', 'e'],
    }
}

/// The text that spells `path`: the tokens of its directions, one after the
/// other.
pub open spec fn spell(path: Seq<Direction>) -> Seq<char>
    decreases path.len(),
{
    if path.len() == 0 {
        Seq::empty()
    } else {
        spelling(path.first()) + spell(path.drop_first())
    }
}

/// What is decoded from a text, from any place in it, spells the rest of the
/// text from that place.
pub proof fn lemma_decoded_spells_text(s: Seq<char>, i: int)
    requires
        0 <= i <= s.len(),
        decode_from(s, i) is Ok,
    ensures
        spell(decode_from(s, i)->Ok_0) == s.subrange(i, s.len() as int),
    decreases s.len() - i,
{
    let path = decode_from(s, i)->Ok_0;
    match token_at(s, i) {
        Some(Ok(d)) => {
            let next = i + width(d);
            lemma_decoded_spells_text(s, next);
            let rest = decode_from(s, next)->Ok_0;
            assert(path.first() == d);
            assert(path.drop_first() =~= rest);
            assert(spelling(d) =~= s.subrange(i, next));
            assert(s.subrange(i, next) + s.subrange(next, s.len() as int) =~= s.subrange(
                i,
                s.len() as int,
            ));
        },
        _ => {
            assert(s.subrange(i, s.len() as int) =~= Seq::<char>::empty());
        },
    }
}

/// The text that spells a path, put after any text, is decoded from there as
/// that path.
pub proof fn lemma_spelled_path_decodes(before: Seq<char>, path: Seq<Direction>)
    ensures
        decode_from(before + spell(path), before.len() as int) == Ok::<
            Seq<Direction>,
            TokenError,
        >(path),
    decreases path.len(),
{
    let s = before + spell(path);
    let i = before.len() as int;
    if path.len() == 0 {
        assert(s =~= before);
        assert(path =~= Seq::<Direction>::empty());
    } else {
        let d = path.first();
        let rest = path.drop_first();
        let token = spelling(d);
        assert(s =~= (before + token) + spell(rest));
        assert(s[i] == token[0]);
        if width(d) == 2 {
            assert(s[i + 1] == token[1]);
        }
        assert(token_at(s, i) == Some(Ok::<Direction, TokenError>(d)));
        lemma_spelled_path_decodes(before + token, rest);
        assert(seq![d] + rest =~= path);
    }
}

/// A text is decoded as a path if and only if it spells that path: decoding
/// undoes spelling, and no two paths are spelled alike.
pub proof fn lemma_decode_inverts_spell(s: Seq<char>, path: Seq<Direction>)
    ensures
        decode(s) == Ok::<Seq<Direction>, TokenError>(path) <==> s == spell(path),
{
    if decode(s) == Ok::<Seq<Direction>, TokenError>(path) {
        lemma_decoded_spells_text(s, 0);
        assert(s.subrange(0, s.len() as int) =~= s);
    }
    if s == spell(path) {
        lemma_spelled_path_decodes(Seq::empty(), path);
        assert(Seq::<char>::empty() + spell(path) =~= s);
    }
}

/// Where a path leads depends on its characters alone: equal texts are
/// decoded alike and lead to the same cell.
pub proof fn lemma_destination_deterministic(a: Seq<char>, b: Seq<char>)
    requires
        a =~= b,
    ensures
        decode(a) == decode(b),
        destination(a) == destination(b),
{
}

/// Taking the steps of one path and then those of another leads to where the
/// second leads from the end of the first.
pub proof fn lemma_walk_concat(origin: Cell, first: Seq<Direction>, second: Seq<Direction>)
    ensures
        walk(origin, first + second) == walk(walk(origin, first), second),
    decreases second.len(),
{
    if second.len() == 0 {
        assert(first + second =~= first);
    } else {
        lemma_walk_concat(origin, first, second.drop_last());
        assert((first + second).drop_last() =~= first + second.drop_last());
        assert((first + second).last() == second.last());
    }
}

/// A path has no more directions than its text has characters from the place
/// where decoding began, and leads no further away than it has directions.
pub proof fn lemma_path_is_bounded(s: Seq<char>, i: int)
    requires
        0 <= i <= s.len(),
        decode_from(s, i) is Ok,
    ensures
        decode_from(s, i)->Ok_0.len() <= s.len() - i,
        -(s.len() - i) <= displacement(decode_from(s, i)->Ok_0).0 <= s.len() - i,
        -(s.len() - i) <= displacement(decode_from(s, i)->Ok_0).1 <= s.len() - i,
    decreases s.len() - i,
{
    let path = decode_from(s, i)->Ok_0;
    if let Some(Ok(d)) = token_at(s, i) {
        lemma_path_is_bounded(s, i + width(d));
    }
    lemma_walk_is_bounded((0, 0), path);
}

/// Every step moves each coordinate by at most one.
pub proof fn lemma_walk_is_bounded(origin: Cell, path: Seq<Direction>)
    ensures
        origin.0 - path.len() <= walk(origin, path).0 <= origin.0 + path.len(),
        origin.1 - path.len() <= walk(origin, path).1 <= origin.1 + path.len(),
    decreases path.len(),
{
    if path.len() > 0 {
        lemma_walk_is_bounded(origin, path.drop_last());
    }
}

/// A cursor over the tokens of a path.
pub struct Directions {
    source: Vec<char>,
    index: usize,
}

impl Directions {
    #[verifier::type_invariant]
    spec fn cursor_in_source(self) -> bool {
        self.index <= self.source.len()
    }

    /// The characters of the path.
    pub closed spec fn source(self) -> Seq<char> {
        self.source@
    }

    /// The number of characters already read.
    pub closed spec fn position(self) -> nat {
        self.index as nat
    }

    /// The directions still to come, or the malformed token that stops them.
    pub open spec fn pending(self) -> Result<Seq<Direction>, TokenError> {
        decode_from(self.source(), self.position() as int)
    }

    /// A cursor at the start of `source`.
    pub fn new(source: &str) -> (directions: Directions)
        ensures
            directions.source() == source@,
            directions.position() == 0,
    {
        let mut chars: Vec<char> = Vec::new();
        for c in it: source.chars()
            invariant
                it.seq() == source@,
                chars@ == source@.take(it.index()),
        {
            chars.push(c);
        }
        Directions { source: chars, index: 0 }
    }

    /// Reads the next token. `None` means that the path is exhausted. On a
    /// malformed token the cursor stays where it is.
    pub fn next(&mut self) -> (token: Option<Result<Direction, TokenError>>)
        ensures
            token == token_at(old(self).source(), old(self).position() as int),
            final(self).source() == old(self).source(),
            final(self).position() == old(self).position() + match token {
                Some(Ok(d)) => width(d),
                _ => 0,
            },
    {
        proof {
            use_type_invariant(&*self);
        }
        if self.index >= self.source.len() {
            return None;
        }
        let lead = self.source[self.index];
        if lead == 'e' {
            self.index = self.index + 1;
            Some(Ok(Direction::East))
        } else if lead == 'w' {
            self.index = self.index + 1;
            Some(Ok(Direction::West))
        } else if lead == 'n' || lead == 's' {
            if self.index + 1 >= self.source.len() {
                return Some(Err(TokenError::MissingCharAfter { lead }));
            }
            let found = self.source[self.index + 1];
            if found == 'e' {
                self.index = self.index + 2;
                Some(Ok(if lead == 'n' { Direction::NorthEast } else { Direction::SouthEast }))
            } else if found == 'w' {
                self.index = self.index + 2;
                Some(Ok(if lead == 'n' { Direction::NorthWest } else { Direction::SouthWest }))
            } else {
                Some(Err(TokenError::UnexpectedCharAfter { lead, found }))
            }
        } else {
            Some(Err(TokenError::UnexpectedChar { found: lead }))
        }
    }

    /// Reads the path to its end and lists its directions in order, or gives
    /// the first malformed token. The cursor comes to rest at the end of the
    /// path or at that token.
    pub fn collect(&mut self) -> (outcome: Result<Vec<Direction>, TokenError>)
        ensures
            final(self).source() == old(self).source(),
            final(self).position() == resting_place(
                old(self).source(),
                old(self).position() as int,
            ),
            match old(self).pending() {
                Ok(path) => outcome matches Ok(listed) && listed@ == path,
                Err(e) => outcome == Err::<Vec<Direction>, TokenError>(e),
            },
    {
        let mut listed: Vec<Direction> = Vec::new();
        proof {
            use_type_invariant(&*self);
        }
        loop
            invariant
                self.source() == old(self).source(),
                self.position() <= self.source().len(),
                resting_place(self.source(), self.position() as int) == resting_place(
                    old(self).source(),
                    old(self).position() as int,
                ),
                old(self).pending() == match self.pending() {
                    Ok(rest) => Ok(listed@ + rest),
                    Err(e) => Err(e),
                },
            decreases self.source().len() - self.position(),
        {
            match self.next() {
                None => {
                    return Ok(listed);
                },
                Some(Err(e)) => {
                    return Err(e);
                },
                Some(Ok(d)) => {
                    proof {
                        let rest = self.pending();
                        if rest is Ok {
                            assert(listed@.push(d) + rest->Ok_0 =~= listed@ + (seq![d]
                                + rest->Ok_0));
                        }
                    }
                    listed.push(d);
                },
            }
        }
    }

    /// Whether the characters still to be read are few enough for
    /// `coordinates` to sum their steps.
    pub fn is_within_reach(&self) -> (few: bool)
        ensures
            few == (self.source().len() - self.position() <= i64::MAX),
    {
        proof {
            use_type_invariant(self);
        }
        (self.source.len() - self.index) as u128 <= i64::MAX as u128
    }

    /// Reads the path to its end and gives its net displacement: the cell it
    /// leads to from `(0, 0)`, or the first malformed token. The cursor comes
    /// to rest at the end of the path or at that token.
    ///
    /// A coordinate moves by at most one per character, so the characters
    /// still to be read must not outnumber the largest `i64`.
    pub fn coordinates(&mut self) -> (outcome: Result<Coordinate, TokenError>)
        requires
            old(self).source().len() - old(self).position() <= i64::MAX,
        ensures
            final(self).source() == old(self).source(),
            final(self).position() == resting_place(
                old(self).source(),
                old(self).position() as int,
            ),
            match old(self).pending() {
                Ok(path) => outcome matches Ok(c) && cell(c) == displacement(path),
                Err(e) => outcome == Err::<Coordinate, TokenError>(e),
            },
    {
        let mut q: i64 = 0;
        let mut r: i64 = 0;
        let ghost taken: Seq<Direction> = Seq::empty();
        proof {
            use_type_invariant(&*self);
        }
        loop
            invariant
                self.source() == old(self).source(),
                old(self).position() <= self.position() <= self.source().len(),
                old(self).source().len() - old(self).position() <= i64::MAX,
                resting_place(self.source(), self.position() as int) == resting_place(
                    old(self).source(),
                    old(self).position() as int,
                ),
                old(self).pending() == match self.pending() {
                    Ok(rest) => Ok(taken + rest),
                    Err(e) => Err(e),
                },
                cell((q, r)) == displacement(taken),
                -(self.position() - old(self).position()) <= q <= self.position() - old(
                    self,
                ).position(),
                -(self.position() - old(self).position()) <= r <= self.position() - old(
                    self,
                ).position(),
            decreases self.source().len() - self.position(),
        {
            match self.next() {
                None => {
                    return Ok((q, r));
                },
                Some(Err(e)) => {
                    return Err(e);
                },
                Some(Ok(d)) => {
                    let (dq, dr) = d.offset();
                    q = q + dq;
                    r = r + dr;
                    proof {
                        let rest = self.pending();
                        if rest is Ok {
                            assert(taken.push(d) + rest->Ok_0 =~= taken + (seq![d] + rest->Ok_0));
                        }
                        assert(taken.push(d).drop_last() =~= taken);
                        taken = taken.push(d);
                    }
                },
            }
        }
    }
}

/// Text that can be read as a path.
pub trait ToDirections {
    /// The characters of the text.
    spec fn characters(&self) -> Seq<char>;

    /// A cursor at the start of the text.
    fn to_directions(&self) -> (directions: Directions)
        ensures
            directions.source() == self.characters(),
            directions.position() == 0,
    ;
}

impl ToDirections for &str {
    open spec fn characters(&self) -> Seq<char> {
        self@
    }

    fn to_directions(&self) -> (directions: Directions) {
        Directions::new(self)
    }
}

} // verus!
