use hex_tiles::grid::Direction;
use hex_tiles::grid::Direction::{East, NorthEast, NorthWest, SouthEast, SouthWest, West};
use hex_tiles::path::{Directions, ToDirections, TokenError};

#[test]
fn returns_the_correct_direction_sequence() {
    let directions = "ewseswnenw".to_directions().collect().unwrap();
    assert_eq!(
        &[East, West, SouthEast, SouthWest, NorthEast, NorthWest],
        &directions[..]
    );
}

#[test]
fn returns_the_correct_coordinates() {
    let coordinates = "newswseenew".to_directions().coordinates();
    assert_eq!(Ok((0, 0)), coordinates);

    let coordinates = "nenenewwwswswswseseseeeenenene"
        .to_directions()
        .coordinates();
    assert_eq!(Ok((3, 0)), coordinates);
}

#[test]
fn each_direction_has_its_offset() {
    assert_eq!((1, 0), East.offset());
    assert_eq!((0, 1), SouthEast.offset());
    assert_eq!((-1, 1), SouthWest.offset());
    assert_eq!((-1, 0), West.offset());
    assert_eq!((0, -1), NorthWest.offset());
    assert_eq!((1, -1), NorthEast.offset());
}

#[test]
fn each_token_leads_one_step_away() {
    assert_eq!(Ok((1, 0)), "e".to_directions().coordinates());
    assert_eq!(Ok((0, 1)), "se".to_directions().coordinates());
    assert_eq!(Ok((-1, 1)), "sw".to_directions().coordinates());
    assert_eq!(Ok((-1, 0)), "w".to_directions().coordinates());
    assert_eq!(Ok((0, -1)), "nw".to_directions().coordinates());
    assert_eq!(Ok((1, -1)), "ne".to_directions().coordinates());
}

#[test]
fn opposite_steps_cancel() {
    assert_eq!(Ok((0, 0)), "ew".to_directions().coordinates());
    assert_eq!(Ok((0, 0)), "senw".to_directions().coordinates());
    assert_eq!(Ok((0, 0)), "swne".to_directions().coordinates());
}

#[test]
fn steps_add_up() {
    assert_eq!(Ok((3, 0)), "eee".to_directions().coordinates());
    assert_eq!(Ok((-2, 4)), "swswsese".to_directions().coordinates());
    assert_eq!(Ok((3, -4)), "nwnenene".to_directions().coordinates());
}

#[test]
fn the_empty_path_stays_at_the_origin() {
    assert_eq!(Ok((0, 0)), "".to_directions().coordinates());
    assert_eq!(Ok(Vec::new()), "".to_directions().collect());
    assert_eq!(None, "".to_directions().next());
}

#[test]
fn the_same_path_always_leads_to_the_same_tile() {
    let path = "sesenwnenenewseeswwswswwnenewsewsw";
    let first = path.to_directions().coordinates();
    let second = Directions::new(path).coordinates();
    assert_eq!(first, second);
    assert_eq!(Ok((-3, 2)), first);
}

#[test]
fn listing_and_summing_read_the_same_tokens() {
    let path = "neeswseenwwswnwswswnw";
    let listed = path.to_directions().collect().unwrap();
    let mut q = 0;
    let mut r = 0;
    for direction in listed {
        let (dq, dr) = direction.offset();
        q += dq;
        r += dr;
    }
    assert_eq!(Ok((q, r)), path.to_directions().coordinates());
}

#[test]
fn next_reads_one_token_at_a_time() {
    let mut directions = Directions::new("nwwswee");
    assert_eq!(Some(Ok(NorthWest)), directions.next());
    assert_eq!(Some(Ok(West)), directions.next());
    assert_eq!(Some(Ok(SouthWest)), directions.next());
    assert_eq!(Some(Ok(East)), directions.next());
    assert_eq!(Some(Ok(East)), directions.next());
    assert_eq!(None, directions.next());
    assert_eq!(None, directions.next());
}

#[test]
fn the_rest_of_a_path_can_be_read_after_some_tokens() {
    let mut directions = Directions::new("eesww");
    assert_eq!(Some(Ok(East)), directions.next());
    assert_eq!(Ok((-1, 1)), directions.coordinates());
    assert_eq!(None, directions.next());

    let mut directions = Directions::new("eesww");
    assert_eq!(Some(Ok(East)), directions.next());
    assert_eq!(Ok(vec![East, SouthWest, West]), directions.collect());
}

#[test]
fn a_path_ending_in_half_a_token_is_malformed() {
    assert_eq!(
        Err(TokenError::MissingCharAfter { lead: 'n' }),
        "een".to_directions().coordinates()
    );
    assert_eq!(
        Err(TokenError::MissingCharAfter { lead: 's' }),
        "ees".to_directions().coordinates()
    );
    assert_eq!(
        Err(TokenError::MissingCharAfter { lead: 'n' }),
        "een".to_directions().collect()
    );
    assert_eq!(
        Err(TokenError::MissingCharAfter { lead: 's' }),
        "s".to_directions().collect()
    );
}

#[test]
fn a_foreign_character_is_malformed() {
    assert_eq!(
        Err(TokenError::UnexpectedChar { found: 'x' }),
        "eexw".to_directions().coordinates()
    );
    assert_eq!(
        Err(TokenError::UnexpectedChar { found: ' ' }),
        " e".to_directions().collect()
    );
    assert_eq!(
        Err(TokenError::UnexpectedChar { found: 'E' }),
        "E".to_directions().coordinates()
    );
}

#[test]
fn a_wrong_second_character_is_malformed() {
    assert_eq!(
        Err(TokenError::UnexpectedCharAfter { lead: 'n', found: 'n' }),
        "enne".to_directions().coordinates()
    );
    assert_eq!(
        Err(TokenError::UnexpectedCharAfter { lead: 's', found: 'x' }),
        "sx".to_directions().collect()
    );
    assert_eq!(
        Err(TokenError::UnexpectedCharAfter { lead: 's', found: 'n' }),
        "sne".to_directions().coordinates()
    );
}

#[test]
fn the_first_malformed_token_is_the_error() {
    assert_eq!(
        Err(TokenError::UnexpectedChar { found: 'a' }),
        "eabn".to_directions().coordinates()
    );
    assert_eq!(
        Err(TokenError::UnexpectedCharAfter { lead: 'n', found: 's' }),
        "wnsq".to_directions().collect()
    );
}

#[test]
fn the_cursor_rests_at_a_malformed_token() {
    let mut directions = Directions::new("ex");
    assert_eq!(Some(Ok(East)), directions.next());
    let stuck = Some(Err(TokenError::UnexpectedChar { found: 'x' }));
    assert_eq!(stuck, directions.next());
    assert_eq!(stuck, directions.next());
    assert_eq!(
        Err(TokenError::UnexpectedChar { found: 'x' }),
        directions.coordinates()
    );

    let mut directions = Directions::new("wsz");
    assert_eq!(
        Err(TokenError::UnexpectedCharAfter { lead: 's', found: 'z' }),
        directions.collect()
    );
    assert_eq!(
        Some(Err(TokenError::UnexpectedCharAfter { lead: 's', found: 'z' })),
        directions.next()
    );
}

#[test]
fn characters_beyond_ascii_are_single_characters() {
    assert_eq!(
        Err(TokenError::UnexpectedChar { found: 'é' }),
        "eéw".to_directions().coordinates()
    );
    assert_eq!(
        Err(TokenError::UnexpectedCharAfter { lead: 'n', found: 'é' }),
        "néw".to_directions().collect()
    );
}

#[test]
fn directions_compare_by_variant() {
    let all: [Direction; 6] = [East, SouthEast, SouthWest, West, NorthWest, NorthEast];
    for (i, a) in all.iter().enumerate() {
        for (j, b) in all.iter().enumerate() {
            assert_eq!(i == j, a == b);
        }
    }
}
