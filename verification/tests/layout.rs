use hex_tiles::game::TileGame;
use hex_tiles::layout::get_black_tiles;
use hex_tiles::path::TokenError;

const TEST_INSTRUCTIONS: [&str; 20] = [
    "sesenwnenenewseeswwswswwnenewsewsw",
    "neeenesenwnwwswnenewnwwsewnenwseswesw",
    "seswneswswsenwwnwse",
    "nwnwneseeswswnenewneswwnewseswneseene",
    "swweswneswnenwsewnwneneseenw",
    "eesenwseswswnenwswnwnwsewwnwsene",
    "sewnenenenesenwsewnenwwwse",
    "wenwwweseeeweswwwnwwe",
    "wsweesenenewnwwnwsenewsenwwsesesenwne",
    "neeswseenwwswnwswswnw",
    "nenwswwsewswnenenewsenwsenwnesesenew",
    "enewnwewneswsewnwswenweswnenwsenwsw",
    "sweneswneswneneenwnewenewwneswswnese",
    "swwesenesewenwneswnwwneseswwne",
    "enesenwswwswneneswsenwnewswseenwsese",
    "wnwnesenesenenwwnenwsewesewsesesew",
    "nenewswnwewswnenesenwnesewesw",
    "eneswnwswnwsenenwnwnwwseeswneewsenese",
    "neswnwewnwnwseenwseesewsenwsweewe",
    "wseweeenwnesenwwwswnew",
];

fn sorted(mut tiles: Vec<(i64, i64)>) -> Vec<(i64, i64)> {
    tiles.sort();
    tiles
}

#[test]
fn it_correctly_collects_the_coordinates_of_black_tiles() {
    let black_tiles = get_black_tiles(&TEST_INSTRUCTIONS).unwrap();
    assert_eq!(10, black_tiles.len());
}

#[test]
fn it_correctly_calculates_the_number_of_black_tiles_after_1_day() {
    let black_tiles = get_black_tiles(&TEST_INSTRUCTIONS).unwrap();
    let mut tile_game = TileGame::new(black_tiles);
    tile_game.advance();
    assert_eq!(15, tile_game.black_tile_count());
}

#[test]
fn it_correctly_calculates_the_number_of_tiles_after_n_days() {
    let black_tiles = get_black_tiles(&TEST_INSTRUCTIONS).unwrap();
    let mut tile_game = TileGame::new(black_tiles);
    tile_game.advance_n(10);
    assert_eq!(37, tile_game.black_tile_count());

    tile_game.advance_n(10);
    assert_eq!(132, tile_game.black_tile_count());

    tile_game.advance_n(80);
    assert_eq!(2208, tile_game.black_tile_count());
}

#[test]
fn the_first_days_count_as_expected() {
    let expected = [15, 12, 25, 14, 23, 28, 41, 37, 49, 37];
    let mut tile_game = TileGame::new(get_black_tiles(&TEST_INSTRUCTIONS).unwrap());
    for count in expected {
        tile_game.advance();
        assert_eq!(count, tile_game.black_tile_count());
    }
}

#[test]
fn the_example_floor_lists_its_ten_tiles() {
    let black_tiles = get_black_tiles(&TEST_INSTRUCTIONS).unwrap();
    assert_eq!(
        vec![
            (-3, 2),
            (-3, 3),
            (-2, 0),
            (-2, 1),
            (-1, -1),
            (0, -1),
            (0, 0),
            (0, 2),
            (2, 0),
            (3, -3),
        ],
        sorted(black_tiles.tiles())
    );
}

#[test]
fn no_paths_leave_the_floor_white() {
    let black_tiles = get_black_tiles(&[]).unwrap();
    assert_eq!(0, black_tiles.len());
    assert!(black_tiles.tiles().is_empty());
}

#[test]
fn one_path_turns_one_tile_black() {
    let black_tiles = get_black_tiles(&["esew"]).unwrap();
    assert_eq!(vec![(0, 1)], black_tiles.tiles());
    assert!(black_tiles.contains((0, 1)));
    assert!(!black_tiles.contains((0, 0)));
}

#[test]
fn the_empty_path_flips_the_reference_tile() {
    let black_tiles = get_black_tiles(&["", "nwwswee"]).unwrap();
    assert_eq!(0, black_tiles.len());
    let black_tiles = get_black_tiles(&[""]).unwrap();
    assert_eq!(vec![(0, 0)], black_tiles.tiles());
}

#[test]
fn two_paths_to_the_same_tile_cancel() {
    let black_tiles = get_black_tiles(&["esew", "se"]).unwrap();
    assert_eq!(0, black_tiles.len());

    let black_tiles = get_black_tiles(&["ee", "esew", "se"]).unwrap();
    assert_eq!(vec![(2, 0)], black_tiles.tiles());
}

#[test]
fn a_tile_is_black_after_an_odd_number_of_visits() {
    let black_tiles = get_black_tiles(&["e", "e", "e"]).unwrap();
    assert_eq!(vec![(1, 0)], black_tiles.tiles());
    let black_tiles = get_black_tiles(&["e", "e", "e", "e"]).unwrap();
    assert_eq!(0, black_tiles.len());
    let black_tiles = get_black_tiles(&["e", "w", "e", "nwse", "w", "neswe"]).unwrap();
    assert_eq!(vec![(0, 0), (1, 0)], sorted(black_tiles.tiles()));
}

#[test]
fn the_order_of_the_paths_does_not_matter() {
    let mut reversed = TEST_INSTRUCTIONS;
    reversed.reverse();
    let forwards = get_black_tiles(&TEST_INSTRUCTIONS).unwrap();
    let backwards = get_black_tiles(&reversed).unwrap();
    assert_eq!(sorted(forwards.tiles()), sorted(backwards.tiles()));
}

#[test]
fn a_malformed_path_fails_the_whole_list() {
    let outcome = get_black_tiles(&["e", "een", "w"]);
    assert_eq!(
        Some(TokenError::MissingCharAfter { lead: 'n' }),
        outcome.err()
    );
}

#[test]
fn the_first_malformed_path_gives_the_error() {
    let outcome = get_black_tiles(&["e", "sq", "x", "n"]);
    assert_eq!(
        Some(TokenError::UnexpectedCharAfter { lead: 's', found: 'q' }),
        outcome.err()
    );
    let outcome = get_black_tiles(&["x", "sq"]);
    assert_eq!(Some(TokenError::UnexpectedChar { found: 'x' }), outcome.err());
}
