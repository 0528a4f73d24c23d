use advent_puzzles::heightmap::parse_input;
use advent_puzzles::heightmap::shortest_hike;
use advent_puzzles::heightmap::steps_to_signal;
use advent_puzzles::heightmap::ParseError;

const SAMPLE_INPUT: &str = "Sabqponm\nabcryxxl\naccszExk\nacctuvwj\nabdefghi\n";

#[test]
fn parses_input_matrix() {
    let height_map = parse_input(SAMPLE_INPUT).unwrap();
    assert_eq!(height_map.start, (0, 0));
    assert_eq!(height_map.end, (2, 5));
    assert_eq!((height_map.map.rows(), height_map.map.cols()), (5, 8));
    assert_eq!(height_map.map.rows(), 5);
    assert_eq!(height_map.map.cols(), 8);
    assert_eq!(height_map.map.get(0, 0), "abcdefghijklmnopqrstuvwxyz".find('a').unwrap() as u32);
    assert_eq!(height_map.map.get(0, 1), "abcdefghijklmnopqrstuvwxyz".find('a').unwrap() as u32);
    assert_eq!(height_map.map.get(0, 2), "abcdefghijklmnopqrstuvwxyz".find('b').unwrap() as u32);

    assert_eq!(height_map.map.get(0, 7), "abcdefghijklmnopqrstuvwxyz".find('m').unwrap() as u32);
    assert_eq!(height_map.map.get(2, 5), "abcdefghijklmnopqrstuvwxyz".find('z').unwrap() as u32);
    assert_eq!(height_map.map.get(4, 7), "abcdefghijklmnopqrstuvwxyz".find('i').unwrap() as u32);
}

#[test]
fn shortest_path() {
    let mut height_map = parse_input(SAMPLE_INPUT).unwrap();
    assert_eq!(height_map.shortest_path_form_start((0, 1)), 1);
    assert_eq!(height_map.shortest_path_form_start((1, 1)), 2);
    let end = height_map.end;
    assert_eq!(height_map.shortest_path_form_start(end), 31);
}

#[test]
fn shortest_path_anywhere() {
    let mut height_map = parse_input(SAMPLE_INPUT).unwrap();
    let end = height_map.end;
    assert_eq!(height_map.shortest_path_anywhere(end), 29);
}

#[test]
fn heightmap_top_level_queries() {
    assert_eq!(steps_to_signal(SAMPLE_INPUT), 31);
    assert_eq!(shortest_hike(SAMPLE_INPUT), 29);
}

#[test]
fn single_cell_costs_nothing() {
    assert_eq!(steps_to_signal("S"), 0);
}

#[test]
fn single_steps_follow_the_climb_rule() {
    // one step up is legal
    let mut up_one = parse_input("ab").unwrap();
    assert_eq!(up_one.shortest_path_form_start((0, 1)), 1);
    // two steps up at once is not
    let mut up_two = parse_input("ac").unwrap();
    assert_eq!(up_two.shortest_path_form_start((0, 1)), u32::MAX);
    // any drop is legal
    let mut down = parse_input("za").unwrap();
    assert_eq!(down.shortest_path_form_start((0, 1)), 1);
}

#[test]
fn rejects_malformed_grids() {
    assert!(matches!(parse_input(""), Err(ParseError::EmptyGrid)));
    assert!(matches!(parse_input("ab\nabc"), Err(ParseError::RaggedLine)));
    assert!(matches!(parse_input("a1"), Err(ParseError::BadCharacter)));
    assert!(matches!(parse_input("a\r\n"), Err(ParseError::BadCharacter)));
    assert!(matches!(parse_input("ab\r\nac"), Err(ParseError::BadCharacter)));
}
