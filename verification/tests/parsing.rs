use astar::estimate::{distance, guide, root};
use astar::{is_coord_valid, parse, ArgsError, Coord, CoordError, Land, Level};

fn at(x: usize, y: usize) -> Coord {
    Coord::from((x, y))
}

#[test]
fn coordinate_needs_two_fields() {
    assert_eq!(Coord::from_str("5"), Err(CoordError::TooFew));
    assert_eq!(Coord::from_str(""), Err(CoordError::TooFew));
    assert_eq!(Coord::from_str("5:6:7"), Err(CoordError::TooMany));
    assert_eq!(Coord::from_str("::"), Err(CoordError::TooMany));
    assert_eq!(Coord::from_str("1:2:3:4"), Err(CoordError::TooMany));
}

#[test]
fn coordinate_fields_are_numbers() {
    assert_eq!(Coord::from_str("a:b"), Err(CoordError::ParseIntError));
    assert_eq!(Coord::from_str("1:b"), Err(CoordError::ParseIntError));
    assert_eq!(Coord::from_str("a:2"), Err(CoordError::ParseIntError));
    assert_eq!(Coord::from_str(":"), Err(CoordError::ParseIntError));
    assert_eq!(Coord::from_str("1:"), Err(CoordError::ParseIntError));
    assert_eq!(Coord::from_str(":2"), Err(CoordError::ParseIntError));
    assert_eq!(Coord::from_str("-1:2"), Err(CoordError::ParseIntError));
    assert_eq!(Coord::from_str(" 1:2"), Err(CoordError::ParseIntError));
    assert_eq!(Coord::from_str("1:2 "), Err(CoordError::ParseIntError));
    assert_eq!(Coord::from_str("+:2"), Err(CoordError::ParseIntError));
    assert_eq!(Coord::from_str("1_0:2"), Err(CoordError::ParseIntError));
}

#[test]
fn coordinate_is_read() {
    assert_eq!(Coord::from_str("3:4"), Ok(at(3, 4)));
    assert_eq!(Coord::from_str("0:0"), Ok(at(0, 0)));
    assert_eq!(Coord::from_str("+3:+4"), Ok(at(3, 4)));
    assert_eq!(Coord::from_str("007:010"), Ok(at(7, 10)));
    assert_eq!(Coord::from_str("12345:67890"), Ok(at(12345, 67890)));
}

#[test]
fn coordinate_fields_must_fit() {
    let most = format!("{}:{}", usize::MAX, usize::MAX);
    assert_eq!(Coord::from_str(&most), Ok(at(usize::MAX, usize::MAX)));
    let more = format!("{}0:1", usize::MAX);
    assert_eq!(Coord::from_str(&more), Err(CoordError::ParseIntError));
    assert_eq!(Coord::from_str("1:99999999999999999999999999999999"), Err(CoordError::ParseIntError));
}

#[test]
fn coordinate_is_read_through_the_trait() {
    assert_eq!("3:4".parse::<Coord>(), Ok(at(3, 4)));
    assert_eq!("5".parse::<Coord>(), Err(CoordError::TooFew));
}

#[test]
fn coordinate_agrees_with_the_standard_parser() {
    for text in ["0", "1", "+1", "-1", "", "+", "42", "4 2", "4a", "18446744073709551615", "18446744073709551616", "٣"] {
        let both = format!("{}:{}", text, text);
        match text.parse::<usize>() {
            Ok(n) => assert_eq!(Coord::from_str(&both), Ok(at(n, n))),
            Err(_) => assert_eq!(Coord::from_str(&both), Err(CoordError::ParseIntError)),
        }
    }
}

#[test]
fn validator_hands_the_text_back() {
    assert_eq!(is_coord_valid(String::from("1:2")), Ok(()));
    assert_eq!(is_coord_valid(String::from("1;2")), Err(String::from("1;2")));
    assert_eq!(is_coord_valid(String::from("1:2:3")), Err(String::from("1:2:3")));
}

#[test]
fn level_is_read() {
    let level = Level::from_text("..#\n#..\n").unwrap();
    assert_eq!(level.dimensions(), (3, 2));
    assert_eq!(level.max_x(), 2);
    assert_eq!(level.max_y(), 1);
    assert_eq!(*level.index(&at(0, 0)), Land::Pass);
    assert_eq!(*level.index(&at(2, 0)), Land::Block);
    assert_eq!(*level.index(&at(0, 1)), Land::Block);
    assert_eq!(*level.index(&at(2, 1)), Land::Pass);
}

#[test]
fn level_lines_end_as_text_lines_do() {
    assert_eq!(Level::from_text("..\n..").unwrap().dimensions(), (2, 2));
    assert_eq!(Level::from_text("..\r\n..\r\n").unwrap().dimensions(), (2, 2));
    assert_eq!(Level::from_text("\n").unwrap().dimensions(), (0, 1));
    assert_eq!(Level::from_text("\n\n").unwrap().dimensions(), (0, 2));
    assert!(Level::from_text("..\r").is_err());
    assert!(Level::from_text("..\n\n").is_err());
}

#[test]
fn level_lines_agree_with_the_standard_splitter() {
    for text in ["", "\n", "a", "a\n", "a\nb", "a\r\nb\r\n", "a\rb\n", "\r\n", "a\n\nb", "a\r", "\r", "ab\r\r\n"] {
        let marked: String = text.chars().map(|c| if c == 'a' { '.' } else if c == 'b' { '#' } else { c }).collect();
        let lines: Vec<&str> = marked.lines().collect();
        let fine = !lines.is_empty()
            && lines.iter().all(|l| l.len() == lines[0].len() && l.chars().all(|c| c == '.' || c == '#'));
        match Level::from_text(&marked) {
            Ok(level) => {
                assert!(fine);
                assert_eq!(level.dimensions(), (lines[0].len(), lines.len()));
            },
            Err(_) => assert!(!fine),
        }
    }
}

#[test]
fn ragged_level_is_refused() {
    assert!(matches!(Level::from_text("...\n..\n...\n"), Err(ArgsError::InvalidLevel)));
    assert!(matches!(Level::from_text("..\n...\n"), Err(ArgsError::InvalidLevel)));
}

#[test]
fn unknown_character_is_refused() {
    assert!(matches!(Level::from_text("...\n.x.\n...\n"), Err(ArgsError::InvalidLevel)));
    assert!(matches!(Level::from_text(". .\n"), Err(ArgsError::InvalidLevel)));
    assert!(matches!(Level::from_text("..é\n"), Err(ArgsError::InvalidLevel)));
}

#[test]
fn empty_level_is_refused() {
    assert!(matches!(Level::from_text(""), Err(ArgsError::InvalidLevel)));
}

#[test]
fn markers() {
    assert_eq!(Land::Pass.marker(), '.');
    assert_eq!(Land::Block.marker(), '#');
}

#[test]
fn inside_means_below_width_and_height() {
    let level = Level::from_text("...\n...\n").unwrap();
    assert!(at(0, 0).is_inside(&level));
    assert!(at(2, 1).is_inside(&level));
    assert!(!at(3, 1).is_inside(&level));
    assert!(!at(2, 2).is_inside(&level));
    assert!(!at(usize::MAX, 0).is_inside(&level));
}

#[test]
fn neighbours_come_column_by_column() {
    let level = Level::from_text("...\n...\n...\n").unwrap();
    assert_eq!(
        level.neighbours(&at(1, 1)),
        vec![at(0, 0), at(0, 1), at(0, 2), at(1, 0), at(1, 2), at(2, 0), at(2, 1), at(2, 2)]
    );
    assert_eq!(level.neighbours(&at(0, 0)), vec![at(0, 1), at(1, 0), at(1, 1)]);
    assert_eq!(level.neighbours(&at(2, 2)), vec![at(1, 1), at(1, 2), at(2, 1)]);
    assert_eq!(level.neighbours(&at(2, 0)), vec![at(1, 0), at(1, 1), at(2, 1)]);
}

#[test]
fn neighbours_leave_out_blocked_cells() {
    let level = Level::from_text(".#.\n#..\n...\n").unwrap();
    assert_eq!(level.neighbours(&at(1, 1)), vec![at(0, 0), at(0, 2), at(1, 2), at(2, 0), at(2, 1), at(2, 2)]);
    assert_eq!(level.neighbours(&at(0, 0)), vec![at(1, 1)]);
    let lone = Level::from_text(".").unwrap();
    assert_eq!(lone.neighbours(&at(0, 0)), vec![]);
}

#[test]
fn arguments_are_read_and_checked() {
    let args = parse("...\n.#.\n", "0:1", "2:0").ok().unwrap();
    assert_eq!(args.level.dimensions(), (3, 2));
    assert_eq!(args.start, at(0, 1));
    assert_eq!(args.end, at(2, 0));
}

#[test]
fn arguments_outside_the_level_are_refused() {
    assert!(matches!(parse("...\n...\n", "3:0", "0:0"), Err(ArgsError::Coord)));
    assert!(matches!(parse("...\n...\n", "0:0", "0:2"), Err(ArgsError::Coord)));
    assert!(matches!(parse("\n", "0:0", "0:0"), Err(ArgsError::Coord)));
}

#[test]
fn malformed_arguments_are_refused() {
    assert!(matches!(parse("...\n...\n", "3", "0:0"), Err(ArgsError::Coord)));
    assert!(matches!(parse("...\n...\n", "0:0", "a:b"), Err(ArgsError::Coord)));
    assert!(matches!(parse("...\n..\n", "0:0", "0:0"), Err(ArgsError::InvalidLevel)));
    assert!(matches!(parse("...\n..\n", "zero", "0:0"), Err(ArgsError::InvalidLevel)));
}

#[test]
fn coordinate_error_becomes_an_argument_error() {
    assert!(matches!(ArgsError::from(CoordError::TooFew), ArgsError::Coord));
    assert!(matches!(ArgsError::from(CoordError::TooMany), ArgsError::Coord));
    assert!(matches!(ArgsError::from(CoordError::ParseIntError), ArgsError::Coord));
}

#[test]
fn read_failure_becomes_an_argument_error() {
    let failure = std::io::Error::new(std::io::ErrorKind::NotFound, "no such level");
    match ArgsError::from(failure) {
        ArgsError::InvalidLevelFile(e) => assert_eq!(e.kind(), std::io::ErrorKind::NotFound),
        _ => panic!("another error"),
    }
}

#[test]
fn square_roots_are_rounded_down() {
    assert_eq!(root(0), 0);
    assert_eq!(root(1), 1);
    assert_eq!(root(3), 1);
    assert_eq!(root(4), 2);
    assert_eq!(root(99), 9);
    assert_eq!(root(100), 10);
    assert_eq!(root(u128::MAX), u64::MAX as u128);
    assert_eq!(root((u64::MAX as u128) * (u64::MAX as u128)), u64::MAX as u128);
    assert_eq!(root((u64::MAX as u128) * (u64::MAX as u128) - 1), u64::MAX as u128 - 1);
}

#[test]
fn distance_is_the_straight_line_in_thousandths() {
    assert_eq!(distance(&at(0, 0), &at(0, 0)), 0);
    assert_eq!(distance(&at(0, 0), &at(1, 0)), 1000);
    assert_eq!(distance(&at(0, 0), &at(0, 1)), 1000);
    assert_eq!(distance(&at(0, 0), &at(1, 1)), 1414);
    assert_eq!(distance(&at(4, 4), &at(0, 0)), 5656);
    assert_eq!(distance(&at(0, 0), &at(3, 4)), 5000);
    assert_eq!(distance(&at(3, 4), &at(0, 0)), 5000);
    assert_eq!(distance(&at(7, 2), &at(4, 6)), 5000);
    assert_eq!(distance(&at(0, 0), &at(10, 0)), 10000);
    assert_eq!(distance(&at(0, 0), &at(5, 12)), 13000);
    assert_eq!(distance(&at(0, 0), &at(1, 2)), 2236);
}

#[test]
fn distance_along_a_diagonal_exceeds_the_cost_of_walking_it() {
    assert_eq!(distance(&at(0, 0), &at(5, 5)), 7071);
    assert!(distance(&at(0, 0), &at(5, 5)) > 5 * 1414);
}

#[test]
fn guide_is_the_distance_scaled_down() {
    assert_eq!(guide(&at(0, 0), &at(0, 0)), 0);
    assert_eq!(guide(&at(0, 0), &at(1, 0)), 999);
    assert_eq!(guide(&at(0, 0), &at(1, 1)), 1413);
    assert_eq!(guide(&at(0, 0), &at(3, 4)), 4996);
    assert_eq!(guide(&at(0, 0), &at(5, 5)), 7066);
    assert_eq!(guide(&at(0, 0), &at(10, 0)), 9992);
    for dx in 0..20usize {
        for dy in 0..20usize {
            let line = distance(&at(dx, 0), &at(0, dy));
            assert_eq!(guide(&at(dx, 0), &at(0, dy)), line * 1414 / 1415);
        }
    }
}

#[test]
fn guide_never_exceeds_the_octile_cost() {
    for dx in 0..40usize {
        for dy in 0..40usize {
            let (short, long) = if dx < dy { (dx, dy) } else { (dy, dx) };
            let octile = (short * 1414 + (long - short) * 1000) as u128;
            assert!(guide(&at(0, 0), &at(dx, dy)) <= octile);
        }
    }
}

#[test]
fn guide_falls_by_no_more_than_a_move_costs() {
    let goal = at(9, 7);
    for x in 0..20usize {
        for y in 0..20usize {
            for (nx, ny) in [(x + 1, y), (x, y + 1), (x + 1, y + 1), (x + 1, y.wrapping_sub(1))] {
                if ny > 20 {
                    continue;
                }
                let cost: u128 = if nx != x && ny != y { 1414 } else { 1000 };
                assert!(guide(&at(x, y), &goal) <= cost + guide(&at(nx, ny), &goal));
                assert!(guide(&at(nx, ny), &goal) <= cost + guide(&at(x, y), &goal));
            }
        }
    }
}

#[test]
fn distance_counts_far_offsets_up_to_a_limit() {
    let far: usize = 1 << 53;
    if usize::MAX > far {
        let capped = distance(&at(0, 0), &at(far, 0));
        assert_eq!(distance(&at(0, 0), &at(far + 1, 0)), capped);
        assert_eq!(distance(&at(0, 0), &at(usize::MAX, 0)), capped);
    }
}
