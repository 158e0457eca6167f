use astar::frontier::{Candidate, Frontier};
use astar::{find, Coord, Level, Path};

fn level_of(text: &str) -> Level {
    match Level::from_text(text) {
        Ok(level) => level,
        Err(_) => panic!("not a level"),
    }
}

fn at(x: usize, y: usize) -> Coord {
    Coord::from((x, y))
}

fn step(a: &Coord, b: &Coord) -> u128 {
    let dx = if a.x > b.x { a.x - b.x } else { b.x - a.x };
    let dy = if a.y > b.y { a.y - b.y } else { b.y - a.y };
    assert!(dx <= 1 && dy <= 1 && dx + dy > 0);
    if dx == 1 && dy == 1 {
        1414
    } else {
        1000
    }
}

fn check_walk(level: &Level, path: &Path, start: Coord, end: Coord) {
    let coords = path.coords();
    assert_eq!(coords[0], start);
    assert_eq!(coords[coords.len() - 1], end);
    let mut sum: u128 = 0;
    for i in 0..coords.len() {
        assert!(coords[i].is_inside(level));
        assert_eq!(level.index(&coords[i]).marker(), '.');
        for j in 0..i {
            assert_ne!(coords[i], coords[j]);
        }
        if i > 0 {
            sum += step(&coords[i - 1], &coords[i]);
        }
    }
    assert_eq!(path.distance(), sum);
}

#[test]
fn open_grid_is_crossed_along_the_diagonal() {
    let level = level_of("...\n...\n...\n");
    let path = find(&level, at(0, 0), at(2, 2)).unwrap();
    assert_eq!(path.coords(), &vec![at(0, 0), at(1, 1), at(2, 2)]);
    assert_eq!(path.distance(), 2828);
}

#[test]
fn blocked_centre_is_walked_around() {
    let level = level_of("...\n.#.\n...\n");
    let path = find(&level, at(0, 0), at(2, 2)).unwrap();
    check_walk(&level, &path, at(0, 0), at(2, 2));
    assert!(path.distance() > 2828);
    assert_eq!(path.distance(), 3414);
    assert_eq!(path.coords().len(), 4);
    assert!(!path.coords().contains(&at(1, 1)));
}

#[test]
fn same_cell_is_a_path_of_one() {
    let level = level_of("...\n...\n...\n");
    let path = find(&level, at(1, 1), at(1, 1)).unwrap();
    assert_eq!(path.coords(), &vec![at(1, 1)]);
    assert_eq!(path.distance(), 0);
}

#[test]
fn same_cell_on_a_walled_in_cell_is_still_a_path() {
    let level = level_of("###\n#.#\n###\n");
    let path = find(&level, at(1, 1), at(1, 1)).unwrap();
    assert_eq!(path.coords(), &vec![at(1, 1)]);
    assert_eq!(path.distance(), 0);
}

#[test]
fn blocked_start_has_no_path() {
    let level = level_of("#..\n...\n...\n");
    assert!(find(&level, at(0, 0), at(2, 2)).is_none());
}

#[test]
fn blocked_end_has_no_path() {
    let level = level_of("...\n...\n..#\n");
    assert!(find(&level, at(0, 0), at(2, 2)).is_none());
}

#[test]
fn blocked_cell_asked_for_twice_has_no_path() {
    let level = level_of("...\n.#.\n...\n");
    assert!(find(&level, at(1, 1), at(1, 1)).is_none());
}

#[test]
fn walled_in_end_has_no_path() {
    let level = level_of(".....\n.###.\n.#.#.\n.###.\n.....\n");
    assert!(find(&level, at(0, 0), at(2, 2)).is_none());
}

#[test]
fn walled_in_start_has_no_path() {
    let level = level_of(".....\n.###.\n.#.#.\n.###.\n.....\n");
    assert!(find(&level, at(2, 2), at(4, 4)).is_none());
}

#[test]
fn wall_across_the_level_has_no_path() {
    let level = level_of("..#..\n..#..\n..#..\n");
    assert!(find(&level, at(0, 1), at(4, 1)).is_none());
}

#[test]
fn gap_in_a_wall_is_found() {
    let level = level_of("..#..\n..#..\n.....\n");
    let path = find(&level, at(0, 0), at(4, 0)).unwrap();
    check_walk(&level, &path, at(0, 0), at(4, 0));
    assert_eq!(path.distance(), 4 * 1414);
    assert_eq!(path.coords(), &vec![at(0, 0), at(1, 1), at(2, 2), at(3, 1), at(4, 0)]);
}

#[test]
fn open_grid_costs_the_octile_distance() {
    let level = level_of(".......\n.......\n.......\n.......\n.......\n");
    for sx in 0..7 {
        for sy in 0..5 {
            for ex in 0..7 {
                for ey in 0..5 {
                    let dx: u128 = if sx > ex { sx - ex } else { ex - sx } as u128;
                    let dy: u128 = if sy > ey { sy - ey } else { ey - sy } as u128;
                    let (short, long) = if dx < dy { (dx, dy) } else { (dy, dx) };
                    let path = find(&level, at(sx, sy), at(ex, ey)).unwrap();
                    assert_eq!(path.distance(), short * 1414 + (long - short) * 1000);
                    check_walk(&level, &path, at(sx, sy), at(ex, ey));
                }
            }
        }
    }
}

#[test]
fn straight_walks_cost_a_thousand_a_cell() {
    let level = level_of("......\n......\n");
    assert_eq!(find(&level, at(0, 0), at(5, 0)).unwrap().distance(), 5000);
    assert_eq!(find(&level, at(3, 0), at(3, 1)).unwrap().distance(), 1000);
    assert_eq!(find(&level, at(5, 1), at(0, 1)).unwrap().distance(), 5000);
}

#[test]
fn mixed_walk_costs_diagonals_then_straight() {
    let level = level_of("......\n......\n......\n");
    assert_eq!(find(&level, at(0, 0), at(5, 2)).unwrap().distance(), 2 * 1414 + 3 * 1000);
}

#[test]
fn winding_corridor_is_followed() {
    let level = level_of(".#...\n.#.#.\n.#.#.\n...#.\n");
    let path = find(&level, at(0, 0), at(4, 3)).unwrap();
    check_walk(&level, &path, at(0, 0), at(4, 3));
    assert_eq!(path.distance(), 2000 + 1414 + 1414 + 1000 + 1414 + 1414 + 2000);
}

#[test]
fn single_cell_level() {
    let level = level_of(".");
    let path = find(&level, at(0, 0), at(0, 0)).unwrap();
    assert_eq!(path.coords().len(), 1);
    assert_eq!(path.distance(), 0);
}

#[test]
fn equal_walks_give_the_same_answer_each_time() {
    let level = level_of("...\n.#.\n...\n");
    let first = find(&level, at(0, 0), at(2, 2)).unwrap();
    let second = find(&level, at(0, 0), at(2, 2)).unwrap();
    assert_eq!(first.coords(), second.coords());
}

#[test]
fn path_is_drawn_over_the_level() {
    let level = level_of("...\n.#.\n...\n");
    let straight = find(&level, at(0, 0), at(2, 0)).unwrap();
    assert_eq!(straight.render(&level), "Path of 3 coords travels distance of 2 units.\nooo\n.#.\n...\n");
    let down = find(&level, at(0, 0), at(0, 2)).unwrap();
    assert_eq!(down.render(&level), "Path of 3 coords travels distance of 2 units.\no..\no#.\no..\n");
    let alone = find(&level, at(2, 2), at(2, 2)).unwrap();
    assert_eq!(alone.render(&level), "Path of 1 coords travels distance of 0 units.\n...\n.#.\n..o\n");
}

#[test]
fn path_drawn_over_a_smaller_level_leaves_out_what_lies_outside() {
    let level = level_of("....\n");
    let small = level_of("..\n");
    let path = find(&level, at(0, 0), at(3, 0)).unwrap();
    assert_eq!(path.render(&level), "Path of 4 coords travels distance of 3 units.\noooo\n");
    assert_eq!(path.render(&small), "Path of 4 coords travels distance of 3 units.\noo\n");
}

#[test]
fn level_is_drawn_after_an_empty_line() {
    assert_eq!(level_of("..#\n#..\n").render(), "\n..#\n#..\n");
    assert_eq!(level_of(".").render(), "\n.\n");
    assert_eq!(level_of("\n\n").render(), "\n\n\n");
}

#[test]
fn frontier_gives_the_lowest_cost_first() {
    let mut frontier = Frontier::new();
    assert_eq!(frontier.pop(), None);
    frontier.push(Candidate { cost: 30, coord: at(0, 0) });
    frontier.push(Candidate { cost: 10, coord: at(1, 0) });
    frontier.push(Candidate { cost: 20, coord: at(2, 0) });
    assert_eq!(frontier.len(), 3);
    assert_eq!(frontier.pop(), Some(Candidate { cost: 10, coord: at(1, 0) }));
    assert_eq!(frontier.pop(), Some(Candidate { cost: 20, coord: at(2, 0) }));
    assert_eq!(frontier.pop(), Some(Candidate { cost: 30, coord: at(0, 0) }));
    assert_eq!(frontier.pop(), None);
    assert_eq!(frontier.len(), 0);
}

#[test]
fn frontier_breaks_ties_by_column_then_row() {
    let mut frontier = Frontier::new();
    frontier.push(Candidate { cost: 5, coord: at(1, 0) });
    frontier.push(Candidate { cost: 5, coord: at(0, 9) });
    frontier.push(Candidate { cost: 5, coord: at(0, 2) });
    frontier.push(Candidate { cost: 5, coord: at(1, 1) });
    assert_eq!(frontier.pop().unwrap().coord, at(0, 2));
    assert_eq!(frontier.pop().unwrap().coord, at(0, 9));
    assert_eq!(frontier.pop().unwrap().coord, at(1, 0));
    assert_eq!(frontier.pop().unwrap().coord, at(1, 1));
}

#[test]
fn frontier_moves_a_candidate_to_its_new_cost() {
    let mut frontier = Frontier::new();
    frontier.push(Candidate { cost: 30, coord: at(0, 0) });
    frontier.push(Candidate { cost: 10, coord: at(1, 0) });
    frontier.reprioritize(Candidate { cost: 30, coord: at(0, 0) }, 5);
    assert_eq!(frontier.len(), 2);
    assert_eq!(frontier.pop(), Some(Candidate { cost: 5, coord: at(0, 0) }));
    assert_eq!(frontier.pop(), Some(Candidate { cost: 10, coord: at(1, 0) }));
}

#[test]
fn candidates_are_ordered_by_cost_first() {
    let low = Candidate { cost: 1, coord: at(9, 9) };
    let high = Candidate { cost: 2, coord: at(0, 0) };
    assert!(low.precedes(&high));
    assert!(!high.precedes(&low));
    assert!(!low.precedes(&low));
}

#[test]
fn cheaper_way_found_later_replaces_the_first() {
    let level = level_of("....\n.##.\n....\n");
    let path = find(&level, at(0, 1), at(3, 1)).unwrap();
    check_walk(&level, &path, at(0, 1), at(3, 1));
    assert_eq!(path.distance(), 1414 + 1000 + 1414);
}

#[test]
fn every_small_level_is_answered_as_by_trying_all_ways() {
    let far = u128::MAX;
    for blocked in 0u32..512 {
        let mut text = String::new();
        for y in 0..3 {
            for x in 0..3 {
                text.push(if blocked & (1 << (3 * y + x)) != 0 { '#' } else { '.' });
            }
            text.push('\n');
        }
        let level = level_of(&text);
        let free = |i: usize| blocked & (1 << i) == 0;
        let mut best = [[far; 9]; 9];
        for a in 0..9 {
            for b in 0..9 {
                let (ax, ay, bx, by) = (a % 3, a / 3, b % 3, b / 3);
                let dx = if ax > bx { ax - bx } else { bx - ax };
                let dy = if ay > by { ay - by } else { by - ay };
                if free(a) && free(b) {
                    if a == b {
                        best[a][b] = 0;
                    } else if dx <= 1 && dy <= 1 {
                        best[a][b] = if dx == 1 && dy == 1 { 1414 } else { 1000 };
                    }
                }
            }
        }
        for k in 0..9 {
            for a in 0..9 {
                for b in 0..9 {
                    if best[a][k] != far && best[k][b] != far && best[a][k] + best[k][b] < best[a][b] {
                        best[a][b] = best[a][k] + best[k][b];
                    }
                }
            }
        }
        for a in 0..9 {
            for b in 0..9 {
                let (start, end) = (at(a % 3, a / 3), at(b % 3, b / 3));
                match find(&level, start, end) {
                    Some(path) => {
                        assert_eq!(path.distance(), best[a][b]);
                        check_walk(&level, &path, start, end);
                    },
                    None => assert_eq!(best[a][b], far),
                }
            }
        }
    }
}

#[test]
fn cost_is_written_in_cell_sides_without_zeros_at_the_end() {
    let level = level_of("...\n...\n...\n");
    let across = find(&level, at(0, 0), at(2, 2)).unwrap();
    assert_eq!(
        across.render(&level),
        "Path of 3 coords travels distance of 2.828 units.\no..\n.o.\n..o\n"
    );
    let one = find(&level, at(0, 0), at(1, 1)).unwrap();
    assert!(one.render(&level).starts_with("Path of 2 coords travels distance of 1.414 units.\n"));
    let mixed = find(&level, at(0, 0), at(2, 1)).unwrap();
    assert!(mixed.render(&level).starts_with("Path of 3 coords travels distance of 2.414 units.\n"));
}

#[test]
fn long_path_is_summed_up_in_full() {
    let row = ".".repeat(51);
    let mut text = String::new();
    for _ in 0..51 {
        text.push_str(&row);
        text.push('\n');
    }
    let level = level_of(&text);
    let five = find(&level, at(0, 0), at(5, 5)).unwrap();
    assert!(five.render(&level).starts_with("Path of 6 coords travels distance of 7.07 units.\n"));
    let fifty = find(&level, at(0, 0), at(50, 50)).unwrap();
    assert_eq!(fifty.distance(), 70700);
    assert!(fifty.render(&level).starts_with("Path of 51 coords travels distance of 70.7 units.\n"));
    let straight = find(&level, at(50, 3), at(0, 3)).unwrap();
    assert!(straight.render(&level).starts_with("Path of 51 coords travels distance of 50 units.\n"));
    let bent = find(&level, at(0, 0), at(50, 25)).unwrap();
    assert_eq!(bent.distance(), 25 * 1414 + 25 * 1000);
    assert!(bent.render(&level).starts_with("Path of 51 coords travels distance of 60.35 units.\n"));
    let picture = fifty.render(&level);
    let lines: Vec<&str> = picture.lines().collect();
    assert_eq!(lines.len(), 52);
    for y in 0..51 {
        for (x, c) in lines[y + 1].chars().enumerate() {
            assert_eq!(c, if x == y { 'o' } else { '.' });
        }
    }
}
