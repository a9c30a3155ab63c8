use cellular_automata::automata::{Automata, Point};
use cellular_automata::color::{Color, MAX_COOLDOWN};

const RED: Color = Color { red: 10, green: 0, blue: 0, alpha: 10 };
const BLACK: Color = Color { red: 0, green: 0, blue: 0, alpha: 10 };

fn blue(level: u8) -> Color {
    Color { red: 0, green: 0, blue: level, alpha: 10 }
}

fn seeded(size: usize, cells: &[(usize, usize)]) -> Automata {
    let mut automata = Automata::new(size);
    for &(x, y) in cells {
        automata.birth_cell_at(x, y);
    }
    automata
}

fn live_set(automata: &Automata) -> Vec<(usize, usize)> {
    let mut live = Vec::new();
    for y in 0..automata.size() {
        for x in 0..automata.size() {
            if automata.cell_at(x, y).color() == RED {
                live.push((x, y));
            }
        }
    }
    live
}

#[test]
fn new_grid_is_dead_and_has_nothing_to_draw() {
    let mut automata = Automata::new(4);
    assert_eq!(automata.size(), 4);
    for y in 0..4 {
        for x in 0..4 {
            assert_eq!(automata.cell_at(x, y).color(), BLACK);
        }
    }
    assert_eq!(automata.get_new_graphics(), vec![]);
}

#[test]
fn grid_of_one_cell() {
    let mut automata = Automata::new(1);
    assert_eq!(automata.size(), 1);
    assert_eq!(automata.get_neighbours(0, 0).len(), 0);
    automata.birth_cell_at(0, 0);
    assert_eq!(automata.get_new_graphics(), vec![(Point(0, 0), RED)]);
    automata.update();
    assert_eq!(automata.get_new_graphics(), vec![(Point(0, 0), blue(10))]);
}

#[test]
fn seeds_are_drawn_in_the_order_of_their_birth() {
    let mut automata = seeded(5, &[(3, 4), (0, 0), (2, 1)]);
    assert_eq!(
        automata.get_new_graphics(),
        vec![(Point(3, 4), RED), (Point(0, 0), RED), (Point(2, 1), RED)]
    );
    assert_eq!(live_set(&automata), vec![(0, 0), (2, 1), (3, 4)]);
}

#[test]
fn a_cell_born_twice_waits_twice() {
    let mut automata = seeded(3, &[(1, 1), (1, 1)]);
    assert_eq!(automata.get_new_graphics(), vec![(Point(1, 1), RED), (Point(1, 1), RED)]);
    assert_eq!(live_set(&automata), vec![(1, 1)]);
}

#[test]
fn fetching_forgets_what_was_fetched() {
    let mut automata = seeded(3, &[(1, 1)]);
    assert_eq!(automata.get_new_graphics().len(), 1);
    assert_eq!(automata.get_new_graphics(), vec![]);
    assert_eq!(live_set(&automata), vec![(1, 1)]);
}

#[test]
fn changes_pile_up_until_they_are_fetched() {
    let mut automata = seeded(3, &[(1, 0), (1, 1), (1, 2)]);
    automata.update();
    automata.update();
    assert_eq!(
        automata.get_new_graphics(),
        vec![
            (Point(1, 0), RED),
            (Point(1, 1), RED),
            (Point(1, 2), RED),
            (Point(1, 0), RED),
            (Point(0, 1), blue(10)),
            (Point(2, 1), blue(10)),
            (Point(1, 2), RED),
            (Point(1, 0), RED),
            (Point(0, 1), blue(10)),
            (Point(2, 1), blue(10)),
            (Point(1, 2), RED),
        ]
    );
}

#[test]
fn blinker_turns_and_turns_back() {
    let mut automata = seeded(3, &[(1, 0), (1, 1), (1, 2)]);
    assert_eq!(automata.get_new_graphics().len(), 3);

    automata.update();
    assert_eq!(live_set(&automata), vec![(0, 1), (1, 1), (2, 1)]);
    assert_eq!(
        automata.get_new_graphics(),
        vec![
            (Point(1, 0), blue(10)),
            (Point(0, 1), RED),
            (Point(2, 1), RED),
            (Point(1, 2), blue(10)),
        ]
    );

    automata.update();
    assert_eq!(live_set(&automata), vec![(1, 0), (1, 1), (1, 2)]);
    assert_eq!(
        automata.get_new_graphics(),
        vec![
            (Point(1, 0), RED),
            (Point(0, 1), blue(10)),
            (Point(2, 1), blue(10)),
            (Point(1, 2), RED),
        ]
    );
}

#[test]
fn glider_moves_one_cell_down_and_right_in_four_generations() {
    let glider = [(1, 0), (2, 1), (0, 2), (1, 2), (2, 2)];
    let mut automata = seeded(6, &glider);
    assert_eq!(automata.get_new_graphics().len(), 5);

    automata.update();
    assert_eq!(live_set(&automata), vec![(0, 1), (2, 1), (1, 2), (2, 2), (1, 3)]);
    assert_eq!(
        automata.get_new_graphics(),
        vec![
            (Point(1, 0), blue(10)),
            (Point(0, 1), RED),
            (Point(0, 2), blue(10)),
            (Point(1, 3), RED),
        ]
    );
    automata.update();
    assert_eq!(live_set(&automata), vec![(2, 1), (0, 2), (2, 2), (1, 3), (2, 3)]);
    automata.update();
    assert_eq!(live_set(&automata), vec![(1, 1), (2, 2), (3, 2), (1, 3), (2, 3)]);
    assert_eq!(automata.get_new_graphics().len(), 5 + 7);
    automata.update();

    let mut moved: Vec<(usize, usize)> = glider.iter().map(|&(x, y)| (x + 1, y + 1)).collect();
    moved.sort_by_key(|&(x, y)| (y, x));
    assert_eq!(live_set(&automata), moved);
    assert_eq!(live_set(&automata), vec![(2, 1), (3, 2), (1, 3), (2, 3), (3, 3)]);
    assert_eq!(
        automata.get_new_graphics(),
        vec![
            (Point(1, 0), blue(7)),
            (Point(0, 1), blue(8)),
            (Point(1, 1), blue(10)),
            (Point(2, 1), RED),
            (Point(0, 2), blue(9)),
            (Point(1, 2), blue(8)),
            (Point(2, 2), blue(10)),
            (Point(3, 3), RED),
        ]
    );
}

#[test]
fn block_away_from_the_edges_never_changes() {
    let block = [(2, 2), (3, 2), (2, 3), (3, 3)];
    let mut automata = seeded(6, &block);
    assert_eq!(automata.get_new_graphics().len(), 4);
    for _ in 0..25 {
        automata.update();
        assert_eq!(automata.get_new_graphics(), vec![]);
        assert_eq!(live_set(&automata), vec![(2, 2), (3, 2), (2, 3), (3, 3)]);
    }
}

#[test]
fn block_in_a_corner_never_changes() {
    let mut automata = seeded(2, &[(0, 0), (1, 0), (0, 1), (1, 1)]);
    automata.get_new_graphics();
    for _ in 0..5 {
        automata.update();
        assert_eq!(automata.get_new_graphics(), vec![]);
        assert_eq!(live_set(&automata), vec![(0, 0), (1, 0), (0, 1), (1, 1)]);
    }
}

#[test]
fn lone_cell_dies_and_its_glow_is_gone_after_ten_more_generations() {
    let mut automata = seeded(5, &[(2, 2)]);
    assert_eq!(automata.get_new_graphics(), vec![(Point(2, 2), RED)]);

    automata.update();
    assert_eq!(automata.get_new_graphics(), vec![(Point(2, 2), blue(MAX_COOLDOWN))]);
    assert_eq!(live_set(&automata), vec![]);

    for passed in 1..=MAX_COOLDOWN {
        automata.update();
        assert_eq!(
            automata.get_new_graphics(),
            vec![(Point(2, 2), blue(MAX_COOLDOWN - passed))]
        );
    }
    assert_eq!(automata.cell_at(2, 2).color(), BLACK);

    for _ in 0..3 {
        automata.update();
        assert_eq!(automata.get_new_graphics(), vec![]);
        assert_eq!(automata.cell_at(2, 2).color(), BLACK);
    }
}

#[test]
fn a_cell_that_is_born_again_does_not_glow() {
    let mut automata = seeded(4, &[(0, 0), (1, 0), (2, 0), (3, 2)]);
    automata.get_new_graphics();

    automata.update();
    assert_eq!(live_set(&automata), vec![(1, 0), (1, 1), (2, 1)]);
    assert_eq!(
        automata.get_new_graphics(),
        vec![
            (Point(0, 0), blue(10)),
            (Point(2, 0), blue(10)),
            (Point(1, 1), RED),
            (Point(2, 1), RED),
            (Point(3, 2), blue(10)),
        ]
    );

    automata.update();
    assert_eq!(live_set(&automata), vec![(1, 0), (2, 0), (1, 1), (2, 1)]);
    assert_eq!(
        automata.get_new_graphics(),
        vec![(Point(0, 0), blue(9)), (Point(2, 0), RED), (Point(3, 2), blue(9))]
    );

    for passed in 2..=9u8 {
        automata.update();
        assert_eq!(
            automata.get_new_graphics(),
            vec![(Point(0, 0), blue(10 - passed)), (Point(3, 2), blue(10 - passed))]
        );
        assert_eq!(automata.cell_at(2, 0).color(), RED);
    }
}
