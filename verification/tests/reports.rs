use cellular_automata::automata::{Automata, Point};
use cellular_automata::color::Color;

fn seeded(size: usize, cells: &[(usize, usize)]) -> Automata {
    let mut automata = Automata::new(size);
    for &(x, y) in cells {
        automata.birth_cell_at(x, y);
    }
    automata
}

fn colours(automata: &Automata) -> Vec<Color> {
    let mut all = Vec::new();
    for y in 0..automata.size() {
        for x in 0..automata.size() {
            all.push(automata.cell_at(x, y).color());
        }
    }
    all
}

fn run(size: usize, cells: &[(usize, usize)], generations: usize) -> Vec<Vec<(Point, Color)>> {
    let mut automata = seeded(size, cells);
    let mut reports = vec![automata.get_new_graphics()];
    for _ in 0..generations {
        automata.update();
        reports.push(automata.get_new_graphics());
    }
    reports
}

const R_PENTOMINO: [(usize, usize); 5] = [(5, 4), (6, 4), (4, 5), (5, 5), (5, 6)];

#[test]
fn same_seeds_give_the_same_reports() {
    let first = run(12, &R_PENTOMINO, 40);
    let second = run(12, &R_PENTOMINO, 40);
    assert_eq!(first, second);
    assert_eq!(first.len(), 41);
    assert!(first.iter().skip(1).any(|report| !report.is_empty()));
}

#[test]
fn reading_between_generations_changes_nothing() {
    let undisturbed = run(12, &R_PENTOMINO, 40);
    let mut automata = seeded(12, &R_PENTOMINO);
    let mut reports = vec![automata.get_new_graphics()];
    for _ in 0..40 {
        let before = colours(&automata);
        let size = automata.size();
        let around = automata.get_neighbours(3, 3).len();
        assert_eq!((size, around), (12, 8));
        assert_eq!(colours(&automata), before);
        automata.update();
        reports.push(automata.get_new_graphics());
    }
    assert_eq!(reports, undisturbed);
}

#[test]
fn report_holds_each_cell_whose_colour_changed_once_and_no_other() {
    let mut automata = seeded(12, &R_PENTOMINO);
    automata.get_new_graphics();
    let mut reported = 0;
    for _ in 0..60 {
        let before = colours(&automata);
        automata.update();
        let after = colours(&automata);
        let report = automata.get_new_graphics();
        for y in 0..12 {
            for x in 0..12 {
                let times = report.iter().filter(|(point, _)| *point == Point(x, y)).count();
                let changed = before[y * 12 + x] != after[y * 12 + x];
                assert_eq!(times, if changed { 1 } else { 0 });
            }
        }
        for (Point(x, y), colour) in &report {
            assert_eq!(*colour, after[y * 12 + x]);
        }
        reported += report.len();
    }
    assert!(reported > 0);
}

#[test]
fn report_goes_row_after_row_from_left_to_right() {
    for report in run(12, &R_PENTOMINO, 30).iter().skip(1) {
        for pair in report.windows(2) {
            let (Point(x0, y0), Point(x1, y1)) = (pair[0].0, pair[1].0);
            assert!((y0, x0) < (y1, x1));
        }
    }
}

#[test]
fn glow_only_fades_and_stays_between_nothing_and_full() {
    let mut automata = seeded(12, &R_PENTOMINO);
    for _ in 0..60 {
        let before = colours(&automata);
        automata.update();
        let after = colours(&automata);
        for (was, is) in before.iter().zip(after.iter()) {
            assert!(is.blue <= 10 && is.green == 0 && is.alpha == 10);
            assert!(is.red == 0 || (is.red == 10 && is.blue == 0));
            if was.red == 0 && is.red == 0 {
                assert_eq!(is.blue, was.blue.saturating_sub(1));
            }
            if was.red == 10 && is.red == 0 {
                assert_eq!(is.blue, 10);
            }
        }
    }
}

#[test]
fn a_copy_runs_like_the_automaton_it_was_taken_from() {
    let mut automata = seeded(12, &R_PENTOMINO);
    for _ in 0..7 {
        automata.update();
    }
    let mut copy = automata.clone();
    for _ in 0..20 {
        automata.update();
        copy.update();
        assert_eq!(colours(&automata), colours(&copy));
        assert_eq!(automata.get_new_graphics(), copy.get_new_graphics());
    }
}
