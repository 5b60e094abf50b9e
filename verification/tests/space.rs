use train_game::enumerate::digit_orderings;
use train_game::enumerate::distinct_rearrangements;
use train_game::enumerate::factorial_markings;
use train_game::enumerate::operator_triples;
use train_game::evaluate::calculate;
use train_game::math::factorial_table;
use train_game::operator::Operator;
use train_game::render::expression;
use train_game::search::Candidate;
use train_game::search::lines;
use train_game::search::search;
use train_game::search::search_over;

fn distinct<T: PartialEq>(rows: &Vec<T>) -> bool {
    for i in 0..rows.len() {
        for j in 0..i {
            if rows[i] == rows[j] {
                return false;
            }
        }
    }
    true
}

#[test]
fn distinct_digits_have_twenty_four_orderings() {
    let digits: Vec<i128> = vec![1, 2, 3, 4];
    let rows = digit_orderings(&digits, false);
    assert_eq!(rows.len(), 24);
    assert!(distinct(&rows));
    assert_eq!(rows[0], vec![1, 2, 3, 4]);
    for row in &rows {
        let mut sorted = row.clone();
        sorted.sort();
        assert_eq!(sorted, vec![1, 2, 3, 4]);
    }
    assert!(rows.contains(&vec![4, 3, 2, 1]));
    assert!(rows.contains(&vec![2, 4, 1, 3]));
}

#[test]
fn repeated_digits_have_fewer_orderings() {
    let rows = digit_orderings(&vec![1, 1, 2, 9], false);
    assert_eq!(rows.len(), 12);
    assert!(distinct(&rows));
    assert_eq!(rows[0], vec![1, 1, 2, 9]);
    assert!(rows.contains(&vec![9, 2, 1, 1]));
    for row in &rows {
        let mut sorted = row.clone();
        sorted.sort();
        assert_eq!(sorted, vec![1, 1, 2, 9]);
    }
    assert_eq!(digit_orderings(&vec![7, 7, 7, 7], false), vec![vec![7, 7, 7, 7]]);
    assert_eq!(digit_orderings(&vec![0, 0, 5, 5], false).len(), 6);
    assert_eq!(digit_orderings(&vec![3, 8, 8, 8], false).len(), 4);
}

#[test]
fn digits_in_order_have_one_ordering() {
    assert_eq!(digit_orderings(&vec![4, 3, 2, 1], true), vec![vec![4, 3, 2, 1]]);
    assert_eq!(digit_orderings(&vec![1, 1, 2, 9], true), vec![vec![1, 1, 2, 9]]);
}

#[test]
fn there_are_1331_operator_triples() {
    let triples = operator_triples();
    assert_eq!(triples.len(), 1331);
    assert!(distinct(&triples));
    assert_eq!(triples[0], vec![Operator::Add, Operator::Add, Operator::Add]);
    assert_eq!(triples[1], vec![Operator::Add, Operator::Add, Operator::Subtract]);
    assert_eq!(triples[11], vec![Operator::Add, Operator::Subtract, Operator::Add]);
    assert_eq!(triples[121], vec![Operator::Subtract, Operator::Add, Operator::Add]);
    assert_eq!(
        triples[3 * 121 + 4 * 11 + 10],
        vec![Operator::Divide, Operator::Modulo, Operator::Power]
    );
    assert_eq!(triples[1330], vec![Operator::Power, Operator::Power, Operator::Power]);
    for triple in &triples {
        assert_eq!(triple.len(), 3);
    }
}

#[test]
fn there_are_64_markings() {
    let markings = factorial_markings();
    assert_eq!(markings.len(), 64);
    assert!(distinct(&markings));
    assert_eq!(markings[0], vec![false, false, false, false, false, false]);
    assert_eq!(markings[1], vec![false, false, false, false, false, true]);
    assert_eq!(markings[2], vec![false, false, false, false, true, false]);
    assert_eq!(markings[32], vec![true, false, false, false, false, false]);
    assert_eq!(markings[37], vec![true, false, false, true, false, true]);
    assert_eq!(markings[63], vec![true, true, true, true, true, true]);
}

#[test]
fn search_tries_every_candidate_of_every_distinct_ordering() {
    let table = factorial_table();
    let digits: Vec<i128> = vec![1, 1, 2, 9];
    let found = search(&digits, false, 10, &table);
    assert_eq!(found.examined, 12 * 85184);
    assert!(!found.matches.is_empty());
    assert!(found.matches.len() <= found.examined);
    let shown = lines(&found, 10);
    assert_eq!(shown.len(), found.matches.len());
    for (tried, line) in found.matches.iter().zip(shown.iter()) {
        assert_eq!(calculate(tried.digits(), tried.ops(), tried.marks(), &table), Ok(10));
        assert!(line.ends_with(" = 10"));
        assert_eq!(*line, expression(tried.digits(), tried.ops(), tried.marks(), 10));
        let mut sorted = tried.digits().clone();
        sorted.sort();
        assert_eq!(sorted, vec![1, 1, 2, 9]);
    }
    assert!(shown.contains(&String::from("((1 + 1) / 2) + 9 = 10")));
    assert!(shown.contains(&String::from("((9 + 2) - 1) * 1 = 10")));
}

#[test]
fn search_in_order_tries_85184_candidates() {
    let table = factorial_table();
    let digits: Vec<i128> = vec![1, 1, 2, 9];
    let found = search(&digits, true, 10, &table);
    assert_eq!(found.examined, 85184);
    assert!(!found.matches.is_empty());
    for tried in &found.matches {
        assert_eq!(*tried.digits(), digits);
        assert_eq!(calculate(tried.digits(), tried.ops(), tried.marks(), &table), Ok(10));
    }
    let shown = lines(&found, 10);
    assert!(shown.contains(&String::from("((1 + 1) / 2) + 9 = 10")));
    assert!(!shown.contains(&String::from("((9 + 2) - 1) * 1 = 10")));
}

#[test]
fn search_keeps_the_order_in_which_candidates_are_tried() {
    let table = factorial_table();
    let digits: Vec<i128> = vec![2, 3, 5, 0];
    let found = search(&digits, true, 10, &table);
    let triples = operator_triples();
    let markings = factorial_markings();
    let mut expected: Vec<String> = Vec::new();
    for triple in &triples {
        for marks in &markings {
            if calculate(&digits, triple, marks, &table) == Ok(10) {
                expected.push(expression(&digits, triple, marks, 10));
            }
        }
    }
    assert!(!expected.is_empty());
    assert_eq!(lines(&found, 10), expected);
}

#[test]
fn search_on_distinct_digits_tries_all_orderings() {
    let table = factorial_table();
    let found = search(&vec![1, 2, 3, 4], false, 10, &table);
    assert_eq!(found.examined, 24 * 85184);
    let shown = lines(&found, 10);
    assert!(shown.contains(&String::from("((1 + 2) + 3) + 4 = 10")));
    assert!(shown.contains(&String::from("((4 + 3) + 2) + 1 = 10")));
}

#[test]
fn search_twice_finds_the_same() {
    let table = factorial_table();
    let digits: Vec<i128> = vec![6, 0, 7, 7];
    let first = search(&digits, false, 10, &table);
    let second = search(&digits, false, 10, &table);
    assert_eq!(first.examined, second.examined);
    assert_eq!(first.matches.len(), second.matches.len());
    assert_eq!(lines(&first, 10), lines(&second, 10));
    assert_eq!(first, second);
}

#[test]
fn search_for_another_target() {
    let table = factorial_table();
    let found = search(&vec![0, 0, 0, 0], true, -1, &table);
    assert_eq!(found.examined, 85184);
    for line in lines(&found, -1) {
        assert!(line.ends_with(" = -1"));
    }
    // 0! - 0! - 0! = -1, for one
    assert!(lines(&found, -1).contains(&String::from("((0! - 0!) - 0!) + 0 = -1")));
    let none = search(&vec![0, 0, 0, 0], true, i128::MAX, &table);
    assert!(none.matches.is_empty());
    assert_eq!(none.examined, 85184);
}

#[test]
fn candidate_takes_four_digits_three_operators_and_six_marks() {
    let ops = vec![Operator::Add, Operator::Divide, Operator::Add];
    let marks = vec![false, true, false, false, false, false];
    let made = Candidate::new(vec![1, 1, 2, 9], ops.clone(), marks.clone()).unwrap();
    assert_eq!(*made.digits(), vec![1, 1, 2, 9]);
    assert_eq!(*made.ops(), ops);
    assert_eq!(*made.marks(), marks);
    assert_eq!(Candidate::new(vec![1, 1, 2], ops.clone(), marks.clone()), None);
    assert_eq!(Candidate::new(vec![1, 1, 2, 9, 9], ops.clone(), marks.clone()), None);
    assert_eq!(Candidate::new(vec![1, 1, 2, 9], vec![Operator::Add], marks.clone()), None);
    assert_eq!(Candidate::new(vec![1, 1, 2, 9], ops.clone(), vec![false; 5]), None);
    assert_eq!(Candidate::new(vec![1, 1, 2, 9], ops.clone(), vec![false; 7]), None);
}

#[test]
fn search_finds_exactly_the_candidates_that_reach_the_target() {
    let table = factorial_table();
    let digits: Vec<i128> = vec![8, 1, 1, 0];
    let found = search(&digits, false, 10, &table);
    let rows = digit_orderings(&digits, false);
    let triples = operator_triples();
    let markings = factorial_markings();
    assert_eq!(found.examined, rows.len() * triples.len() * markings.len());
    let mut expected: Vec<Candidate> = Vec::new();
    for row in &rows {
        for triple in &triples {
            for marks in &markings {
                if calculate(row, triple, marks, &table) == Ok(10) {
                    expected.push(Candidate::new(row.clone(), triple.clone(), marks.clone()).unwrap());
                }
            }
        }
    }
    assert_eq!(found.matches, expected);
}

#[test]
fn rearrangements_follow_the_line_ups_and_drop_repeats() {
    let digits: Vec<i128> = vec![5, 5, 6, 7];
    let line_ups: Vec<Vec<usize>> = vec![
        vec![0, 1, 2, 3],
        vec![1, 0, 2, 3],
        vec![3, 2, 1, 0],
        vec![3, 2, 0, 1],
        vec![2, 3],
        vec![1, 0, 2, 3],
        vec![],
    ];
    let kept = distinct_rearrangements(&digits, &line_ups);
    let expected: Vec<Vec<i128>> = vec![vec![5, 5, 6, 7], vec![7, 6, 5, 5], vec![6, 7], vec![]];
    assert_eq!(kept, expected);
    let none: Vec<Vec<usize>> = Vec::new();
    assert!(distinct_rearrangements(&digits, &none).is_empty());
}

#[test]
fn search_over_given_orderings() {
    let table = factorial_table();
    let rows: Vec<Vec<i128>> = vec![vec![1, 2, 3, 4], vec![4, 3, 2, 1], vec![1, 2, 3, 4]];
    let found = search_over(&rows, 10, &table);
    assert_eq!(found.examined, 3 * 85184);
    let once = search_over(&vec![vec![1, 2, 3, 4]], 10, &table);
    let other = search_over(&vec![vec![4, 3, 2, 1]], 10, &table);
    assert_eq!(once.examined, 85184);
    assert_eq!(found.matches.len(), 2 * once.matches.len() + other.matches.len());
    let mut expected = lines(&once, 10);
    expected.extend(lines(&other, 10));
    expected.extend(lines(&once, 10));
    assert_eq!(lines(&found, 10), expected);
    let empty: Vec<Vec<i128>> = Vec::new();
    let nothing = search_over(&empty, 10, &table);
    assert_eq!(nothing.examined, 0);
    assert!(nothing.matches.is_empty());
}
