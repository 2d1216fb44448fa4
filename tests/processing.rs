use junit_groups::model::{TestSuite, TimeByLetter};
use junit_groups::processing::{divide_into_groups, duration, first_letter, group_by_first_letter};

fn suite(name: &str, time: u64) -> TestSuite {
    TestSuite { name: String::from(name), time, test_cases: vec![] }
}

fn letters(first: u64) -> Vec<TimeByLetter> {
    let mut v: Vec<TimeByLetter> = Vec::new();
    for c in 'A'..='Z' {
        v.push(TimeByLetter::new(if c == 'A' { first } else { 0 }, c));
    }
    v
}

#[test]
fn empty_duration() {
    assert_eq!(duration(&vec![]), 0);
}

#[test]
fn non_empty_duration() {
    assert_eq!(duration(&vec![suite("", 1_000)]), 1_000);
}

#[test]
fn several_suites_duration() {
    assert_eq!(duration(&vec![suite("a.B", 1_500), suite("c.D", 2_250)]), 3_750);
}

#[test]
fn empty_group_by_first_letter() {
    let result: Vec<TimeByLetter> = group_by_first_letter(vec![]);
    let expected = vec![
        TimeByLetter::new(0, 'A'),
        TimeByLetter::new(0, 'B'),
        TimeByLetter::new(0, 'C'),
        TimeByLetter::new(0, 'D'),
        TimeByLetter::new(0, 'E'),
        TimeByLetter::new(0, 'F'),
        TimeByLetter::new(0, 'G'),
        TimeByLetter::new(0, 'H'),
        TimeByLetter::new(0, 'I'),
        TimeByLetter::new(0, 'J'),
        TimeByLetter::new(0, 'K'),
        TimeByLetter::new(0, 'L'),
        TimeByLetter::new(0, 'M'),
        TimeByLetter::new(0, 'N'),
        TimeByLetter::new(0, 'O'),
        TimeByLetter::new(0, 'P'),
        TimeByLetter::new(0, 'Q'),
        TimeByLetter::new(0, 'R'),
        TimeByLetter::new(0, 'S'),
        TimeByLetter::new(0, 'T'),
        TimeByLetter::new(0, 'U'),
        TimeByLetter::new(0, 'V'),
        TimeByLetter::new(0, 'W'),
        TimeByLetter::new(0, 'X'),
        TimeByLetter::new(0, 'Y'),
        TimeByLetter::new(0, 'Z'),
    ];
    assert_eq!(result, expected);
}

#[test]
fn non_empty_group_by_first_letter() {
    let result: Vec<TimeByLetter> = group_by_first_letter(vec![
        suite("Abrakadabra1", 1_000),
        suite("Abrakadabra2", 2_000),
    ]);
    let expected = vec![
        TimeByLetter::new(3000, 'A'),
        TimeByLetter::new(0, 'B'),
        TimeByLetter::new(0, 'C'),
        TimeByLetter::new(0, 'D'),
        TimeByLetter::new(0, 'E'),
        TimeByLetter::new(0, 'F'),
        TimeByLetter::new(0, 'G'),
        TimeByLetter::new(0, 'H'),
        TimeByLetter::new(0, 'I'),
        TimeByLetter::new(0, 'J'),
        TimeByLetter::new(0, 'K'),
        TimeByLetter::new(0, 'L'),
        TimeByLetter::new(0, 'M'),
        TimeByLetter::new(0, 'N'),
        TimeByLetter::new(0, 'O'),
        TimeByLetter::new(0, 'P'),
        TimeByLetter::new(0, 'Q'),
        TimeByLetter::new(0, 'R'),
        TimeByLetter::new(0, 'S'),
        TimeByLetter::new(0, 'T'),
        TimeByLetter::new(0, 'U'),
        TimeByLetter::new(0, 'V'),
        TimeByLetter::new(0, 'W'),
        TimeByLetter::new(0, 'X'),
        TimeByLetter::new(0, 'Y'),
        TimeByLetter::new(0, 'Z'),
    ];
    assert_eq!(result, expected);
}

#[test]
fn group_by_first_letter_uses_class_name_after_package() {
    let result = group_by_first_letter(vec![suite("alpha.beta.Zeta", 4_000), suite("z.Alpha", 1_000)]);
    let mut expected = letters(1_000);
    expected[25] = TimeByLetter::new(4_000, 'Z');
    assert_eq!(result, expected);
}

#[test]
fn group_by_first_letter_keeps_other_keys_in_code_order() {
    let result = group_by_first_letter(vec![
        suite("pkg.lowerCase", 7),
        suite("pkg.", 5),
        suite("pkg.1Numeric", 3),
        suite("Apple", 2),
        suite("pkg.lucky", 1),
    ]);
    assert_eq!(result.len(), 29);
    assert_eq!(result[0], TimeByLetter::new(5, '0'));
    assert_eq!(result[1], TimeByLetter::new(3, '1'));
    assert_eq!(result[2], TimeByLetter::new(2, 'A'));
    assert_eq!(result[27], TimeByLetter::new(0, 'Z'));
    assert_eq!(result[28], TimeByLetter::new(8, 'l'));
    let total: u64 = result.iter().map(|t| t.time).sum();
    assert_eq!(total, 18);
}

#[test]
fn first_letter_of_names() {
    assert_eq!(first_letter("scenario.SearchTest"), 'S');
    assert_eq!(first_letter("Plain"), 'P');
    assert_eq!(first_letter("a.b.c.lower"), 'l');
    assert_eq!(first_letter("pkg."), '0');
    assert_eq!(first_letter(""), '0');
    assert_eq!(first_letter("."), '0');
}

#[test]
fn divide_into_groups_empty() {
    let result: Vec<Vec<TimeByLetter>> = divide_into_groups(4, vec![]);
    let expected: Vec<Vec<TimeByLetter>> = vec![];
    assert_eq!(result, expected);
}

#[test]
fn divide_into_groups_non_empty() {
    let result: Vec<Vec<TimeByLetter>> = divide_into_groups(4, vec![
        TimeByLetter::new(10000, 'A'),
        TimeByLetter::new(10000, 'B'),
        TimeByLetter::new(10000, 'C'),
        TimeByLetter::new(10000, 'D'),
        TimeByLetter::new(10000, 'E'),
        TimeByLetter::new(10000, 'F'),
        TimeByLetter::new(10000, 'G'),
        TimeByLetter::new(10000, 'H'),
        TimeByLetter::new(10000, 'I'),
        TimeByLetter::new(10000, 'J'),
        TimeByLetter::new(10000, 'K'),
        TimeByLetter::new(10000, 'L'),
        TimeByLetter::new(10000, 'M'),
        TimeByLetter::new(10000, 'N'),
        TimeByLetter::new(10000, 'O'),
        TimeByLetter::new(10000, 'P'),
        TimeByLetter::new(10000, 'Q'),
        TimeByLetter::new(10000, 'R'),
        TimeByLetter::new(10000, 'S'),
        TimeByLetter::new(10000, 'T'),
        TimeByLetter::new(10000, 'U'),
        TimeByLetter::new(10000, 'V'),
        TimeByLetter::new(10000, 'W'),
        TimeByLetter::new(10000, 'X'),
        TimeByLetter::new(10000, 'Y'),
        TimeByLetter::new(10000, 'Z'),
    ]);
    let expected: Vec<Vec<TimeByLetter>> = vec![
        vec![TimeByLetter::new(10000, 'A'), TimeByLetter::new(10000, 'B'), TimeByLetter::new(10000, 'C'), TimeByLetter::new(10000, 'D'), TimeByLetter::new(10000, 'E'), TimeByLetter::new(10000, 'F')],
        vec![TimeByLetter::new(10000, 'G'), TimeByLetter::new(10000, 'H'), TimeByLetter::new(10000, 'I'), TimeByLetter::new(10000, 'J'), TimeByLetter::new(10000, 'K'), TimeByLetter::new(10000, 'L')],
        vec![TimeByLetter::new(10000, 'M'), TimeByLetter::new(10000, 'N'), TimeByLetter::new(10000, 'O'), TimeByLetter::new(10000, 'P'), TimeByLetter::new(10000, 'Q'), TimeByLetter::new(10000, 'R')],
        vec![TimeByLetter::new(10000, 'S'), TimeByLetter::new(10000, 'T'), TimeByLetter::new(10000, 'U'), TimeByLetter::new(10000, 'V'), TimeByLetter::new(10000, 'W'), TimeByLetter::new(10000, 'X')],
        vec![TimeByLetter::new(10000, 'Y'), TimeByLetter::new(10000, 'Z')],
    ];
    assert_eq!(result, expected);
}

#[test]
fn divide_into_groups_with_one_large() {
    let result: Vec<Vec<TimeByLetter>> = divide_into_groups(4, vec![
        TimeByLetter::new(10000, 'A'),
        TimeByLetter::new(10000, 'B'),
        TimeByLetter::new(10000, 'C'),
        TimeByLetter::new(10000, 'D'),
        TimeByLetter::new(10000, 'E'),
        TimeByLetter::new(10000, 'F'),
        TimeByLetter::new(10000, 'G'),
        TimeByLetter::new(10000, 'H'),
        TimeByLetter::new(10000, 'I'),
        TimeByLetter::new(10000, 'J'),
        TimeByLetter::new(10000, 'K'),
        TimeByLetter::new(10000, 'L'),
        TimeByLetter::new(100000, 'M'),
        TimeByLetter::new(10000, 'N'),
        TimeByLetter::new(10000, 'O'),
        TimeByLetter::new(10000, 'P'),
        TimeByLetter::new(10000, 'Q'),
        TimeByLetter::new(10000, 'R'),
        TimeByLetter::new(10000, 'S'),
        TimeByLetter::new(10000, 'T'),
        TimeByLetter::new(10000, 'U'),
        TimeByLetter::new(10000, 'V'),
        TimeByLetter::new(10000, 'W'),
        TimeByLetter::new(10000, 'X'),
        TimeByLetter::new(10000, 'Y'),
        TimeByLetter::new(10000, 'Z'),
    ]);
    let expected: Vec<Vec<TimeByLetter>> = vec![
        vec![TimeByLetter::new(10000, 'A'), TimeByLetter::new(10000, 'B'), TimeByLetter::new(10000, 'C'), TimeByLetter::new(10000, 'D'), TimeByLetter::new(10000, 'E'), TimeByLetter::new(10000, 'F'), TimeByLetter::new(10000, 'G'), TimeByLetter::new(10000, 'H')],
        vec![TimeByLetter::new(10000, 'I'), TimeByLetter::new(10000, 'J'), TimeByLetter::new(10000, 'K'), TimeByLetter::new(10000, 'L')],
        vec![TimeByLetter::new(100000, 'M')],
        vec![TimeByLetter::new(10000, 'N'), TimeByLetter::new(10000, 'O'), TimeByLetter::new(10000, 'P'), TimeByLetter::new(10000, 'Q'), TimeByLetter::new(10000, 'R'), TimeByLetter::new(10000, 'S'), TimeByLetter::new(10000, 'T'), TimeByLetter::new(10000, 'U')],
        vec![TimeByLetter::new(10000, 'V'), TimeByLetter::new(10000, 'W'), TimeByLetter::new(10000, 'X'), TimeByLetter::new(10000, 'Y'), TimeByLetter::new(10000, 'Z')],
    ];
    assert_eq!(result, expected);
}

#[test]
fn all_zero_totals_form_one_group() {
    let totals = group_by_first_letter(vec![]);
    let result = divide_into_groups(5, totals.clone());
    assert_eq!(result, vec![totals]);
}

#[test]
fn zero_group_count_keeps_everything_together() {
    let items = vec![TimeByLetter::new(5, 'A'), TimeByLetter::new(100, 'B'), TimeByLetter::new(7, 'C')];
    let result = divide_into_groups(0, items.clone());
    assert_eq!(result, vec![items]);
}

#[test]
fn total_equal_to_target_is_not_oversized() {
    // total 30, two groups: target 15
    let items = vec![TimeByLetter::new(15, 'A'), TimeByLetter::new(10, 'B'), TimeByLetter::new(5, 'C')];
    let result = divide_into_groups(2, items);
    assert_eq!(
        result,
        vec![
            vec![TimeByLetter::new(15, 'A')],
            vec![TimeByLetter::new(10, 'B'), TimeByLetter::new(5, 'C')],
        ]
    );
}

#[test]
fn sum_reaching_target_exactly_stays_in_group() {
    // total 40, two groups: target 20
    let items = vec![
        TimeByLetter::new(12, 'A'),
        TimeByLetter::new(8, 'B'),
        TimeByLetter::new(1, 'C'),
        TimeByLetter::new(19, 'D'),
    ];
    let result = divide_into_groups(2, items);
    assert_eq!(
        result,
        vec![
            vec![TimeByLetter::new(12, 'A'), TimeByLetter::new(8, 'B')],
            vec![TimeByLetter::new(1, 'C'), TimeByLetter::new(19, 'D')],
        ]
    );
}

#[test]
fn oversized_total_is_a_singleton_between_groups() {
    // total 60, three groups: target 20; C is oversized
    let items = vec![
        TimeByLetter::new(5, 'A'),
        TimeByLetter::new(5, 'B'),
        TimeByLetter::new(40, 'C'),
        TimeByLetter::new(10, 'D'),
    ];
    let result = divide_into_groups(3, items.clone());
    assert_eq!(
        result,
        vec![
            vec![TimeByLetter::new(5, 'A'), TimeByLetter::new(5, 'B')],
            vec![TimeByLetter::new(40, 'C')],
            vec![TimeByLetter::new(10, 'D')],
        ]
    );
    let flat: Vec<TimeByLetter> = result.into_iter().flatten().collect();
    assert_eq!(flat, items);
}

#[test]
fn aggregate_then_partition_conserves_duration() {
    let suites = vec![
        suite("a.Alpha", 30), suite("b.Beta", 20), suite("c.Gamma", 50),
        suite("d.Delta", 10), suite("e.epsilon", 40),
    ];
    let totals = group_by_first_letter(suites);
    let total: u64 = totals.iter().map(|t| t.time).sum();
    assert_eq!(total, 150);
    let groups = divide_into_groups(3, totals.clone());
    assert!(groups.iter().all(|g| !g.is_empty()));
    let flat: Vec<TimeByLetter> = groups.into_iter().flatten().collect();
    assert_eq!(flat, totals);
}
