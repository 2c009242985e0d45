use rawrs::{parse_order, Generator, TIME_BUDGET_SECS};

fn letters(s: &str) -> Vec<String> {
    s.chars().map(|c| c.to_string()).collect()
}

fn run(g: &Generator) -> Vec<String> {
    let mut a = g.start();
    while !a.is_finished() {
        g.advance(&mut a, 0);
    }
    a.into_words()
}

fn generator(c: &str, v: &str, n: &str, order: &str, syllables: Option<usize>, count: usize, sort: bool) -> Generator {
    Generator {
        consonants: letters(c),
        vowels: letters(v),
        nasal: letters(n),
        order: parse_order(order).unwrap(),
        syllables,
        count,
        sort,
    }
}

#[test]
fn scenario_five_distinct_two_letter_words() {
    let g = generator("bcd", "aei", "", "cv", Some(1), 5, false);
    let words = run(&g);
    assert_eq!(words.len(), 5);
    for (i, w) in words.iter().enumerate() {
        let chars: Vec<char> = w.chars().collect();
        assert_eq!(chars.len(), 2);
        assert!("bcd".contains(chars[0]));
        assert!("aei".contains(chars[1]));
        for other in &words[i + 1..] {
            assert_ne!(w, other);
        }
    }
}

#[test]
fn scenario_single_nasal_gives_nothing() {
    let g = generator("bcd", "aei", "m", "n", Some(1), 5, false);
    assert!(!g.verify());
    let a = g.start();
    assert!(a.is_finished());
    assert!(run(&g).is_empty());
}

#[test]
fn verify_checks_only_used_categories() {
    assert!(generator("bc", "ae", "", "cv", None, 1, false).verify());
    assert!(!generator("b", "ae", "mn", "cv", None, 1, false).verify());
    assert!(generator("b", "ae", "mn", "vn", None, 1, false).verify());
}

#[test]
fn zero_count_gives_nothing() {
    let g = generator("bcd", "aei", "", "cv", Some(1), 0, false);
    assert!(g.start().is_finished());
    assert!(run(&g).is_empty());
}

#[test]
fn sorted_run_is_non_decreasing() {
    let g = generator("bcdfg", "aeiou", "", "cv", Some(2), 12, true);
    let words = run(&g);
    assert_eq!(words.len(), 12);
    for pair in words.windows(2) {
        assert!(pair[0] < pair[1]);
    }
    for w in &words {
        assert_eq!(w.chars().count(), 4);
    }
}

#[test]
fn open_syllable_count_gives_distinct_non_empty_words() {
    let g = generator("bcdfg", "aeiou", "mn", "cv(n)", None, 6, false);
    let words = run(&g);
    assert_eq!(words.len(), 6);
    for (i, w) in words.iter().enumerate() {
        assert!(!w.is_empty());
        assert!(w.chars().count() <= 9);
        assert!(!words[i + 1..].contains(w));
    }
}

#[test]
fn accept_skips_empty_and_duplicate_words() {
    let g = generator("bc", "ae", "", "cv", Some(1), 5, false);
    let mut words: Vec<String> = vec![];
    g.accept(&mut words, "ba".to_string());
    g.accept(&mut words, "".to_string());
    g.accept(&mut words, "ba".to_string());
    g.accept(&mut words, "ab".to_string());
    assert_eq!(words, vec!["ba".to_string(), "ab".to_string()]);
}

#[test]
fn accept_keeps_sorted_order() {
    let g = generator("bc", "ae", "", "cv", Some(1), 5, true);
    let mut words: Vec<String> = vec![];
    for w in ["ce", "ba", "cab", "b", "ca", "ba"] {
        g.accept(&mut words, w.to_string());
    }
    assert_eq!(words, vec!["b", "ba", "ca", "cab", "ce"]);
}

#[test]
fn spent_time_budget_ends_after_one_word() {
    let g = generator("bcd", "aei", "", "cv", Some(1), 5, false);
    let mut a = g.start();
    while !a.is_finished() {
        g.advance(&mut a, TIME_BUDGET_SECS);
    }
    let words = a.into_words();
    assert_eq!(words.len(), 1);
    assert_eq!(words[0].chars().count(), 2);
}

#[test]
fn unreachable_count_stops_on_time_budget() {
    let g = generator("bc", "ae", "", "cv", Some(1), 10, true);
    let mut a = g.start();
    let mut steps: u64 = 0;
    while !a.is_finished() {
        let elapsed = if steps > 5000 { TIME_BUDGET_SECS } else { 0 };
        g.advance(&mut a, elapsed);
        steps += 1;
    }
    let words = a.into_words();
    assert_eq!(words, vec!["ba", "be", "ca", "ce"]);
}
