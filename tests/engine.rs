use rawrs::{parse_order, LetterGenerator, SyllableGenerator, SyllableLetter};

fn letters(s: &str) -> Vec<String> {
    s.chars().map(|c| c.to_string()).collect()
}

#[test]
fn cell_starts_in_superposition() {
    let cell = LetterGenerator::new(SyllableLetter::Consonant(100), letters("bcdaei"));
    assert_eq!(cell.get_letters(), letters("bcdaei"));
    assert_eq!(cell.entropy(), 5);
    assert!(!cell.is_collapsed());
}

#[test]
fn cell_narrows_then_collapses() {
    let mut rng = rand::thread_rng();
    let (c, v, n) = (letters("bcd"), letters("aei"), letters("mn"));
    let mut cell = LetterGenerator::new(SyllableLetter::Vowel(100), letters("bcdaeimn"));
    cell.select(&mut rng, &c, &v, &n);
    assert_eq!(cell.get_letters(), letters("aei"));
    assert_eq!(cell.entropy(), 2);
    cell.select(&mut rng, &c, &v, &n);
    assert!(cell.is_collapsed());
    let l = cell.get_letters();
    assert_eq!(l.len(), 1);
    assert!(v.contains(&l[0]));
    cell.select(&mut rng, &c, &v, &n);
    assert_eq!(cell.get_letters(), l);
}

#[test]
fn cell_collapse_to_index() {
    let mut cell = LetterGenerator::new(SyllableLetter::Nasal(100), letters("mnq"));
    cell.collapse_to(2);
    assert_eq!(cell.get_letters(), letters("q"));
    assert_eq!(cell.entropy(), 0);
    assert!(cell.is_collapsed());
}

#[test]
fn session_collapses_in_bounded_steps() {
    let mut rng = rand::thread_rng();
    let order = parse_order("cvn").unwrap();
    let mut g = SyllableGenerator::new(order, letters("bcd"), letters("aei"), letters("mn"));
    assert!(!g.is_collapsed());
    let mut steps = 0;
    while !g.is_collapsed() {
        g.iterate(&mut rng);
        steps += 1;
        assert!(steps <= 20);
    }
    let s = g.extract();
    let chars: Vec<char> = s.chars().collect();
    assert_eq!(chars.len(), 3);
    assert!("bcd".contains(chars[0]));
    assert!("aei".contains(chars[1]));
    assert!("mn".contains(chars[2]));
}

#[test]
fn session_with_no_drafted_cell_extracts_empty() {
    let mut rng = rand::thread_rng();
    let order = parse_order("(c,0)(v,0)").unwrap();
    let mut g = SyllableGenerator::new(order, letters("bc"), letters("ae"), vec![]);
    g.iterate(&mut rng);
    assert!(g.is_collapsed());
    assert_eq!(g.extract(), "");
}

#[test]
fn syllable_length_never_exceeds_cells() {
    let order = parse_order("c(v)(n,50)c").unwrap();
    for _ in 0..100 {
        let s = order.generate(&letters("bcd"), &letters("aei"), &letters("mn")).unwrap();
        let n = s.chars().count();
        assert!(n >= 2 && n <= 4);
    }
}

#[test]
fn zero_percent_slot_is_never_drafted() {
    let order = parse_order("(c,0)v").unwrap();
    for _ in 0..200 {
        let s = order.generate(&letters("bcd"), &letters("aei"), &[]).unwrap();
        assert_eq!(s.chars().count(), 1);
        assert!("aei".contains(&s));
    }
}

#[test]
fn generate_trims_white_space() {
    let order = parse_order("cv").unwrap();
    let c = vec![" b".to_string(), " d".to_string()];
    let v = vec!["a ".to_string(), "e ".to_string()];
    for _ in 0..20 {
        let s = order.generate(&c, &v, &[]).unwrap();
        assert!(["ba", "be", "da", "de"].contains(&s.as_str()));
    }
}

#[test]
fn generate_gives_none_for_blank_syllable() {
    let order = parse_order("c").unwrap();
    let c = vec![" ".to_string(), "\t".to_string()];
    for _ in 0..10 {
        assert_eq!(order.generate(&c, &letters("ae"), &[]), None);
    }
}

#[test]
fn multi_character_letters_stay_whole() {
    let order = parse_order("cv").unwrap();
    let c = vec!["sh".to_string(), "th".to_string()];
    for _ in 0..20 {
        let s = order.generate(&c, &letters("ao"), &[]).unwrap();
        assert!(["sha", "sho", "tha", "tho"].contains(&s.as_str()));
    }
}

#[test]
fn unnarrowed_single_candidate_cell_is_narrowed() {
    let mut rng = rand::thread_rng();
    let mut cell = LetterGenerator::new(SyllableLetter::Vowel(100), letters("b"));
    cell.select(&mut rng, &letters("bc"), &letters("a"), &[]);
    assert!(cell.get_letters().is_empty());

    let mut kept = LetterGenerator::new(SyllableLetter::Vowel(100), letters("a"));
    kept.select(&mut rng, &letters("bc"), &letters("ae"), &[]);
    assert_eq!(kept.get_letters(), letters("a"));
    kept.select(&mut rng, &letters("bc"), &letters("ae"), &[]);
    assert_eq!(kept.get_letters(), letters("a"));
}
