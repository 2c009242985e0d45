use rawrs::{parse_order, ParseError, SyllableLetter, SyllableOrder};

#[test]
fn so_parse_normal() {
    let input = "cvc";
    let so: SyllableOrder = input.parse().unwrap();

    assert_eq!(
        so,
        SyllableOrder(vec![
            SyllableLetter::Consonant(100),
            SyllableLetter::Vowel(100),
            SyllableLetter::Consonant(100)
        ])
    );
}

#[test]
fn so_parse_normal_prob() {
    let input = "cv(c)";
    let so: SyllableOrder = input.parse().unwrap();

    assert_eq!(
        so,
        SyllableOrder(vec![
            SyllableLetter::Consonant(100),
            SyllableLetter::Vowel(100),
            SyllableLetter::Consonant(50)
        ])
    );
}

#[test]
fn so_parse_set_prob() {
    let input = "cv(c,25)";
    let so: SyllableOrder = input.parse().unwrap();

    assert_eq!(
        so,
        SyllableOrder(vec![
            SyllableLetter::Consonant(100),
            SyllableLetter::Vowel(100),
            SyllableLetter::Consonant(25)
        ])
    );
}

#[test]
fn parse_is_case_insensitive_and_skips_other_characters() {
    let so = parse_order("C-V x N").unwrap();
    assert_eq!(
        so,
        SyllableOrder(vec![
            SyllableLetter::Consonant(100),
            SyllableLetter::Vowel(100),
            SyllableLetter::Nasal(100)
        ])
    );
}

#[test]
fn parse_empty_string_gives_no_slots() {
    assert_eq!(parse_order("").unwrap(), SyllableOrder(vec![]));
    assert_eq!(parse_order("xyz").unwrap(), SyllableOrder(vec![]));
}

#[test]
fn parse_group_keeps_only_its_first_slot() {
    let so = parse_order("(vc,30)n").unwrap();
    assert_eq!(so, SyllableOrder(vec![SyllableLetter::Vowel(30), SyllableLetter::Nasal(100)]));
}

#[test]
fn parse_group_bounds_of_percentage() {
    assert_eq!(parse_order("(n,0)").unwrap(), SyllableOrder(vec![SyllableLetter::Nasal(0)]));
    assert_eq!(parse_order("(n,100)").unwrap(), SyllableOrder(vec![SyllableLetter::Nasal(100)]));
    assert_eq!(parse_order("(n,+7)").unwrap(), SyllableOrder(vec![SyllableLetter::Nasal(7)]));
    assert_eq!(parse_order("(n,007)").unwrap(), SyllableOrder(vec![SyllableLetter::Nasal(7)]));
}

#[test]
fn parse_unterminated_group() {
    assert_eq!(parse_order("cv(c"), Err(ParseError::UnterminatedGroup));
    assert_eq!(parse_order("((c))"), Err(ParseError::UnterminatedGroup));
}

#[test]
fn parse_invalid_probability() {
    assert_eq!(parse_order("(c,x)"), Err(ParseError::InvalidProbabilityValue));
    assert_eq!(parse_order("(c,)"), Err(ParseError::InvalidProbabilityValue));
    assert_eq!(parse_order("(c, 25)"), Err(ParseError::InvalidProbabilityValue));
    assert_eq!(parse_order("(c,101)"), Err(ParseError::InvalidProbabilityValue));
    assert_eq!(parse_order("(c,300)"), Err(ParseError::InvalidProbabilityValue));
    assert_eq!(parse_order("(c,-1)"), Err(ParseError::InvalidProbabilityValue));
}

#[test]
fn parse_empty_group_body() {
    assert_eq!(parse_order("c()"), Err(ParseError::EmptyGroupBody));
    assert_eq!(parse_order("(x,20)"), Err(ParseError::EmptyGroupBody));
}

#[test]
fn parse_stray_close_is_ignored() {
    assert_eq!(parse_order("c)v").unwrap(), SyllableOrder(vec![SyllableLetter::Consonant(100), SyllableLetter::Vowel(100)]));
}

#[test]
fn parse_yields_no_more_slots_than_letters() {
    for s in ["cv(c)", "(cvn,10)(v)", "c,v,(n,5)", "((", "(c)(v)(n)", "123(c,1)"] {
        if let Ok(o) = parse_order(s) {
            let letters = s.chars().filter(|c| "cvnCVN".contains(*c)).count();
            assert!(o.len() <= letters);
        }
    }
}

#[test]
fn slot_probability_and_change() {
    let mut l = SyllableLetter::Vowel(100);
    assert_eq!(l.probability(), 100);
    let r = l.change_probability(40);
    assert_eq!(r, SyllableLetter::Vowel(40));
    assert_eq!(l, SyllableLetter::Vowel(40));
    assert_eq!(l.probability(), 40);
}

#[test]
fn order_insert_and_len() {
    let mut o = SyllableOrder(vec![]);
    o.insert(0, SyllableLetter::Vowel(100));
    o.insert(0, SyllableLetter::Consonant(100));
    o.insert(2, SyllableLetter::Nasal(20));
    assert_eq!(o.len(), 3);
    assert_eq!(
        o,
        SyllableOrder(vec![SyllableLetter::Consonant(100), SyllableLetter::Vowel(100), SyllableLetter::Nasal(20)])
    );
}
