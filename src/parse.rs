use vstd::prelude::*;
use vstd::string::StrSliceExecFns;
use crate::letter::{SyllableLetter, SyllableOrder};

verus! {

/// Why a shape string was refused.
#[derive(Clone, Copy, PartialEq, Eq, Structural, Debug)]
pub enum ParseError {
    /// A `(` with no `)` after it: "probability character has no end".
    UnterminatedGroup,
    /// The text after a group's `,` is not a whole number from 0 to 100.
    InvalidProbabilityValue,
    /// A group whose body holds no letter.
    EmptyGroupBody,
}

/// The percentage of a slot written outside any group.
pub const FULL_PERCENT: u8 = 100;

/// The percentage of a group that gives none.
pub const GROUP_PERCENT: u8 = 50;

/// The index of the first `c` in `s`.
pub open spec fn first_index(s: Seq<char>, c: char) -> Option<int>
    decreases s.len(),
{
    if s.len() == 0 {
        None
    } else if s[0] == c {
        Some(0)
    } else {
        match first_index(s.drop_first(), c) {
            Some(k) => Some(k + 1),
            None => None,
        }
    }
}

/// The mandatory slot that a bare letter stands for, if `c` is one.
pub open spec fn letter_of(c: char) -> Option<SyllableLetter> {
    if c == 'c' || c == 'C' {
        Some(SyllableLetter::Consonant(FULL_PERCENT))
    } else if c == 'v' || c == 'V' {
        Some(SyllableLetter::Vowel(FULL_PERCENT))
    } else if c == 'n' || c == 'N' {
        Some(SyllableLetter::Nasal(FULL_PERCENT))
    } else {
        None
    }
}

pub open spec fn is_digit(c: char) -> bool {
    '0' <= c && c <= '9'
}

pub open spec fn all_digits(d: Seq<char>) -> bool {
    forall|j: int| 0 <= j < d.len() ==> is_digit(#[trigger] d[j])
}

/// The number that a string of decimal digits writes.
pub open spec fn digits_value(d: Seq<char>) -> nat
    decreases d.len(),
{
    if d.len() == 0 {
        0
    } else {
        digits_value(d.drop_last()) * 10 + ((d.last() as u32) - ('0' as u32)) as nat
    }
}

/// A group's percentage as written after its comma: decimal digits with an
/// optional leading `+`, as an 8-bit unsigned integer reads them, and at most 100.
pub open spec fn percent_of(t: Seq<char>) -> Option<u8> {
    let d = if t.len() > 0 && t[0] == '+' {
        t.drop_first()
    } else {
        t
    };
    if d.len() > 0 && all_digits(d) && digits_value(d) <= 100 {
        Some(digits_value(d) as u8)
    } else {
        None
    }
}

/// The part of a group's body before its comma: the shape that gives the slot.
pub open spec fn group_inner(body: Seq<char>) -> Seq<char> {
    match first_index(body, ',') {
        Some(k) => body.subrange(0, k),
        None => body,
    }
}

/// The percentage of a group with this body: what follows its comma, or 50.
pub open spec fn group_percent(body: Seq<char>) -> Option<u8> {
    match first_index(body, ',') {
        Some(k) => percent_of(body.subrange(k + 1, body.len() as int)),
        None => Some(GROUP_PERCENT),
    }
}

/// The slots that the shape string `s` describes.
///
/// A bare `c`, `v` or `n` (either case) is a mandatory slot. A group runs from
/// `(` to the first `)` after it; its body, up to an optional `,` and
/// percentage, is parsed as a shape of its own, and its first slot, with the
/// group's percentage (50 where none is written), is the group's one slot. Any
/// other character is skipped.
pub open spec fn parse_shape(s: Seq<char>) -> Result<Seq<SyllableLetter>, ParseError>
    decreases s.len() via parse_shape_decreases
{
    if s.len() == 0 {
        Ok(seq![])
    } else if s[0] == '(' {
        match first_index(s, ')') {
            None => Err(ParseError::UnterminatedGroup),
            Some(e) => {
                let body = s.subrange(1, e);
                match group_percent(body) {
                    None => Err(ParseError::InvalidProbabilityValue),
                    Some(p) => match parse_shape(group_inner(body)) {
                        Err(x) => Err(x),
                        Ok(slots) => if slots.len() == 0 {
                            Err(ParseError::EmptyGroupBody)
                        } else {
                            after(seq![slots[0].with_percent(p)], parse_shape(s.subrange(e + 1, s.len() as int)))
                        },
                    },
                }
            },
        }
    } else {
        match letter_of(s[0]) {
            Some(l) => after(seq![l], parse_shape(s.drop_first())),
            None => parse_shape(s.drop_first()),
        }
    }
}

#[via_fn]
proof fn parse_shape_decreases(s: Seq<char>) {
    if s.len() > 0 && s[0] == '(' {
        lemma_first_index_bounds(s, ')');
        if let Some(e) = first_index(s, ')') {
            lemma_first_index_bounds(s.subrange(1, e), ',');
        }
    }
}

proof fn lemma_first_index_bounds(s: Seq<char>, c: char)
    ensures
        first_index(s, c) matches Some(k) ==> 0 <= k < s.len() && s[k] == c,
    decreases s.len(),
{
    if s.len() > 0 && s[0] != c {
        lemma_first_index_bounds(s.drop_first(), c);
    }
}

/// `r` parsed: the found slots put before the parse of what is left.
pub open spec fn after(done: Seq<SyllableLetter>, r: Result<Seq<SyllableLetter>, ParseError>) -> Result<Seq<SyllableLetter>, ParseError> {
    match r {
        Ok(rest) => Ok(done + rest),
        Err(x) => Err(x),
    }
}

proof fn lemma_first_index(s: Seq<char>, c: char, k: int)
    requires
        0 <= k <= s.len(),
        forall|j: int| 0 <= j < k ==> s[j] != c,
        k < s.len() ==> s[k] == c,
    ensures
        first_index(s, c) == (if k < s.len() { Some(k) } else { None::<int> }),
    decreases k,
{
    if k > 0 {
        let t = s.drop_first();
        assert forall|j: int| 0 <= j < k - 1 implies t[j] != c by {
            assert(t[j] == s[j + 1]);
        }
        lemma_first_index(t, c, k - 1);
    }
}

proof fn lemma_digits_value_grows(d: Seq<char>, n: int)
    requires
        0 <= n <= d.len(),
        all_digits(d),
    ensures
        digits_value(d.subrange(0, n)) <= digits_value(d),
    decreases d.len() - n,
{
    if n < d.len() {
        let p = d.subrange(0, n + 1);
        assert(p.drop_last() =~= d.subrange(0, n));
        assert(is_digit(d[n]));
        lemma_digits_value_grows(d, n + 1);
    } else {
        assert(d.subrange(0, n) =~= d);
    }
}

/// The number of bare-letter characters (`c`, `v`, `n`, either case) in `s`.
pub open spec fn letter_count(s: Seq<char>) -> nat
    decreases s.len(),
{
    if s.len() == 0 {
        0
    } else {
        (if letter_of(s[0]) is Some { 1nat } else { 0nat }) + letter_count(s.drop_first())
    }
}

proof fn lemma_letter_count_split(s: Seq<char>, k: int)
    requires
        0 <= k <= s.len(),
    ensures
        letter_count(s) == letter_count(s.subrange(0, k)) + letter_count(s.subrange(k, s.len() as int)),
    decreases k,
{
    if k == 0 {
        assert(s.subrange(0, 0).len() == 0);
        assert(s.subrange(0, s.len() as int) =~= s);
    } else {
        lemma_letter_count_split(s.drop_first(), k - 1);
        assert(s.subrange(0, k).drop_first() =~= s.drop_first().subrange(0, k - 1));
        assert(s.drop_first().subrange(k - 1, s.len() - 1) =~= s.subrange(k, s.len() as int));
        assert(s.subrange(0, k)[0] == s[0]);
    }
}

/// Parsing terminates on every string and never yields more slots than the
/// string has bare-letter characters.
pub proof fn lemma_parse_slot_count(s: Seq<char>)
    ensures
        parse_shape(s) matches Ok(slots) ==> slots.len() <= letter_count(s),
    decreases s.len(),
{
    if s.len() == 0 {
    } else if s[0] == '(' {
        lemma_first_index_bounds(s, ')');
        if let Some(e) = first_index(s, ')') {
            let body = s.subrange(1, e);
            lemma_first_index_bounds(body, ',');
            let inner = group_inner(body);
            let rest = s.subrange(e + 1, s.len() as int);
            lemma_parse_slot_count(inner);
            lemma_parse_slot_count(rest);
            lemma_letter_count_split(s, e + 1);
            let head = s.subrange(0, e + 1);
            lemma_letter_count_split(head, 1);
            assert(head.subrange(1, e + 1) =~= body.push(')'));
            lemma_letter_count_split(body.push(')'), e - 1);
            assert(body.push(')').subrange(0, e - 1) =~= body);
            assert(letter_count(head.subrange(0, 1)) == 0) by {
                assert(head.subrange(0, 1).drop_first().len() == 0);
            }
            assert(letter_count(body.push(')').subrange(e - 1, e)) == 0) by {
                let x = body.push(')').subrange(e - 1, e);
                assert(x[0] == ')');
                assert(letter_count(x.drop_first()) == 0);
            }
            if let Some(k) = first_index(body, ',') {
                lemma_letter_count_split(body, k);
            }
        }
    } else {
        lemma_parse_slot_count(s.drop_first());
    }
}

/// Every slot that parsing yields has a percentage of at most 100.
pub proof fn lemma_parse_percents(s: Seq<char>)
    ensures
        parse_shape(s) matches Ok(slots) ==> forall|i: int| 0 <= i < slots.len() ==> (#[trigger] slots[i]).percent() <= 100,
    decreases s.len(),
{
    if s.len() == 0 {
    } else if s[0] == '(' {
        lemma_first_index_bounds(s, ')');
        if let Some(e) = first_index(s, ')') {
            let body = s.subrange(1, e);
            lemma_first_index_bounds(body, ',');
            let rest = s.subrange(e + 1, s.len() as int);
            lemma_parse_percents(rest);
            if let Ok(slots) = parse_shape(s) {
                let p = group_percent(body)->0;
                let first = parse_shape(group_inner(body))->Ok_0[0].with_percent(p);
                let tail = parse_shape(rest)->Ok_0;
                assert(slots == seq![first] + tail);
                assert(first.percent() == p);
                assert forall|i: int| 0 <= i < slots.len() implies (#[trigger] slots[i]).percent() <= 100 by {
                    if i > 0 {
                        assert(slots[i] == tail[i - 1]);
                    }
                }
            }
        }
    } else {
        lemma_parse_percents(s.drop_first());
        if let Ok(slots) = parse_shape(s) {
            let tail = parse_shape(s.drop_first())->Ok_0;
            assert forall|i: int| 0 <= i < slots.len() implies (#[trigger] slots[i]).percent() <= 100 by {
                if letter_of(s[0]) is Some {
                    if i > 0 {
                        assert(slots[i] == tail[i - 1]);
                    }
                } else {
                    assert(slots[i] == tail[i]);
                }
            }
        }
    }
}

/// The characters of `s`, one per element.
pub(crate) fn chars_of(s: &str) -> (r: Vec<char>)
    ensures
        r@ == s@,
{
    let n = s.unicode_len();
    let mut r: Vec<char> = Vec::new();
    let mut i: usize = 0;
    while i < n
        invariant
            n == s@.len(),
            i <= n,
            r@ == s@.subrange(0, i as int),
        decreases n - i,
    {
        r.push(s.get_char(i));
        i = i + 1;
    }
    assert(r@ =~= s@);
    r
}

/// The position of the first `c` in `chars[from..to]`, counted from the start of `chars`.
fn find_right(chars: &Vec<char>, from: usize, to: usize, c: char) -> (r: Option<usize>)
    requires
        from <= to <= chars@.len(),
    ensures
        r matches Some(e) ==> first_index(chars@.subrange(from as int, to as int), c) == Some(e - from),
        r is None ==> first_index(chars@.subrange(from as int, to as int), c) is None,
        r matches Some(e) ==> from <= e < to && chars@[e as int] == c,
{
    let ghost s = chars@.subrange(from as int, to as int);
    let mut i: usize = from;
    while i < to
        invariant
            from <= i <= to <= chars@.len(),
            s == chars@.subrange(from as int, to as int),
            forall|j: int| from <= j < i ==> chars@[j] != c,
        decreases to - i,
    {
        if chars[i] == c {
            proof {
                lemma_first_index(s, c, i - from);
            }
            return Some(i);
        }
        i = i + 1;
    }
    proof {
        lemma_first_index(s, c, s.len() as int);
    }
    None
}

/// The group percentage written in `chars[from..to]`.
fn parse_percent(chars: &Vec<char>, from: usize, to: usize) -> (r: Option<u8>)
    requires
        from <= to <= chars@.len(),
    ensures
        r == percent_of(chars@.subrange(from as int, to as int)),
{
    let ghost t = chars@.subrange(from as int, to as int);
    let mut start: usize = from;
    if start < to && chars[start] == '+' {
        start = start + 1;
    }
    let ghost d = chars@.subrange(start as int, to as int);
    assert(d =~= (if t.len() > 0 && t[0] == '+' { t.drop_first() } else { t }));
    if start == to {
        return None;
    }
    let mut value: u32 = 0;
    let mut i: usize = start;
    while i < to
        invariant
            start <= i <= to <= chars@.len(),
            start < to,
            t == chars@.subrange(from as int, to as int),
            d == chars@.subrange(start as int, to as int),
            d == (if t.len() > 0 && t[0] == '+' { t.drop_first() } else { t }),
            forall|j: int| start <= j < i ==> is_digit(chars@[j]),
            value == digits_value(chars@.subrange(start as int, i as int)),
            value <= 100,
        decreases to - i,
    {
        let c = chars[i];
        if !('0' <= c && c <= '9') {
            assert(!is_digit(d[i - start]));
            return None;
        }
        proof {
            let p = chars@.subrange(start as int, i + 1);
            assert(p.drop_last() =~= chars@.subrange(start as int, i as int));
        }
        value = value * 10 + (c as u32 - '0' as u32);
        i = i + 1;
        if value > 100 {
            proof {
                if all_digits(d) {
                    lemma_digits_value_grows(d, i - start);
                    assert(d.subrange(0, i - start) =~= chars@.subrange(start as int, i as int));
                }
            }
            return None;
        }
    }
    assert(chars@.subrange(start as int, i as int) =~= d);
    Some(value as u8)
}

/// The group that opens at `chars[i]`, within `chars[..to]`: its slot and the
/// position of its `)`.
fn parse_group(chars: &Vec<char>, i: usize, to: usize) -> (r: Result<(SyllableLetter, usize), ParseError>)
    requires
        i < to <= chars@.len(),
        chars@[i as int] == '(',
    ensures
        match r {
            Ok((slot, end)) => i < end < to && parse_shape(chars@.subrange(i as int, to as int))
                == after(seq![slot], parse_shape(chars@.subrange(end + 1, to as int))),
            Err(x) => parse_shape(chars@.subrange(i as int, to as int)) == Err::<Seq<SyllableLetter>, ParseError>(x),
        },
    decreases to - i, 0nat,
{
    let ghost s = chars@.subrange(i as int, to as int);
    assert(s[0] == '(');
    let end = match find_right(chars, i, to, ')') {
        Some(e) => e,
        None => {
            return Err(ParseError::UnterminatedGroup);
        },
    };
    let ghost body = chars@.subrange(i + 1, end as int);
    assert(s.subrange(1, end - i) =~= body);
    let comma = find_right(chars, i + 1, end, ',');
    let inner_end: usize;
    let percent: Option<u8>;
    match comma {
        Some(k) => {
            inner_end = k;
            assert(body.subrange(k - (i + 1) + 1, body.len() as int) =~= chars@.subrange(k + 1, end as int));
            assert(body.subrange(0, k - (i + 1)) =~= chars@.subrange(i + 1, k as int));
            percent = parse_percent(chars, k + 1, end);
        },
        None => {
            inner_end = end;
            percent = Some(GROUP_PERCENT);
        },
    }
    assert(group_inner(body) == chars@.subrange(i + 1, inner_end as int));
    assert(group_percent(body) == percent);
    let p = match percent {
        Some(p) => p,
        None => {
            return Err(ParseError::InvalidProbabilityValue);
        },
    };
    let slots = match parse_chars(chars, i + 1, inner_end) {
        Ok(v) => v,
        Err(x) => {
            return Err(x);
        },
    };
    if slots.len() == 0 {
        return Err(ParseError::EmptyGroupBody);
    }
    let mut slot = slots[0];
    let slot = slot.change_probability(p);
    assert(s.subrange(end - i + 1, s.len() as int) =~= chars@.subrange(end + 1, to as int));
    Ok((slot, end))
}

/// The slots of `chars[from..to]`, as `parse_shape` gives them.
fn parse_chars(chars: &Vec<char>, from: usize, to: usize) -> (r: Result<Vec<SyllableLetter>, ParseError>)
    requires
        from <= to <= chars@.len(),
    ensures
        match r {
            Ok(v) => parse_shape(chars@.subrange(from as int, to as int)) == Ok::<Seq<SyllableLetter>, ParseError>(v@),
            Err(x) => parse_shape(chars@.subrange(from as int, to as int)) == Err::<Seq<SyllableLetter>, ParseError>(x),
        },
    decreases to - from, 1nat,
{
    let ghost whole = chars@.subrange(from as int, to as int);
    let mut out: Vec<SyllableLetter> = Vec::new();
    let mut i: usize = from;
    assert(seq![] + whole =~= whole);
    while i < to
        invariant
            from <= i <= to <= chars@.len(),
            whole == chars@.subrange(from as int, to as int),
            parse_shape(whole) == after(out@, parse_shape(chars@.subrange(i as int, to as int))),
        decreases to - i,
    {
        let ghost s = chars@.subrange(i as int, to as int);
        let c = chars[i];
        let ghost before = out@;
        if c == '(' {
            let (slot, end) = match parse_group(chars, i, to) {
                Ok(g) => g,
                Err(x) => {
                    return Err(x);
                },
            };
            out.push(slot);
            i = end + 1;
            proof {
                lemma_after_after(before, slot, parse_shape(chars@.subrange(i as int, to as int)));
            }
        } else {
            assert(s.drop_first() =~= chars@.subrange(i + 1, to as int));
            let l = if c == 'c' || c == 'C' {
                Some(SyllableLetter::Consonant(FULL_PERCENT))
            } else if c == 'v' || c == 'V' {
                Some(SyllableLetter::Vowel(FULL_PERCENT))
            } else if c == 'n' || c == 'N' {
                Some(SyllableLetter::Nasal(FULL_PERCENT))
            } else {
                None
            };
            assert(l == letter_of(c));
            match l {
                Some(l) => {
                    out.push(l);
                    proof {
                        lemma_after_after(before, l, parse_shape(chars@.subrange(i + 1, to as int)));
                    }
                },
                None => {},
            }
            i = i + 1;
        }
    }
    assert(chars@.subrange(i as int, to as int) =~= seq![]);
    assert(out@ + seq![] =~= out@);
    Ok(out)
}

proof fn lemma_after_after(done: Seq<SyllableLetter>, l: SyllableLetter, r: Result<Seq<SyllableLetter>, ParseError>)
    ensures
        after(done, after(seq![l], r)) == after(done.push(l), r),
{
    if let Ok(x) = r {
        assert(done + (seq![l] + x) =~= done.push(l) + x);
    }
}

/// Parses a shape string such as `cv(c,25)` into its slots.
pub fn parse_order(s: &str) -> (r: Result<SyllableOrder, ParseError>)
    ensures
        match r {
            Ok(o) => parse_shape(s@) == Ok::<Seq<SyllableLetter>, ParseError>(o.0@),
            Err(x) => parse_shape(s@) == Err::<Seq<SyllableLetter>, ParseError>(x),
        },
        r matches Ok(o) ==> forall|i: int| 0 <= i < o.0@.len() ==> (#[trigger] o.0@[i]).percent() <= 100,
{
    proof {
        lemma_parse_percents(s@);
    }
    let chars = chars_of(s);
    assert(chars@.subrange(0, chars@.len() as int) =~= s@);
    match parse_chars(&chars, 0, chars.len()) {
        Ok(v) => Ok(SyllableOrder(v)),
        Err(x) => Err(x),
    }
}

impl std::str::FromStr for SyllableOrder {
    type Err = ParseError;

    fn from_str(s: &str) -> (r: Result<SyllableOrder, ParseError>)
        ensures
            match r {
                Ok(o) => parse_shape(s@) == Ok::<Seq<SyllableLetter>, ParseError>(o.0@),
                Err(x) => parse_shape(s@) == Err::<Seq<SyllableLetter>, ParseError>(x),
            },
            r matches Ok(o) ==> forall|i: int| 0 <= i < o.0@.len() ==> (#[trigger] o.0@[i]).percent() <= 100,
    {
        parse_order(s)
    }
}

} // verus!
