//! Pronounceable pseudo-words from a syllable-shape grammar and three letter
//! classes (consonants, vowels, nasals).
//!
//! * `letter`: the slots of a syllable shape and their percentages.
//! * `parse`: the shape grammar, `cv(c,25)` and the like.
//! * `cell` and `engine`: the collapse engine that turns a shape into one syllable.
//! * `assembler`: the per-step decisions that build distinct words from syllables.
//! * `random` and `text`: the calls into `rand` and `str::trim`.
mod assembler;
mod cell;
mod engine;
mod letter;
mod parse;
mod random;
mod text;

pub use assembler::{accepted, clean_alphabets, count_ok, lemma_word_is_joined_letters, insert_pos, lex_le, lex_lt, syllable_of, word_of, words_ok, Assembly, Generator, SYLLABLE_CHOICES, TIME_BUDGET_SECS};
pub use cell::{alphabet_of, keep_in, lemma_keep_in_members, lemma_keep_in_union, texts, union_of, LetterGenerator};
pub use engine::{
    cell_ok, collapsed_run, cursor_gap, drafted_slots, is_syllable_of, lemma_observation_count,
    lemma_zero_percent_never_drafted, observed_from, single_chars, slots_plenty, slots_ready, steps_total, valid_draft,
    SyllableGenerator, PERCENT_SCALE,
};
pub use letter::{Category, SyllableLetter, SyllableOrder};
pub use parse::{
    after, all_digits, digits_value, first_index, group_inner, group_percent, is_digit, lemma_parse_percents, lemma_parse_slot_count,
    letter_count, letter_of, parse_order, parse_shape, percent_of, ParseError, FULL_PERCENT, GROUP_PERCENT,
};
pub use text::{is_white_space, joined, lemma_joined_no_white_space, lemma_trimmed, lemma_trimmed_idempotent, no_white_space, trim_end, trim_start, trimmed};
