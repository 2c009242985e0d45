use vstd::prelude::*;
use vstd::string::StringExecFns;
use crate::cell::texts;
use crate::engine::{is_syllable_of, slots_plenty, slots_ready};
use crate::letter::SyllableOrder;
use crate::parse::chars_of;
use crate::random::random_usize;
use crate::text::{joined, lemma_joined_no_white_space, lemma_trimmed, lemma_trimmed_idempotent, no_white_space, trim, trimmed};

verus! {

/// The seconds after which no new word is started.
pub const TIME_BUDGET_SECS: u64 = 50;

/// The syllables in a word, when the count is left open, are drawn below this.
pub const SYLLABLE_CHOICES: usize = 4;

/// `a` comes before `b` in lexicographic order of characters.
pub open spec fn lex_lt(a: Seq<char>, b: Seq<char>) -> bool
    decreases a.len(),
{
    if b.len() == 0 {
        false
    } else if a.len() == 0 {
        true
    } else if a[0] < b[0] {
        true
    } else if a[0] > b[0] {
        false
    } else {
        lex_lt(a.drop_first(), b.drop_first())
    }
}

pub open spec fn lex_le(a: Seq<char>, b: Seq<char>) -> bool {
    lex_lt(a, b) || a == b
}

/// The accepted words: none empty, no two equal, and, when `sorted`, in
/// non-decreasing lexicographic order.
pub open spec fn words_ok(words: Seq<Seq<char>>, sorted: bool) -> bool {
    &&& forall|i: int| 0 <= i < words.len() ==> (#[trigger] words[i]).len() > 0
    &&& forall|i: int, j: int| 0 <= i < words.len() && 0 <= j < words.len() && i != j ==> words[i] != words[j]
    &&& sorted ==> forall|i: int| 0 <= i < words.len() - 1 ==> lex_le(#[trigger] words[i], words[i + 1])
}

proof fn lemma_lex_total(a: Seq<char>, b: Seq<char>)
    ensures
        lex_lt(a, b) || a == b || lex_lt(b, a),
    decreases a.len(),
{
    if a.len() > 0 && b.len() > 0 && a[0] == b[0] {
        lemma_lex_total(a.drop_first(), b.drop_first());
        if a.drop_first() == b.drop_first() {
            assert(a =~= seq![a[0]] + a.drop_first());
            assert(b =~= seq![b[0]] + b.drop_first());
        }
    } else if a.len() > 0 && b.len() > 0 {
        assert(a[0] != b[0]);
    } else if a.len() == 0 && b.len() == 0 {
        assert(a =~= b);
    }
}

/// Where `w` goes among sorted `words`: before the first word it comes before.
pub open spec fn insert_pos(words: Seq<Seq<char>>, w: Seq<char>) -> int
    decreases words.len(),
{
    if words.len() == 0 {
        0
    } else if lex_lt(w, words[0]) {
        0
    } else {
        1 + insert_pos(words.drop_first(), w)
    }
}

/// The words after `w` is offered: unchanged when `w` is empty or already
/// there, else with `w` at its sorted place or at the end.
pub open spec fn accepted(words: Seq<Seq<char>>, w: Seq<char>, sorted: bool) -> Seq<Seq<char>> {
    if w.len() == 0 || words.contains(w) {
        words
    } else if sorted {
        words.insert(insert_pos(words, w), w)
    } else {
        words.push(w)
    }
}

proof fn lemma_insert_pos_bound(words: Seq<Seq<char>>, w: Seq<char>)
    ensures
        0 <= insert_pos(words, w) <= words.len(),
    decreases words.len(),
{
    if words.len() > 0 {
        lemma_insert_pos_bound(words.drop_first(), w);
    }
}

proof fn lemma_insert_pos(words: Seq<Seq<char>>, w: Seq<char>, p: int)
    requires
        0 <= p <= words.len(),
        forall|k: int| 0 <= k < p ==> !lex_lt(w, #[trigger] words[k]),
        p < words.len() ==> lex_lt(w, words[p]),
    ensures
        insert_pos(words, w) == p,
    decreases p,
{
    if p > 0 {
        let t = words.drop_first();
        assert(!lex_lt(w, words[0]));
        assert forall|k: int| 0 <= k < p - 1 implies !lex_lt(w, #[trigger] t[k]) by {
            assert(t[k] == words[k + 1]);
        }
        lemma_insert_pos(t, w, p - 1);
    }
}

/// `t` is a syllable that `g`'s shape gives over `g`'s alphabets, and is not empty.
pub open spec fn syllable_of(g: &Generator, t: Seq<char>) -> bool {
    exists|mask: Seq<bool>, letters: Seq<Seq<char>>|
        #[trigger] is_syllable_of(g.order.0@, texts(g.consonants@), texts(g.vowels@), texts(g.nasal@), mask, letters)
        && t == trimmed(joined(letters)) && t.len() > 0
}

/// `k` syllables per word is what `g` asks for: its fixed count, or fewer than four.
pub open spec fn count_ok(g: &Generator, k: nat) -> bool {
    match g.syllables {
        Some(n) => k == n,
        None => k < SYLLABLE_CHOICES,
    }
}

/// `w` is a word that `g` makes: the trimmed join of as many syllables of its
/// shape as it asks for.
pub open spec fn word_of(g: &Generator, w: Seq<char>) -> bool {
    exists|parts: Seq<Seq<char>>|
        count_ok(g, parts.len()) && (forall|i: int| 0 <= i < parts.len() ==> syllable_of(g, #[trigger] parts[i]))
        && w == trimmed(#[trigger] joined(parts))
}

/// No letter of `g`'s alphabets holds white space.
pub open spec fn clean_alphabets(g: &Generator) -> bool {
    &&& forall|i: int| 0 <= i < g.consonants@.len() ==> no_white_space(#[trigger] g.consonants@[i]@)
    &&& forall|i: int| 0 <= i < g.vowels@.len() ==> no_white_space(#[trigger] g.vowels@[i]@)
    &&& forall|i: int| 0 <= i < g.nasal@.len() ==> no_white_space(#[trigger] g.nasal@[i]@)
}

/// When no letter holds white space, nothing is trimmed away: a word of `g`
/// is the join of as many syllables as `g` asks for, and each syllable is
/// the join of its letters, one per drafted slot, from its slot's alphabet.
pub proof fn lemma_word_is_joined_letters(g: &Generator, w: Seq<char>)
    requires
        word_of(g, w),
        clean_alphabets(g),
    ensures
        exists|parts: Seq<Seq<char>>| {
            &&& count_ok(g, parts.len())
            &&& w == joined(parts)
            &&& forall|i: int| 0 <= i < parts.len() ==> exists|mask: Seq<bool>, letters: Seq<Seq<char>>|
                #[trigger] is_syllable_of(g.order.0@, texts(g.consonants@), texts(g.vowels@), texts(g.nasal@), mask, letters)
                && parts[i] == joined(letters) && #[trigger] parts[i].len() > 0
        },
{
    let c = texts(g.consonants@);
    let v = texts(g.vowels@);
    let n = texts(g.nasal@);
    let parts = choose|parts: Seq<Seq<char>>|
        count_ok(g, parts.len()) && (forall|i: int| 0 <= i < parts.len() ==> syllable_of(g, #[trigger] parts[i]))
        && w == trimmed(#[trigger] joined(parts));
    assert forall|i: int| 0 <= i < parts.len() implies no_white_space(#[trigger] parts[i]) && exists|mask: Seq<bool>, letters: Seq<Seq<char>>|
        #[trigger] is_syllable_of(g.order.0@, c, v, n, mask, letters) && parts[i] == joined(letters) && parts[i].len() > 0 by {
        assert(syllable_of(g, parts[i]));
        let (mask, letters) = choose|mask: Seq<bool>, letters: Seq<Seq<char>>|
            #[trigger] is_syllable_of(g.order.0@, c, v, n, mask, letters) && parts[i] == trimmed(joined(letters)) && parts[i].len() > 0;
        let slots = crate::engine::drafted_slots(g.order.0@, mask);
        assert forall|j: int| 0 <= j < letters.len() implies no_white_space(#[trigger] letters[j]) by {
            let alpha = crate::cell::alphabet_of(slots[j].category(), c, v, n);
            assert(alpha.contains(letters[j]));
            let k = choose|k: int| 0 <= k < alpha.len() && alpha[k] == letters[j];
            match slots[j].category() {
                crate::letter::Category::Consonant => assert(g.consonants@[k]@ == alpha[k]),
                crate::letter::Category::Vowel => assert(g.vowels@[k]@ == alpha[k]),
                crate::letter::Category::Nasal => assert(g.nasal@[k]@ == alpha[k]),
            }
        }
        lemma_joined_no_white_space(letters);
        lemma_trimmed(joined(letters));
    }
    lemma_joined_no_white_space(parts);
    lemma_trimmed(joined(parts));
}

/// Whether `a` comes before `b` in lexicographic order of characters.
fn less_than(a: &String, b: &String) -> (r: bool)
    ensures
        r == lex_lt(a@, b@),
{
    let x = chars_of(a.as_str());
    let y = chars_of(b.as_str());
    let mut i: usize = 0;
    assert(x@.subrange(0, x@.len() as int) =~= x@ && y@.subrange(0, y@.len() as int) =~= y@);
    while i < x.len() && i < y.len()
        invariant
            x@ == a@,
            y@ == b@,
            i <= x@.len(),
            i <= y@.len(),
            lex_lt(a@, b@) == lex_lt(x@.subrange(i as int, x@.len() as int), y@.subrange(i as int, y@.len() as int)),
        decreases x@.len() - i,
    {
        let ghost s = x@.subrange(i as int, x@.len() as int);
        let ghost t = y@.subrange(i as int, y@.len() as int);
        assert(s[0] == x@[i as int] && t[0] == y@[i as int]);
        if x[i] < y[i] {
            return true;
        }
        if x[i] > y[i] {
            return false;
        }
        assert(s.drop_first() =~= x@.subrange(i + 1, x@.len() as int));
        assert(t.drop_first() =~= y@.subrange(i + 1, y@.len() as int));
        i = i + 1;
    }
    i < y.len()
}

/// The state of one run of the word assembler, between two steps.
pub struct Assembly {
    words: Vec<String>,
    word: String,
    runs: usize,
    target: usize,
    finished: bool,
    parts: Ghost<Seq<Seq<char>>>,
}

impl Assembly {
    /// The words accepted so far.
    pub closed spec fn word_list(&self) -> Seq<Seq<char>> {
        texts(self.words@)
    }

    /// Whether the run has ended.
    pub closed spec fn is_done(&self) -> bool {
        self.finished
    }

    /// The word being built.
    pub closed spec fn current_word(&self) -> Seq<char> {
        self.word@
    }

    /// The syllables the word being built has so far.
    pub closed spec fn syllables_done(&self) -> nat {
        self.runs as nat
    }

    /// The syllables the word being built is to have.
    pub closed spec fn syllables_wanted(&self) -> nat {
        self.target as nat
    }

    /// The syllables of the word being built, in order.
    pub closed spec fn word_parts(&self) -> Seq<Seq<char>> {
        self.parts@
    }

    /// What holds between two steps of a run of `g`: the accepted words are
    /// words of `g`, none empty, no two equal, sorted when asked, and no more
    /// than `g.count`; the word being built joins syllables of `g`'s shape.
    pub open spec fn wf(&self, g: &Generator) -> bool {
        &&& words_ok(self.word_list(), g.sort)
        &&& forall|i: int| 0 <= i < self.word_list().len() ==> word_of(g, #[trigger] self.word_list()[i])
        &&& forall|i: int| 0 <= i < self.word_list().len() ==> trimmed(#[trigger] self.word_list()[i]) == self.word_list()[i]
        &&& self.word_list().len() <= g.count
        &&& !self.is_done() ==> self.word_list().len() < g.count
        &&& self.syllables_done() <= self.syllables_wanted()
        &&& self.word_parts().len() == self.syllables_done()
        &&& self.current_word() == joined(self.word_parts())
        &&& forall|i: int| 0 <= i < self.word_parts().len() ==> syllable_of(g, #[trigger] self.word_parts()[i])
        &&& !self.is_done() ==> count_ok(g, self.syllables_wanted())
        &&& !self.is_done() ==> slots_ready(g.order.0@, texts(g.consonants@), texts(g.vowels@), texts(g.nasal@))
    }

    /// Whether the run has ended.
    pub fn is_finished(&self) -> (r: bool)
        ensures
            r == self.is_done(),
    {
        self.finished
    }

    /// The words accepted so far.
    pub fn into_words(self) -> (r: Vec<String>)
        ensures
            texts(r@) == self.word_list(),
    {
        self.words
    }
}

/// The word assembler's settings: the alphabets, the syllable shape, the
/// syllables per word (drawn per word when `None`), how many distinct words
/// to make, and whether to keep them sorted.
pub struct Generator {
    pub consonants: Vec<String>,
    pub vowels: Vec<String>,
    pub nasal: Vec<String>,
    pub order: SyllableOrder,
    pub syllables: Option<usize>,
    pub count: usize,
    pub sort: bool,
}

impl Generator {
    /// Whether words can be made at all: every category that a slot of the
    /// shape names has at least two letters.
    pub fn verify(&self) -> (r: bool)
        ensures
            r == slots_plenty(self.order.0@, texts(self.consonants@), texts(self.vowels@), texts(self.nasal@)),
    {
        let ghost c = texts(self.consonants@);
        let ghost v = texts(self.vowels@);
        let ghost n = texts(self.nasal@);
        let mut i: usize = 0;
        while i < self.order.0.len()
            invariant
                i <= self.order.0@.len(),
                c == texts(self.consonants@),
                v == texts(self.vowels@),
                n == texts(self.nasal@),
                slots_plenty(self.order.0@.subrange(0, i as int), c, v, n),
            decreases self.order.0@.len() - i,
        {
            let b = match self.order.0[i] {
                crate::letter::SyllableLetter::Consonant(_) => self.consonants.len() > 1,
                crate::letter::SyllableLetter::Vowel(_) => self.vowels.len() > 1,
                crate::letter::SyllableLetter::Nasal(_) => self.nasal.len() > 1,
            };
            if !b {
                assert(self.order.0@.subrange(0, i + 1)[i as int] == self.order.0@[i as int]);
                return false;
            }
            assert forall|k: int| 0 <= k < i + 1 implies crate::cell::alphabet_of(
                (#[trigger] self.order.0@.subrange(0, i + 1)[k]).category(), c, v, n).len() >= 2 by {
                if k < i {
                    assert(self.order.0@.subrange(0, i + 1)[k] == self.order.0@.subrange(0, i as int)[k]);
                }
            }
            i = i + 1;
        }
        assert(self.order.0@.subrange(0, i as int) =~= self.order.0@);
        true
    }

    /// The number of syllables for the next word: the fixed count, or a
    /// random one below four.
    fn syllable_count(&self) -> (r: usize)
        ensures
            self.syllables matches Some(k) ==> r == k,
            self.syllables is None ==> r < SYLLABLE_CHOICES,
    {
        match self.syllables {
            Some(k) => k,
            None => random_usize() % SYLLABLE_CHOICES,
        }
    }

    /// Adds `word` to `words` unless it is empty or already there; when the
    /// words are kept sorted it goes to its place in order, else to the end.
    pub fn accept(&self, words: &mut Vec<String>, word: String)
        requires
            words_ok(texts(old(words)@), self.sort),
        ensures
            words_ok(texts(final(words)@), self.sort),
            texts(final(words)@) == accepted(texts(old(words)@), word@, self.sort),
    {
        let ghost ws = texts(words@);
        if word.as_str().is_empty() {
            return;
        }
        let mut i: usize = 0;
        while i < words.len()
            invariant
                ws == texts(words@),
                words@ == old(words)@,
                words_ok(ws, self.sort),
                i <= words@.len(),
                forall|k: int| 0 <= k < i ==> ws[k] != word@,
            decreases words@.len() - i,
        {
            if words[i] == word {
                assert(ws[i as int] == word@);
                return;
            }
            i = i + 1;
        }
        assert(!ws.contains(word@));
        let mut p: usize = words.len();
        if self.sort {
            p = 0;
            while p < words.len() && !less_than(&word, &words[p])
                invariant
                    ws == texts(words@),
                    words@ == old(words)@,
                    p <= words@.len(),
                    forall|k: int| 0 <= k < p ==> !lex_lt(word@, #[trigger] ws[k]),
                decreases words@.len() - p,
            {
                p = p + 1;
            }
            proof {
                lemma_insert_pos(ws, word@, p as int);
            }
        }
        let ghost at = p as int;
        words.insert(p, word);
        proof {
            let nw = texts(words@);
            assert(nw =~= ws.insert(at, word@));
            if self.sort {
                assert forall|i: int| 0 <= i < nw.len() - 1 implies lex_le(#[trigger] nw[i], nw[i + 1]) by {
                    if i + 1 < at {
                        assert(nw[i] == ws[i] && nw[i + 1] == ws[i + 1]);
                    } else if i + 1 == at {
                        assert(nw[i] == ws[i]);
                        lemma_lex_total(word@, ws[i]);
                    } else if i == at {
                        assert(nw[i + 1] == ws[i]);
                    } else {
                        assert(nw[i] == ws[i - 1] && nw[i + 1] == ws[i]);
                    }
                }
            }
            assert forall|i: int, j: int| 0 <= i < nw.len() && 0 <= j < nw.len() && i != j implies nw[i] != nw[j] by {
                if i != at && j != at {
                    let a = if i < at { i } else { i - 1 };
                    let b = if j < at { j } else { j - 1 };
                    assert(nw[i] == ws[a] && nw[j] == ws[b]);
                } else if i == at {
                    let b = if j < at { j } else { j - 1 };
                    assert(nw[j] == ws[b]);
                } else {
                    let a = if i < at { i } else { i - 1 };
                    assert(nw[i] == ws[a]);
                }
            }
            assert forall|i: int| 0 <= i < nw.len() implies (#[trigger] nw[i]).len() > 0 by {
                if i < at {
                    assert(nw[i] == ws[i]);
                } else if i > at {
                    assert(nw[i] == ws[i - 1]);
                }
            }
            if !self.sort {
                assert(ws.insert(at, word@) =~= ws.push(word@));
            }
        }
    }

    /// Begins a run: it ends at once, with no word, when some category that
    /// the shape names has fewer than two letters or no word is asked for;
    /// else its first word starts empty.
    pub fn start(&self) -> (r: Assembly)
        requires
            forall|i: int| 0 <= i < self.order.0@.len() ==> (#[trigger] self.order.0@[i]).percent() <= 100,
        ensures
            r.wf(self),
            r.word_list().len() == 0,
            r.is_done() <==> (!slots_plenty(self.order.0@, texts(self.consonants@), texts(self.vowels@), texts(self.nasal@))
                || self.count == 0),
            r.current_word().len() == 0,
            r.syllables_done() == 0,
    {
        let ok = self.verify();
        let finished = !ok || self.count == 0;
        let target = if finished { 0 } else { self.syllable_count() };
        let r = Assembly { words: Vec::new(), word: String::new(), runs: 0, target, finished, parts: Ghost(Seq::empty()) };
        assert(r.word_list() =~= Seq::<Seq<char>>::empty());
        r
    }

    /// One step of a run, `elapsed_secs` after it began. While the current
    /// word lacks syllables, it asks the engine for one and appends it, or,
    /// when the syllable came out empty, leaves the word as it is to try again.
    /// Once the word has its syllables, it offers the trimmed word to `accept`;
    /// the run then ends if enough words are made or the time budget is spent,
    /// and else a new, empty word begins.
    pub fn advance(&self, a: &mut Assembly, elapsed_secs: u64)
        requires
            old(a).wf(self),
        ensures
            final(a).wf(self),
            old(a).is_done() ==> *final(a) == *old(a),
            !old(a).is_done() && old(a).syllables_done() < old(a).syllables_wanted() ==> {
                &&& final(a).word_list() == old(a).word_list()
                &&& !final(a).is_done()
                &&& final(a).syllables_wanted() == old(a).syllables_wanted()
                &&& (final(a).current_word() == old(a).current_word() && final(a).syllables_done() == old(a).syllables_done()
                        && exists|mask: Seq<bool>, letters: Seq<Seq<char>>|
                            #[trigger] is_syllable_of(self.order.0@, texts(self.consonants@), texts(self.vowels@), texts(self.nasal@), mask, letters)
                            && trimmed(joined(letters)).len() == 0)
                    || (final(a).syllables_done() == old(a).syllables_done() + 1 && exists|t: Seq<char>|
                        syllable_of(self, t) && final(a).current_word() == old(a).current_word() + t)
            },
            !old(a).is_done() && old(a).syllables_done() >= old(a).syllables_wanted() ==> {
                &&& final(a).word_list() == accepted(old(a).word_list(), trimmed(old(a).current_word()), self.sort)
                &&& final(a).is_done() <==> (final(a).word_list().len() >= self.count || elapsed_secs >= TIME_BUDGET_SECS)
                &&& !final(a).is_done() ==> final(a).current_word().len() == 0 && final(a).syllables_done() == 0
            },
    {
        if a.finished {
            return;
        }
        if a.runs < a.target {
            match self.order.generate(&self.consonants, &self.vowels, &self.nasal) {
                Some(syllable) => {
                    let ghost before = a.word@;
                    a.word.append(syllable.as_str());
                    a.runs = a.runs + 1;
                    proof {
                        let old_parts = a.parts@;
                        a.parts@ = a.parts@.push(syllable@);
                        assert(a.parts@.drop_last() =~= old_parts);
                        assert(syllable_of(self, syllable@));
                        assert forall|i: int| 0 <= i < a.parts@.len() implies syllable_of(self, #[trigger] a.parts@[i]) by {
                            if i < old_parts.len() {
                                assert(a.parts@[i] == old_parts[i]);
                            }
                        }
                    }
                },
                None => {},
            }
            return;
        }
        let ghost old_list = texts(a.words@);
        let ghost built = a.word@;
        let ghost parts = a.parts@;
        let word = trim(&a.word);
        proof {
            assert(count_ok(self, parts.len()));
            assert(word_of(self, word@));
            lemma_trimmed_idempotent(built);
        }
        self.accept(&mut a.words, word);
        proof {
            let nl = texts(a.words@);
            lemma_insert_pos_bound(old_list, word@);
            assert forall|i: int| 0 <= i < nl.len() implies word_of(self, #[trigger] nl[i])
                && trimmed(nl[i]) == nl[i] by {
                if !(word@.len() == 0 || old_list.contains(word@)) {
                    if self.sort {
                        let p = insert_pos(old_list, word@);
                        assert(nl == old_list.insert(p, word@));
                        if i < p {
                            assert(nl[i] == old_list[i]);
                        } else if i > p {
                            assert(nl[i] == old_list[i - 1]);
                        }
                    } else if i < old_list.len() {
                        assert(nl == old_list.push(word@));
                        assert(nl[i] == old_list[i]);
                    }
                }
            }
        }
        if elapsed_secs >= TIME_BUDGET_SECS || a.words.len() >= self.count {
            a.finished = true;
            return;
        }
        a.word = String::new();
        a.runs = 0;
        a.target = self.syllable_count();
        proof {
            a.parts@ = Seq::empty();
        }
    }
}

} // verus!
