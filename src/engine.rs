use vstd::prelude::*;
use vstd::string::StringExecFns;
use rand::rngs::ThreadRng;
use crate::cell::{alphabet_of, keep_in, lemma_keep_in_members, lemma_keep_in_union, texts, union_of, LetterGenerator};
use crate::letter::{SyllableLetter, SyllableOrder};
use crate::random::{below, chance, thread_rng};
use crate::text::{joined, lemma_trimmed, trim, trimmed};

verus! {

/// The denominator of a slot's percentage.
pub const PERCENT_SCALE: u32 = 100;

/// What the engine needs of its inputs: each slot's percentage is at most 100,
/// and each category that a slot names has at least one letter.
pub open spec fn slots_ready(order: Seq<SyllableLetter>, consonants: Seq<Seq<char>>, vowels: Seq<Seq<char>>, nasal: Seq<Seq<char>>) -> bool {
    forall|i: int| 0 <= i < order.len() ==> (#[trigger] order[i]).percent() <= 100
        && alphabet_of(order[i].category(), consonants, vowels, nasal).len() > 0
}

/// Each category that a slot names has at least two letters.
pub open spec fn slots_plenty(order: Seq<SyllableLetter>, consonants: Seq<Seq<char>>, vowels: Seq<Seq<char>>, nasal: Seq<Seq<char>>) -> bool {
    forall|i: int| 0 <= i < order.len() ==> alphabet_of((#[trigger] order[i]).category(), consonants, vowels, nasal).len() >= 2
}

/// `mask` says for each slot whether it was drafted: a slot of 100 percent
/// always is, a slot of 0 percent never.
pub open spec fn valid_draft(order: Seq<SyllableLetter>, mask: Seq<bool>) -> bool {
    &&& mask.len() == order.len()
    &&& forall|i: int| 0 <= i < order.len() ==> ((#[trigger] order[i]).percent() >= 100 ==> mask[i])
        && (order[i].percent() == 0 ==> !mask[i])
}

/// The slots that `mask` keeps, in order.
pub open spec fn drafted_slots(order: Seq<SyllableLetter>, mask: Seq<bool>) -> Seq<SyllableLetter>
    decreases order.len(),
{
    if order.len() == 0 {
        seq![]
    } else if mask.last() {
        drafted_slots(order.drop_last(), mask.drop_last()).push(order.last())
    } else {
        drafted_slots(order.drop_last(), mask.drop_last())
    }
}

/// `letters` is a syllable that `order` can give: one letter for each drafted
/// slot, each from the alphabet of its slot's category.
pub open spec fn is_syllable_of(
    order: Seq<SyllableLetter>,
    consonants: Seq<Seq<char>>,
    vowels: Seq<Seq<char>>,
    nasal: Seq<Seq<char>>,
    mask: Seq<bool>,
    letters: Seq<Seq<char>>,
) -> bool {
    &&& valid_draft(order, mask)
    &&& letters.len() == drafted_slots(order, mask).len()
    &&& forall|i: int| 0 <= i < letters.len()
        ==> alphabet_of(drafted_slots(order, mask)[i].category(), consonants, vowels, nasal).contains(#[trigger] letters[i])
}

/// A cell that stands for `slot`: in superposition over the union of the
/// alphabets until narrowed, and within its category's alphabet after.
pub open spec fn cell_ok(cell: LetterGenerator, slot: SyllableLetter, consonants: Seq<Seq<char>>, vowels: Seq<Seq<char>>, nasal: Seq<Seq<char>>) -> bool {
    let alpha = alphabet_of(slot.category(), consonants, vowels, nasal);
    &&& cell.slot() == slot
    &&& cell.candidates().len() > 0
    &&& !cell.constrained() ==> cell.candidates() == union_of(consonants, vowels, nasal)
    &&& cell.constrained() ==> forall|j: int| 0 <= j < cell.candidates().len()
        ==> alpha.contains(#[trigger] cell.candidates()[j])
}

/// The observations that the cells still need, summed.
pub open spec fn steps_total(cells: Seq<LetterGenerator>) -> nat
    decreases cells.len(),
{
    if cells.len() == 0 {
        0
    } else {
        steps_total(cells.drop_last()) + cells.last().steps_left()
    }
}

/// The number of collapsed cells in a row from position `from`.
pub open spec fn collapsed_run(cells: Seq<LetterGenerator>, from: int) -> nat
    decreases cells.len() - from,
{
    if 0 <= from < cells.len() && cells[from].collapsed() {
        1 + collapsed_run(cells, from + 1)
    } else {
        0
    }
}

/// How many advance steps from `cursor` land on collapsed cells before one
/// lands on a cell that is not, going round from the last cell to the first.
pub open spec fn cursor_gap(cells: Seq<LetterGenerator>, cursor: int) -> nat {
    let p = if cursor >= cells.len() { 0 } else { cursor };
    if collapsed_run(cells, p) < cells.len() - p {
        collapsed_run(cells, p)
    } else {
        (cells.len() - p + collapsed_run(cells, 0)) as nat
    }
}

proof fn lemma_steps_update(cells: Seq<LetterGenerator>, i: int, cell: LetterGenerator)
    requires
        0 <= i < cells.len(),
    ensures
        steps_total(cells.update(i, cell)) + cells[i].steps_left() == steps_total(cells) + cell.steps_left(),
    decreases cells.len(),
{
    let u = cells.update(i, cell);
    if i < cells.len() - 1 {
        assert(u.drop_last() =~= cells.drop_last().update(i, cell));
        lemma_steps_update(cells.drop_last(), i, cell);
    } else {
        assert(u.drop_last() =~= cells.drop_last());
    }
}

proof fn lemma_steps_zero(cells: Seq<LetterGenerator>)
    requires
        forall|i: int| 0 <= i < cells.len() ==> (#[trigger] cells[i]).collapsed(),
    ensures
        steps_total(cells) == 0,
    decreases cells.len(),
{
    if cells.len() > 0 {
        assert(cells[cells.len() - 1].collapsed());
        lemma_steps_zero(cells.drop_last());
    }
}

proof fn lemma_run_bound(cells: Seq<LetterGenerator>, from: int)
    requires
        0 <= from <= cells.len(),
    ensures
        collapsed_run(cells, from) <= cells.len() - from,
        collapsed_run(cells, from) == cells.len() - from ==> forall|j: int| from <= j < cells.len() ==> (#[trigger] cells[j]).collapsed(),
    decreases cells.len() - from,
{
    if from < cells.len() {
        lemma_run_bound(cells, from + 1);
    }
}

/// Advancing from a collapsed cell brings the next cell that is not collapsed
/// one step closer.
proof fn lemma_gap_step(cells: Seq<LetterGenerator>, cursor: int)
    requires
        0 <= cursor <= cells.len(),
        cells.len() > 0,
        cells[if cursor == cells.len() { 0 } else { cursor }].collapsed(),
        exists|j: int| 0 <= j < cells.len() && !(#[trigger] cells[j]).collapsed(),
    ensures
        cursor_gap(cells, (if cursor == cells.len() { 0 } else { cursor }) + 1) + 1 == cursor_gap(cells, cursor),
{
    let n = cells.len() as int;
    let p = if cursor == n { 0 } else { cursor };
    let j = choose|j: int| 0 <= j < n && !(#[trigger] cells[j]).collapsed();
    lemma_run_bound(cells, 0);
    lemma_run_bound(cells, p);
    lemma_run_bound(cells, p + 1);
    assert(collapsed_run(cells, p) == 1 + collapsed_run(cells, p + 1));
    if collapsed_run(cells, 0) == n {
        assert(cells[j].collapsed());
    }
}

proof fn lemma_drafted_from(order: Seq<SyllableLetter>, mask: Seq<bool>, i: int)
    requires
        0 <= i < drafted_slots(order, mask).len(),
    ensures
        exists|k: int| 0 <= k < order.len() && order[k] == drafted_slots(order, mask)[i],
    decreases order.len(),
{
    if order.len() > 0 {
        let rest = drafted_slots(order.drop_last(), mask.drop_last());
        if i < rest.len() {
            lemma_drafted_from(order.drop_last(), mask.drop_last(), i);
            let k = choose|k: int| 0 <= k < order.drop_last().len() && order.drop_last()[k] == rest[i];
            assert(order[k] == rest[i]);
        } else {
            assert(order[order.len() - 1] == drafted_slots(order, mask)[i]);
        }
    }
}

/// Every letter of the alphabet is one character long.
pub open spec fn single_chars(alphabet: Seq<Seq<char>>) -> bool {
    forall|j: int| 0 <= j < alphabet.len() ==> (#[trigger] alphabet[j]).len() == 1
}

proof fn lemma_concat_single(letters: Seq<Seq<char>>)
    requires
        forall|j: int| 0 <= j < letters.len() ==> (#[trigger] letters[j]).len() == 1,
    ensures
        joined(letters).len() == letters.len(),
    decreases letters.len(),
{
    if letters.len() > 0 {
        assert(letters[letters.len() - 1].len() == 1);
        lemma_concat_single(letters.drop_last());
    }
}

/// A slot of 0 percent is never drafted: every drafted slot has a percentage
/// above 0.
pub proof fn lemma_zero_percent_never_drafted(order: Seq<SyllableLetter>, mask: Seq<bool>)
    requires
        valid_draft(order, mask),
    ensures
        forall|i: int| 0 <= i < drafted_slots(order, mask).len() ==> (#[trigger] drafted_slots(order, mask)[i]).percent() > 0,
    decreases order.len(),
{
    if order.len() > 0 {
        let o = order.drop_last();
        let m = mask.drop_last();
        assert forall|i: int| 0 <= i < o.len() implies ((#[trigger] o[i]).percent() >= 100 ==> m[i]) && (o[i].percent() == 0 ==> !m[i]) by {
            assert(o[i] == order[i]);
        }
        lemma_zero_percent_never_drafted(o, m);
        let d = drafted_slots(order, mask);
        let r = drafted_slots(o, m);
        assert forall|i: int| 0 <= i < d.len() implies (#[trigger] d[i]).percent() > 0 by {
            if i < r.len() {
                assert(d[i] == r[i]);
            } else {
                assert(mask[order.len() - 1]);
                assert(d[i] == order[order.len() - 1]);
            }
        }
    }
}

/// `after` is what one effective observation makes of `before`: a cell not yet
/// narrowed keeps the candidates of its category's alphabet, a narrowed one
/// keeps one of its candidates; either way it ends narrowed, with its slot.
pub open spec fn observed_from(
    before: LetterGenerator,
    after: LetterGenerator,
    consonants: Seq<Seq<char>>,
    vowels: Seq<Seq<char>>,
    nasal: Seq<Seq<char>>,
) -> bool {
    &&& after.slot() == before.slot()
    &&& after.constrained()
    &&& !before.constrained() ==> after.candidates() == keep_in(
        before.candidates(),
        alphabet_of(before.slot().category(), consonants, vowels, nasal),
    )
    &&& before.constrained() ==> exists|k: int|
        0 <= k < before.candidates().len() && after.candidates() == seq![before.candidates()[k]]
}

/// One session of the collapse engine: it drafts cells for a syllable shape,
/// seeds one at random, then observes them in turn until each has one letter.
pub struct SyllableGenerator {
    order: SyllableOrder,
    consonants: Vec<String>,
    vowels: Vec<String>,
    nasal: Vec<String>,
    syllable: Vec<LetterGenerator>,
    drafted: bool,
    seeded: bool,
    index: usize,
    draft: Ghost<Seq<bool>>,
    observed: Ghost<nat>,
}

impl SyllableGenerator {
    pub closed spec fn slots(&self) -> Seq<SyllableLetter> {
        self.order.0@
    }

    pub closed spec fn consonant_letters(&self) -> Seq<Seq<char>> {
        texts(self.consonants@)
    }

    pub closed spec fn vowel_letters(&self) -> Seq<Seq<char>> {
        texts(self.vowels@)
    }

    pub closed spec fn nasal_letters(&self) -> Seq<Seq<char>> {
        texts(self.nasal@)
    }

    /// The live cells, one per drafted slot.
    pub closed spec fn cells(&self) -> Seq<LetterGenerator> {
        self.syllable@
    }

    pub closed spec fn is_drafted(&self) -> bool {
        self.drafted
    }

    pub closed spec fn is_seeded(&self) -> bool {
        self.seeded
    }

    /// The position of the next advance step.
    pub closed spec fn cursor(&self) -> int {
        self.index as int
    }

    /// Which slots were drafted.
    pub closed spec fn draft_mask(&self) -> Seq<bool> {
        self.draft@
    }

    /// How many observations so far changed a cell.
    pub closed spec fn observations(&self) -> nat {
        self.observed@
    }

    /// The letter of each cell, once all have collapsed.
    pub open spec fn letters(&self) -> Seq<Seq<char>> {
        Seq::new(self.cells().len(), |i: int| self.cells()[i].candidates()[0])
    }

    /// The session has drafted and every cell has one letter left.
    pub open spec fn done(&self) -> bool {
        &&& self.is_drafted()
        &&& forall|i: int| 0 <= i < self.cells().len() ==> (#[trigger] self.cells()[i]).collapsed()
    }

    /// 1 until the session has drafted, then 0.
    pub open spec fn pending_draft(&self) -> nat {
        if self.is_drafted() { 0 } else { 1 }
    }

    pub closed spec fn wf(&self) -> bool {
        let order = self.order.0@;
        let c = texts(self.consonants@);
        let v = texts(self.vowels@);
        let n = texts(self.nasal@);
        let cells = self.syllable@;
        &&& slots_ready(order, c, v, n)
        &&& self.index <= cells.len()
        &&& !self.drafted ==> cells.len() == 0 && !self.seeded && self.observed@ == 0
        &&& self.drafted ==> valid_draft(order, self.draft@) && cells.len() == drafted_slots(order, self.draft@).len()
        &&& forall|i: int| 0 <= i < cells.len()
            ==> cell_ok(#[trigger] cells[i], drafted_slots(order, self.draft@)[i], c, v, n)
        &&& slots_plenty(order, c, v, n) ==> self.observed@ + steps_total(cells) == 2 * cells.len()
    }

    /// A session for `order` over the three alphabets, before any draft.
    pub fn new(order: SyllableOrder, consonants: Vec<String>, vowels: Vec<String>, nasal: Vec<String>) -> (r: SyllableGenerator)
        requires
            slots_ready(order.0@, texts(consonants@), texts(vowels@), texts(nasal@)),
        ensures
            r.wf(),
            r.slots() == order.0@,
            r.consonant_letters() == texts(consonants@),
            r.vowel_letters() == texts(vowels@),
            r.nasal_letters() == texts(nasal@),
            !r.is_drafted(),
            !r.is_seeded(),
            r.cells().len() == 0,
            r.cursor() == 0,
            r.observations() == 0,
    {
        Self {
            order,
            consonants,
            vowels,
            nasal,
            syllable: Vec::new(),
            drafted: false,
            seeded: false,
            index: 0,
            draft: Ghost(Seq::empty()),
            observed: Ghost(0),
        }
    }

    /// The union of the three alphabets: the letters a fresh cell may become.
    fn list(&self) -> (r: Vec<String>)
        ensures
            texts(r@) == union_of(texts(self.consonants@), texts(self.vowels@), texts(self.nasal@)),
    {
        let mut list: Vec<String> = Vec::new();
        append_copies(&mut list, &self.consonants);
        append_copies(&mut list, &self.vowels);
        append_copies(&mut list, &self.nasal);
        list
    }

    /// Drafts the cells: each slot becomes a fresh cell with its percentage's chance.
    fn create_syllable(&mut self, rng: &mut ThreadRng)
        requires
            old(self).wf(),
            !old(self).is_drafted(),
        ensures
            final(self).wf(),
            final(self).is_drafted(),
            !final(self).is_seeded(),
            final(self).cursor() == 0,
            final(self).observations() == 0,
            final(self).slots() == old(self).slots(),
            final(self).consonant_letters() == old(self).consonant_letters(),
            final(self).vowel_letters() == old(self).vowel_letters(),
            final(self).nasal_letters() == old(self).nasal_letters(),
            forall|i: int| 0 <= i < final(self).cells().len() ==> !(#[trigger] final(self).cells()[i]).constrained(),
    {
        let ghost order = self.order.0@;
        let ghost c = texts(self.consonants@);
        let ghost v = texts(self.vowels@);
        let ghost n = texts(self.nasal@);
        let mut syl: Vec<LetterGenerator> = Vec::new();
        let ghost mut mask: Seq<bool> = seq![];
        let mut i: usize = 0;
        while i < self.order.0.len()
            invariant
                order == self.order.0@,
                c == texts(self.consonants@),
                v == texts(self.vowels@),
                n == texts(self.nasal@),
                slots_ready(order, c, v, n),
                i <= order.len(),
                mask.len() == i,
                valid_draft(order.subrange(0, i as int), mask),
                syl@.len() == drafted_slots(order.subrange(0, i as int), mask).len(),
                forall|j: int| 0 <= j < syl@.len() ==> cell_ok(#[trigger] syl@[j], drafted_slots(order.subrange(0, i as int), mask)[j], c, v, n)
                    && !syl@[j].constrained(),
                slots_plenty(order, c, v, n) ==> steps_total(syl@) == 2 * syl@.len(),
            decreases order.len() - i,
        {
            let ghost before = order.subrange(0, i as int);
            let ghost upto = order.subrange(0, i + 1);
            assert(upto.drop_last() =~= before);
            let s = self.order.0[i];
            assert(s.percent() <= 100 && alphabet_of(s.category(), c, v, n).len() > 0);
            let take = chance(rng, s.probability() as u32, PERCENT_SCALE);
            let ghost old_syl = syl@;
            if take {
                let cell = LetterGenerator::new(s, self.list());
                proof {
                    lemma_keep_in_union(c, v, n, s.category());
                }
                syl.push(cell);
                assert(syl@.drop_last() =~= old_syl);
            }
            proof {
                let old_mask = mask;
                let done = drafted_slots(before, old_mask);
                mask = mask.push(take);
                assert(mask.drop_last() =~= old_mask);
                assert(upto.last() == s);
                assert(drafted_slots(upto, mask) == (if take { done.push(s) } else { done }));
                assert forall|j: int| 0 <= j < syl@.len() implies cell_ok(#[trigger] syl@[j], drafted_slots(upto, mask)[j], c, v, n)
                    && !syl@[j].constrained() by {
                    if j < old_syl.len() {
                        assert(syl@[j] == old_syl[j]);
                    }
                }
                assert forall|k: int| 0 <= k < upto.len() implies ((#[trigger] upto[k]).percent() >= 100 ==> mask[k])
                    && (upto[k].percent() == 0 ==> !mask[k]) by {
                    if k < i {
                        assert(upto[k] == before[k]);
                    }
                }
                if slots_plenty(order, c, v, n) && take {
                    assert(order[i as int] == s);
                    lemma_keep_in_union(c, v, n, s.category());
                }
            }
            i = i + 1;
        }
        assert(order.subrange(0, i as int) =~= order);
        self.syllable = syl;
        self.drafted = true;
        self.index = 0;
        self.draft = Ghost(mask);
        self.observed = Ghost(0);
    }

    /// Observes cell `i` once, and counts the observation if it changed the cell.
    fn observe(&mut self, i: usize, rng: &mut ThreadRng)
        requires
            old(self).wf(),
            old(self).is_drafted(),
            i < old(self).cells().len(),
        ensures
            final(self).wf(),
            final(self).slots() == old(self).slots(),
            final(self).consonant_letters() == old(self).consonant_letters(),
            final(self).vowel_letters() == old(self).vowel_letters(),
            final(self).nasal_letters() == old(self).nasal_letters(),
            final(self).is_drafted() && final(self).is_seeded() == old(self).is_seeded(),
            final(self).cursor() == old(self).cursor(),
            final(self).draft_mask() == old(self).draft_mask(),
            final(self).cells().len() == old(self).cells().len(),
            old(self).cells()[i as int].collapsed() ==> *final(self) == *old(self),
            !old(self).cells()[i as int].collapsed() ==> steps_total(final(self).cells()) < steps_total(old(self).cells())
                && observed_from(old(self).cells()[i as int], final(self).cells()[i as int],
                    old(self).consonant_letters(), old(self).vowel_letters(), old(self).nasal_letters())
                && final(self).observations() == old(self).observations() + 1,
            forall|j: int| 0 <= j < old(self).cells().len() && j != i ==> final(self).cells()[j] == old(self).cells()[j],
    {
        if self.syllable[i].is_collapsed() {
            return;
        }
        let ghost order = self.order.0@;
        let ghost c = texts(self.consonants@);
        let ghost v = texts(self.vowels@);
        let ghost n = texts(self.nasal@);
        let ghost before = self.syllable@;
        let ghost slot = drafted_slots(order, self.draft@)[i as int];
        proof {
            lemma_drafted_from(order, self.draft@, i as int);
            lemma_keep_in_union(c, v, n, slot.category());
            lemma_keep_in_members(union_of(c, v, n), alphabet_of(slot.category(), c, v, n));
            assert(cell_ok(before[i as int], slot, c, v, n));
        }
        self.syllable[i].select(rng, &self.consonants, &self.vowels, &self.nasal);
        proof {
            let after = self.syllable@;
            assert(after == before.update(i as int, after[i as int]));
            lemma_steps_update(before, i as int, after[i as int]);
            if after[i as int].constrained() && before[i as int].constrained() {
                let k = choose|k: int| 0 <= k < before[i as int].candidates().len()
                    && after[i as int].candidates() == seq![before[i as int].candidates()[k]];
                assert(after[i as int].candidates()[0] == before[i as int].candidates()[k]);
            }
            assert forall|j: int| 0 <= j < after.len() implies cell_ok(#[trigger] after[j], drafted_slots(order, self.draft@)[j], c, v, n) by {
                if j != i {
                    assert(after[j] == before[j]);
                }
            }
            if slots_plenty(order, c, v, n) {
                let k = choose|k: int| 0 <= k < order.len() && order[k] == slot;
                assert(alphabet_of(order[k].category(), c, v, n).len() >= 2);
            }
            self.observed@ = self.observed@ + 1;
        }
    }

    /// A cell that is not collapsed, drawn at random among all such cells, or
    /// `None` when every cell is collapsed.
    fn get_random_uncollapsed(&self, rng: &mut ThreadRng) -> (r: Option<usize>)
        requires
            self.wf(),
        ensures
            r is None <==> forall|j: int| 0 <= j < self.cells().len() ==> (#[trigger] self.cells()[j]).collapsed(),
            r matches Some(i) ==> i < self.cells().len() && !self.cells()[i as int].collapsed(),
    {
        let mut open: Vec<usize> = Vec::new();
        let mut i: usize = 0;
        while i < self.syllable.len()
            invariant
                self.wf(),
                i <= self.syllable@.len(),
                forall|k: int| 0 <= k < open@.len() ==> (#[trigger] open@[k]) < self.syllable@.len()
                    && !self.syllable@[open@[k] as int].collapsed(),
                open@.len() == 0 <==> forall|j: int| 0 <= j < i ==> (#[trigger] self.syllable@[j]).collapsed(),
            decreases self.syllable@.len() - i,
        {
            assert(cell_ok(self.syllable@[i as int], drafted_slots(self.order.0@, self.draft@)[i as int],
                texts(self.consonants@), texts(self.vowels@), texts(self.nasal@)));
            if !self.syllable[i].is_collapsed() {
                open.push(i);
                assert(open@[open@.len() - 1] == i);
            }
            i = i + 1;
        }
        proof {
            if open@.len() == 0 {
                assert forall|j: int| 0 <= j < self.cells().len() implies (#[trigger] self.cells()[j]).collapsed() by {
                    assert(self.syllable@[j].collapsed());
                }
            } else {
                assert(!self.cells()[open@[0] as int].collapsed());
            }
        }
        if open.len() == 0 {
            None
        } else {
            let k = below(rng, open.len());
            Some(open[k])
        }
    }

    /// Observes one cell that is not collapsed, drawn at random, the first
    /// time it is called; afterwards it does nothing.
    fn seed(&mut self, rng: &mut ThreadRng)
        requires
            old(self).wf(),
            old(self).is_drafted(),
        ensures
            final(self).wf(),
            final(self).slots() == old(self).slots(),
            final(self).consonant_letters() == old(self).consonant_letters(),
            final(self).vowel_letters() == old(self).vowel_letters(),
            final(self).nasal_letters() == old(self).nasal_letters(),
            final(self).is_drafted() && final(self).is_seeded(),
            final(self).cursor() == old(self).cursor(),
            final(self).draft_mask() == old(self).draft_mask(),
            old(self).is_seeded() ==> *final(self) == *old(self),
            old(self).done() ==> final(self).cells() == old(self).cells(),
            !old(self).done() && !old(self).is_seeded() ==> steps_total(final(self).cells()) < steps_total(old(self).cells()),
            old(self).done() || old(self).is_seeded() ==> steps_total(final(self).cells()) == steps_total(old(self).cells()),
            final(self).cells().len() == old(self).cells().len(),
            !old(self).done() && !old(self).is_seeded() ==> exists|i: int|
                0 <= i < old(self).cells().len() && !(#[trigger] old(self).cells()[i]).collapsed()
                && observed_from(old(self).cells()[i], final(self).cells()[i],
                    old(self).consonant_letters(), old(self).vowel_letters(), old(self).nasal_letters())
                && final(self).observations() == old(self).observations() + 1
                && forall|j: int| 0 <= j < old(self).cells().len() && j != i ==> final(self).cells()[j] == old(self).cells()[j],
    {
        if self.seeded {
            return;
        }
        if let Some(start) = self.get_random_uncollapsed(rng) {
            self.observe(start, rng);
        }
        self.seeded = true;
    }

    /// Whether the session has drafted and every cell has one letter left.
    pub fn is_collapsed(&self) -> (r: bool)
        requires
            self.wf(),
        ensures
            r == self.done(),
    {
        if !self.drafted {
            return false;
        }
        let mut i: usize = 0;
        while i < self.syllable.len()
            invariant
                self.wf(),
                i <= self.syllable@.len(),
                forall|j: int| 0 <= j < i ==> (#[trigger] self.syllable@[j]).collapsed(),
            decreases self.syllable@.len() - i,
        {
            assert(cell_ok(self.syllable@[i as int], drafted_slots(self.order.0@, self.draft@)[i as int],
                texts(self.consonants@), texts(self.vowels@), texts(self.nasal@)));
            if !self.syllable[i].is_collapsed() {
                assert(!self.cells()[i as int].collapsed());
                return false;
            }
            i = i + 1;
        }
        assert forall|j: int| 0 <= j < self.cells().len() implies (#[trigger] self.cells()[j]).collapsed() by {
            assert(self.syllable@[j].collapsed());
        }
        true
    }

    /// One step of the session: drafts the cells if that has not been done,
    /// seeds one at random if that has not been done, then, unless every cell
    /// is collapsed, observes the cell at the cursor and moves the cursor on,
    /// from the last cell back to the first.
    pub fn iterate(&mut self, rng: &mut ThreadRng)
        requires
            old(self).wf(),
        ensures
            final(self).wf(),
            final(self).slots() == old(self).slots(),
            final(self).consonant_letters() == old(self).consonant_letters(),
            final(self).vowel_letters() == old(self).vowel_letters(),
            final(self).nasal_letters() == old(self).nasal_letters(),
            final(self).is_drafted() && final(self).is_seeded(),
            old(self).is_drafted() ==> final(self).draft_mask() == old(self).draft_mask(),
            old(self).done() && old(self).is_seeded() ==> *final(self) == *old(self),
            old(self).is_drafted() && old(self).is_seeded() && !old(self).done() ==> ({
                let p = if old(self).cursor() == old(self).cells().len() { 0 } else { old(self).cursor() };
                &&& final(self).cursor() == p + 1
                &&& final(self).cells().len() == old(self).cells().len()
                &&& forall|j: int| 0 <= j < old(self).cells().len() && j != p ==> final(self).cells()[j] == old(self).cells()[j]
                &&& old(self).cells()[p].collapsed() ==> final(self).cells()[p] == old(self).cells()[p]
                    && final(self).observations() == old(self).observations()
                &&& !old(self).cells()[p].collapsed() ==> observed_from(old(self).cells()[p], final(self).cells()[p],
                        old(self).consonant_letters(), old(self).vowel_letters(), old(self).nasal_letters())
                    && final(self).observations() == old(self).observations() + 1
            }),
            final(self).cursor() <= final(self).cells().len(),
            valid_draft(final(self).slots(), final(self).draft_mask()),
            final(self).cells().len() == drafted_slots(final(self).slots(), final(self).draft_mask()).len(),
            forall|i: int| 0 <= i < final(self).cells().len()
                ==> (#[trigger] final(self).cells()[i]).slot() == drafted_slots(final(self).slots(), final(self).draft_mask())[i],
            !old(self).done() ==> final(self).pending_draft() < old(self).pending_draft()
                || (final(self).pending_draft() == old(self).pending_draft()
                    && (steps_total(final(self).cells()) < steps_total(old(self).cells())
                        || (steps_total(final(self).cells()) == steps_total(old(self).cells())
                            && cursor_gap(final(self).cells(), final(self).cursor())
                                < cursor_gap(old(self).cells(), old(self).cursor())))),
    {
        if !self.drafted {
            self.create_syllable(rng);
        }
        self.seed(rng);
        if self.is_collapsed() {
            return;
        }
        if self.index == self.syllable.len() {
            self.index = 0;
        }
        let ghost mid = self.syllable@;
        let ghost cursor = self.index;
        proof {
            if mid[cursor as int].collapsed() {
                lemma_gap_step(mid, cursor as int);
            }
        }
        self.observe(self.index, rng);
        self.index = self.index + 1;
    }

    /// The syllable: the letter of each cell in slot order, joined, without
    /// leading or trailing white space.
    pub fn extract(&self) -> (r: String)
        requires
            self.wf(),
            self.done(),
        ensures
            is_syllable_of(self.slots(), self.consonant_letters(), self.vowel_letters(), self.nasal_letters(),
                self.draft_mask(), self.letters()),
            r@ == trimmed(joined(self.letters())),
            r@.len() <= joined(self.letters()).len(),
            self.cells().len() == 0 ==> r@.len() == 0,
            single_chars(self.consonant_letters()) && single_chars(self.vowel_letters()) && single_chars(self.nasal_letters())
                ==> r@.len() <= self.cells().len(),
    {
        let ghost order = self.order.0@;
        let ghost c = texts(self.consonants@);
        let ghost v = texts(self.vowels@);
        let ghost n = texts(self.nasal@);
        let ghost letters = self.letters();
        proof {
            assert forall|i: int| 0 <= i < letters.len() implies alphabet_of(
                drafted_slots(order, self.draft@)[i].category(), c, v, n).contains(#[trigger] letters[i]) by {
                let slot = drafted_slots(order, self.draft@)[i];
                let cell = self.syllable@[i];
                assert(cell_ok(cell, slot, c, v, n));
                assert(cell.collapsed());
                assert(letters[i] == cell.candidates()[0]);
                if !cell.constrained() {
                    lemma_drafted_from(order, self.draft@, i);
                    lemma_keep_in_union(c, v, n, slot.category());
                    let alpha = alphabet_of(slot.category(), c, v, n);
                    let u = union_of(c, v, n);
                    let k = choose|k: int| 0 <= k < u.len() && u[k] == alpha[0];
                    assert(u[k] == u[0]);
                }
            }
        }
        let mut out = String::new();
        let mut i: usize = 0;
        while i < self.syllable.len()
            invariant
                self.wf(),
                self.done(),
                letters == self.letters(),
                i <= self.syllable@.len(),
                out@ == joined(letters.subrange(0, i as int)),
            decreases self.syllable@.len() - i,
        {
            assert(self.cells()[i as int].collapsed());
            assert(cell_ok(self.syllable@[i as int], drafted_slots(self.order.0@, self.draft@)[i as int],
                texts(self.consonants@), texts(self.vowels@), texts(self.nasal@)));
            let letter = self.syllable[i].get_letters();
            assert(letter@[0]@ == letters[i as int]);
            out.append(letter[0].as_str());
            assert(letters.subrange(0, i + 1).drop_last() =~= letters.subrange(0, i as int));
            i = i + 1;
        }
        assert(letters.subrange(0, i as int) =~= letters);
        proof {
            if single_chars(c) && single_chars(v) && single_chars(n) {
                assert forall|j: int| 0 <= j < letters.len() implies (#[trigger] letters[j]).len() == 1 by {
                    let alpha = alphabet_of(drafted_slots(order, self.draft@)[j].category(), c, v, n);
                    let k = choose|k: int| 0 <= k < alpha.len() && alpha[k] == letters[j];
                    assert(alpha[k].len() == 1);
                }
                lemma_concat_single(letters);
            }
        }
        proof {
            lemma_trimmed(out@);
        }
        trim(&out)
    }
}

/// In a session whose slots' categories each have two letters or more, every
/// cell is narrowed once and collapsed once: a session that has collapsed made
/// exactly two observations that changed a cell for each of its cells, and
/// each of its cells was narrowed to its category.
pub proof fn lemma_observation_count(g: SyllableGenerator)
    requires
        g.wf(),
        g.done(),
        slots_plenty(g.slots(), g.consonant_letters(), g.vowel_letters(), g.nasal_letters()),
    ensures
        g.observations() == 2 * g.cells().len(),
        forall|i: int| 0 <= i < g.cells().len() ==> (#[trigger] g.cells()[i]).constrained(),
{
    lemma_steps_zero(g.cells());
    let order = g.order.0@;
    let c = texts(g.consonants@);
    let v = texts(g.vowels@);
    let n = texts(g.nasal@);
    assert forall|i: int| 0 <= i < g.cells().len() implies (#[trigger] g.cells()[i]).constrained() by {
        let slot = drafted_slots(order, g.draft@)[i];
        assert(cell_ok(g.syllable@[i], slot, c, v, n));
        assert(g.cells()[i].collapsed());
        lemma_drafted_from(order, g.draft@, i);
        lemma_keep_in_union(c, v, n, slot.category());
    }
}

/// A copy of the shape's slots.
fn copy_order(order: &SyllableOrder) -> (r: SyllableOrder)
    ensures
        r.0@ == order.0@,
{
    let mut slots: Vec<SyllableLetter> = Vec::new();
    let mut i: usize = 0;
    while i < order.0.len()
        invariant
            i <= order.0@.len(),
            slots@ == order.0@.subrange(0, i as int),
        decreases order.0@.len() - i,
    {
        slots.push(order.0[i]);
        assert(slots@ =~= order.0@.subrange(0, i + 1));
        i = i + 1;
    }
    assert(slots@ =~= order.0@);
    SyllableOrder(slots)
}

/// A copy of a list of letters.
fn copy_letters(from: &[String]) -> (r: Vec<String>)
    ensures
        texts(r@) == texts(from@),
{
    let mut out: Vec<String> = Vec::new();
    append_copies(&mut out, from);
    assert(texts(out@) =~= texts(from@));
    out
}

impl SyllableOrder {
    /// Runs one session of the collapse engine on this shape and returns its
    /// syllable, or `None` when the syllable is empty.
    pub fn generate(&self, consonants: &[String], vowels: &[String], nasal: &[String]) -> (r: Option<String>)
        requires
            slots_ready(self.0@, texts(consonants@), texts(vowels@), texts(nasal@)),
        ensures
            exists|mask: Seq<bool>, letters: Seq<Seq<char>>|
                #[trigger] is_syllable_of(self.0@, texts(consonants@), texts(vowels@), texts(nasal@), mask, letters)
                && match r {
                    Some(s) => s@ == trimmed(joined(letters)) && s@.len() > 0 && s@.len() <= joined(letters).len(),
                    None => trimmed(joined(letters)).len() == 0,
                },
    {
        let mut rng = thread_rng();
        let mut gen = SyllableGenerator::new(copy_order(self), copy_letters(consonants), copy_letters(vowels), copy_letters(nasal));
        while !gen.is_collapsed()
            invariant
                gen.wf(),
                gen.slots() == self.0@,
                gen.consonant_letters() == texts(consonants@),
                gen.vowel_letters() == texts(vowels@),
                gen.nasal_letters() == texts(nasal@),
            decreases gen.pending_draft(), steps_total(gen.cells()), cursor_gap(gen.cells(), gen.cursor()),
        {
            gen.iterate(&mut rng);
        }
        let output = gen.extract();
        if output.as_str().is_empty() {
            None
        } else {
            Some(output)
        }
    }
}

/// Puts a copy of each letter of `from` at the end of `out`.
fn append_copies(out: &mut Vec<String>, from: &[String])
    ensures
        texts(final(out)@) == texts(old(out)@) + texts(from@),
{
    let ghost start = old(out)@;
    let mut i: usize = 0;
    while i < from.len()
        invariant
            i <= from@.len(),
            texts(out@) == texts(start) + texts(from@).subrange(0, i as int),
        decreases from@.len() - i,
    {
        let ghost before = out@;
        let item = from[i].clone();
        out.push(item);
        assert(out@ == before.push(from@[i as int]));
        assert(texts(out@) =~= texts(before).push(from@[i as int]@));
        assert(texts(out@) =~= texts(start) + texts(from@).subrange(0, i + 1));
        i = i + 1;
    }
    assert(texts(from@).subrange(0, i as int) =~= texts(from@));
}

} // verus!
