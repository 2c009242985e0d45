use vstd::prelude::*;
use rand::rngs::ThreadRng;
use crate::letter::{Category, SyllableLetter};
use crate::random::below;

verus! {

/// The texts of a list of letters.
pub open spec fn texts(v: Seq<String>) -> Seq<Seq<char>> {
    v.map_values(|s: String| s@)
}

/// The letters of `cands` that also stand in `alphabet`, in their order.
pub open spec fn keep_in(cands: Seq<Seq<char>>, alphabet: Seq<Seq<char>>) -> Seq<Seq<char>>
    decreases cands.len(),
{
    if cands.len() == 0 {
        cands
    } else if alphabet.contains(cands.last()) {
        keep_in(cands.drop_last(), alphabet).push(cands.last())
    } else {
        keep_in(cands.drop_last(), alphabet)
    }
}

/// The alphabet of a category among the three.
pub open spec fn alphabet_of(cat: Category, consonants: Seq<Seq<char>>, vowels: Seq<Seq<char>>, nasal: Seq<Seq<char>>) -> Seq<Seq<char>> {
    match cat {
        Category::Consonant => consonants,
        Category::Vowel => vowels,
        Category::Nasal => nasal,
    }
}

/// The three alphabets one after another: the letters a fresh cell may become.
pub open spec fn union_of(consonants: Seq<Seq<char>>, vowels: Seq<Seq<char>>, nasal: Seq<Seq<char>>) -> Seq<Seq<char>> {
    consonants + vowels + nasal
}

proof fn lemma_keep_in_add(a: Seq<Seq<char>>, b: Seq<Seq<char>>, alphabet: Seq<Seq<char>>)
    ensures
        keep_in(a + b, alphabet) == keep_in(a, alphabet) + keep_in(b, alphabet),
    decreases b.len(),
{
    if b.len() == 0 {
        assert(a + b =~= a);
        assert(keep_in(a, alphabet) + keep_in(b, alphabet) =~= keep_in(a, alphabet));
    } else {
        assert((a + b).drop_last() =~= a + b.drop_last());
        assert((a + b).last() == b.last());
        lemma_keep_in_add(a, b.drop_last(), alphabet);
        if alphabet.contains(b.last()) {
            assert(keep_in(a, alphabet) + keep_in(b.drop_last(), alphabet).push(b.last())
                =~= (keep_in(a, alphabet) + keep_in(b.drop_last(), alphabet)).push(b.last()));
        }
    }
}

proof fn lemma_keep_in_all(s: Seq<Seq<char>>, alphabet: Seq<Seq<char>>)
    requires
        forall|j: int| 0 <= j < s.len() ==> alphabet.contains(#[trigger] s[j]),
    ensures
        keep_in(s, alphabet) == s,
    decreases s.len(),
{
    if s.len() > 0 {
        assert(alphabet.contains(s[s.len() - 1]));
        lemma_keep_in_all(s.drop_last(), alphabet);
        assert(s.drop_last().push(s.last()) =~= s);
    }
}

/// What `keep_in` keeps stands in the alphabet.
pub proof fn lemma_keep_in_members(s: Seq<Seq<char>>, alphabet: Seq<Seq<char>>)
    ensures
        forall|j: int| 0 <= j < keep_in(s, alphabet).len() ==> alphabet.contains(#[trigger] keep_in(s, alphabet)[j]),
    decreases s.len(),
{
    if s.len() > 0 {
        lemma_keep_in_members(s.drop_last(), alphabet);
        let k = keep_in(s, alphabet);
        let r = keep_in(s.drop_last(), alphabet);
        assert forall|j: int| 0 <= j < k.len() implies alphabet.contains(#[trigger] k[j]) by {
            if j < r.len() {
                assert(k[j] == r[j]);
            }
        }
    }
}

/// Narrowing the union of the alphabets to one of them keeps at least that
/// alphabet's letters, and the union holds them all.
pub proof fn lemma_keep_in_union(consonants: Seq<Seq<char>>, vowels: Seq<Seq<char>>, nasal: Seq<Seq<char>>, cat: Category)
    ensures
        keep_in(union_of(consonants, vowels, nasal), alphabet_of(cat, consonants, vowels, nasal)).len()
            >= alphabet_of(cat, consonants, vowels, nasal).len(),
        union_of(consonants, vowels, nasal).len() >= alphabet_of(cat, consonants, vowels, nasal).len(),
        forall|j: int| 0 <= j < alphabet_of(cat, consonants, vowels, nasal).len()
            ==> union_of(consonants, vowels, nasal).contains(#[trigger] alphabet_of(cat, consonants, vowels, nasal)[j]),
{
    let alpha = alphabet_of(cat, consonants, vowels, nasal);
    let u = union_of(consonants, vowels, nasal);
    lemma_keep_in_add(consonants + vowels, nasal, alpha);
    lemma_keep_in_add(consonants, vowels, alpha);
    lemma_keep_in_all(alpha, alpha);
    assert forall|j: int| 0 <= j < alpha.len() implies u.contains(#[trigger] alpha[j]) by {
        match cat {
            Category::Consonant => assert(u[j] == alpha[j]),
            Category::Vowel => assert(u[consonants.len() + j] == alpha[j]),
            Category::Nasal => assert(u[consonants.len() + vowels.len() + j] == alpha[j]),
        }
    }
}

/// One live slot of a syllable being made: its slot, the letters it may still
/// become, and whether it has been narrowed to its category yet.
#[derive(Debug)]
pub struct LetterGenerator {
    kind: SyllableLetter,
    possible: Vec<String>,
    pruned: bool,
}

impl LetterGenerator {
    /// The slot that this cell stands for.
    pub closed spec fn slot(&self) -> SyllableLetter {
        self.kind
    }

    /// The letters this cell may still become.
    pub closed spec fn candidates(&self) -> Seq<Seq<char>> {
        texts(self.possible@)
    }

    /// Whether the cell has been narrowed to its category.
    pub closed spec fn constrained(&self) -> bool {
        self.pruned
    }

    /// A cell is collapsed when one letter is left.
    pub open spec fn collapsed(&self) -> bool {
        self.candidates().len() == 1
    }

    /// How many effective observations the cell still needs: two before it is
    /// narrowed, one after, none once collapsed (as long as each step leaves
    /// two letters or more).
    pub open spec fn steps_left(&self) -> nat {
        if self.collapsed() {
            0
        } else if self.constrained() {
            1
        } else {
            2
        }
    }

    /// A fresh cell for `kind`, in superposition over `list`.
    pub fn new(kind: SyllableLetter, list: Vec<String>) -> (r: Self)
        ensures
            r.slot() == kind,
            r.candidates() == texts(list@),
            !r.constrained(),
    {
        Self { kind, possible: list, pruned: false }
    }

    /// Keeps the candidates that stand in `list`, and marks the cell narrowed.
    fn prune(&mut self, list: &[String])
        ensures
            final(self).slot() == old(self).slot(),
            final(self).candidates() == keep_in(old(self).candidates(), texts(list@)),
            final(self).constrained(),
    {
        let ghost alpha = texts(list@);
        let mut kept: Vec<String> = Vec::new();
        let mut i: usize = 0;
        while i < self.possible.len()
            invariant
                i <= self.possible@.len(),
                self.possible == old(self).possible,
                alpha == texts(list@),
                texts(kept@) == keep_in(texts(self.possible@).subrange(0, i as int), alpha),
            decreases self.possible@.len() - i,
        {
            let ghost before = texts(self.possible@).subrange(0, i as int);
            let ghost after = texts(self.possible@).subrange(0, i + 1);
            assert(after.drop_last() =~= before);
            let mut found = false;
            let mut j: usize = 0;
            while j < list.len()
                invariant
                    i < self.possible@.len(),
                    j <= list@.len(),
                    alpha == texts(list@),
                    found == exists|m: int| 0 <= m < j && alpha[m] == self.possible@[i as int]@,
                decreases list@.len() - j,
            {
                assert(alpha[j as int] == list@[j as int]@);
                if list[j] == self.possible[i] {
                    found = true;
                }
                j = j + 1;
            }
            assert(found == alpha.contains(after.last())) by {
                if alpha.contains(after.last()) {
                    let m = choose|m: int| 0 <= m < alpha.len() && alpha[m] == after.last();
                    assert(alpha[m] == self.possible@[i as int]@);
                }
            }
            if found {
                kept.push(self.possible[i].clone());
                assert(texts(kept@) =~= keep_in(before, alpha).push(after.last()));
            }
            i = i + 1;
        }
        assert(texts(self.possible@).subrange(0, i as int) =~= texts(self.possible@));
        self.possible = kept;
        self.pruned = true;
    }

    /// Narrows the cell to the letter at `index`: the choice that a random draw
    /// makes when a narrowed cell collapses.
    pub fn collapse_to(&mut self, index: usize)
        requires
            index < old(self).candidates().len(),
        ensures
            final(self).slot() == old(self).slot(),
            final(self).constrained() == old(self).constrained(),
            final(self).candidates() == seq![old(self).candidates()[index as int]],
    {
        let item = self.possible[index].clone();
        self.possible = vec![item];
        assert(texts(self.possible@) =~= seq![old(self).candidates()[index as int]]);
    }

    /// Observes the cell once: a cell not yet narrowed keeps the candidates
    /// of its own category and is marked narrowed; a narrowed cell with one
    /// candidate stays as it is; a narrowed cell with more collapses to one of
    /// its candidates, drawn at random.
    pub fn select(&mut self, rng: &mut ThreadRng, consonants: &[String], vowels: &[String], nasal: &[String])
        requires
            old(self).constrained() ==> old(self).candidates().len() > 0,
        ensures
            final(self).slot() == old(self).slot(),
            final(self).constrained(),
            !old(self).constrained() ==> final(self).candidates() == keep_in(
                old(self).candidates(),
                alphabet_of(old(self).slot().category(), texts(consonants@), texts(vowels@), texts(nasal@)),
            ),
            old(self).constrained() && old(self).collapsed() ==> final(self).candidates() == old(self).candidates(),
            old(self).constrained() && !old(self).collapsed() ==> exists|k: int|
                0 <= k < old(self).candidates().len() && final(self).candidates() == seq![old(self).candidates()[k]],
    {
        if self.pruned {
            if self.is_collapsed() {
                return;
            }
            let index = below(rng, self.possible.len());
            self.collapse_to(index);
        } else {
            let proper_list = match self.kind {
                SyllableLetter::Consonant(_) => consonants,
                SyllableLetter::Vowel(_) => vowels,
                SyllableLetter::Nasal(_) => nasal,
            };
            self.prune(proper_list);
        }
    }

    /// The letters the cell may still become.
    pub fn get_letters(&self) -> (r: Vec<String>)
        ensures
            texts(r@) == self.candidates(),
    {
        let mut r: Vec<String> = Vec::new();
        let mut i: usize = 0;
        while i < self.possible.len()
            invariant
                i <= self.possible@.len(),
                texts(r@) == texts(self.possible@).subrange(0, i as int),
            decreases self.possible@.len() - i,
        {
            let ghost before = r@;
            let item = self.possible[i].clone();
            r.push(item);
            assert(r@ == before.push(self.possible@[i as int]));
            assert(texts(r@) =~= texts(before).push(self.possible@[i as int]@));
            assert(texts(r@) =~= texts(self.possible@).subrange(0, i + 1));
            i = i + 1;
        }
        assert(texts(self.possible@).subrange(0, i as int) =~= texts(self.possible@));
        r
    }

    /// One less than the number of candidates; a cell with none breaks the
    /// engine's precondition and is refused.
    pub fn entropy(&self) -> (r: usize)
        requires
            self.candidates().len() > 0,
        ensures
            r == self.candidates().len() - 1,
    {
        self.possible.len() - 1
    }

    /// Whether one candidate is left.
    pub fn is_collapsed(&self) -> (r: bool)
        requires
            self.candidates().len() > 0,
        ensures
            r == self.collapsed(),
    {
        self.entropy() == 0
    }
}

} // verus!
