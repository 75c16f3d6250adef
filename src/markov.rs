use crate::random::{chance, choose_entry, random_index, random_usize};
use crate::repair::{
    balance, balanced, capitalize, lemma_positions_below, listed, marks, positions, set_case, Mark,
};
use crate::table::{
    build, corpus_starts, corpus_transitions, corpus_view, entries_ok, lemma_prefix_transitions,
    ngrams_view, occurrences, weight_of, windows, Entry, TransitionTable,
};
use crate::text::{
    is_lower, lower_of, trimmed, upper_of, blacklisted, chars_of, copy_vec, has_blacklisted, has_space, is_ascii_lower, string_of, trim,
    white_space,
};
use std::collections::hash_map::DefaultHasher;
use std::hash::{Hash, Hasher};
use std::sync::Arc;
use vstd::prelude::*;

verus! {

/// The fingerprint of a corpus: a hash over its strings, in order.
pub uninterp spec fn corpus_fingerprint(c: Seq<Seq<char>>) -> u64;

/// Relies on std's `DefaultHasher`, fed by `Hash::hash_slice` over the
/// strings: a fixed-key hash whose value depends on the strings alone.
#[verifier::external_body]
fn fingerprint(corpus: &Vec<String>) -> (r: u64)
    ensures
        r == corpus_fingerprint(corpus_view(corpus@)),
{
    let mut hasher = DefaultHasher::new();
    Hash::hash_slice(corpus.as_slice(), &mut hasher);
    hasher.finish()
}

/// Why a model could not be built.
#[derive(Clone, Copy, Debug, PartialEq, Eq)]
pub enum BuildError {
    /// The corpus has more transitions than a weight can count.
    CorpusTooLarge,
}

/// The cache artifact of a model: the fingerprint of the corpus it was built
/// from, its transition table and its starting n-grams.
#[derive(Debug)]
pub struct FileData {
    pub corpus_hash: u64,
    pub map: TransitionTable,
    pub starting_ngrams: Vec<Vec<char>>,
}

/// Every n-gram has `n` characters.
pub open spec fn ngrams_sized(v: Seq<Vec<char>>, n: nat) -> bool {
    forall|i: int| 0 <= i < v.len() ==> (#[trigger] v[i])@.len() == n
}

impl FileData {
    /// Whether the artifact can stand for the model of `corpus` with n-grams
    /// of `n` characters.
    pub open spec fn valid_for(&self, corpus: Seq<String>, n: nat) -> bool {
        &&& self.corpus_hash == corpus_fingerprint(corpus_view(corpus))
        &&& self.map.well_formed(n)
        &&& ngrams_sized(self.starting_ngrams@, n)
    }
}

impl FileData {
    /// Whether the artifact can stand for the model of `corpus` with n-grams
    /// of `n` characters: see `valid_for`.
    pub fn is_valid_for(&self, corpus: &Vec<String>, n: usize) -> (r: bool)
        ensures
            r == self.valid_for(corpus@, n as nat),
    {
        self.corpus_hash == fingerprint(corpus) && self.map.is_well_formed(n) && all_sized(
            &self.starting_ngrams,
            n,
        )
    }
}

/// Whether the cached artifact, if any, is valid for the corpus.
pub open spec fn cache_valid(cached: Option<FileData>, corpus: Seq<String>, n: nat) -> bool {
    cached matches Some(d) && d.valid_for(corpus, n)
}

/// Whether all n-grams have `n` characters.
fn all_sized(v: &Vec<Vec<char>>, n: usize) -> (r: bool)
    ensures
        r == ngrams_sized(v@, n as nat),
{
    let mut i: usize = 0;
    while i < v.len()
        invariant
            i <= v@.len(),
            forall|j: int| 0 <= j < i ==> (#[trigger] v@[j])@.len() == n,
        decreases v@.len() - i,
    {
        if v[i].len() != n {
            return false;
        }
        i = i + 1;
    }
    true
}

/// How many transitions the corpus has, where that fits a `u32`.
pub fn transition_count(corpus: &Vec<String>, n: usize, min: usize) -> (r: Option<u32>)
    requires
        1 <= n <= min,
    ensures
        match r {
            Some(x) => x as nat == corpus_transitions(corpus_view(corpus@), n as nat, min as nat).len(),
            None => corpus_transitions(corpus_view(corpus@), n as nat, min as nat).len() > u32::MAX,
        },
{
    let ghost cc = corpus_view(corpus@);
    let mut total: u64 = 0;
    let mut i: usize = 0;
    proof {
        assert(cc.take(0) =~= Seq::<Seq<char>>::empty());
    }
    while i < corpus.len()
        invariant
            1 <= n <= min,
            i <= corpus@.len(),
            cc == corpus_view(corpus@),
            total as nat == corpus_transitions(cc.take(i as int), n as nat, min as nat).len(),
            total <= u32::MAX,
        decreases corpus@.len() - i,
    {
        let len: usize = chars_of(corpus[i].as_str()).len();
        proof {
            assert(cc.take(i + 1).drop_last() =~= cc.take(i as int));
            assert(cc.take(i + 1).last().len() == len);
        }
        if len >= min {
            let add: u64 = (len - n) as u64 + 1;
            proof {
                assert(windows(cc[i as int], n as nat).len() == add);
            }
            if add > 0xffff_ffff - total {
                proof {
                    lemma_prefix_transitions(cc, i + 1);
                    assert(corpus_transitions(cc.take(i + 1), n as nat, min as nat).len() <= corpus_transitions(cc, n as nat, min as nat).len());
                }
                return None;
            }
            total = total + add;
        }
        i = i + 1;
    }
    proof {
        assert(cc.take(i as int) =~= cc);
    }
    Some(total as u32)
}

/// A character-level n-gram model of a corpus.
pub struct Markov {
    pub ngram_size: usize,
    pub minimum_length: usize,
    pub regen_chance: usize,
    pub name: String,
    pub map: TransitionTable,
    pub corpus: Arc<Vec<String>>,
    pub starting_ngrams: Vec<Vec<char>>,
}

impl Markov {
    /// The transition table.
    pub open spec fn table(&self) -> TransitionTable {
        self.map
    }

    /// The starting n-grams.
    pub open spec fn starts(&self) -> Seq<Vec<char>> {
        self.starting_ngrams@
    }

    /// The corpus.
    pub open spec fn corpus_seq(&self) -> Seq<String> {
        self.corpus@
    }

    /// The model's invariant: n-grams have at least one character, the
    /// minimum length is at least the n-gram size, the table is well formed
    /// and each starting n-gram has the n-gram size.
    pub open spec fn inv(&self) -> bool {
        &&& 1 <= self.ngram_size <= self.minimum_length
        &&& self.table().well_formed(self.ngram_size as nat)
        &&& ngrams_sized(self.starts(), self.ngram_size as nat)
    }

    /// Whether the table and starting n-grams are those that the corpus
    /// gives: each weight counts a transition of the corpus.
    pub open spec fn built_from_corpus(&self) -> bool {
        let ts = corpus_transitions(
            corpus_view(self.corpus_seq()),
            self.ngram_size as nat,
            self.minimum_length as nat,
        );
        &&& forall|k: Seq<char>, v: Option<char>|
            #[trigger] weight_of(self.table()@, k, v) == occurrences(ts, k, v)
        &&& ngrams_view(self.starts()) == corpus_starts(
            corpus_view(self.corpus_seq()),
            self.ngram_size as nat,
            self.minimum_length as nat,
        )
    }

    /// Whether the model was loaded for `corpus` given the cached artifact:
    /// from the artifact where it is valid, else built from the corpus.
    pub open spec fn loaded_from(&self, corpus: Seq<String>, cached: Option<FileData>) -> bool {
        &&& self.corpus_seq() == corpus
        &&& if cache_valid(cached, corpus, self.ngram_size as nat) {
            &&& self.table() == cached->0.map
            &&& self.starts() == cached->0.starting_ngrams@
        } else {
            self.built_from_corpus()
        }
    }

    /// Makes the model of `corpus` with n-grams of `ngram_size` characters.
    /// A minimum length below the n-gram size is raised to it. The cached
    /// artifact is used where its fingerprint is that of the corpus and it
    /// is well formed; else the model is built from the corpus, which must
    /// then be non-empty (a model cannot be built from no data) and have no
    /// more transitions than a `u32` counts.
    pub fn new(
        ngram_size: usize,
        minimum_length: usize,
        regen_chance: usize,
        name: String,
        corpus: Arc<Vec<String>>,
        cached: Option<FileData>,
    ) -> (r: Result<Markov, BuildError>)
        requires
            ngram_size >= 1,
            corpus@.len() > 0 || cache_valid(cached, corpus@, ngram_size as nat),
        ensures
            ({
                let min = if minimum_length < ngram_size {
                    ngram_size
                } else {
                    minimum_length
                };
                let valid = cache_valid(cached, corpus@, ngram_size as nat);
                let len = corpus_transitions(corpus_view(corpus@), ngram_size as nat, min as nat).len();
                match r {
                    Ok(m) => {
                        &&& m.inv()
                        &&& m.ngram_size == ngram_size
                        &&& m.minimum_length == min
                        &&& m.regen_chance == regen_chance
                        &&& m.name == name
                        &&& m.loaded_from(corpus@, cached)
                        &&& (valid || len <= u32::MAX)
                    },
                    Err(BuildError::CorpusTooLarge) => !valid && len > u32::MAX,
                }
            }),
    {
        let min = if minimum_length < ngram_size {
            ngram_size
        } else {
            minimum_length
        };
        match cached {
            Some(d) => {
                if d.is_valid_for(&corpus, ngram_size) {
                    return Ok(
                        Markov {
                            ngram_size,
                            minimum_length: min,
                            regen_chance,
                            name,
                            map: d.map,
                            corpus,
                            starting_ngrams: d.starting_ngrams,
                        },
                    );
                }
            },
            None => {},
        }
        match transition_count(&corpus, ngram_size, min) {
            None => Err(BuildError::CorpusTooLarge),
            Some(_) => {
                let (map, starting_ngrams) = build(&corpus, ngram_size, min);
                let m = Markov {
                    ngram_size,
                    minimum_length: min,
                    regen_chance,
                    name,
                    map,
                    corpus,
                    starting_ngrams,
                };
                proof {
                    assert forall|i: int| 0 <= i < m.starts().len() implies (#[trigger] m.starts()[i])@.len()
                        == ngram_size by {
                        lemma_starts_sized(corpus_view(corpus@), ngram_size as nat, min as nat, i);
                        assert(ngrams_view(m.starts())[i] == m.starts()[i]@);
                    }
                }
                Ok(m)
            },
        }
    }
}

impl Markov {
    /// Whether `d` is this model's artifact: the fingerprint of its corpus,
    /// a copy of its table and of its starting n-grams.
    pub open spec fn is_artifact(&self, d: FileData) -> bool {
        &&& d.corpus_hash == corpus_fingerprint(corpus_view(self.corpus_seq()))
        &&& same_slots(d.map@, self.table()@)
        &&& ngrams_view(d.starting_ngrams@) == ngrams_view(self.starts())
    }

    /// The artifact to cache for this model.
    pub fn file_data(&self) -> (r: FileData)
        requires
            self.inv(),
        ensures
            self.is_artifact(r),
            r.valid_for(self.corpus_seq(), self.ngram_size as nat),
    {
        let corpus_hash = fingerprint(&self.corpus);
        let map = copy_table(&self.map);
        let starting_ngrams = copy_ngrams(&self.starting_ngrams);
        let r = FileData { corpus_hash, map, starting_ngrams };
        proof {
            assert forall|i: int| 0 <= i < r.starting_ngrams@.len() implies (#[trigger] r.starting_ngrams@[i])@.len()
                == self.ngram_size by {
                assert(ngrams_view(r.starting_ngrams@).len() == ngrams_view(self.starts()).len());
                assert(ngrams_view(r.starting_ngrams@)[i] == ngrams_view(self.starts())[i]);
                assert(self.starts()[i]@.len() == self.ngram_size);
            }
            assert(r.map.well_formed(self.ngram_size as nat));
        }
        r
    }

    /// The sampler: a continuation of `key` drawn by weight, or `None` where
    /// the table has no such key or the drawn continuation ends the string.
    pub fn get_value(&self, key: &Vec<char>) -> (r: Option<char>)
        requires
            self.inv(),
        ensures
            r matches Some(c) ==> continues(self.table()@, key@, c),
            r is None && (exists|i: int| 0 <= i < self.table()@.len() && (#[trigger] self.table()@[i]).0@ == key@)
                ==> ends(self.table()@, key@),
            (forall|i: int| 0 <= i < self.table()@.len() ==> (#[trigger] self.table()@[i]).0@ != key@)
                ==> r is None,
    {
        match self.map.find(key) {
            None => None,
            Some(i) => {
                proof {
                    assert(entries_ok(self.table()@[i as int].1@));
                    assert(self.table()@[i as int].1@[0].weight > 0);
                }
                match choose_entry(&self.map.slots[i].1) {
                    Some(Some(c)) => Some(c),
                    _ => None,
                }
            },
        }
    }
}

/// The table has `k` as a key with `c` among its continuations.
pub open spec fn continues(t: crate::table::Slots, k: Seq<char>, c: char) -> bool {
    exists|i: int, j: int|
        0 <= i < t.len() && t[i].0@ == k && 0 <= j < t[i].1@.len() && (#[trigger] t[i].1@[j]).ch
            == Some(c)
}

/// The table has `k` as a key with the end of a string among its
/// continuations.
pub open spec fn ends(t: crate::table::Slots, k: Seq<char>) -> bool {
    exists|i: int, j: int|
        0 <= i < t.len() && t[i].0@ == k && 0 <= j < t[i].1@.len() && (#[trigger] t[i].1@[j]).ch
            is None
}

/// Two tables with the same keys and entry lists, slot by slot.
pub open spec fn same_slots(a: crate::table::Slots, b: crate::table::Slots) -> bool {
    &&& a.len() == b.len()
    &&& forall|i: int| 0 <= i < a.len() ==> (#[trigger] a[i]).0@ == b[i].0@ && a[i].1@ == b[i].1@
}

fn copy_ngrams(v: &Vec<Vec<char>>) -> (r: Vec<Vec<char>>)
    ensures
        ngrams_view(r@) == ngrams_view(v@),
{
    let mut r: Vec<Vec<char>> = Vec::new();
    let mut i: usize = 0;
    while i < v.len()
        invariant
            i <= v@.len(),
            r@.len() == i,
            ngrams_view(r@) == ngrams_view(v@.take(i as int)),
        decreases v@.len() - i,
    {
        let ghost r0 = r@;
        let g = copy_vec(&v[i]);
        r.push(g);
        proof {
            assert forall|j: int| 0 <= j < r0.len() implies r0[j]@ == v@[j]@ by {
                assert(ngrams_view(r0)[j] == ngrams_view(v@.take(i as int))[j]);
            }
        }
        i = i + 1;
        assert(ngrams_view(r@) =~= ngrams_view(v@.take(i as int)));
    }
    assert(v@.take(i as int) =~= v@);
    r
}

fn copy_table(t: &TransitionTable) -> (r: TransitionTable)
    ensures
        same_slots(r@, t@),
{
    let mut slots: Vec<(Vec<char>, Vec<Entry>)> = Vec::new();
    let mut i: usize = 0;
    while i < t.slots.len()
        invariant
            i <= t@.len(),
            slots@.len() == i,
            forall|j: int| 0 <= j < i ==> (#[trigger] slots@[j]).0@ == t@[j].0@ && slots@[j].1@ == t@[j].1@,
        decreases t@.len() - i,
    {
        slots.push((copy_vec(&t.slots[i].0), copy_vec(&t.slots[i].1)));
        i = i + 1;
    }
    TransitionTable { slots }
}

/// Loading a model a second time, from the artifact of a first load of the
/// same corpus, gives the same table and the same starting n-grams.
pub proof fn lemma_reload_same_model(
    m1: Markov,
    m2: Markov,
    d: FileData,
    corpus: Seq<String>,
    cached: Option<FileData>,
)
    requires
        m1.inv(),
        m1.loaded_from(corpus, cached),
        m1.is_artifact(d),
        m2.ngram_size == m1.ngram_size,
        m2.loaded_from(corpus, Some(d)),
    ensures
        same_slots(m2.table()@, m1.table()@),
        ngrams_view(m2.starts()) == ngrams_view(m1.starts()),
{
    assert(d.map.well_formed(m1.ngram_size as nat));
    assert forall|i: int| 0 <= i < d.starting_ngrams@.len() implies (#[trigger] d.starting_ngrams@[i])@.len()
        == m1.ngram_size by {
        assert(ngrams_view(d.starting_ngrams@).len() == ngrams_view(m1.starts()).len());
        assert(ngrams_view(d.starting_ngrams@)[i] == ngrams_view(m1.starts())[i]);
        assert(m1.starts()[i]@.len() == m1.ngram_size);
    }
    assert(cache_valid(Some(d), corpus, m2.ngram_size as nat));
}

/// The style choices of one generation attempt.
#[derive(Clone, Copy, Debug, PartialEq, Eq)]
pub struct Style {
    /// The output must hold a space.
    pub must_have_space: bool,
    /// Every word is to start with a capital.
    pub force_capitalization: bool,
    /// Word starts are to be brought to one case.
    pub force_case_homogeneity: bool,
}

/// Why no string was generated.
#[derive(Clone, Copy, Debug, PartialEq, Eq)]
pub enum GenerateError {
    /// Every attempt was rejected.
    Exhausted,
}

/// How many attempts `generate` makes before it gives up.
pub const MAX_ATTEMPTS: usize = 100000;

/// The longest raw candidate that the filter lets through.
pub const MAX_RAW_LENGTH: usize = 70;

/// The longest output.
pub const MAX_OUTPUT_LENGTH: usize = 32;

/// The key after `key` once `c` was drawn: the window slides by one.
pub open spec fn slide(key: Seq<char>, c: char) -> Seq<char> {
    key.drop_first().push(c)
}

/// Whether a roll of the generator makes the rolling key jump to a fresh
/// starting n-gram.
pub open spec fn jumps(roll: usize, regen_chance: usize) -> bool {
    roll % 100 < regen_chance
}

/// Slides the key window: drops its first character and appends `c`.
pub fn next_key(key: &Vec<char>, c: char) -> (r: Vec<char>)
    requires
        key@.len() >= 1,
    ensures
        r@ == slide(key@, c),
{
    let mut r: Vec<char> = Vec::new();
    let mut i: usize = 1;
    while i < key.len()
        invariant
            1 <= i <= key@.len(),
            r@ == key@.subrange(1, i as int),
        decreases key@.len() - i,
    {
        r.push(key[i]);
        i = i + 1;
        assert(r@ =~= key@.subrange(1, i as int));
    }
    r.push(c);
    assert(r@ =~= slide(key@, c));
    r
}

/// Whether the roll makes the key jump: with probability
/// `regen_chance / 100` for a uniform roll.
pub fn regenerates(roll: usize, regen_chance: usize) -> (r: bool)
    ensures
        r == jumps(roll, regen_chance),
{
    roll % 100 < regen_chance
}

/// With a regen chance of zero the rolling key never jumps: every
/// continuation slides the window.
pub proof fn lemma_zero_regen_never_jumps(roll: usize)
    ensures
        !jumps(roll, 0),
{
}

/// The filter on raw candidates: long enough, at most seventy characters,
/// and free of blacklisted words.
pub fn passes_filter(raw: &Vec<char>, minimum_length: usize) -> (r: bool)
    ensures
        r == (minimum_length <= raw@.len() <= MAX_RAW_LENGTH && !has_blacklisted(raw@)),
{
    raw.len() >= minimum_length && raw.len() <= MAX_RAW_LENGTH && !blacklisted(raw)
}

/// Every character of `r` after the first `n` is a continuation, in the
/// table, of the `n` characters before it.
pub open spec fn walk(t: crate::table::Slots, r: Seq<char>, n: nat) -> bool {
    forall|i: int| n <= i < r.len() ==> continues(t, r.subrange(i - n, i), #[trigger] r[i])
}

impl Markov {
    /// A raw candidate: a random starting n-gram, followed by what the
    /// sampler draws, until it draws no continuation or the candidate is
    /// longer than the filter allows. After each drawn character the key
    /// slides, or, on a roll under the regen chance, jumps to a fresh
    /// starting n-gram.
    pub fn sample_raw(&self) -> (r: Vec<char>)
        requires
            self.inv(),
            self.starts().len() > 0,
        ensures
            self.candidate_of(r@),
    {
        let n = self.ngram_size;
        let s = random_index(self.starting_ngrams.len());
        let mut key = copy_vec(&self.starting_ngrams[s]);
        let mut result = copy_vec(&key);
        let mut going = true;
        proof {
            assert(result@.subrange(0, n as int) =~= result@);
        }
        while going && result.len() <= MAX_RAW_LENGTH
            invariant
                self.inv(),
                n == self.ngram_size,
                s < self.starts().len(),
                self.starts().len() > 0,
                key@.len() == n,
                result@.len() >= n,
                result@.subrange(0, n as int) == self.starts()[s as int]@,
                self.regen_chance == 0 ==> key@ == result@.subrange(result@.len() - n, result@.len() as int),
                self.regen_chance == 0 ==> walk(self.table()@, result@, n as nat),
                !going ==> stops(self.table()@, key@),
                forall|i: int| n <= i < result@.len() ==> follows_some_key(self.table()@, #[trigger] result@[i]),
                self.regen_chance >= 100 ==> exists|j: int|
                    0 <= j < self.starts().len() && (#[trigger] self.starts()[j])@ == key@,
                self.regen_chance >= 100 ==> forall|i: int|
                    n <= i < result@.len() ==> self.follows_start(#[trigger] result@[i]),
            decreases 2 * (MAX_RAW_LENGTH + 1 - result@.len()) + if going { 1int } else { 0int },
        {
            match self.get_value(&key) {
                Some(c) => {
                    let ghost r0 = result@;
                    result.push(c);
                    proof {
                        assert(result@.subrange(0, n as int) =~= r0.subrange(0, n as int));
                        if self.regen_chance == 0 {
                            assert forall|i: int| n <= i < result@.len() implies continues(
                                self.table()@,
                                result@.subrange(i - n, i),
                                #[trigger] result@[i],
                            ) by {
                                assert(result@.subrange(i - n, i) =~= r0.subrange(i - n, i)) by {
                                    if i < r0.len() {
                                    }
                                }
                                if i == r0.len() {
                                    assert(r0.subrange(i - n, i) == key@);
                                }
                            }
                        }
                        assert forall|i: int| n <= i < result@.len() implies follows_some_key(
                            self.table()@,
                            #[trigger] result@[i],
                        ) by {
                            if i == r0.len() {
                                assert(continues(self.table()@, key@, result@[i]));
                            } else {
                                assert(result@[i] == r0[i]);
                            }
                        }
                        if self.regen_chance >= 100 {
                            assert forall|i: int| n <= i < result@.len() implies self.follows_start(
                                #[trigger] result@[i],
                            ) by {
                                if i == r0.len() {
                                    let j = choose|j: int|
                                        0 <= j < self.starts().len() && (#[trigger] self.starts()[j])@ == key@;
                                    assert(continues(self.table()@, self.starts()[j]@, result@[i]));
                                } else {
                                    assert(result@[i] == r0[i]);
                                }
                            }
                        }
                    }
                    let roll = random_usize();
                    if regenerates(roll, self.regen_chance) {
                        let f = random_index(self.starting_ngrams.len());
                        key = copy_vec(&self.starting_ngrams[f]);
                        proof {
                            assert(self.starts()[f as int]@ == key@);
                        }
                    } else {
                        proof {
                            assert(roll % 100 < 100);
                        }
                        key = next_key(&key, c);
                        proof {
                            if self.regen_chance == 0 {
                                assert(key@ =~= result@.subrange(result@.len() - n, result@.len() as int));
                            }
                        }
                    }
                },
                None => {
                    going = false;
                },
            }
        }
        proof {
            assert(exists|i: int| 0 <= i < self.starts().len() && (#[trigger] self.starts()[i])@
                == result@.subrange(0, n as int)) by {
                assert(self.starts()[s as int]@ == result@.subrange(0, n as int));
            }
        }
        result
    }

    /// One generation attempt with the given style: a raw candidate is
    /// sampled, the case coin and the brace picks are drawn, and `finish`
    /// decides on the output.
    pub fn attempt(&self, style: Style) -> (r: Option<String>)
        requires
            self.inv(),
            self.starts().len() > 0,
        ensures
            exists|raw: Seq<char>, to_lower: bool, picks: Seq<usize>|
                #[trigger] self.produced(raw, style, to_lower, picks, str_view(r)),
            r matches Some(s) ==> acceptable(s@, style) && exists|raw: Seq<char>|
                self.outcome_of(raw, s@),
    {
        let raw = self.sample_raw();
        let (l, u) = case_counts(&raw);
        let to_lower = if u + 3 * l > 0 {
            chance(3 * l, u + 3 * l)
        } else {
            false
        };
        let mut picks: Vec<usize> = Vec::new();
        let mut k: usize = 0;
        while k < MAX_OUTPUT_LENGTH
            decreases MAX_OUTPUT_LENGTH - k,
        {
            picks.push(random_usize());
            k = k + 1;
        }
        match finish(&raw, self.minimum_length, style, to_lower, &picks) {
            Some(out) => {
                let s = string_of(&out);
                proof {
                    assert(self.outcome_of(raw@, s@));
                    assert(self.produced(raw@, style, to_lower, picks@, Some(s@)));
                }
                Some(s)
            },
            None => {
                proof {
                    assert(self.produced(raw@, style, to_lower, picks@, None));
                }
                None
            },
        }
    }

    /// Whether `r` is what an attempt gives for the raw candidate `raw`, the
    /// case coin `to_lower` and the brace picks: `raw` is a candidate that
    /// `sample_raw` may give, and `r` is what `finish` makes of it.
    pub open spec fn produced(
        &self,
        raw: Seq<char>,
        style: Style,
        to_lower: bool,
        picks: Seq<usize>,
        r: Option<Seq<char>>,
    ) -> bool {
        &&& self.candidate_of(raw)
        &&& finished(raw, self.minimum_length, style, to_lower, picks, r)
    }

    /// Whether `s` is an output that this model may give for the raw
    /// candidate `raw`: the candidate is one that `sample_raw` may give,
    /// it passes the filter, and where the part that the repairs work on
    /// holds no bracket, neither does the output.
    pub open spec fn outcome_of(&self, raw: Seq<char>, s: Seq<char>) -> bool {
        &&& self.candidate_of(raw)
        &&& passes(raw, self.minimum_length)
        &&& brace_free(head(raw)) ==> brace_free(s)
    }

    /// Whether `r` is a raw candidate that `sample_raw` may give: it starts
    /// with a starting n-gram. With a regen chance of zero each further
    /// character continues the `n` before it, and a candidate that the
    /// length limit did not stop ends on a key that is absent or may end a
    /// string. With a regen chance of a hundred or more each further
    /// character continues a starting n-gram. Whatever the regen chance, each
    /// further character continues some key of the table.
    pub open spec fn candidate_of(&self, r: Seq<char>) -> bool {
        let n = self.ngram_size as int;
        let t = self.table()@;
        &&& r.len() >= n
        &&& exists|i: int| 0 <= i < self.starts().len() && (#[trigger] self.starts()[i])@ == r.subrange(0, n)
        &&& self.regen_chance == 0 ==> walk(t, r, n as nat)
        &&& self.regen_chance == 0 && r.len() <= MAX_RAW_LENGTH ==> stops(t, r.subrange(r.len() - n, r.len() as int))
        &&& self.regen_chance >= 100 ==> forall|i: int| n <= i < r.len() ==> self.follows_start(#[trigger] r[i])
        &&& forall|i: int| n <= i < r.len() ==> follows_some_key(t, #[trigger] r[i])
    }

    /// `c` is a continuation, in the table, of some starting n-gram.
    pub open spec fn follows_start(&self, c: char) -> bool {
        exists|j: int|
            0 <= j < self.starts().len() && continues(self.table()@, (#[trigger] self.starts()[j])@, c)
    }

    /// Generates a string: attempts with random styles (a space is asked
    /// for nine times in ten, capitals once in three, one case once in two)
    /// until one is accepted, for at most `MAX_ATTEMPTS` attempts. The model
    /// must have a starting n-gram.
    pub fn generate(&self) -> (r: Result<String, GenerateError>)
        requires
            self.inv(),
            self.starts().len() > 0,
        ensures
            r matches Ok(s) ==> {
                &&& 0 < s@.len() <= MAX_OUTPUT_LENGTH
                &&& !has_blacklisted(s@)
                &&& !white_space(s@[0]) && !white_space(s@.last())
                &&& exists|raw: Seq<char>| self.outcome_of(raw, s@)
                &&& exists|style: Style, raw: Seq<char>, to_lower: bool, picks: Seq<usize>|
                    #[trigger] self.produced(raw, style, to_lower, picks, Some(s@))
            },
    {
        let mut k: usize = 0;
        while k < MAX_ATTEMPTS
            invariant
                self.inv(),
                self.starts().len() > 0,
            decreases MAX_ATTEMPTS - k,
        {
            let style = Style {
                must_have_space: chance(9, 10),
                force_capitalization: chance(1, 3),
                force_case_homogeneity: chance(1, 2),
            };
            match self.attempt(style) {
                Some(s) => {
                    return Ok(s);
                },
                None => {},
            }
            k = k + 1;
        }
        Err(GenerateError::Exhausted)
    }
}

/// `c` is a continuation of some key of the table.
pub open spec fn follows_some_key(t: crate::table::Slots, c: char) -> bool {
    exists|k: Seq<char>| continues(t, k, c)
}

/// The filter on raw candidates, as a predicate.
pub open spec fn passes(raw: Seq<char>, minimum_length: usize) -> bool {
    minimum_length <= raw.len() <= MAX_RAW_LENGTH && !has_blacklisted(raw)
}

/// The table has no key `k`, or `k` may end a string.
pub open spec fn stops(t: crate::table::Slots, k: Seq<char>) -> bool {
    (forall|i: int| 0 <= i < t.len() ==> (#[trigger] t[i]).0@ != k) || ends(t, k)
}

/// An output that the final validation accepts: non-empty, at most
/// thirty-two characters, free of blacklisted words, without white space at
/// either end, and with a space where the style asks for one.
pub open spec fn acceptable(s: Seq<char>, style: Style) -> bool {
    &&& 0 < s.len() <= MAX_OUTPUT_LENGTH
    &&& !has_blacklisted(s)
    &&& !white_space(s[0]) && !white_space(s.last())
    &&& style.must_have_space ==> s.contains(' ')
}

/// A bracket or the placeholder that stands for an unknown one.
pub open spec fn is_brace(c: char) -> bool {
    c == '(' || c == ')' || c == '[' || c == ']' || c == '{' || c == '}' || c == '⁋'
}

/// No character of `s` is a bracket or the placeholder.
pub open spec fn brace_free(s: Seq<char>) -> bool {
    forall|i: int| 0 <= i < s.len() ==> !is_brace(#[trigger] s[i])
}

/// The part of a raw candidate that the repairs work on: its first
/// thirty-two characters.
pub open spec fn head(raw: Seq<char>) -> Seq<char> {
    if raw.len() <= MAX_OUTPUT_LENGTH {
        raw
    } else {
        raw.take(MAX_OUTPUT_LENGTH as int)
    }
}

/// The first thirty-two characters of a raw candidate.
fn head_of(raw: &Vec<char>) -> (r: Vec<char>)
    ensures
        r@ == head(raw@),
{
    let mut chars = copy_vec(raw);
    chars.truncate(MAX_OUTPUT_LENGTH);
    assert(chars@ =~= head(raw@));
    chars
}

/// The numbers of lowercase-led and other word starts, after the first, in
/// the part of the raw candidate that the repairs work on: they weigh the
/// case coin.
pub fn case_counts(raw: &Vec<char>) -> (r: (u32, u32))
    ensures
        r.0 == positions(Mark::LowerStart, head(raw@), head(raw@).len() as int).len(),
        r.1 == positions(Mark::UpperStart, head(raw@), head(raw@).len() as int).len(),
        r.0 <= MAX_OUTPUT_LENGTH && r.1 <= MAX_OUTPUT_LENGTH,
{
    let found = head_of(raw);
    let lower = marks(Mark::LowerStart, &found);
    let upper = marks(Mark::UpperStart, &found);
    proof {
        lemma_positions_below(Mark::LowerStart, found@, found@.len() as int);
        lemma_positions_below(Mark::UpperStart, found@, found@.len() as int);
    }
    (lower.len() as u32, upper.len() as u32)
}

/// `t` is `s` with its first character, and each character after a space,
/// made uppercase.
pub open spec fn capitalized(s: Seq<char>, t: Seq<char>) -> bool {
    &&& t.len() == s.len()
    &&& forall|i: int|
        0 <= i < s.len() ==> if i == 0 || s[i - 1] == ' ' {
            upper_of(s[i], #[trigger] t[i])
        } else {
            t[i] == s[i]
        }
}

/// `t` is `s` with the characters at the listed positions made lowercase
/// (when `to_lower`) or uppercase.
pub open spec fn recased(s: Seq<char>, t: Seq<char>, at: Seq<usize>, to_lower: bool) -> bool {
    &&& t.len() == s.len()
    &&& forall|i: int|
        0 <= i < s.len() ==> if listed(at, at.len() as int, i) {
            if to_lower {
                lower_of(s[i], #[trigger] t[i])
            } else {
                upper_of(s[i], t[i])
            }
        } else {
            t[i] == s[i]
        }
}

/// Case homogeneity on `s`, from the word starts of `h`: where the raw
/// candidate starts lowercase or some later word start is lowercase, and
/// the style asks for it, the uppercase-led starts are made lowercase when
/// `to_lower`, else the lowercase-led starts uppercase.
pub open spec fn homogenized(
    s: Seq<char>,
    t: Seq<char>,
    h: Seq<char>,
    first_lower: bool,
    style: Style,
    to_lower: bool,
) -> bool {
    let lower = positions(Mark::LowerStart, h, h.len() as int);
    let upper = positions(Mark::UpperStart, h, h.len() as int);
    if (first_lower || lower.len() > 0) && style.force_case_homogeneity && upper.len() + 3
        * lower.len() > 0 {
        if to_lower {
            recased(s, t, upper, true)
        } else {
            recased(s, t, lower, false)
        }
    } else {
        t == s
    }
}

/// The steps of the repair of `raw`: `c1` after capitalization, `c2` after
/// case homogeneity, and `out` after brace balancing and trimming.
pub open spec fn repair_steps(
    raw: Seq<char>,
    style: Style,
    to_lower: bool,
    picks: Seq<usize>,
    c1: Seq<char>,
    c2: Seq<char>,
    out: Seq<char>,
) -> bool {
    let h = head(raw);
    let c3 = balanced(
        c2,
        h,
        positions(Mark::Opener, h, h.len() as int),
        positions(Mark::Closer, h, h.len() as int),
        picks,
    );
    &&& raw.len() > 0
    &&& if style.force_capitalization {
        capitalized(h, c1)
    } else {
        c1 == h
    }
    &&& homogenized(c1, c2, h, is_lower(raw[0]), style, to_lower)
    &&& exists|a: int, b: int| trimmed(c3, a, b) && out == c3.subrange(a, b)
}

/// What `finish` gives: nothing for a raw candidate that the filter rejects
/// (or an empty one); else the repaired output where the final validation
/// accepts it, and nothing where it does not.
pub open spec fn finished(
    raw: Seq<char>,
    minimum_length: usize,
    style: Style,
    to_lower: bool,
    picks: Seq<usize>,
    r: Option<Seq<char>>,
) -> bool {
    if !passes(raw, minimum_length) || raw.len() == 0 {
        r is None
    } else {
        exists|c1: Seq<char>, c2: Seq<char>, out: Seq<char>|
            #[trigger] repair_steps(raw, style, to_lower, picks, c1, c2, out) && r == if acceptable(
                out,
                style,
            ) {
                Some(out)
            } else {
                None
            }
    }
}

/// The view of an optional string.
pub open spec fn str_view(r: Option<String>) -> Option<Seq<char>> {
    match r {
        Some(v) => Some(v@),
        None => None,
    }
}

/// The view of an optional character vector.
pub open spec fn opt_view(r: Option<Vec<char>>) -> Option<Seq<char>> {
    match r {
        Some(v) => Some(v@),
        None => None,
    }
}

/// The post-processing of a raw candidate, with the random draws given: the
/// filter; on the first thirty-two characters, capitals where the style asks
/// for them, case homogeneity towards lowercase when `to_lower`, else
/// towards uppercase, brace balancing with the given picks; trimming; and
/// the final validation.
pub fn finish(
    raw: &Vec<char>,
    minimum_length: usize,
    style: Style,
    to_lower: bool,
    picks: &Vec<usize>,
) -> (r: Option<Vec<char>>)
    ensures
        finished(raw@, minimum_length, style, to_lower, picks@, opt_view(r)),
        !passes(raw@, minimum_length) ==> r is None,
        r matches Some(s) ==> acceptable(s@, style) && passes(raw@, minimum_length),
        brace_free(head(raw@)) ==> (r matches Some(s) ==> brace_free(s@)),
{
    if !passes_filter(raw, minimum_length) || raw.len() == 0 {
        return None;
    }
    let first_lower = is_ascii_lower(raw[0]);
    let mut chars = head_of(raw);
    let ghost h = chars@;
    let found = copy_vec(&chars);
    let lower = marks(Mark::LowerStart, &found);
    let upper = marks(Mark::UpperStart, &found);
    let opens = marks(Mark::Opener, &found);
    let closes = marks(Mark::Closer, &found);
    proof {
        lemma_positions_below(Mark::LowerStart, found@, found@.len() as int);
        lemma_positions_below(Mark::UpperStart, found@, found@.len() as int);
        lemma_positions_below(Mark::Opener, found@, found@.len() as int);
        lemma_positions_below(Mark::Closer, found@, found@.len() as int);
        if brace_free(found@) {
            lemma_no_brace_marks(found@, found@.len() as int);
        }
    }
    if style.force_capitalization {
        capitalize(&mut chars);
    }
    let ghost c1 = chars@;
    if (first_lower || lower.len() > 0) && style.force_case_homogeneity && upper.len() + 3
        * lower.len() > 0 {
        if to_lower {
            set_case(&mut chars, &upper, true);
        } else {
            set_case(&mut chars, &lower, false);
        }
    }
    let ghost c2 = chars@;
    proof {
        if brace_free(found@) {
            assert forall|i: int| 0 <= i < chars@.len() implies !is_brace(#[trigger] chars@[i]) by {
                assert(!is_brace(found@[i]));
            }
        }
    }
    let ghost before = chars@;
    balance(&mut chars, &found, opens, closes, picks);
    let out = trim(&chars);
    proof {
        if brace_free(found@) {
            assert(chars@ == before);
            let (a, b) = choose|a: int, b: int| trimmed(chars@, a, b) && out@ == chars@.subrange(a, b);
            assert forall|i: int| 0 <= i < out@.len() implies !is_brace(#[trigger] out@[i]) by {
                assert(out@[i] == chars@[a + i]);
            }
        }
    }
    proof {
        assert(repair_steps(raw@, style, to_lower, picks@, c1, c2, out@));
    }
    if out.len() == 0 || out.len() > MAX_OUTPUT_LENGTH || blacklisted(&out) || (
    style.must_have_space && !has_space(&out)) {
        return None;
    }
    Some(out)
}

/// Without brackets there are no opener or closer positions.
proof fn lemma_no_brace_marks(s: Seq<char>, n: int)
    requires
        brace_free(s),
        n <= s.len(),
    ensures
        positions(Mark::Opener, s, n).len() == 0,
        positions(Mark::Closer, s, n).len() == 0,
    decreases n,
{
    if n > 0 {
        lemma_no_brace_marks(s, n - 1);
        if n - 1 >= 1 {
            assert(!is_brace(s[n - 2]));
        }
        assert(!is_brace(s[n - 1]));
    }
}

/// Each starting n-gram of a corpus has `n` characters.
proof fn lemma_starts_sized(c: Seq<Seq<char>>, n: nat, min: nat, i: int)
    requires
        n <= min,
        0 <= i < corpus_starts(c, n, min).len(),
    ensures
        corpus_starts(c, n, min)[i].len() == n,
    decreases c.len(),
{
    if c.len() > 0 {
        if c.last().len() >= min && i == corpus_starts(c, n, min).len() - 1 {
        } else {
            lemma_starts_sized(c.drop_last(), n, min, i);
        }
    }
}

} // verus!
