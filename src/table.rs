use vstd::prelude::*;
use crate::text::chars_of;

verus! {

/// One possible continuation of an n-gram: the following character, or
/// `None` where a corpus string ended, with how often it was seen.
#[derive(Clone, Copy, Debug, PartialEq, Eq)]
pub struct Entry {
    pub ch: Option<char>,
    pub weight: u32,
}

impl Entry {
    pub fn new(ch: Option<char>, weight: u32) -> (r: Entry)
        ensures
            r.ch == ch,
            r.weight == weight,
    {
        Entry { ch, weight }
    }
}

impl From<Option<char>> for Entry {
    /// A first sighting of the continuation: weight one.
    fn from(ch: Option<char>) -> (r: Entry) {
        Entry { ch, weight: 1 }
    }
}

impl vstd::std_specs::convert::FromSpecImpl<Option<char>> for Entry {
    open spec fn obeys_from_spec() -> bool {
        true
    }

    open spec fn from_spec(ch: Option<char>) -> Entry {
        Entry { ch, weight: 1 }
    }
}

impl From<char> for Entry {
    /// A first sighting of the character: weight one.
    fn from(ch: char) -> (r: Entry) {
        Entry { ch: Some(ch), weight: 1 }
    }
}

impl vstd::std_specs::convert::FromSpecImpl<char> for Entry {
    open spec fn obeys_from_spec() -> bool {
        true
    }

    open spec fn from_spec(ch: char) -> Entry {
        Entry { ch: Some(ch), weight: 1 }
    }
}

/// A transition observed in the corpus: an n-gram and what followed it.
pub type Transition = (Seq<char>, Option<char>);

/// The transitions of one string: every window of `n` characters, followed
/// by the next character, or by `None` for the window that ends the string.
pub open spec fn windows(s: Seq<char>, n: nat) -> Seq<Transition> {
    Seq::new(
        (s.len() - n + 1) as nat,
        |i: int|
            (s.subrange(i, i + n), if i + n == s.len() {
                None
            } else {
                Some(s[i + n])
            }),
    )
}

/// All transitions of a corpus, string after string; strings shorter than
/// `min` are skipped.
pub open spec fn corpus_transitions(c: Seq<Seq<char>>, n: nat, min: nat) -> Seq<Transition>
    decreases c.len(),
{
    if c.len() == 0 {
        Seq::empty()
    } else {
        corpus_transitions(c.drop_last(), n, min) + if c.last().len() >= min {
            windows(c.last(), n)
        } else {
            Seq::empty()
        }
    }
}

/// The first `n` characters of each string of the corpus that is not
/// shorter than `min`, duplicates kept, in corpus order.
pub open spec fn corpus_starts(c: Seq<Seq<char>>, n: nat, min: nat) -> Seq<Seq<char>>
    decreases c.len(),
{
    if c.len() == 0 {
        Seq::empty()
    } else if c.last().len() >= min {
        corpus_starts(c.drop_last(), n, min).push(c.last().subrange(0, n as int))
    } else {
        corpus_starts(c.drop_last(), n, min)
    }
}

/// How many times `(k, v)` occurs in `ts`.
pub open spec fn occurrences(ts: Seq<Transition>, k: Seq<char>, v: Option<char>) -> nat
    decreases ts.len(),
{
    if ts.len() == 0 {
        0
    } else {
        occurrences(ts.drop_last(), k, v) + if ts.last() == (k, v) {
            1nat
        } else {
            0nat
        }
    }
}

/// The sum of the weights of the entries for `v`.
pub open spec fn matched_weight(es: Seq<Entry>, v: Option<char>) -> nat
    decreases es.len(),
{
    if es.len() == 0 {
        0
    } else {
        matched_weight(es.drop_last(), v) + if es.last().ch == v {
            es.last().weight as nat
        } else {
            0nat
        }
    }
}

/// The sum of all weights of an entry list.
pub open spec fn total_weight(es: Seq<Entry>) -> nat
    decreases es.len(),
{
    if es.len() == 0 {
        0
    } else {
        total_weight(es.drop_last()) + es.last().weight as nat
    }
}

/// The corpus as character sequences.
pub open spec fn corpus_view(c: Seq<String>) -> Seq<Seq<char>> {
    c.map_values(|s: String| s@)
}

/// A list of n-grams as character sequences.
pub open spec fn ngrams_view(v: Seq<Vec<char>>) -> Seq<Seq<char>> {
    v.map_values(|g: Vec<char>| g@)
}

/// The slots of a table: each key with its entry list.
pub type Slots = Seq<(Vec<char>, Vec<Entry>)>;

/// The weight that the table gives to `v` after `k`.
pub open spec fn weight_of(s: Slots, k: Seq<char>, v: Option<char>) -> nat
    decreases s.len(),
{
    if s.len() == 0 {
        0
    } else {
        weight_of(s.drop_last(), k, v) + if s.last().0@ == k {
            matched_weight(s.last().1@, v)
        } else {
            0nat
        }
    }
}

/// The sum of all weights of the table.
pub open spec fn table_total(s: Slots) -> nat
    decreases s.len(),
{
    if s.len() == 0 {
        0
    } else {
        table_total(s.drop_last()) + total_weight(s.last().1@)
    }
}

/// The transition table: for each n-gram, its weighted continuations.
#[derive(Clone, Debug)]
pub struct TransitionTable {
    pub slots: Vec<(Vec<char>, Vec<Entry>)>,
}

impl TransitionTable {
    pub open spec fn view(&self) -> Slots {
        self.slots@
    }

    /// Every key has `n` characters and stands once; each entry list is
    /// non-empty, has at most one entry per continuation, positive weights,
    /// and a total that fits a `u32`.
    pub open spec fn well_formed(&self, n: nat) -> bool {
        let s = self.slots@;
        &&& forall|i: int| 0 <= i < s.len() ==> (#[trigger] s[i]).0@.len() == n
        &&& forall|i: int, j: int| 0 <= i < j < s.len() ==> s[i].0@ != s[j].0@
        &&& forall|i: int| 0 <= i < s.len() ==> entries_ok(#[trigger] s[i].1@)
    }

    /// The entry list of `k`, if the table has that key.
    pub open spec fn entries_of(&self, k: Seq<char>) -> Option<Seq<Entry>> {
        if exists|i: int| 0 <= i < self.slots@.len() && self.slots@[i].0@ == k {
            let i = choose|i: int| 0 <= i < self.slots@.len() && self.slots@[i].0@ == k;
            Some(self.slots@[i].1@)
        } else {
            None
        }
    }

    pub fn new() -> (r: TransitionTable)
        ensures
            r@.len() == 0,
    {
        TransitionTable { slots: Vec::new() }
    }

    /// The index of the slot of `key`, if there is one.
    pub fn find(&self, key: &Vec<char>) -> (r: Option<usize>)
        ensures
            match r {
                Some(i) => i < self@.len() && self@[i as int].0@ == key@,
                None => forall|i: int| 0 <= i < self@.len() ==> (#[trigger] self@[i]).0@ != key@,
            },
    {
        let mut i: usize = 0;
        while i < self.slots.len()
            invariant
                i <= self.slots@.len(),
                forall|j: int| 0 <= j < i ==> (#[trigger] self@[j]).0@ != key@,
            decreases self.slots@.len() - i,
        {
            if same_chars(&self.slots[i].0, key) {
                return Some(i);
            }
            i = i + 1;
        }
        None
    }

    /// Counts one more occurrence of `value` after `key`: the weight of the
    /// matching entry goes up by one, or a new entry of weight one is added.
    pub fn insert(&mut self, key: Vec<char>, value: Option<char>)
        requires
            old(self).well_formed(key@.len()),
            table_total(old(self)@) < u32::MAX,
        ensures
            final(self).well_formed(key@.len()),
            table_total(final(self)@) == table_total(old(self)@) + 1,
            forall|k: Seq<char>, v: Option<char>|
                #![trigger weight_of(final(self)@, k, v)]
                weight_of(final(self)@, k, v) == weight_of(old(self)@, k, v) + if k == key@ && v
                    == value {
                    1nat
                } else {
                    0nat
                },
    {
        let ghost s0 = self@;
        let ghost n = key@.len();
        match self.find(&key) {
            Some(i) => {
                let (k, mut es) = self.slots.remove(i);
                let ghost es0 = es@;
                proof {
                    assert(es0 == s0[i as int].1@);
                    lemma_table_total_bounds(s0, i as int);
                }
                let mut j: usize = 0;
                let mut found = false;
                while j < es.len() && !found
                    invariant
                        j <= es@.len(),
                        es@ == es0,
                        forall|a: int| 0 <= a < j ==> (#[trigger] es@[a]).ch != value,
                        !found ==> j <= es@.len(),
                        found ==> j < es@.len() && es@[j as int].ch == value,
                    decreases es@.len() - j + if found { 0int } else { 1int },
                {
                    if same_continuation(es[j].ch, value) {
                        found = true;
                    } else {
                        j = j + 1;
                    }
                }
                let ghost updated = found && j < es.len();
                if found && j < es.len() {
                    proof {
                        lemma_weight_bound(es0, j as int);
                    }
                    let w = es[j].weight + 1;
                    es.set(j, Entry { ch: value, weight: w });
                    proof {
                        let e = Entry { ch: value, weight: w };
                        assert(es@ == es0.update(j as int, e));
                        lemma_total_update(es0, j as int, e);
                        assert forall|v: Option<char>| #[trigger] matched_weight(es@, v)
                            == matched_weight(es0, v) + if v == value { 1nat } else { 0nat } by {
                            lemma_matched_update(es0, j as int, e, v);
                        }
                        assert forall|a: int| 0 <= a < es@.len() implies (#[trigger] es@[a]).ch
                            == es0[a].ch by {}
                    }
                } else {
                    es.push(Entry::from(value));
                    proof {
                        assert(es@.drop_last() =~= es0);
                        assert forall|v: Option<char>| #[trigger] matched_weight(es@, v)
                            == matched_weight(es0, v) + if v == value { 1nat } else { 0nat } by {
                            assert(es@.drop_last() =~= es0);
                        }
                    }
                }
                let ghost slot = (k, es);
                self.slots.insert(i, (k, es));
                proof {
                    assert(self@ =~= s0.update(i as int, slot));
                    lemma_table_total_update(s0, i as int, slot);
                    assert forall|kk: Seq<char>, v: Option<char>|
                        #![trigger weight_of(self@, kk, v)]
                        weight_of(self@, kk, v) == weight_of(s0, kk, v) + if kk == key@ && v
                            == value {
                            1nat
                        } else {
                            0nat
                        } by {
                        lemma_weight_of_update(s0, i as int, slot, kk, v);
                    }
                    assert forall|a: int| 0 <= a < self@.len() implies entries_ok(
                        #[trigger] self@[a].1@,
                    ) by {
                        if a == i {
                            assert forall|x: int, y: int| 0 <= x < y < es@.len() implies es@[x].ch
                                != es@[y].ch by {
                                if updated {
                                assert(es@[x].ch == es0[x].ch && es@[y].ch == es0[y].ch);
                            } else if y == es0.len() {
                                assert(es0[x].ch != value);
                            }
                            }
                        }
                    }
                    assert forall|a: int, b: int| 0 <= a < b < self@.len() implies self@[a].0@
                        != self@[b].0@ by {
                        assert(s0[a].0@ != s0[b].0@);
                    }
                }
            },
            None => {
                let mut es: Vec<Entry> = Vec::new();
                es.push(Entry::from(value));
                let ghost slot = (key, es);
                proof {
                    assert(es@.drop_last() =~= Seq::<Entry>::empty());
                    assert(total_weight(es@) == 1) by {
                        reveal_with_fuel(total_weight, 2);
                    }
                    assert forall|v: Option<char>| #[trigger] matched_weight(es@, v) == if v
                        == value {
                        1nat
                    } else {
                        0nat
                    } by {
                        reveal_with_fuel(matched_weight, 2);
                    }
                }
                self.slots.push((key, es));
                proof {
                    assert(self@.drop_last() =~= s0);
                    assert forall|kk: Seq<char>, v: Option<char>|
                        #![trigger weight_of(self@, kk, v)]
                        weight_of(self@, kk, v) == weight_of(s0, kk, v) + if kk == slot.0@ && v
                            == value {
                            1nat
                        } else {
                            0nat
                        } by {
                        assert(self@.drop_last() =~= s0);
                    }
                }
            },
        }
    }
}

/// Whether an entry list is sound: see `entries_ok`.
pub fn entries_valid(es: &Vec<Entry>) -> (r: bool)
    ensures
        r == entries_ok(es@),
{
    if es.len() == 0 {
        return false;
    }
    let mut total: u64 = 0;
    let mut a: usize = 0;
    while a < es.len()
        invariant
            a <= es@.len(),
            total == total_weight(es@.take(a as int)),
            total <= u32::MAX,
            forall|x: int| 0 <= x < a ==> (#[trigger] es@[x]).weight >= 1,
            forall|x: int, y: int| 0 <= x < y < a ==> es@[x].ch != es@[y].ch,
        decreases es@.len() - a,
    {
        if es[a].weight == 0 {
            return false;
        }
        let mut b: usize = 0;
        while b < a
            invariant
                b <= a < es@.len(),
                forall|x: int| 0 <= x < b ==> (#[trigger] es@[x]).ch != es@[a as int].ch,
            decreases a - b,
        {
            if same_continuation(es[b].ch, es[a].ch) {
                return false;
            }
            b = b + 1;
        }
        total = total + es[a].weight as u64;
        proof {
            assert(es@.take(a + 1).drop_last() =~= es@.take(a as int));
        }
        if total > 0xffff_ffff {
            proof {
                lemma_total_prefix(es@, a + 1);
            }
            return false;
        }
        a = a + 1;
    }
    assert(es@.take(a as int) =~= es@);
    true
}

impl TransitionTable {
    /// Whether the table is well formed for n-grams of `n` characters.
    pub fn is_well_formed(&self, n: usize) -> (r: bool)
        ensures
            r == self.well_formed(n as nat),
    {
        let mut i: usize = 0;
        while i < self.slots.len()
            invariant
                i <= self@.len(),
                forall|x: int| 0 <= x < i ==> (#[trigger] self@[x]).0@.len() == n,
                forall|x: int, y: int| 0 <= x < y < i ==> self@[x].0@ != self@[y].0@,
                forall|x: int| 0 <= x < i ==> entries_ok(#[trigger] self@[x].1@),
            decreases self@.len() - i,
        {
            if self.slots[i].0.len() != n || !entries_valid(&self.slots[i].1) {
                return false;
            }
            let mut j: usize = 0;
            while j < i
                invariant
                    j <= i < self@.len(),
                    forall|x: int| 0 <= x < j ==> (#[trigger] self@[x]).0@ != self@[i as int].0@,
                decreases i - j,
            {
                if same_chars(&self.slots[j].0, &self.slots[i].0) {
                    return false;
                }
                j = j + 1;
            }
            i = i + 1;
        }
        true
    }
}

proof fn lemma_total_prefix(es: Seq<Entry>, i: int)
    requires
        0 <= i <= es.len(),
    ensures
        total_weight(es.take(i)) <= total_weight(es),
    decreases es.len(),
{
    if i < es.len() {
        assert(es.drop_last().take(i) =~= es.take(i));
        lemma_total_prefix(es.drop_last(), i);
    } else {
        assert(es.take(i) =~= es);
    }
}

/// Whether two character sequences are equal.
pub fn same_chars(a: &Vec<char>, b: &Vec<char>) -> (r: bool)
    ensures
        r == (a@ == b@),
{
    if a.len() != b.len() {
        return false;
    }
    let mut i: usize = 0;
    while i < a.len()
        invariant
            i <= a@.len(),
            a@.len() == b@.len(),
            forall|j: int| 0 <= j < i ==> a@[j] == b@[j],
        decreases a@.len() - i,
    {
        if a[i] != b[i] {
            return false;
        }
        i = i + 1;
    }
    assert(a@ =~= b@);
    true
}

/// Whether two continuations are the same.
pub fn same_continuation(a: Option<char>, b: Option<char>) -> (r: bool)
    ensures
        r == (a == b),
{
    match (a, b) {
        (Some(x), Some(y)) => x == y,
        (None, None) => true,
        _ => false,
    }
}

proof fn lemma_weight_bound(es: Seq<Entry>, j: int)
    requires
        0 <= j < es.len(),
    ensures
        es[j].weight <= total_weight(es),
    decreases es.len(),
{
    if j < es.len() - 1 {
        lemma_weight_bound(es.drop_last(), j);
    }
}

proof fn lemma_table_total_bounds(s: Slots, i: int)
    requires
        0 <= i < s.len(),
    ensures
        total_weight(s[i].1@) <= table_total(s),
    decreases s.len(),
{
    if i < s.len() - 1 {
        lemma_table_total_bounds(s.drop_last(), i);
    }
}

proof fn lemma_matched_update(es: Seq<Entry>, j: int, e: Entry, v: Option<char>)
    requires
        0 <= j < es.len(),
    ensures
        matched_weight(es.update(j, e), v) + (if es[j].ch == v {
            es[j].weight as nat
        } else {
            0nat
        }) == matched_weight(es, v) + (if e.ch == v {
            e.weight as nat
        } else {
            0nat
        }),
    decreases es.len(),
{
    if j == es.len() - 1 {
        assert(es.update(j, e).drop_last() =~= es.drop_last());
    } else {
        assert(es.update(j, e).drop_last() =~= es.drop_last().update(j, e));
        lemma_matched_update(es.drop_last(), j, e, v);
    }
}

proof fn lemma_total_update(es: Seq<Entry>, j: int, e: Entry)
    requires
        0 <= j < es.len(),
    ensures
        total_weight(es.update(j, e)) + es[j].weight == total_weight(es) + e.weight,
    decreases es.len(),
{
    if j == es.len() - 1 {
        assert(es.update(j, e).drop_last() =~= es.drop_last());
    } else {
        assert(es.update(j, e).drop_last() =~= es.drop_last().update(j, e));
        lemma_total_update(es.drop_last(), j, e);
    }
}

proof fn lemma_weight_of_update(
    s: Slots,
    i: int,
    x: (Vec<char>, Vec<Entry>),
    k: Seq<char>,
    v: Option<char>,
)
    requires
        0 <= i < s.len(),
        x.0@ == s[i].0@,
    ensures
        weight_of(s.update(i, x), k, v) + (if s[i].0@ == k {
            matched_weight(s[i].1@, v)
        } else {
            0nat
        }) == weight_of(s, k, v) + (if x.0@ == k {
            matched_weight(x.1@, v)
        } else {
            0nat
        }),
    decreases s.len(),
{
    if i == s.len() - 1 {
        assert(s.update(i, x).drop_last() =~= s.drop_last());
    } else {
        assert(s.update(i, x).drop_last() =~= s.drop_last().update(i, x));
        lemma_weight_of_update(s.drop_last(), i, x, k, v);
    }
}

proof fn lemma_table_total_update(s: Slots, i: int, x: (Vec<char>, Vec<Entry>))
    requires
        0 <= i < s.len(),
    ensures
        table_total(s.update(i, x)) + total_weight(s[i].1@) == table_total(s) + total_weight(
            x.1@,
        ),
    decreases s.len(),
{
    if i == s.len() - 1 {
        assert(s.update(i, x).drop_last() =~= s.drop_last());
    } else {
        assert(s.update(i, x).drop_last() =~= s.drop_last().update(i, x));
        lemma_table_total_update(s.drop_last(), i, x);
    }
}

pub open spec fn entries_ok(es: Seq<Entry>) -> bool {
    &&& es.len() > 0
    &&& forall|a: int, b: int| 0 <= a < b < es.len() ==> es[a].ch != es[b].ch
    &&& forall|a: int| 0 <= a < es.len() ==> (#[trigger] es[a]).weight >= 1
    &&& total_weight(es) <= u32::MAX
}

} // verus!

verus! {

/// Builds the transition table and the starting n-grams of a non-empty
/// corpus (a model cannot be built from no data): each
/// string of at least `min` characters gives its first `n` characters as a
/// starting n-gram and every one of its windows as a transition.
pub fn build(corpus: &Vec<String>, n: usize, min: usize) -> (r: (TransitionTable, Vec<Vec<char>>))
    requires
        corpus@.len() > 0,
        1 <= n <= min,
        corpus_transitions(corpus_view(corpus@), n as nat, min as nat).len() <= u32::MAX,
    ensures
        r.0.well_formed(n as nat),
        table_total(r.0@) == corpus_transitions(corpus_view(corpus@), n as nat, min as nat).len(),
        forall|k: Seq<char>, v: Option<char>|
            #[trigger] weight_of(r.0@, k, v) == occurrences(
                corpus_transitions(corpus_view(corpus@), n as nat, min as nat),
                k,
                v,
            ),
        ngrams_view(r.1@) == corpus_starts(corpus_view(corpus@), n as nat, min as nat),
{
    let ghost cc = corpus_view(corpus@);
    let mut table = TransitionTable::new();
    let mut starts: Vec<Vec<char>> = Vec::new();
    let mut idx: usize = 0;
    proof {
        assert(cc.take(0) =~= Seq::<Seq<char>>::empty());
        assert(ngrams_view(starts@) =~= Seq::<Seq<char>>::empty());
    }
    while idx < corpus.len()
        invariant
            1 <= n <= min,
            idx <= corpus@.len(),
            cc == corpus_view(corpus@),
            corpus_transitions(cc, n as nat, min as nat).len() <= u32::MAX,
            table.well_formed(n as nat),
            table_total(table@) == corpus_transitions(cc.take(idx as int), n as nat, min as nat).len(),
            forall|k: Seq<char>, v: Option<char>|
                #[trigger] weight_of(table@, k, v) == occurrences(
                    corpus_transitions(cc.take(idx as int), n as nat, min as nat),
                    k,
                    v,
                ),
            ngrams_view(starts@) == corpus_starts(cc.take(idx as int), n as nat, min as nat),
        decreases corpus@.len() - idx,
    {
        let chars = chars_of(corpus[idx].as_str());
        let ghost before = corpus_transitions(cc.take(idx as int), n as nat, min as nat);
        proof {
            assert(cc.take(idx + 1).drop_last() =~= cc.take(idx as int));
            assert(cc.take(idx + 1).last() == chars@);
            lemma_prefix_transitions(cc, idx + 1);
        }
        if chars.len() >= min {
            let mut first: Vec<char> = Vec::new();
            let mut j: usize = 0;
            while j < n
                invariant
                    j <= n <= chars@.len(),
                    first@ == chars@.subrange(0, j as int),
                decreases n - j,
            {
                first.push(chars[j]);
                j = j + 1;
                assert(first@ =~= chars@.subrange(0, j as int));
            }
            let ghost starts0 = starts@;
            starts.push(first);
            proof {
                assert(ngrams_view(starts@) =~= ngrams_view(starts0).push(first@));
            }
            let len: usize = chars.len();
            let last: usize = len - n;
            proof {
                assert(corpus_transitions(cc.take(idx + 1), n as nat, min as nat) == before
                    + windows(chars@, n as nat));
                assert(corpus_transitions(cc.take(idx + 1), n as nat, min as nat).len()
                    <= corpus_transitions(cc, n as nat, min as nat).len());
            }
            let mut i: usize = 0;
            while i <= last
                invariant
                    1 <= n <= min <= chars@.len(),
                    chars@.len() <= usize::MAX,
                    last == chars@.len() - n,
                    i <= last + 1,
                    table.well_formed(n as nat),
                    table_total(table@) == before.len() + i,
                    before.len() + last + 1 <= u32::MAX,
                    forall|k: Seq<char>, v: Option<char>|
                        #[trigger] weight_of(table@, k, v) == occurrences(
                            before + windows(chars@, n as nat).take(i as int),
                            k,
                            v,
                        ),
                decreases last + 1 - i,
            {
                let mut key: Vec<char> = Vec::new();
                let mut j: usize = 0;
                while j < n
                    invariant
                        j <= n,
                        i + n <= chars@.len(),
                        chars@.len() <= usize::MAX,
                        key@ == chars@.subrange(i as int, i + j),
                    decreases n - j,
                {
                    key.push(chars[i + j]);
                    j = j + 1;
                    assert(key@ =~= chars@.subrange(i as int, i + j));
                }
                let value = if i == last {
                    None
                } else {
                    Some(chars[i + n])
                };
                let ghost t = (key@, value);
                let ghost ts0 = before + windows(chars@, n as nat).take(i as int);
                table.insert(key, value);
                proof {
                    let ts1 = before + windows(chars@, n as nat).take(i + 1);
                    assert(windows(chars@, n as nat)[i as int] == t);
                    assert(ts1 =~= ts0.push(t));
                    assert(ts1.drop_last() =~= ts0);
                    assert forall|k: Seq<char>, v: Option<char>|
                        #[trigger] weight_of(table@, k, v) == occurrences(ts1, k, v) by {}
                }
                i = i + 1;
            }
            proof {
                assert(windows(chars@, n as nat).take(i as int) =~= windows(chars@, n as nat));
            }
            proof {
                assert(before + windows(chars@, n as nat) == corpus_transitions(cc.take(idx + 1), n as nat, min as nat));
                assert(corpus_starts(cc.take(idx + 1), n as nat, min as nat) == corpus_starts(cc.take(idx as int), n as nat, min as nat).push(chars@.subrange(0, n as int)));
            }
        } else {
            proof {
                assert(before + Seq::<Transition>::empty() =~= before);
                assert(before == corpus_transitions(cc.take(idx + 1), n as nat, min as nat));
            }
        }
        idx = idx + 1;
    }
    proof {
        assert(cc.take(idx as int) =~= cc);
    }
    (table, starts)
}

/// The transitions of a prefix of the corpus are no more than those of the
/// corpus.
pub proof fn lemma_prefix_transitions(c: Seq<Seq<char>>, i: int)
    requires
        0 <= i <= c.len(),
    ensures
        forall|n: nat, min: nat|
            #[trigger] corpus_transitions(c.take(i), n, min).len() <= corpus_transitions(
                c,
                n,
                min,
            ).len(),
    decreases c.len(),
{
    if i < c.len() {
        assert(c.drop_last().take(i) =~= c.take(i));
        lemma_prefix_transitions(c.drop_last(), i);
    } else {
        assert(c.take(i) =~= c);
    }
}

} // verus!
