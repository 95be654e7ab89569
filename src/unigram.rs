//! Word counts of the system unigram model and the adjustments made to them
//! before the model is built.
use vstd::prelude::*;
use crate::user_data::{count_line, format_count_line, is_line_of};

verus! {

/// A table from word (`surface/yomi`) to its count; each word appears once.
pub struct WordCounts {
    entries: Vec<(String, u32)>,
}

impl View for WordCounts {
    type V = Map<Seq<char>, u32>;

    closed spec fn view(&self) -> Map<Seq<char>, u32> {
        Map::new(
            |k: Seq<char>| exists|i: int| 0 <= i < self.entries@.len() && #[trigger] self.entries@[i].0@ == k,
            |k: Seq<char>|
                self.entries@[choose|i: int| 0 <= i < self.entries@.len() && #[trigger] self.entries@[i].0@ == k].1,
        )
    }
}

impl WordCounts {
    /// No word is stored twice.
    pub closed spec fn wf(&self) -> bool {
        forall|i: int, j: int|
            0 <= i < j < self.entries@.len() ==> #[trigger] self.entries@[i].0@ != #[trigger] self.entries@[j].0@
    }

    proof fn lemma_entry(&self, i: int)
        requires
            self.wf(),
            0 <= i < self.entries@.len(),
        ensures
            self@.contains_key(self.entries@[i].0@),
            self@[self.entries@[i].0@] == self.entries@[i].1,
    {
        let k = self.entries@[i].0@;
        assert(self@.dom().contains(k));
        let j = choose|j: int| 0 <= j < self.entries@.len() && #[trigger] self.entries@[j].0@ == k;
        assert(j == i);
    }

    pub fn new() -> (r: WordCounts)
        ensures
            r.wf(),
            r@ == Map::<Seq<char>, u32>::empty(),
    {
        let r = WordCounts { entries: Vec::new() };
        assert(r@ =~= Map::<Seq<char>, u32>::empty());
        r
    }

    /// The number of words.
    pub fn len(&self) -> (r: usize)
        requires
            self.wf(),
        ensures
            r == self@.len(),
    {
        proof {
            self.lemma_len();
        }
        self.entries.len()
    }

    proof fn lemma_len(&self)
        requires
            self.wf(),
        ensures
            self@.len() == self.entries@.len(),
    {
        let keys = self.entries@.map_values(|e: (String, u32)| e.0@);
        assert(keys.no_duplicates()) by {
            assert forall|i: int, j: int| 0 <= i < keys.len() && 0 <= j < keys.len() && i != j implies keys[i]
                != keys[j] by {
                if i < j {
                    assert(self.entries@[i].0@ != self.entries@[j].0@);
                } else {
                    assert(self.entries@[j].0@ != self.entries@[i].0@);
                }
            }
        }
        keys.unique_seq_to_set();
        assert(self@.dom() =~= keys.to_set()) by {
            assert forall|k: Seq<char>| self@.dom().contains(k) implies keys.to_set().contains(k) by {
                let i = choose|i: int| 0 <= i < self.entries@.len() && #[trigger] self.entries@[i].0@ == k;
                assert(keys[i] == k);
            }
            assert forall|k: Seq<char>| keys.to_set().contains(k) implies self@.dom().contains(k) by {
                let i = choose|i: int| 0 <= i < keys.len() && keys[i] == k;
                assert(self.entries@[i].0@ == k);
            }
        }
    }

    fn find(&self, word: &str) -> (r: Option<usize>)
        requires
            self.wf(),
        ensures
            r matches Some(i) ==> i < self.entries@.len() && self.entries@[i as int].0@ == word@,
            r is None ==> !self@.contains_key(word@),
    {
        let w = word.to_owned();
        let mut i: usize = 0;
        while i < self.entries.len()
            invariant
                w@ == word@,
                0 <= i <= self.entries@.len(),
                forall|j: int| 0 <= j < i ==> #[trigger] self.entries@[j].0@ != word@,
            decreases self.entries@.len() - i,
        {
            if self.entries[i].0 == w {
                return Some(i);
            }
            i = i + 1;
        }
        None
    }

    /// The count of `word`, if it has one.
    pub fn get(&self, word: &str) -> (r: Option<u32>)
        requires
            self.wf(),
        ensures
            r == (if self@.contains_key(word@) {
                Some(self@[word@])
            } else {
                None
            }),
    {
        match self.find(word) {
            Some(i) => {
                proof {
                    self.lemma_entry(i as int);
                }
                Some(self.entries[i].1)
            },
            None => None,
        }
    }

    /// Whether `word` has a count.
    pub fn contains_key(&self, word: &str) -> (r: bool)
        requires
            self.wf(),
        ensures
            r == self@.contains_key(word@),
    {
        match self.find(word) {
            Some(i) => {
                proof {
                    self.lemma_entry(i as int);
                }
                true
            },
            None => false,
        }
    }

    /// The `i`-th stored word with its count; the order is that of first insertion.
    pub fn entry(&self, i: usize) -> (r: (&str, u32))
        requires
            self.wf(),
            i < self@.len(),
        ensures
            self@.contains_key(r.0@),
            self@[r.0@] == r.1,
    {
        proof {
            self.lemma_len();
            self.lemma_entry(i as int);
        }
        (self.entries[i].0.as_str(), self.entries[i].1)
    }

    /// One line per word, recording its count: every word has its line, and
    /// every line is the line of a word.
    pub fn lines(&self) -> (r: Vec<String>)
        requires
            self.wf(),
        ensures
            r@.len() == self@.len(),
            forall|i: int| 0 <= i < r@.len() ==> is_line_of(self@, #[trigger] r@[i]@),
            forall|k: Seq<char>|
                #[trigger] self@.contains_key(k) ==> exists|i: int| 0 <= i < r@.len() && r@[i]@ == count_line(k, self@[k]),
    {
        proof {
            self.lemma_len();
        }
        let mut out: Vec<String> = Vec::new();
        let mut i: usize = 0;
        while i < self.entries.len()
            invariant
                self.wf(),
                self@.len() == self.entries@.len(),
                0 <= i <= self.entries@.len(),
                out@.len() == i,
                forall|j: int|
                    0 <= j < i ==> #[trigger] out@[j]@ == count_line(self.entries@[j].0@, self.entries@[j].1),
            decreases self.entries@.len() - i,
        {
            let line = format_count_line(self.entries[i].0.as_str(), self.entries[i].1);
            out.push(line);
            proof {
                assert forall|j: int| 0 <= j < i + 1 implies #[trigger] out@[j]@ == count_line(
                    self.entries@[j].0@,
                    self.entries@[j].1,
                ) by {
                    if j < i {
                        assert(out@[j] == out@.drop_last()[j]);
                    }
                }
            }
            i = i + 1;
        }
        proof {
            assert forall|j: int| 0 <= j < out@.len() implies is_line_of(self@, #[trigger] out@[j]@) by {
                self.lemma_entry(j);
                let k = self.entries@[j].0@;
                assert(out@[j]@ == count_line(k, self@[k]));
            }
            assert forall|k: Seq<char>| #[trigger] self@.contains_key(k) implies exists|i: int|
                0 <= i < out@.len() && out@[i]@ == count_line(k, self@[k]) by {
                let j = choose|j: int| 0 <= j < self.entries@.len() && #[trigger] self.entries@[j].0@ == k;
                self.lemma_entry(j);
                assert(out@[j]@ == count_line(k, self@[k]));
            }
        }
        out
    }

    /// Sets the count of `word` to `count`.
    pub fn insert(&mut self, word: &str, count: u32)
        requires
            old(self).wf(),
        ensures
            final(self).wf(),
            final(self)@ == old(self)@.insert(word@, count),
    {
        let ghost pre = *self;
        match self.find(word) {
            Some(i) => {
                self.entries[i] = (word.to_owned(), count);
                proof {
                    assert(self.entries@ == pre.entries@.update(i as int, self.entries@[i as int]));
                    assert forall|j: int| 0 <= j < self.entries@.len() implies #[trigger] self.entries@[j].0@
                        == pre.entries@[j].0@ by {}
                    assert(self.wf());
                    assert forall|k: Seq<char>| #[trigger] self@.contains_key(k) == pre@.insert(word@, count).contains_key(k) by {
                        if self@.contains_key(k) {
                            let j = choose|j: int| 0 <= j < self.entries@.len() && #[trigger] self.entries@[j].0@ == k;
                            if j != i {
                                assert(pre.entries@[j].0@ == k);
                            }
                        }
                        if pre@.contains_key(k) {
                            let j = choose|j: int| 0 <= j < pre.entries@.len() && #[trigger] pre.entries@[j].0@ == k;
                            if j != i {
                                assert(self.entries@[j].0@ == k);
                            }
                        }
                    }
                    assert forall|k: Seq<char>| #[trigger] self@.contains_key(k) implies self@[k] == pre@.insert(word@, count)[k] by {
                        let j = choose|j: int| 0 <= j < self.entries@.len() && #[trigger] self.entries@[j].0@ == k;
                        self.lemma_entry(j);
                        if j != i {
                            assert(pre.entries@[j] == self.entries@[j]);
                            pre.lemma_entry(j);
                        }
                    }
                    assert(self@ =~= pre@.insert(word@, count));
                }
            },
            None => {
                self.entries.push((word.to_owned(), count));
                proof {
                    let n = pre.entries@.len() as int;
                    assert forall|j: int| 0 <= j < n implies #[trigger] self.entries@[j].0@ != word@ by {
                        pre.lemma_entry(j);
                        assert(self.entries@[j] == pre.entries@[j]);
                    }
                    assert(self.entries@[n].0@ == word@);
                    assert forall|a: int, b: int| 0 <= a < b < self.entries@.len() implies #[trigger] self.entries@[a].0@
                        != #[trigger] self.entries@[b].0@ by {
                        if b < n {
                            assert(self.entries@[a] == pre.entries@[a]);
                            assert(self.entries@[b] == pre.entries@[b]);
                        }
                    }
                    assert(self.wf());
                    assert forall|k: Seq<char>| #[trigger] self@.contains_key(k) == pre@.insert(word@, count).contains_key(k) by {
                        if self@.contains_key(k) {
                            let j = choose|j: int| 0 <= j < self.entries@.len() && #[trigger] self.entries@[j].0@ == k;
                            if j != n {
                                assert(pre.entries@[j].0@ == k);
                            }
                        }
                        if pre@.contains_key(k) {
                            let j = choose|j: int| 0 <= j < pre.entries@.len() && #[trigger] pre.entries@[j].0@ == k;
                            assert(self.entries@[j].0@ == k);
                        }
                        if k == word@ {
                            assert(self.entries@[n].0@ == k);
                        }
                    }
                    assert forall|k: Seq<char>| #[trigger] self@.contains_key(k) implies self@[k] == pre@.insert(word@, count)[k] by {
                        let j = choose|j: int| 0 <= j < self.entries@.len() && #[trigger] self.entries@[j].0@ == k;
                        self.lemma_entry(j);
                        if j != n {
                            assert(pre.entries@[j] == self.entries@[j]);
                            pre.lemma_entry(j);
                        }
                    }
                    assert(self@ =~= pre@.insert(word@, count));
                }
            },
        }
    }
}

/// `m` with `dst` given the count of `src`, where `dst` has none and `src` has one.
pub open spec fn copy_cost(m: Map<Seq<char>, u32>, src: Seq<char>, dst: Seq<char>) -> Map<Seq<char>, u32> {
    if !m.contains_key(dst) && m.contains_key(src) {
        m.insert(dst, m[src])
    } else {
        m
    }
}

/// The reading にほん of 日本.
pub open spec fn nihon_nihon() -> Seq<char> {
    "日本/にほん"@
}

/// The reading にっぽん of 日本.
pub open spec fn nihon_nippon() -> Seq<char> {
    "日本/にっぽん"@
}

/// The two readings of 日本 share one count: each that is missing takes the
/// other's.
pub open spec fn equalise_homographs(m: Map<Seq<char>, u32>) -> Map<Seq<char>, u32> {
    copy_cost(copy_cost(m, nihon_nihon(), nihon_nippon()), nihon_nippon(), nihon_nihon())
}

/// `m` with the count of `a` raised to one above that of `b`, unless it is
/// already higher.
pub open spec fn raise_above(m: Map<Seq<char>, u32>, a: Seq<char>, b: Seq<char>) -> Map<Seq<char>, u32> {
    m.insert(a, if m[a] > m[b] { m[a] } else { (m[b] + 1) as u32 })
}

pub open spec fn kyou_today() -> Seq<char> {
    "今日/きょう"@
}

pub open spec fn kyou_lord() -> Seq<char> {
    "卿/きょう"@
}

pub open spec fn daiji_important() -> Seq<char> {
    "大事/だいじ"@
}

pub open spec fn daiji_district() -> Seq<char> {
    "大字/だいじ"@
}

/// The counts that the score adjustments raise by one stay within `u32`: that
/// of 卿 where 今日 and 卿 both have counts, and that of 大字 where all four
/// words have counts.
pub open spec fn score_bounds_ok(m: Map<Seq<char>, u32>) -> bool {
    &&& m.contains_key(kyou_today()) && m.contains_key(kyou_lord()) ==> m[kyou_lord()] < u32::MAX
    &&& m.contains_key(kyou_today()) && m.contains_key(kyou_lord()) && m.contains_key(daiji_important())
        && m.contains_key(daiji_district()) ==> m[daiji_district()] < u32::MAX
}

/// The score adjustments: 今日 above 卿, then 大事 above 大字; the
/// adjustments stop at the first pair of which a word has no count.
pub open spec fn adjust_scores(m: Map<Seq<char>, u32>) -> Map<Seq<char>, u32> {
    if !(m.contains_key(kyou_today()) && m.contains_key(kyou_lord())) {
        m
    } else {
        let m1 = raise_above(m, kyou_today(), kyou_lord());
        if !(m1.contains_key(daiji_important()) && m1.contains_key(daiji_district())) {
            m1
        } else {
            raise_above(m1, daiji_important(), daiji_district())
        }
    }
}

/// Gives `word2` the count of `word1` where `word2` has none and `word1` has one.
pub fn try_copy_cost(word1: &str, word2: &str, wordcnt: &mut WordCounts)
    requires
        old(wordcnt).wf(),
    ensures
        final(wordcnt).wf(),
        final(wordcnt)@ == copy_cost(old(wordcnt)@, word1@, word2@),
{
    if !wordcnt.contains_key(word2) {
        if let Some(cost) = wordcnt.get(word1) {
            wordcnt.insert(word2, cost);
        }
    }
}

/// Gives the two readings of 日本 the same count where one of them lacks it.
pub fn homograph_hack(wordcnt: &mut WordCounts)
    requires
        old(wordcnt).wf(),
    ensures
        final(wordcnt).wf(),
        final(wordcnt)@ == equalise_homographs(old(wordcnt)@),
{
    let src = "日本/にほん";
    let dst = "日本/にっぽん";
    try_copy_cost(src, dst, wordcnt);
    try_copy_cost(dst, src, wordcnt);
}

/// Raises the count of `a` above that of `b`; `false`, and nothing changed,
/// where either has no count.
fn raise_cost(a: &str, b: &str, wordcnt: &mut WordCounts) -> (done: bool)
    requires
        old(wordcnt).wf(),
        old(wordcnt)@.contains_key(a@) && old(wordcnt)@.contains_key(b@) ==> old(wordcnt)@[b@] < u32::MAX,
    ensures
        final(wordcnt).wf(),
        done == (old(wordcnt)@.contains_key(a@) && old(wordcnt)@.contains_key(b@)),
        final(wordcnt)@ == if done {
            raise_above(old(wordcnt)@, a@, b@)
        } else {
            old(wordcnt)@
        },
{
    let a_score = match wordcnt.get(a) {
        Some(s) => s,
        None => {
            return false;
        },
    };
    let b_score = match wordcnt.get(b) {
        Some(s) => s,
        None => {
            return false;
        },
    };
    let raised = if a_score > b_score {
        a_score
    } else {
        b_score + 1
    };
    wordcnt.insert(a, raised);
    true
}

/// Raises the counts of 今日 over 卿 and of 大事 over 大字, which the
/// corpus ranks against common usage.
pub fn score_hack(wordcnt: &mut WordCounts)
    requires
        old(wordcnt).wf(),
        score_bounds_ok(old(wordcnt)@),
    ensures
        final(wordcnt).wf(),
        final(wordcnt)@ == adjust_scores(old(wordcnt)@),
{
    proof {
        reveal_strlit("今日/きょう");
        reveal_strlit("大字/だいじ");
        assert(daiji_district()[0] != kyou_today()[0]);
    }
    if !raise_cost("今日/きょう", "卿/きょう", wordcnt) {
        return;
    }
    raise_cost("大事/だいじ", "大字/だいじ", wordcnt);
}

/// Whether the score adjustments can be made on `wordcnt` without overflow.
pub fn score_bounds_hold(wordcnt: &WordCounts) -> (r: bool)
    requires
        wordcnt.wf(),
    ensures
        r == score_bounds_ok(wordcnt@),
{
    let today = wordcnt.contains_key("今日/きょう");
    let lord = wordcnt.get("卿/きょう");
    let important = wordcnt.contains_key("大事/だいじ");
    let district = wordcnt.get("大字/だいじ");
    match (lord, district) {
        (Some(l), Some(d)) => !(today && l == u32::MAX) && !(today && important && d == u32::MAX),
        (Some(l), None) => !(today && l == u32::MAX),
        (None, _) => true,
    }
}

/// Word ids are kept within 23 bits, so that a bigram key stays small: at
/// most this many words.
pub const MAX_VOCABULARY: usize = 8388608;

/// Why the counts cannot become a unigram model.
#[derive(Clone, Copy, Debug, PartialEq, Eq, Structural)]
pub enum UnigramError {
    /// More words than word ids.
    TooManyWords,
}

/// Readies the counts for building the unigram model: refuses a vocabulary
/// too large for the word ids, then equalises the homographs and adjusts the
/// scores.
pub fn prepare_word_counts(wordcnt: &mut WordCounts) -> (r: Result<(), UnigramError>)
    requires
        old(wordcnt).wf(),
        score_bounds_ok(old(wordcnt)@),
    ensures
        final(wordcnt).wf(),
        r is Err <==> old(wordcnt)@.len() > MAX_VOCABULARY,
        r is Err ==> final(wordcnt)@ == old(wordcnt)@,
        r is Ok ==> final(wordcnt)@ == adjust_scores(equalise_homographs(old(wordcnt)@)),
{
    if wordcnt.len() > MAX_VOCABULARY {
        return Err(UnigramError::TooManyWords);
    }
    proof {
        reveal_strlit("日本/にほん");
        reveal_strlit("日本/にっぽん");
        reveal_strlit("卿/きょう");
        reveal_strlit("大字/だいじ");
        reveal_strlit("今日/きょう");
        reveal_strlit("大事/だいじ");
        assert(kyou_today()[0] != nihon_nihon()[0]);
        assert(kyou_today()[0] != nihon_nippon()[0]);
        assert(daiji_important()[0] != nihon_nihon()[0]);
        assert(daiji_important()[0] != nihon_nippon()[0]);
        assert(kyou_lord()[0] != nihon_nihon()[0]);
        assert(kyou_lord()[0] != nihon_nippon()[0]);
        assert(daiji_district()[0] != nihon_nihon()[0]);
        assert(daiji_district()[0] != nihon_nippon()[0]);
    }
    homograph_hack(wordcnt);
    score_hack(wordcnt);
    Ok(())
}

} // verus!
