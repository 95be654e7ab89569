//! Per-user learning data: how often each word, and each pair of adjacent
//! words, was committed.
use vstd::prelude::*;
use crate::graph::chars_of;
use crate::kana::push_char;
use crate::unigram::WordCounts;
use crate::wfreq::{all_digits, count_value, digits_value, first_tab, parse_count, unsigned_part};

verus! {

/// The count of `k` in `m`, zero where it has none.
pub open spec fn count_of(m: Map<Seq<char>, u32>, k: Seq<char>) -> nat {
    if m.contains_key(k) {
        m[k] as nat
    } else {
        0
    }
}

/// `m` with the count of `k` raised by `n`, held at `u32::MAX`.
pub open spec fn bump(m: Map<Seq<char>, u32>, k: Seq<char>, n: nat) -> Map<Seq<char>, u32> {
    m.insert(k, if count_of(m, k) + n > u32::MAX { u32::MAX } else { (count_of(m, k) + n) as u32 })
}

/// The key under which the pair `prev`, `cur` is counted.
pub open spec fn pair_key(prev: Seq<char>, cur: Seq<char>) -> Seq<char> {
    prev + seq!['\t'] + cur
}

/// The learning data after `cur` was committed after `prev`, `n` times in one go.
pub open spec fn recorded(
    data: (Map<Seq<char>, u32>, Map<Seq<char>, u32>),
    prev: Seq<char>,
    cur: Seq<char>,
    n: nat,
) -> (Map<Seq<char>, u32>, Map<Seq<char>, u32>) {
    (bump(data.0, cur, n), bump(data.1, pair_key(prev, cur), n))
}

/// The learning data after `cur` was committed after `prev` once, `k` times over.
pub open spec fn learned_times(
    data: (Map<Seq<char>, u32>, Map<Seq<char>, u32>),
    prev: Seq<char>,
    cur: Seq<char>,
    k: nat,
) -> (Map<Seq<char>, u32>, Map<Seq<char>, u32>)
    decreases k,
{
    if k == 0 {
        data
    } else {
        recorded(learned_times(data, prev, cur, (k - 1) as nat), prev, cur, 1)
    }
}

/// Word and word-pair counts of one user.
pub struct UserData {
    unigram: WordCounts,
    bigram: WordCounts,
}

impl View for UserData {
    type V = (Map<Seq<char>, u32>, Map<Seq<char>, u32>);

    closed spec fn view(&self) -> (Map<Seq<char>, u32>, Map<Seq<char>, u32>) {
        (self.unigram@, self.bigram@)
    }
}

impl UserData {
    pub closed spec fn wf(&self) -> bool {
        self.unigram.wf() && self.bigram.wf()
    }

    pub fn new() -> (r: UserData)
        ensures
            r.wf(),
            r@.0 == Map::<Seq<char>, u32>::empty(),
            r@.1 == Map::<Seq<char>, u32>::empty(),
    {
        UserData { unigram: WordCounts::new(), bigram: WordCounts::new() }
    }

    fn key_of(prev: &str, cur: &str) -> (r: String)
        ensures
            r@ == pair_key(prev@, cur@),
    {
        let mut key = prev.to_owned();
        key.append("\t");
        key.append(cur);
        proof {
            reveal_strlit("\t");
        }
        key
    }

    fn bump_count(table: &mut WordCounts, key: &str, n: u32)
        requires
            old(table).wf(),
        ensures
            final(table).wf(),
            final(table)@ == bump(old(table)@, key@, n as nat),
    {
        let c = match table.get(key) {
            Some(c) => c,
            None => 0,
        };
        table.insert(key, c.saturating_add(n));
    }

    /// How often `word` was committed.
    pub fn unigram_count(&self, word: &str) -> (r: u32)
        requires
            self.wf(),
        ensures
            r == count_of(self@.0, word@),
    {
        match self.unigram.get(word) {
            Some(c) => c,
            None => 0,
        }
    }

    /// How often `cur` was committed right after `prev`.
    pub fn bigram_count(&self, prev: &str, cur: &str) -> (r: u32)
        requires
            self.wf(),
        ensures
            r == count_of(self@.1, pair_key(prev@, cur@)),
    {
        let key = Self::key_of(prev, cur);
        match self.bigram.get(key.as_str()) {
            Some(c) => c,
            None => 0,
        }
    }

    /// Counts `cur`, and `cur` after `prev`, `n` more times.
    pub fn record(&mut self, prev: &str, cur: &str, n: u32)
        requires
            old(self).wf(),
        ensures
            final(self).wf(),
            final(self)@ == recorded(old(self)@, prev@, cur@, n as nat),
    {
        Self::bump_count(&mut self.unigram, cur, n);
        let key = Self::key_of(prev, cur);
        Self::bump_count(&mut self.bigram, key.as_str(), n);
    }

    /// Learns that `cur` was committed right after `prev`.
    pub fn learn(&mut self, prev: &str, cur: &str)
        requires
            old(self).wf(),
        ensures
            final(self).wf(),
            final(self)@ == recorded(old(self)@, prev@, cur@, 1),
    {
        self.record(prev, cur, 1);
    }
}

/// Learning a pair `k` times, `k` at least once, leaves the same counts as
/// recording it once with an increment of `k`.
pub proof fn lemma_learn_repeated(
    data: (Map<Seq<char>, u32>, Map<Seq<char>, u32>),
    prev: Seq<char>,
    cur: Seq<char>,
    k: nat,
)
    requires
        k >= 1,
    ensures
        learned_times(data, prev, cur, k) == recorded(data, prev, cur, k),
    decreases k,
{
    if k > 1 {
        lemma_learn_repeated(data, prev, cur, (k - 1) as nat);
        lemma_bump_twice(data.0, cur, (k - 1) as nat);
        lemma_bump_twice(data.1, pair_key(prev, cur), (k - 1) as nat);
    } else {
        assert(learned_times(data, prev, cur, 0) == data);
    }
}

proof fn lemma_bump_twice(m: Map<Seq<char>, u32>, key: Seq<char>, n: nat)
    ensures
        bump(bump(m, key, n), key, 1) == bump(m, key, n + 1),
{
    assert(bump(bump(m, key, n), key, 1) =~= bump(m, key, n + 1));
}

/// The decimal digit for `d`, which is below ten.
pub open spec fn digit_char(d: int) -> char {
    if d == 0 {
        '0'
    } else if d == 1 {
        '1'
    } else if d == 2 {
        '2'
    } else if d == 3 {
        '3'
    } else if d == 4 {
        '4'
    } else if d == 5 {
        '5'
    } else if d == 6 {
        '6'
    } else if d == 7 {
        '7'
    } else if d == 8 {
        '8'
    } else {
        '9'
    }
}

/// `n` in decimal, without leading zeros.
pub open spec fn decimal(n: nat) -> Seq<char>
    decreases n,
{
    if n < 10 {
        seq![digit_char(n as int)]
    } else {
        decimal(n / 10).push(digit_char((n % 10) as int))
    }
}

/// The line of the learning file that records `count` for `key`.
pub open spec fn count_line(key: Seq<char>, count: u32) -> Seq<char> {
    decimal(count as nat) + seq!['\t'] + key
}

/// The count and key that a line of the learning file records: the count
/// before its first tab, and the rest of the line after it.
pub open spec fn line_record(t: Seq<char>) -> Option<(u32, Seq<char>)> {
    if exists|i: int| first_tab(t, i) {
        let i = choose|i: int| first_tab(t, i);
        match count_value(t.subrange(0, i)) {
            Some(c) => Some((c, t.subrange(i + 1, t.len() as int))),
            None => None,
        }
    } else {
        None
    }
}

/// `line` records the count of some key of `m`.
pub open spec fn is_line_of(m: Map<Seq<char>, u32>, line: Seq<char>) -> bool {
    exists|k: Seq<char>| m.contains_key(k) && line == #[trigger] count_line(k, m[k])
}

proof fn lemma_digit_char(d: int)
    requires
        0 <= d < 10,
    ensures
        crate::wfreq::is_digit(digit_char(d)),
        digit_char(d) as int - '0' as int == d,
        digit_char(d) != '+',
        digit_char(d) != '\t',
{
}

proof fn lemma_decimal(n: nat)
    ensures
        decimal(n).len() > 0,
        all_digits(decimal(n)),
        digits_value(decimal(n)) == n,
        decimal(n)[0] != '+',
        forall|i: int| 0 <= i < decimal(n).len() ==> #[trigger] decimal(n)[i] != '\t',
    decreases n,
{
    lemma_digit_char((n % 10) as int);
    if n < 10 {
        lemma_digit_char(n as int);
        assert(decimal(n).drop_last() =~= Seq::<char>::empty());
        assert(digits_value(decimal(n).drop_last()) == 0);
    } else {
        lemma_decimal(n / 10);
        let s = decimal(n);
        assert(s.drop_last() == decimal(n / 10));
        assert(n == (n / 10) * 10 + n % 10);
        assert(s.last() == digit_char((n % 10) as int));
        assert(digits_value(s) == digits_value(s.drop_last()) * 10 + (s.last() as int - '0' as int));
        assert forall|i: int| 0 <= i < s.len() implies crate::wfreq::is_digit(#[trigger] s[i]) by {
            if i < s.len() - 1 {
                assert(s[i] == decimal(n / 10)[i]);
            }
        }
        assert forall|i: int| 0 <= i < s.len() implies #[trigger] s[i] != '\t' by {
            if i < s.len() - 1 {
                assert(s[i] == decimal(n / 10)[i]);
            }
        }
    }
}

/// A line written for a key and count reads back as that key and count.
pub proof fn lemma_count_line_round_trip(key: Seq<char>, count: u32)
    ensures
        line_record(count_line(key, count)) == Some((count, key)),
{
    let d = decimal(count as nat);
    let t = count_line(key, count);
    lemma_decimal(count as nat);
    let i = d.len() as int;
    assert(t[i] == '\t');
    assert forall|j: int| 0 <= j < i implies #[trigger] t[j] != '\t' by {
        assert(t[j] == d[j]);
    }
    assert(first_tab(t, i));
    let k = choose|k: int| first_tab(t, k);
    if k < i {
        assert(t[k] == d[k]);
    } else if k > i {
        assert(t[i] != '\t');
    }
    assert(t.subrange(0, i) =~= d);
    assert(unsigned_part(d) == d);
    assert(t.subrange(i + 1, t.len() as int) =~= key);
}

fn digit_of(d: u32) -> (r: char)
    requires
        d < 10,
    ensures
        r == digit_char(d as int),
{
    match d {
        0 => '0',
        1 => '1',
        2 => '2',
        3 => '3',
        4 => '4',
        5 => '5',
        6 => '6',
        7 => '7',
        8 => '8',
        _ => '9',
    }
}

/// Appends `n` in decimal.
fn write_decimal(out: &mut String, n: u32)
    ensures
        final(out)@ == old(out)@ + decimal(n as nat),
    decreases n,
{
    if n >= 10 {
        write_decimal(out, n / 10);
    }
    push_char(out, digit_of(n % 10));
    proof {
        if n >= 10 {
            assert(decimal(n as nat) == decimal((n / 10) as nat).push(digit_char((n % 10) as int)));
        }
    }
    assert(final(out)@ =~= old(out)@ + decimal(n as nat));
}

/// The line that records `count` for `key`.
pub fn format_count_line(key: &str, count: u32) -> (r: String)
    ensures
        r@ == count_line(key@, count),
{
    let mut out = String::new();
    write_decimal(&mut out, count);
    out.append("\t");
    out.append(key);
    proof {
        reveal_strlit("\t");
    }
    assert(out@ =~= count_line(key@, count));
    out
}

/// Reads a line of the learning file.
pub fn parse_count_line(line: &str) -> (r: Option<(u32, String)>)
    ensures
        match line_record(line@) {
            None => r is None,
            Some((c, k)) => r matches Some((c2, k2)) && c2 == c && k2@ == k,
        },
{
    let d = chars_of(line);
    let mut i: usize = 0;
    while i < d.len() && d[i] != '\t'
        invariant
            d@ == line@,
            0 <= i <= d@.len(),
            forall|j: int| 0 <= j < i ==> #[trigger] d@[j] != '\t',
        decreases d@.len() - i,
    {
        i = i + 1;
    }
    if i == d.len() {
        assert(!exists|k: int| first_tab(line@, k));
        return None;
    }
    proof {
        assert(first_tab(line@, i as int));
        let k = choose|k: int| first_tab(line@, k);
        if k < i {
            assert(d@[k] != '\t');
        } else if k > i {
            assert(line@[i as int] != '\t');
        }
    }
    match parse_count(&d, 0, i) {
        None => None,
        Some(c) => {
            let mut key = String::new();
            let mut j: usize = i + 1;
            while j < d.len()
                invariant
                    d@ == line@,
                    i < d@.len(),
                    i + 1 <= j <= d@.len(),
                    key@ == d@.subrange(i + 1, j as int),
                decreases d@.len() - j,
            {
                push_char(&mut key, d[j]);
                assert(d@.subrange(i + 1, j + 1) =~= d@.subrange(i + 1, j as int).push(d@[j as int]));
                j = j + 1;
            }
            Some((c, key))
        },
    }
}

impl UserData {
    fn load_line(table: &mut WordCounts, line: &str) -> (ok: bool)
        requires
            old(table).wf(),
        ensures
            final(table).wf(),
            ok == line_record(line@) is Some,
            match line_record(line@) {
                None => final(table)@ == old(table)@,
                Some((c, k)) => final(table)@ == old(table)@.insert(k, c),
            },
    {
        match parse_count_line(line) {
            None => false,
            Some((c, k)) => {
                table.insert(k.as_str(), c);
                true
            },
        }
    }

    /// Takes in one line of the word counts file; `false`, and nothing
    /// changed, for a line that does not read.
    pub fn load_unigram_line(&mut self, line: &str) -> (ok: bool)
        requires
            old(self).wf(),
        ensures
            final(self).wf(),
            ok == line_record(line@) is Some,
            final(self)@.1 == old(self)@.1,
            match line_record(line@) {
                None => final(self)@.0 == old(self)@.0,
                Some((c, k)) => final(self)@.0 == old(self)@.0.insert(k, c),
            },
    {
        Self::load_line(&mut self.unigram, line)
    }

    /// Takes in one line of the word pair counts file, whose key is the two
    /// words with a tab between them.
    pub fn load_bigram_line(&mut self, line: &str) -> (ok: bool)
        requires
            old(self).wf(),
        ensures
            final(self).wf(),
            ok == line_record(line@) is Some,
            final(self)@.0 == old(self)@.0,
            match line_record(line@) {
                None => final(self)@.1 == old(self)@.1,
                Some((c, k)) => final(self)@.1 == old(self)@.1.insert(k, c),
            },
    {
        Self::load_line(&mut self.bigram, line)
    }

    /// The lines of the word counts file, one per word, every word with its line.
    pub fn unigram_lines(&self) -> (r: Vec<String>)
        requires
            self.wf(),
        ensures
            r@.len() == self@.0.len(),
            forall|i: int| 0 <= i < r@.len() ==> is_line_of(self@.0, #[trigger] r@[i]@),
            forall|k: Seq<char>|
                #[trigger] self@.0.contains_key(k) ==> exists|i: int| 0 <= i < r@.len() && r@[i]@ == count_line(k, self@.0[k]),
    {
        self.unigram.lines()
    }

    /// The lines of the word pair counts file, one per pair, every pair with its line.
    pub fn bigram_lines(&self) -> (r: Vec<String>)
        requires
            self.wf(),
        ensures
            r@.len() == self@.1.len(),
            forall|i: int| 0 <= i < r@.len() ==> is_line_of(self@.1, #[trigger] r@[i]@),
            forall|k: Seq<char>|
                #[trigger] self@.1.contains_key(k) ==> exists|i: int| 0 <= i < r@.len() && r@[i]@ == count_line(k, self@.1[k]),
    {
        self.bigram.lines()
    }
}

} // verus!
