//! Lines of a word-frequency file: `word<TAB>count`.
use vstd::prelude::*;
use crate::graph::chars_of;
use crate::kana::push_char;
use crate::unigram::WordCounts;

verus! {

/// A character with the Unicode White_Space property.
pub open spec fn is_white_space(c: char) -> bool {
    ||| '\u{9}' <= c <= '\u{d}'
    ||| c == ' '
    ||| c == '\u{85}'
    ||| c == '\u{a0}'
    ||| c == '\u{1680}'
    ||| '\u{2000}' <= c <= '\u{200a}'
    ||| c == '\u{2028}'
    ||| c == '\u{2029}'
    ||| c == '\u{202f}'
    ||| c == '\u{205f}'
    ||| c == '\u{3000}'
}

/// `s` without its leading white space.
pub open spec fn trim_start_spec(s: Seq<char>) -> Seq<char>
    decreases s.len(),
{
    if s.len() > 0 && is_white_space(s[0]) {
        trim_start_spec(s.drop_first())
    } else {
        s
    }
}

/// `s` without its trailing white space.
pub open spec fn trim_end_spec(s: Seq<char>) -> Seq<char>
    decreases s.len(),
{
    if s.len() > 0 && is_white_space(s.last()) {
        trim_end_spec(s.drop_last())
    } else {
        s
    }
}

/// `s` without its leading and trailing white space.
pub open spec fn trimmed(s: Seq<char>) -> Seq<char> {
    trim_end_spec(trim_start_spec(s))
}

/// Relies on `str::trim`: the text without the leading and trailing
/// characters that have the Unicode White_Space property.
#[verifier::external_body]
fn trim_str(s: &str) -> (r: &str)
    ensures
        r@ == trimmed(s@),
{
    s.trim()
}

pub open spec fn is_digit(c: char) -> bool {
    '0' <= c <= '9'
}

/// The number written by the decimal digits `d`.
pub open spec fn digits_value(d: Seq<char>) -> int
    decreases d.len(),
{
    if d.len() == 0 {
        0
    } else {
        digits_value(d.drop_last()) * 10 + (d.last() as int - '0' as int)
    }
}

/// `d` without its leading `+`, if it has one.
pub open spec fn unsigned_part(d: Seq<char>) -> Seq<char> {
    if d.len() > 0 && d[0] == '+' {
        d.drop_first()
    } else {
        d
    }
}

pub open spec fn all_digits(d: Seq<char>) -> bool {
    forall|i: int| 0 <= i < d.len() ==> is_digit(#[trigger] d[i])
}

/// The count written by `d`: decimal digits, at least one, after an optional
/// `+`, whose value fits in a `u32`.
pub open spec fn count_value(d: Seq<char>) -> Option<u32> {
    let digits = unsigned_part(d);
    if digits.len() > 0 && all_digits(digits) && digits_value(digits) <= u32::MAX {
        Some(digits_value(digits) as u32)
    } else {
        None
    }
}

/// `i` is the position of the first tab of `t`.
pub open spec fn first_tab(t: Seq<char>, i: int) -> bool {
    0 <= i < t.len() && t[i] == '\t' && forall|j: int| 0 <= j < i ==> #[trigger] t[j] != '\t'
}

/// The word and count of a trimmed line: the text before its first tab, and
/// the count written after it.
pub open spec fn line_fields(t: Seq<char>) -> Option<(Seq<char>, u32)> {
    if exists|i: int| first_tab(t, i) {
        let i = choose|i: int| first_tab(t, i);
        match count_value(t.subrange(i + 1, t.len() as int)) {
            Some(c) => Some((t.subrange(0, i), c)),
            None => None,
        }
    } else {
        None
    }
}

proof fn lemma_first_tab_unique(t: Seq<char>, i: int, k: int)
    requires
        first_tab(t, i),
        first_tab(t, k),
    ensures
        i == k,
{
    if i < k {
        assert(t[i] != '\t');
    } else if k < i {
        assert(t[k] != '\t');
    }
}

/// Reads the count written in `d[from..to]`.
pub(crate) fn parse_count(d: &Vec<char>, from: usize, to: usize) -> (r: Option<u32>)
    requires
        from <= to <= d@.len(),
    ensures
        r == count_value(d@.subrange(from as int, to as int)),
{
    let ghost all = d@.subrange(from as int, to as int);
    let mut k: usize = from;
    if k < to && d[k] == '+' {
        k = k + 1;
    }
    let ghost digits = d@.subrange(k as int, to as int);
    assert(digits == unsigned_part(all)) by {
        if all.len() > 0 && all[0] == '+' {
            assert(digits =~= all.drop_first());
        } else {
            assert(digits =~= all);
        }
    }
    if k == to {
        return None;
    }
    let start = k;
    let mut v: u64 = 0;
    while k < to
        invariant
            start <= k <= to <= d@.len(),
            digits == d@.subrange(start as int, to as int),
            digits == unsigned_part(all),
            all == d@.subrange(from as int, to as int),
            v as int == digits_value(d@.subrange(start as int, k as int)),
            v <= u32::MAX,
            forall|i: int| start <= i < k ==> is_digit(#[trigger] d@[i]),
        decreases to - k,
    {
        let c = d[k];
        if !('0' <= c && c <= '9') {
            assert(!is_digit(digits[k - start]));
            assert(count_value(all) is None);
            return None;
        }
        assert(d@.subrange(start as int, k + 1).drop_last() =~= d@.subrange(start as int, k as int));
        v = v * 10 + (c as u64 - '0' as u64);
        if v > 0xffff_ffff {
            proof {
                if all_digits(digits) {
                    lemma_digits_grow(digits, (k + 1 - start) as int);
                    assert(digits.take((k + 1 - start) as int) =~= d@.subrange(start as int, k + 1));
                }
                assert(count_value(all) is None);
            }
            return None;
        }
        k = k + 1;
    }
    assert(d@.subrange(start as int, k as int) =~= digits);
    Some(v as u32)
}

/// A value read from digits is at least that of any of its prefixes.
proof fn lemma_digits_grow(d: Seq<char>, n: int)
    requires
        0 <= n <= d.len(),
        forall|i: int| 0 <= i < d.len() ==> is_digit(#[trigger] d[i]),
    ensures
        digits_value(d) >= digits_value(d.take(n)),
    decreases d.len(),
{
    if n < d.len() {
        assert(d.drop_last().take(n) =~= d.take(n));
        lemma_digits_grow(d.drop_last(), n);
        lemma_digits_nonneg(d.drop_last());
    } else {
        assert(d.take(n) =~= d);
    }
}

proof fn lemma_digits_nonneg(d: Seq<char>)
    requires
        forall|i: int| 0 <= i < d.len() ==> is_digit(#[trigger] d[i]),
    ensures
        digits_value(d) >= 0,
    decreases d.len(),
{
    if d.len() > 0 {
        lemma_digits_nonneg(d.drop_last());
    }
}

/// Splits a trimmed line into its word and count.
pub fn parse_wfreq_fields(t: &str) -> (r: Option<(String, u32)>)
    ensures
        match line_fields(t@) {
            None => r is None,
            Some((w, c)) => r matches Some((w2, c2)) && w2@ == w && c2 == c,
        },
{
    let d = chars_of(t);
    let mut i: usize = 0;
    while i < d.len() && d[i] != '\t'
        invariant
            d@ == t@,
            0 <= i <= d@.len(),
            forall|j: int| 0 <= j < i ==> #[trigger] d@[j] != '\t',
        decreases d@.len() - i,
    {
        i = i + 1;
    }
    if i == d.len() {
        assert(!exists|k: int| first_tab(t@, k));
        return None;
    }
    proof {
        assert(first_tab(t@, i as int));
        let k = choose|k: int| first_tab(t@, k);
        lemma_first_tab_unique(t@, i as int, k);
    }
    match parse_count(&d, i + 1, d.len()) {
        None => None,
        Some(c) => {
            let mut w = String::new();
            let mut j: usize = 0;
            while j < i
                invariant
                    d@ == t@,
                    0 <= j <= i < d@.len(),
                    w@ == d@.subrange(0, j as int),
                decreases i - j,
            {
                push_char(&mut w, d[j]);
                assert(d@.subrange(0, j + 1) =~= d@.subrange(0, j as int).push(d@[j as int]));
                j = j + 1;
            }
            Some((w, c))
        },
    }
}

/// Reads one line of a word-frequency file: the word and count of its trimmed
/// text.
pub fn parse_wfreq_line(line: &str) -> (r: Option<(String, u32)>)
    ensures
        match line_fields(trimmed(line@)) {
            None => r is None,
            Some((w, c)) => r matches Some((w2, c2)) && w2@ == w && c2 == c,
        },
{
    parse_wfreq_fields(trim_str(line))
}

/// Reads one line and keeps its word where it was counted more than
/// `threshold` times; `false`, and nothing kept, for a line that does not
/// read.
pub fn add_wfreq_line(wordcnt: &mut WordCounts, line: &str, threshold: u32) -> (ok: bool)
    requires
        old(wordcnt).wf(),
    ensures
        final(wordcnt).wf(),
        ok == line_fields(trimmed(line@)) is Some,
        match line_fields(trimmed(line@)) {
            None => final(wordcnt)@ == old(wordcnt)@,
            Some((w, c)) => final(wordcnt)@ == if c > threshold {
                old(wordcnt)@.insert(w, c)
            } else {
                old(wordcnt)@
            },
        },
{
    match parse_wfreq_line(line) {
        None => false,
        Some((w, c)) => {
            if c > threshold {
                wordcnt.insert(w.as_str(), c);
            }
            true
        },
    }
}

/// The counts after the lines of a word-frequency file are read one by one
/// into `m`, keeping words counted more than `threshold` times; `None` where
/// some line does not read.
pub open spec fn read_lines(m: Map<Seq<char>, u32>, lines: Seq<Seq<char>>, threshold: u32) -> Option<
    Map<Seq<char>, u32>,
>
    decreases lines.len(),
{
    if lines.len() == 0 {
        Some(m)
    } else {
        match read_lines(m, lines.drop_last(), threshold) {
            None => None,
            Some(m1) => match line_fields(trimmed(lines.last())) {
                None => None,
                Some((w, c)) => Some(
                    if c > threshold {
                        m1.insert(w, c)
                    } else {
                        m1
                    },
                ),
            },
        }
    }
}

/// The texts of `lines`.
pub open spec fn line_views(lines: Seq<String>) -> Seq<Seq<char>> {
    lines.map_values(|l: String| l@)
}

/// Reads the lines of a word-frequency file into `wordcnt`; `false` where a
/// line does not read, the lines before it having been read.
pub fn add_wfreq_lines(wordcnt: &mut WordCounts, lines: &Vec<String>, threshold: u32) -> (ok: bool)
    requires
        old(wordcnt).wf(),
    ensures
        final(wordcnt).wf(),
        ok == read_lines(old(wordcnt)@, line_views(lines@), threshold) is Some,
        ok ==> read_lines(old(wordcnt)@, line_views(lines@), threshold) == Some(final(wordcnt)@),
{
    let ghost start = old(wordcnt)@;
    let ghost all = line_views(lines@);
    let mut i: usize = 0;
    assert(all.take(0) =~= Seq::<Seq<char>>::empty());
    while i < lines.len()
        invariant
            wordcnt.wf(),
            start == old(wordcnt)@,
            all == line_views(lines@),
            0 <= i <= lines@.len(),
            read_lines(start, all.take(i as int), threshold) == Some(wordcnt@),
        decreases lines@.len() - i,
    {
        proof {
            assert(all.take(i + 1).drop_last() =~= all.take(i as int));
            assert(all.take(i + 1).last() == lines@[i as int]@);
        }
        if !add_wfreq_line(wordcnt, lines[i].as_str(), threshold) {
            proof {
                assert(read_lines(start, all.take(i + 1), threshold) is None);
                lemma_read_lines_stops(start, all, (i + 1) as int, threshold);
            }
            return false;
        }
        i = i + 1;
    }
    assert(all.take(i as int) =~= all);
    true
}

/// Once a line does not read, no longer run of lines reads.
proof fn lemma_read_lines_stops(m: Map<Seq<char>, u32>, lines: Seq<Seq<char>>, n: int, threshold: u32)
    requires
        0 <= n <= lines.len(),
        read_lines(m, lines.take(n), threshold) is None,
    ensures
        read_lines(m, lines, threshold) is None,
    decreases lines.len() - n,
{
    if n == lines.len() {
        assert(lines.take(n) =~= lines);
    } else {
        assert(lines.drop_last().take(n) =~= lines.take(n));
        lemma_read_lines_stops(m, lines.drop_last(), n, threshold);
    }
}

} // verus!
