//! The kana-to-kanji dictionary, the unigram model's lookup, and the lattice
//! of candidate words built from them for one reading.
use vstd::prelude::*;
use crate::kana::push_char;
use crate::resolver::{Lattice, LatticeNode, UNKNOWN_ID};
use crate::unigram::MAX_VOCABULARY;

verus! {

/// The cost of a word the unigram model does not know (fixed-point, thousandths).
pub const UNIGRAM_DEFAULT_COST: u32 = 20000;

/// Readings with their surface candidates, most frequent first.
pub struct KanaKanjiDict {
    pub entries: Vec<(String, Vec<String>)>,
}

/// The candidates of reading `y`: those of its first entry, else none.
pub open spec fn dict_candidates(entries: Seq<(String, Vec<String>)>, y: Seq<char>) -> Seq<String>
    decreases entries.len(),
{
    if entries.len() == 0 {
        Seq::empty()
    } else if entries[0].0@ == y {
        entries[0].1@
    } else {
        dict_candidates(entries.drop_first(), y)
    }
}

/// Some entry of `entries` is for reading `y`.
pub open spec fn dict_has(entries: Seq<(String, Vec<String>)>, y: Seq<char>) -> bool
    decreases entries.len(),
{
    if entries.len() == 0 {
        false
    } else if entries[0].0@ == y {
        true
    } else {
        dict_has(entries.drop_first(), y)
    }
}

impl KanaKanjiDict {
    pub open spec fn has_reading(&self, y: Seq<char>) -> bool {
        dict_has(self.entries@, y)
    }

    pub open spec fn candidates(&self, y: Seq<char>) -> Seq<String> {
        dict_candidates(self.entries@, y)
    }

    /// No candidate is empty.
    pub open spec fn wf(&self) -> bool {
        forall|i: int, j: int|
            0 <= i < self.entries@.len() && 0 <= j < self.entries@[i].1@.len() ==> #[trigger] self.entries@[i].1@[j]@.len() > 0
    }

    /// The index of the entry for `y`, if any.
    fn find(&self, y: &String) -> (r: Option<usize>)
        ensures
            r matches Some(i) ==> i < self.entries@.len() && self.candidates(y@) == self.entries@[i as int].1@,
            r is None ==> self.candidates(y@) == Seq::<String>::empty(),
            r is Some <==> self.has_reading(y@),
    {
        let mut i: usize = 0;
        assert(self.entries@.skip(0) =~= self.entries@);
        while i < self.entries.len()
            invariant
                0 <= i <= self.entries@.len(),
                self.candidates(y@) == dict_candidates(self.entries@.skip(i as int), y@),
                self.has_reading(y@) == dict_has(self.entries@.skip(i as int), y@),
            decreases self.entries@.len() - i,
        {
            if self.entries[i].0 == *y {
                return Some(i);
            }
            assert(self.entries@.skip(i as int).drop_first() =~= self.entries@.skip(i + 1));
            i = i + 1;
        }
        None
    }
}

/// The words of the unigram model (`surface/yomi`) with their costs; a word's
/// id is its position.
pub struct UnigramLM {
    pub entries: Vec<(String, u32)>,
}

/// The id and cost of word `w`: its first entry's, else unknown at the default cost.
pub open spec fn unigram_lookup(entries: Seq<(String, u32)>, w: Seq<char>, base: int) -> (int, u32)
    decreases entries.len(),
{
    if entries.len() == 0 {
        (UNKNOWN_ID as int, UNIGRAM_DEFAULT_COST)
    } else if entries[0].0@ == w {
        (base, entries[0].1)
    } else {
        unigram_lookup(entries.drop_first(), w, base + 1)
    }
}

/// The key of a word in the unigram model.
pub open spec fn word_key(surface: Seq<char>, yomi: Seq<char>) -> Seq<char> {
    surface + seq!['/'] + yomi
}

impl UnigramLM {
    pub open spec fn lookup(&self, w: Seq<char>) -> (int, u32) {
        unigram_lookup(self.entries@, w, 0)
    }

    /// The ids fit in 23 bits.
    pub open spec fn wf(&self) -> bool {
        self.entries@.len() <= MAX_VOCABULARY
    }

    /// The id and cost of word `w`.
    pub fn find(&self, w: &String) -> (r: (u32, u32))
        requires
            self.wf(),
        ensures
            r.0 as int == self.lookup(w@).0,
            r.1 == self.lookup(w@).1,
    {
        let mut i: usize = 0;
        assert(self.entries@.skip(0) =~= self.entries@);
        while i < self.entries.len()
            invariant
                self.wf(),
                0 <= i <= self.entries@.len(),
                self.lookup(w@) == unigram_lookup(self.entries@.skip(i as int), w@, i as int),
            decreases self.entries@.len() - i,
        {
            if self.entries[i].0 == *w {
                return (i as u32, self.entries[i].1);
            }
            assert(self.entries@.skip(i as int).drop_first() =~= self.entries@.skip(i + 1));
            i = i + 1;
        }
        (UNKNOWN_ID, UNIGRAM_DEFAULT_COST)
    }
}

/// The characters of `s`.
pub fn chars_of(s: &str) -> (r: Vec<char>)
    ensures
        r@ == s@,
{
    broadcast use vstd::string::axiom_spec_iter, vstd::string::next_postcondition;
    let mut out: Vec<char> = Vec::new();
    let mut it = s.chars();
    let ghost mut n: int = 0;
    loop
        invariant
            0 <= n <= s@.len(),
            vstd::std_specs::iter::IteratorSpec::obeys_prophetic_iter_laws(&it),
            vstd::std_specs::iter::IteratorSpec::remaining(&it) == s@.skip(n),
            out@ == s@.take(n),
        ensures
            out@ == s@,
        decreases s@.len() - n,
    {
        match it.next() {
            Some(c) => {
                out.push(c);
                proof {
                    assert(s@.skip(n)[0] == s@[n]);
                    assert(s@.skip(n).drop_first() =~= s@.skip(n + 1));
                    assert(s@.take(n + 1) =~= s@.take(n).push(s@[n]));
                    n = n + 1;
                }
            },
            None => {
                assert(s@.take(n) =~= s@);
                break;
            },
        }
    }
    out
}

fn substring(y: &Vec<char>, i: usize, j: usize) -> (r: String)
    requires
        i <= j <= y@.len(),
    ensures
        r@ == y@.subrange(i as int, j as int),
{
    let mut s = String::new();
    let mut k: usize = i;
    while k < j
        invariant
            i <= k <= j <= y@.len(),
            s@ == y@.subrange(i as int, k as int),
        decreases j - k,
    {
        push_char(&mut s, y[k]);
        assert(y@.subrange(i as int, k + 1) =~= y@.subrange(i as int, k as int).push(y@[k as int]));
        k = k + 1;
    }
    s
}

fn make_key(surface: &String, yomi: &String) -> (r: String)
    ensures
        r@ == word_key(surface@, yomi@),
{
    let mut k = surface.clone();
    k.append("/");
    k.append(yomi.as_str());
    proof {
        reveal_strlit("/");
    }
    k
}

/// A node is a candidate of the reading it covers, which is a dictionary
/// reading or a single character: one of the dictionary's surfaces for it, or
/// the reading itself; its id and cost are the unigram model's for that word.
pub open spec fn node_ok(dict: KanaKanjiDict, lm: UnigramLM, y: Seq<char>, n: LatticeNode) -> bool {
    let reading = y.subrange(n.start as int, n.end as int);
    &&& n.start < n.end <= y.len()
    &&& (n.end == n.start + 1 || dict.has_reading(reading))
    &&& n.surface@.len() > 0
    &&& (n.surface@ == reading || exists|c: int|
        0 <= c < dict.candidates(reading).len() && #[trigger] dict.candidates(reading)[c]@ == n.surface@)
    &&& n.word_id as int == lm.lookup(word_key(n.surface@, reading)).0
    &&& n.cost == lm.lookup(word_key(n.surface@, reading)).1
}

fn make_node(lm: &UnigramLM, start: usize, end: usize, surface: String, yomi: &String) -> (r: LatticeNode)
    requires
        lm.wf(),
    ensures
        r.start == start,
        r.end == end,
        r.surface@ == surface@,
        r.word_id as int == lm.lookup(word_key(surface@, yomi@)).0,
        r.cost == lm.lookup(word_key(surface@, yomi@)).1,
{
    let key = make_key(&surface, yomi);
    let (word_id, cost) = lm.find(&key);
    LatticeNode { start, end, surface, word_id, cost }
}

/// Writing the stretch of `y` from `a` to `b` as `s` is one of the choices a
/// conversion has: the stretch is a dictionary reading or a single character,
/// and `s` is one of the dictionary's surfaces for it or the stretch itself.
pub open spec fn valid_segment(dict: KanaKanjiDict, y: Seq<char>, a: int, b: int, s: Seq<char>) -> bool {
    let reading = y.subrange(a, b);
    &&& 0 <= a < b <= y.len()
    &&& (b == a + 1 || dict.has_reading(reading))
    &&& s.len() > 0
    &&& (s == reading || exists|c: int| 0 <= c < dict.candidates(reading).len() && #[trigger] dict.candidates(reading)[c]@ == s)
}

/// Some node of `nodes` writes the stretch from `a` to `b` as `s`.
pub open spec fn has_node(nodes: Seq<LatticeNode>, a: int, b: int, s: Seq<char>) -> bool {
    exists|k: int| 0 <= k < nodes.len() && (#[trigger] nodes[k]).start == a && nodes[k].end == b && nodes[k].surface@ == s
}

/// Some node of `nodes` covers the stretch from `a` to `b`.
pub open spec fn span_at(nodes: Seq<LatticeNode>, a: int, b: int) -> bool {
    exists|k: int| 0 <= k < nodes.len() && (#[trigger] nodes[k]).start == a && nodes[k].end == b
}

/// The nodes are in order of where they start.
pub open spec fn starts_sorted(nodes: Seq<LatticeNode>) -> bool {
    forall|a: int, b: int| 0 <= a < b < nodes.len() ==> #[trigger] nodes[a].start <= #[trigger] nodes[b].start
}

fn push_node(
    nodes: &mut Vec<LatticeNode>,
    node: LatticeNode,
    dict: &KanaKanjiDict,
    lm: &UnigramLM,
    y: &Vec<char>,
)
    requires
        node_ok(*dict, *lm, y@, node),
        forall|k: int| 0 <= k < old(nodes)@.len() ==> node_ok(*dict, *lm, y@, #[trigger] old(nodes)@[k]),
        forall|k: int| 0 <= k < old(nodes)@.len() ==> (#[trigger] old(nodes)@[k]).start <= node.start,
        starts_sorted(old(nodes)@),
    ensures
        final(nodes)@ == old(nodes)@.push(node),
        forall|k: int| 0 <= k < final(nodes)@.len() ==> node_ok(*dict, *lm, y@, #[trigger] final(nodes)@[k]),
        starts_sorted(final(nodes)@),
        span_at(final(nodes)@, node.start as int, node.end as int),
        forall|a: int, b: int| span_at(old(nodes)@, a, b) ==> #[trigger] span_at(final(nodes)@, a, b),
        has_node(final(nodes)@, node.start as int, node.end as int, node.surface@),
        forall|a: int, b: int, t: Seq<char>| has_node(old(nodes)@, a, b, t) ==> #[trigger] has_node(final(nodes)@, a, b, t),
{
    let ghost pre = nodes@;
    let ghost start = node.start;
    let ghost end = node.end;
    let ghost surface = node.surface@;
    nodes.push(node);
    proof {
        assert forall|k: int| 0 <= k < nodes@.len() implies node_ok(*dict, *lm, y@, #[trigger] nodes@[k]) by {
            if k < pre.len() {
                assert(nodes@[k] == pre[k]);
            }
        }
        assert forall|a: int, b: int| 0 <= a < b < nodes@.len() implies #[trigger] nodes@[a].start
            <= #[trigger] nodes@[b].start by {
            assert(nodes@[a] == pre[a]);
            if b < pre.len() {
                assert(nodes@[b] == pre[b]);
            }
        }
        assert(nodes@[pre.len() as int].start == start && nodes@[pre.len() as int].end == end);
        assert forall|a: int, b: int| span_at(pre, a, b) implies #[trigger] span_at(nodes@, a, b) by {
            let k = choose|k: int| 0 <= k < pre.len() && (#[trigger] pre[k]).start == a && pre[k].end == b;
            assert(nodes@[k] == pre[k]);
        }
        assert(nodes@[pre.len() as int].surface@ == surface);
        assert forall|a: int, b: int, t: Seq<char>| has_node(pre, a, b, t) implies #[trigger] has_node(nodes@, a, b, t) by {
            let k = choose|k: int|
                0 <= k < pre.len() && (#[trigger] pre[k]).start == a && pre[k].end == b && pre[k].surface@ == t;
            assert(nodes@[k] == pre[k]);
        }
    }
}

/// Builds the lattice of reading `y`: for each stretch of it that is a
/// dictionary reading, or a single character, a node per candidate surface and
/// one for the reading itself unless a candidate already is the reading.
pub fn build_lattice(dict: &KanaKanjiDict, lm: &UnigramLM, y: &Vec<char>) -> (r: Lattice)
    requires
        dict.wf(),
        lm.wf(),
    ensures
        r.wf(),
        r.sorted(),
        r.all_units(),
        r.len == y@.len(),
        forall|k: int| 0 <= k < r.nodes@.len() ==> node_ok(*dict, *lm, y@, #[trigger] r.nodes@[k]),
        forall|a: int, b: int, s: Seq<char>| #[trigger] valid_segment(*dict, y@, a, b, s) ==> has_node(r.nodes@, a, b, s),
{
    let n = y.len();
    let mut nodes: Vec<LatticeNode> = Vec::new();
    let mut i: usize = 0;
    while i < n
        invariant
            dict.wf(),
            lm.wf(),
            n == y@.len(),
            0 <= i <= n,
            forall|k: int| 0 <= k < nodes@.len() ==> node_ok(*dict, *lm, y@, #[trigger] nodes@[k]),
            forall|k: int| 0 <= k < nodes@.len() ==> (#[trigger] nodes@[k]).start < i,
            starts_sorted(nodes@),
            forall|p: int| 0 <= p < i ==> #[trigger] span_at(nodes@, p, p + 1),
            forall|a: int, b: int, s: Seq<char>|
                a < i && #[trigger] valid_segment(*dict, y@, a, b, s) ==> has_node(nodes@, a, b, s),
        decreases n - i,
    {
        let mut j: usize = i + 1;
        loop
            invariant
                dict.wf(),
                lm.wf(),
                n == y@.len(),
                0 <= i < n,
                i + 1 <= j <= n,
                forall|k: int| 0 <= k < nodes@.len() ==> node_ok(*dict, *lm, y@, #[trigger] nodes@[k]),
                forall|k: int| 0 <= k < nodes@.len() ==> (#[trigger] nodes@[k]).start <= i,
                starts_sorted(nodes@),
                forall|p: int| 0 <= p < i ==> #[trigger] span_at(nodes@, p, p + 1),
                j > i + 1 ==> span_at(nodes@, i as int, i + 1),
                forall|a: int, b: int, s: Seq<char>|
                    (a < i || (a == i && b < j)) && #[trigger] valid_segment(*dict, y@, a, b, s) ==> has_node(
                        nodes@,
                        a,
                        b,
                        s,
                    ),
            ensures
                forall|k: int| 0 <= k < nodes@.len() ==> node_ok(*dict, *lm, y@, #[trigger] nodes@[k]),
                forall|k: int| 0 <= k < nodes@.len() ==> (#[trigger] nodes@[k]).start <= i,
                starts_sorted(nodes@),
                forall|p: int| 0 <= p < i + 1 ==> #[trigger] span_at(nodes@, p, p + 1),
                forall|a: int, b: int, s: Seq<char>|
                    a < i + 1 && #[trigger] valid_segment(*dict, y@, a, b, s) ==> has_node(nodes@, a, b, s),
            decreases n - j,
        {
            let yomi = substring(y, i, j);
            let ghost reading = y@.subrange(i as int, j as int);
            let found = dict.find(&yomi);
            let mut has_identity = false;
            if let Some(e) = found {
                let cands = &dict.entries[e].1;
                let mut c: usize = 0;
                while c < cands.len()
                    invariant
                        dict.wf(),
                        lm.wf(),
                        n == y@.len(),
                        i < j <= n,
                        yomi@ == reading,
                        reading == y@.subrange(i as int, j as int),
                        e < dict.entries@.len(),
                        *cands == dict.entries@[e as int].1,
                        dict.candidates(reading) == cands@,
                        0 <= c <= cands@.len(),
                        forall|k: int| 0 <= k < nodes@.len() ==> node_ok(*dict, *lm, y@, #[trigger] nodes@[k]),
                        forall|k: int| 0 <= k < nodes@.len() ==> (#[trigger] nodes@[k]).start <= i,
                        starts_sorted(nodes@),
                        forall|p: int| 0 <= p < i ==> #[trigger] span_at(nodes@, p, p + 1),
                        j > i + 1 ==> span_at(nodes@, i as int, i + 1),
                        has_identity ==> span_at(nodes@, i as int, j as int),
                        has_identity ==> has_node(nodes@, i as int, j as int, reading),
                        forall|a: int, b: int, s: Seq<char>|
                            (a < i || (a == i && b < j)) && #[trigger] valid_segment(*dict, y@, a, b, s) ==> has_node(
                                nodes@,
                                a,
                                b,
                                s,
                            ),
                        forall|d: int| 0 <= d < c ==> has_node(nodes@, i as int, j as int, #[trigger] cands@[d]@),
                        found is Some,
                        dict.has_reading(reading),
                    decreases cands@.len() - c,
                {
                    let surface = cands[c].clone();
                    if surface == yomi {
                        has_identity = true;
                    }
                    let node = make_node(lm, i, j, surface, &yomi);
                    proof {
                        assert(dict.entries@[e as int].1@[c as int]@.len() > 0);
                        assert(dict.candidates(reading)[c as int]@ == node.surface@);
                    }
                    let ghost before = nodes@;
                    push_node(&mut nodes, node, dict, lm, y);
                    proof {
                        assert forall|d: int| 0 <= d < c + 1 implies has_node(nodes@, i as int, j as int, #[trigger] cands@[d]@) by {
                            if d < c {
                                assert(has_node(before, i as int, j as int, cands@[d]@));
                            }
                        }
                    }
                    c = c + 1;
                }
            }
            if !has_identity && (j == i + 1 || found.is_some()) {
                let surface = yomi.clone();
                let node = make_node(lm, i, j, surface, &yomi);
                proof {
                    assert(reading.len() == j - i);
                }
                push_node(&mut nodes, node, dict, lm, y);
            }
            assert(span_at(nodes@, i as int, i + 1));
            proof {
                assert forall|a: int, b: int, s: Seq<char>|
                    (a < i || (a == i && b < j + 1)) && #[trigger] valid_segment(*dict, y@, a, b, s) implies has_node(
                        nodes@,
                        a,
                        b,
                        s,
                    ) by {
                    if a == i && b == j {
                        if s != reading {
                            let c = choose|c: int|
                                0 <= c < dict.candidates(reading).len() && #[trigger] dict.candidates(reading)[c]@ == s;
                            assert(found is Some);
                        }
                    }
                }
            }
            if j == n {
                break;
            }
            j = j + 1;
        }
        i = i + 1;
    }
    let r = Lattice { len: n, nodes };
    assert forall|k: int| 0 <= k < r.nodes@.len() implies #[trigger] r.nodes@[k].start < r.nodes@[k].end <= r.len by {
        assert(node_ok(*dict, *lm, y@, r.nodes@[k]));
    }
    assert forall|p: int| 0 <= p < r.len implies #[trigger] r.has_unit(p) by {
        assert(span_at(r.nodes@, p, p + 1));
    }
    r
}

} // verus!
