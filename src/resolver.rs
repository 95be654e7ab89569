//! Minimum-cost path search (Viterbi) over a conversion lattice.
//!
//! Costs are negative log probabilities in fixed-point units: lower is
//! better, and the cost of a path is the sum of its node and edge costs.
use vstd::prelude::*;

verus! {

/// The word id of a word the unigram model does not know.
pub const UNKNOWN_ID: u32 = 0x800000;

/// The word id of the start-of-sentence sentinel.
pub const BOS_ID: u32 = 0x800001;

/// The word id of the end-of-sentence sentinel.
pub const EOS_ID: u32 = 0x800002;

/// A candidate word: the reading from `start` to `end` (in characters of the
/// input) written as `surface`.
pub struct LatticeNode {
    pub start: usize,
    pub end: usize,
    pub surface: String,
    pub word_id: u32,
    /// The node's own (unigram) cost.
    pub cost: u32,
}

/// The candidate words over an input of `len` characters.
pub struct Lattice {
    pub len: usize,
    pub nodes: Vec<LatticeNode>,
}

/// The bigram costs: the cost of each listed word pair, and one cost for all others.
pub struct BigramCosts {
    pub entries: Vec<(u32, u32, u32)>,
    pub default_cost: u32,
}

/// The cost of the pair `a`, `b`: that of its first entry, else the default.
pub open spec fn pair_cost(entries: Seq<(u32, u32, u32)>, default_cost: u32, a: u32, b: u32) -> u32
    decreases entries.len(),
{
    if entries.len() == 0 {
        default_cost
    } else if entries[0].0 == a && entries[0].1 == b {
        entries[0].2
    } else {
        pair_cost(entries.drop_first(), default_cost, a, b)
    }
}

impl BigramCosts {
    pub open spec fn spec_cost(&self, a: u32, b: u32) -> u32 {
        pair_cost(self.entries@, self.default_cost, a, b)
    }

    /// The cost of the edge from word `a` to word `b`.
    pub fn cost(&self, a: u32, b: u32) -> (r: u32)
        ensures
            r == self.spec_cost(a, b),
    {
        let mut i: usize = 0;
        assert(self.entries@.skip(0) =~= self.entries@);
        while i < self.entries.len()
            invariant
                0 <= i <= self.entries@.len(),
                self.spec_cost(a, b) == pair_cost(self.entries@.skip(i as int), self.default_cost, a, b),
            decreases self.entries@.len() - i,
        {
            let (x, y, c) = self.entries[i];
            if x == a && y == b {
                return c;
            }
            assert(self.entries@.skip(i as int).drop_first() =~= self.entries@.skip(i + 1));
            i = i + 1;
        }
        self.default_cost
    }
}

impl Lattice {
    /// Every node covers a non-empty stretch of the input.
    pub open spec fn wf(&self) -> bool {
        forall|i: int| 0 <= i < self.nodes@.len() ==> #[trigger] self.nodes@[i].start < self.nodes@[i].end <= self.len
    }

    /// The nodes come in order of where they start.
    pub open spec fn sorted(&self) -> bool {
        forall|a: int, b: int|
            0 <= a < b < self.nodes@.len() ==> #[trigger] self.nodes@[a].start <= #[trigger] self.nodes@[b].start
    }

    /// Some node covers exactly the `i`-th character.
    pub open spec fn has_unit(&self, i: int) -> bool {
        exists|k: int| 0 <= k < self.nodes@.len() && (#[trigger] self.nodes@[k]).start == i && self.nodes@[k].end == i + 1
    }

    /// Every character is covered by a node of its own.
    pub open spec fn all_units(&self) -> bool {
        forall|i: int| 0 <= i < self.len ==> #[trigger] self.has_unit(i)
    }

    /// `p` lists nodes that cover the input from its start to its end, each
    /// beginning where the one before it ends.
    pub open spec fn is_path(&self, p: Seq<int>) -> bool {
        &&& p.len() > 0
        &&& forall|i: int| 0 <= i < p.len() ==> 0 <= #[trigger] p[i] < self.nodes@.len()
        &&& self.nodes@[p[0]].start == 0
        &&& forall|i: int| 0 <= i < p.len() - 1 ==> #[trigger] self.nodes@[p[i]].end == self.nodes@[p[i + 1]].start
        &&& self.nodes@[p.last()].end == self.len
    }

    /// The word id before the last node of `p`: BOS where there is none.
    pub open spec fn id_before_last(&self, p: Seq<int>) -> u32 {
        if p.len() <= 1 {
            BOS_ID
        } else {
            self.nodes@[p[p.len() - 2]].word_id
        }
    }

    /// The cost from BOS through the nodes of `p`: each node's cost and the
    /// cost of the edge into it.
    pub open spec fn prefix_cost(&self, costs: BigramCosts, p: Seq<int>) -> int
        decreases p.len(),
    {
        if p.len() == 0 {
            0
        } else {
            self.prefix_cost(costs, p.drop_last()) + costs.spec_cost(self.id_before_last(p), self.nodes@[p.last()].word_id)
                + self.nodes@[p.last()].cost
        }
    }

    /// The cost of the whole path `p`, the edge into EOS included.
    pub open spec fn path_cost(&self, costs: BigramCosts, p: Seq<int>) -> int {
        self.prefix_cost(costs, p) + costs.spec_cost(self.nodes@[p.last()].word_id, EOS_ID)
    }

    /// The surfaces of the nodes of `p`, joined.
    pub open spec fn path_surface(&self, p: Seq<int>) -> Seq<char>
        decreases p.len(),
    {
        if p.len() == 0 {
            Seq::empty()
        } else {
            self.path_surface(p.drop_last()) + self.nodes@[p.last()].surface@
        }
    }
}

/// The nodes on the way back from `v` along `prev` (`None`: from BOS), in
/// forward order.
pub open spec fn back_path(prev: Seq<Option<usize>>, v: int) -> Seq<int>
    decreases v,
{
    if 0 <= v < prev.len() {
        match prev[v] {
            None => seq![v],
            Some(u) => if u < v {
                back_path(prev, u as int).push(v)
            } else {
                seq![v]
            },
        }
    } else {
        seq![v]
    }
}

/// The node indices of `p` as integers.
pub open spec fn as_ints(p: Seq<usize>) -> Seq<int> {
    p.map_values(|i: usize| i as int)
}

/// A bound on a node's cost plus the cost of an edge into it.
pub open spec fn step_bound() -> int {
    0x2_0000_0000
}

impl Lattice {
    /// `p` leads from the start of the input to node `k`, each node beginning
    /// where the one before it ends.
    pub open spec fn is_prefix_path(&self, p: Seq<int>, k: int) -> bool {
        &&& p.len() > 0
        &&& forall|i: int| 0 <= i < p.len() ==> 0 <= #[trigger] p[i] < self.nodes@.len()
        &&& self.nodes@[p[0]].start == 0
        &&& forall|i: int| 0 <= i < p.len() - 1 ==> #[trigger] self.nodes@[p[i]].end == self.nodes@[p[i + 1]].start
        &&& p.last() == k
    }
}

/// Each back pointer leads to an earlier node.
pub open spec fn prev_ok(prev: Seq<Option<usize>>) -> bool {
    forall|k: int| 0 <= k < prev.len() ==> (#[trigger] prev[k] matches Some(u) ==> u < k)
}

proof fn lemma_back_path_frame(prev: Seq<Option<usize>>, x: Option<usize>, k: int)
    requires
        prev_ok(prev),
        0 <= k < prev.len(),
    ensures
        back_path(prev.push(x), k) == back_path(prev, k),
    decreases k,
{
    assert(prev.push(x)[k] == prev[k]);
    if let Some(u) = prev[k] {
        lemma_back_path_frame(prev, x, u as int);
    }
}

/// Among the first `v` nodes, each that starts the input or follows a reached
/// node is reached.
pub open spec fn reach_ok(lat: Lattice, best: Seq<Option<u128>>, v: int) -> bool {
    forall|k: int|
        0 <= k < v && (lat.nodes@[k].start == 0 || exists|w: int|
            0 <= w < k && lat.nodes@[w].end == lat.nodes@[k].start && #[trigger] best[w] is Some)
            ==> #[trigger] best[k] is Some
}

proof fn lemma_units_reached(lat: Lattice, best: Seq<Option<u128>>, i: int)
    requires
        lat.wf(),
        lat.sorted(),
        lat.all_units(),
        best.len() == lat.nodes@.len(),
        reach_ok(lat, best, best.len() as int),
        0 <= i < lat.len,
    ensures
        exists|k: int|
            0 <= k < lat.nodes@.len() && lat.nodes@[k].start == i && lat.nodes@[k].end == i + 1 && #[trigger] best[k] is Some,
    decreases i,
{
    assert(lat.has_unit(i));
    let k = choose|k: int| 0 <= k < lat.nodes@.len() && (#[trigger] lat.nodes@[k]).start == i && lat.nodes@[k].end == i + 1;
    if i == 0 {
        assert(best[k] is Some);
    } else {
        lemma_units_reached(lat, best, i - 1);
        let w = choose|w: int|
            0 <= w < lat.nodes@.len() && lat.nodes@[w].start == i - 1 && lat.nodes@[w].end == i && #[trigger] best[w] is Some;
        if k <= w {
            if k < w {
                assert(lat.nodes@[k].start <= lat.nodes@[w].start);
            }
        }
        assert(w < k);
        assert(best[k] is Some);
    }
}

/// The best path found: its nodes, their surfaces joined, and its cost.
pub struct Resolution {
    pub path: Vec<usize>,
    pub surface: String,
    pub cost: u128,
}

fn collect_path(prev: &Vec<Option<usize>>, v: usize) -> (r: Vec<usize>)
    requires
        prev_ok(prev@),
        v < prev@.len(),
    ensures
        as_ints(r@) == back_path(prev@, v as int),
    decreases v,
{
    match prev[v] {
        None => {
            let mut r: Vec<usize> = Vec::new();
            r.push(v);
            assert(as_ints(r@) =~= seq![v as int]);
            r
        },
        Some(u) => {
            let mut r = collect_path(prev, u);
            r.push(v);
            assert(as_ints(r@) =~= back_path(prev@, u as int).push(v as int));
            r
        },
    }
}

fn join_surfaces(lat: &Lattice, path: &Vec<usize>) -> (r: String)
    requires
        forall|i: int| 0 <= i < path@.len() ==> #[trigger] path@[i] < lat.nodes@.len(),
    ensures
        r@ == lat.path_surface(as_ints(path@)),
{
    let mut s = String::new();
    let mut i: usize = 0;
    assert(as_ints(path@).take(0) =~= Seq::<int>::empty());
    while i < path.len()
        invariant
            forall|i: int| 0 <= i < path@.len() ==> #[trigger] path@[i] < lat.nodes@.len(),
            0 <= i <= path@.len(),
            s@ == lat.path_surface(as_ints(path@).take(i as int)),
        decreases path@.len() - i,
    {
        s.append(lat.nodes[path[i]].surface.as_str());
        assert(as_ints(path@).take(i + 1).drop_last() =~= as_ints(path@).take(i as int));
        i = i + 1;
    }
    assert(as_ints(path@).take(i as int) =~= as_ints(path@));
    s
}

/// Finds the cheapest path through the lattice from BOS to EOS by dynamic
/// programming over the nodes in order, keeping for each node its cheapest way
/// in; of equally cheap ways, the one from the node that starts later, then the
/// one from the earlier node. The result covers the input and its cost is the
/// sum of the node and edge costs along it. Where the nodes come in order of
/// their start, no path costs less, and where each character also has a node
/// of its own, a path is always found.
#[verifier::rlimit(60)]
pub fn resolve(lat: &Lattice, costs: &BigramCosts) -> (r: Option<Resolution>)
    requires
        lat.wf(),
    ensures
        lat.sorted() && lat.all_units() && lat.len > 0 ==> r is Some,
        lat.sorted() ==> forall|p: Seq<int>|
            #[trigger] lat.is_path(p) ==> r is Some && r->0.cost <= lat.path_cost(*costs, p),
        r matches Some(res) ==> {
            &&& lat.is_path(as_ints(res.path@))
            &&& res.surface@ == lat.path_surface(as_ints(res.path@))
            &&& res.cost == lat.path_cost(*costs, as_ints(res.path@))
        },
{
    let m = lat.nodes.len();
    let mut best: Vec<Option<u128>> = Vec::new();
    let mut prev: Vec<Option<usize>> = Vec::new();
    let mut v: usize = 0;
    while v < m
        invariant
            lat.wf(),
            m == lat.nodes@.len(),
            0 <= v <= m,
            best@.len() == v,
            prev@.len() == v,
            prev_ok(prev@),
            reach_ok(*lat, best@, v as int),
            lat.sorted() ==> forall|k: int, q: Seq<int>|
                0 <= k < v && #[trigger] lat.is_prefix_path(q, k) ==> best@[k] is Some && best@[k]->0 <= lat.prefix_cost(
                    *costs,
                    q,
                ),
            forall|k: int|
                0 <= k < v && #[trigger] best@[k] is Some ==> {
                    &&& lat.is_prefix_path(back_path(prev@, k), k)
                    &&& best@[k]->0 == lat.prefix_cost(*costs, back_path(prev@, k))
                    &&& best@[k]->0 <= lat.nodes@[k].end * step_bound()
                },
        decreases m - v,
    {
        let node = &lat.nodes[v];
        let here: u128 = node.cost as u128;
        let mut cur_best: Option<u128> = None;
        let mut cur_prev: Option<usize> = None;
        if node.start == 0 {
            cur_best = Some(costs.cost(BOS_ID, node.word_id) as u128 + here);
        }
        let mut u: usize = 0;
        while u < v
            invariant
                lat.wf(),
                m == lat.nodes@.len(),
                v < m,
                *node == lat.nodes@[v as int],
                here == node.cost,
                0 <= u <= v,
                best@.len() == v,
                prev@.len() == v,
                forall|k: int|
                    0 <= k < v && #[trigger] best@[k] is Some ==> {
                        &&& lat.is_prefix_path(back_path(prev@, k), k)
                        &&& best@[k]->0 == lat.prefix_cost(*costs, back_path(prev@, k))
                        &&& best@[k]->0 <= lat.nodes@[k].end * step_bound()
                    },
                cur_best is None ==> cur_prev is None,
                node.start == 0 ==> cur_best is Some,
                node.start == 0 ==> cur_best->0 <= costs.spec_cost(BOS_ID, node.word_id) + node.cost,
                forall|w: int|
                    0 <= w < u && lat.nodes@[w].end == node.start && #[trigger] best@[w] is Some ==> cur_best is Some
                        && cur_best->0 <= best@[w]->0 + costs.spec_cost(lat.nodes@[w].word_id, node.word_id) + node.cost,
                lat.sorted() ==> forall|k: int, q: Seq<int>|
                    0 <= k < v && #[trigger] lat.is_prefix_path(q, k) ==> best@[k] is Some && best@[k]->0 <= lat.prefix_cost(
                        *costs,
                        q,
                    ),
                (exists|w: int| 0 <= w < u && lat.nodes@[w].end == node.start && #[trigger] best@[w] is Some) ==> cur_best is Some,
                cur_best matches Some(c) ==> c <= node.end * step_bound(),
                cur_best matches Some(c) ==> match cur_prev {
                    None => node.start == 0 && c == costs.spec_cost(BOS_ID, node.word_id) + node.cost,
                    Some(w) => w < v && best@[w as int] is Some && lat.nodes@[w as int].end == node.start && c
                        == best@[w as int]->0 + costs.spec_cost(lat.nodes@[w as int].word_id, node.word_id)
                        + node.cost,
                },
            decreases v - u,
        {
            if lat.nodes[u].end == node.start {
                if let Some(b) = best[u] {
                    let cand = b + costs.cost(lat.nodes[u].word_id, node.word_id) as u128 + here;
                    let better = match (cur_best, cur_prev) {
                        (None, _) => true,
                        (Some(c), None) => cand < c,
                        (Some(c), Some(w)) => cand < c || (cand == c && lat.nodes[u].start > lat.nodes[w].start),
                    };
                    if better {
                        cur_best = Some(cand);
                        cur_prev = Some(u);
                    }
                }
            }
            u = u + 1;
        }
        let ghost best0 = best@;
        let ghost prev0 = prev@;
        best.push(cur_best);
        prev.push(cur_prev);
        proof {
            if lat.sorted() {
                assert forall|k: int, q: Seq<int>|
                    0 <= k < v + 1 && #[trigger] lat.is_prefix_path(q, k) implies best@[k] is Some && best@[k]->0
                        <= lat.prefix_cost(*costs, q) by {
                    if k < v {
                        assert(best@[k] == best0[k]);
                    } else {
                        assert(best@[k] == cur_best);
                        if q.len() == 1 {
                            assert(q.drop_last() =~= Seq::<int>::empty());
                            assert(q[0] == k);
                            assert(lat.nodes@[k].start == 0);
                            assert(lat.prefix_cost(*costs, q.drop_last()) == 0);
                            assert(lat.id_before_last(q) == BOS_ID);
                            assert(q.last() == k);
                            assert(lat.prefix_cost(*costs, q) == costs.spec_cost(BOS_ID, lat.nodes@[k].word_id)
                                + lat.nodes@[k].cost);
                        } else {
                            let w = q[q.len() - 2];
                            let q2 = q.drop_last();
                            assert(lat.nodes@[q[q.len() - 2]].end == lat.nodes@[q[q.len() - 1]].start);
                            assert forall|i: int| 0 <= i < q2.len() implies 0 <= #[trigger] q2[i] < lat.nodes@.len() by {
                                assert(q2[i] == q[i]);
                            }
                            assert forall|i: int| 0 <= i < q2.len() - 1 implies #[trigger] lat.nodes@[q2[i]].end
                                == lat.nodes@[q2[i + 1]].start by {
                                assert(q2[i] == q[i] && q2[i + 1] == q[i + 1]);
                            }
                            assert(q2[0] == q[0]);
                            assert(lat.is_prefix_path(q2, w));
                            assert(0 <= w < m);
                            assert(lat.nodes@[w].start < lat.nodes@[w].end);
                            if w >= v {
                                if w > v {
                                    assert(lat.nodes@[v as int].start <= lat.nodes@[w].start);
                                }
                                assert(false);
                            }
                            assert(best0[w] is Some);
                            assert(best0[w]->0 <= lat.prefix_cost(*costs, q2));
                            assert(lat.nodes@[w].end == node.start);
                            assert(cur_best->0 <= best0[w]->0 + costs.spec_cost(lat.nodes@[w].word_id, node.word_id)
                                + node.cost);
                            assert(lat.id_before_last(q) == lat.nodes@[w].word_id);
                            assert(lat.prefix_cost(*costs, q) == lat.prefix_cost(*costs, q2) + costs.spec_cost(
                                lat.nodes@[w].word_id,
                                node.word_id,
                            ) + node.cost);
                        }
                    }
                }
            }
        }
        proof {
            assert forall|k: int|
                0 <= k < v + 1 && (lat.nodes@[k].start == 0 || exists|w: int|
                    0 <= w < k && lat.nodes@[w].end == lat.nodes@[k].start && #[trigger] best@[w] is Some)
                    implies #[trigger] best@[k] is Some by {
                if k < v {
                    assert(best@[k] == best0[k]);
                    if lat.nodes@[k].start != 0 {
                        let w = choose|w: int| 0 <= w < k && lat.nodes@[w].end == lat.nodes@[k].start && #[trigger] best@[w] is Some;
                        assert(best@[w] == best0[w]);
                    }
                } else {
                    assert(best@[k] == cur_best);
                    if lat.nodes@[k].start != 0 {
                        let w = choose|w: int| 0 <= w < k && lat.nodes@[w].end == lat.nodes@[k].start && #[trigger] best@[w] is Some;
                        assert(best@[w] == best0[w]);
                    }
                }
            }
            assert forall|k: int| 0 <= k < prev@.len() implies (#[trigger] prev@[k] matches Some(w) ==> w < k) by {
                if k < v {
                    assert(prev@[k] == prev@.drop_last()[k]);
                }
            }
            assert forall|k: int|
                0 <= k < v + 1 && #[trigger] best@[k] is Some implies {
                    &&& lat.is_prefix_path(back_path(prev@, k), k)
                    &&& best@[k]->0 == lat.prefix_cost(*costs, back_path(prev@, k))
                    &&& best@[k]->0 <= lat.nodes@[k].end * step_bound()
                } by {
                let prev1 = prev0;
                assert(prev1.push(cur_prev) == prev@);
                assert(best@[v as int] == cur_best);
                if k < v {
                    lemma_back_path_frame(prev1, cur_prev, k);
                    assert(best@[k] == best0[k]);
                } else {
                    let p = back_path(prev@, k);
                    assert(prev@[k] == cur_prev);
                    match cur_prev {
                        None => {
                            assert(p == seq![v as int]);
                            assert(p.drop_last() =~= Seq::<int>::empty());
                            assert(lat.is_prefix_path(p, k));
                            assert(lat.prefix_cost(*costs, p) == lat.prefix_cost(*costs, p.drop_last())
                                + costs.spec_cost(lat.id_before_last(p), lat.nodes@[p.last()].word_id)
                                + lat.nodes@[p.last()].cost);
                            assert(lat.prefix_cost(*costs, p) == best@[k]->0);
                        },
                        Some(w) => {
                            let q = back_path(prev1, w as int);
                            lemma_back_path_frame(prev1, cur_prev, w as int);
                            assert(p == q.push(v as int));
                            assert(p.drop_last() =~= q);
                            assert(best@[w as int] == best0[w as int]);
                            assert(best0[w as int] is Some);
                            assert(lat.is_prefix_path(q, w as int));
                            assert forall|i: int| 0 <= i < p.len() implies 0 <= #[trigger] p[i] < lat.nodes@.len() by {
                                if i < p.len() - 1 {
                                    assert(p[i] == q[i]);
                                }
                            }
                            assert forall|i: int| 0 <= i < p.len() - 1 implies #[trigger] lat.nodes@[p[i]].end
                                == lat.nodes@[p[i + 1]].start by {
                                if i < p.len() - 2 {
                                    assert(p[i] == q[i] && p[i + 1] == q[i + 1]);
                                }
                            }
                            assert(p[0] == q[0]);
                            assert(lat.is_prefix_path(p, k));
                            assert(lat.id_before_last(p) == lat.nodes@[w as int].word_id);
                            assert(lat.prefix_cost(*costs, p) == lat.prefix_cost(*costs, q)
                                + costs.spec_cost(lat.id_before_last(p), lat.nodes@[p.last()].word_id)
                                + lat.nodes@[p.last()].cost);
                            assert(best0[w as int]->0 == lat.prefix_cost(*costs, q));
                            assert(lat.prefix_cost(*costs, p) == best@[k]->0);
                        },
                    }
                }
            }
        }
        v = v + 1;
    }
    let mut end_best: Option<u128> = None;
    let mut end_node: usize = 0;
    let mut u: usize = 0;
    while u < m
        invariant
            lat.wf(),
            m == lat.nodes@.len(),
            0 <= u <= m,
            best@.len() == m,
            prev@.len() == m,
            prev_ok(prev@),
            forall|k: int|
                0 <= k < m && #[trigger] best@[k] is Some ==> {
                    &&& lat.is_prefix_path(back_path(prev@, k), k)
                    &&& best@[k]->0 == lat.prefix_cost(*costs, back_path(prev@, k))
                    &&& best@[k]->0 <= lat.nodes@[k].end * step_bound()
                },
            reach_ok(*lat, best@, m as int),
            (exists|w: int| 0 <= w < u && lat.nodes@[w].end == lat.len && #[trigger] best@[w] is Some) ==> end_best is Some,
            forall|w: int|
                0 <= w < u && lat.nodes@[w].end == lat.len && #[trigger] best@[w] is Some ==> end_best is Some
                    && end_best->0 <= best@[w]->0 + costs.spec_cost(lat.nodes@[w].word_id, EOS_ID),
            lat.sorted() ==> forall|k: int, q: Seq<int>|
                0 <= k < m && #[trigger] lat.is_prefix_path(q, k) ==> best@[k] is Some && best@[k]->0 <= lat.prefix_cost(
                    *costs,
                    q,
                ),
            end_best matches Some(c) ==> {
                &&& end_node < m
                &&& best@[end_node as int] is Some
                &&& lat.nodes@[end_node as int].end == lat.len
                &&& c == best@[end_node as int]->0 + costs.spec_cost(lat.nodes@[end_node as int].word_id, EOS_ID)
            },
        decreases m - u,
    {
        if lat.nodes[u].end == lat.len {
            if let Some(b) = best[u] {
                let cand = b + costs.cost(lat.nodes[u].word_id, EOS_ID) as u128;
                let better = match end_best {
                    None => true,
                    Some(c) => cand < c || (cand == c && lat.nodes[u].start > lat.nodes[end_node].start),
                };
                if better {
                    end_best = Some(cand);
                    end_node = u;
                }
            }
        }
        u = u + 1;
    }
    proof {
        if lat.sorted() && lat.all_units() && lat.len > 0 {
            lemma_units_reached(*lat, best@, lat.len - 1);
        }
        if lat.sorted() {
            assert forall|p: Seq<int>| #[trigger] lat.is_path(p) implies end_best is Some && end_best->0 <= lat.path_cost(
                *costs,
                p,
            ) by {
                let k = p.last();
                assert(p[p.len() - 1] == k);
                assert(lat.is_prefix_path(p, k));
            }
        }
    }
    match end_best {
        None => None,
        Some(c) => {
            let path = collect_path(&prev, end_node);
            proof {
                let p = as_ints(path@);
                assert(lat.is_prefix_path(p, end_node as int));
                assert forall|i: int| 0 <= i < path@.len() implies #[trigger] path@[i] < lat.nodes@.len() by {
                    assert(p[i] == path@[i] as int);
                }
            }
            let surface = join_surfaces(lat, &path);
            Some(Resolution { path, surface, cost: c })
        },
    }
}

impl Lattice {
    /// The word ids at either end of the edge into the `i`-th node of `p`.
    pub open spec fn edge_into(&self, p: Seq<int>, i: int) -> (u32, u32) {
        (if i == 0 {
            BOS_ID
        } else {
            self.nodes@[p[i - 1]].word_id
        }, self.nodes@[p[i]].word_id)
    }

    /// Path `p` passes from word `a` to word `b` (BOS and EOS included).
    pub open spec fn uses_transition(&self, p: Seq<int>, a: u32, b: u32) -> bool {
        ||| exists|i: int| 0 <= i < p.len() && #[trigger] self.edge_into(p, i) == (a, b)
        ||| (self.nodes@[p.last()].word_id, EOS_ID) == (a, b)
    }
}

proof fn lemma_prefix_cheaper(lat: Lattice, old_costs: BigramCosts, new_costs: BigramCosts, p: Seq<int>, a: u32, b: u32)
    requires
        forall|x: u32, y: u32| #[trigger] new_costs.spec_cost(x, y) <= old_costs.spec_cost(x, y),
        new_costs.spec_cost(a, b) < old_costs.spec_cost(a, b),
    ensures
        lat.prefix_cost(new_costs, p) <= lat.prefix_cost(old_costs, p),
        (exists|i: int| 0 <= i < p.len() && #[trigger] lat.edge_into(p, i) == (a, b)) ==> lat.prefix_cost(new_costs, p)
            < lat.prefix_cost(old_costs, p),
    decreases p.len(),
{
    if p.len() > 0 {
        let q = p.drop_last();
        lemma_prefix_cheaper(lat, old_costs, new_costs, q, a, b);
        let e = lat.edge_into(p, p.len() - 1);
        assert(e == (lat.id_before_last(p), lat.nodes@[p.last()].word_id));
        assert(new_costs.spec_cost(e.0, e.1) <= old_costs.spec_cost(e.0, e.1));
        if exists|i: int| 0 <= i < p.len() && #[trigger] lat.edge_into(p, i) == (a, b) {
            let i = choose|i: int| 0 <= i < p.len() && #[trigger] lat.edge_into(p, i) == (a, b);
            if i < p.len() - 1 {
                assert(lat.edge_into(q, i) == lat.edge_into(p, i));
            }
        }
    }
}

/// Putting a cheaper cost for the pair `a`, `b` in front of the bigram costs
/// strictly lowers the cost of every path that passes from `a` to `b`, and
/// raises the cost of no path.
pub proof fn lemma_cheaper_transition(
    lat: Lattice,
    old_costs: BigramCosts,
    new_costs: BigramCosts,
    p: Seq<int>,
    a: u32,
    b: u32,
    c: u32,
)
    requires
        lat.is_path(p),
        new_costs.entries@ == seq![(a, b, c)] + old_costs.entries@,
        new_costs.default_cost == old_costs.default_cost,
        c < old_costs.spec_cost(a, b),
    ensures
        lat.path_cost(new_costs, p) <= lat.path_cost(old_costs, p),
        lat.uses_transition(p, a, b) ==> lat.path_cost(new_costs, p) < lat.path_cost(old_costs, p),
{
    assert(new_costs.entries@.drop_first() =~= old_costs.entries@);
    assert forall|x: u32, y: u32| #[trigger] new_costs.spec_cost(x, y) <= old_costs.spec_cost(x, y) by {
        if x == a && y == b {
        } else {
            assert(new_costs.spec_cost(x, y) == pair_cost(new_costs.entries@.drop_first(), new_costs.default_cost, x, y));
        }
    }
    assert(new_costs.spec_cost(a, b) == c);
    lemma_prefix_cheaper(lat, old_costs, new_costs, p, a, b);
    let l = lat.nodes@[p.last()].word_id;
    assert(new_costs.spec_cost(l, EOS_ID) <= old_costs.spec_cost(l, EOS_ID));
}

} // verus!
