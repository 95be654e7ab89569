//! The conversion facade: a reading in, its most likely kana/kanji writing out.
use vstd::prelude::*;
use crate::graph::{build_lattice, chars_of, has_node, node_ok, valid_segment, word_key, KanaKanjiDict, UnigramLM};
use crate::resolver::{as_ints, resolve, BigramCosts, Lattice, BOS_ID, EOS_ID};

verus! {

/// One word of a conversion: the stretch of the reading it covers and how it is written.
pub type Segment = (int, int, Seq<char>);

/// The written forms of `segs`, joined.
pub open spec fn joined(segs: Seq<Segment>) -> Seq<char>
    decreases segs.len(),
{
    if segs.len() == 0 {
        Seq::empty()
    } else {
        joined(segs.drop_last()) + segs.last().2
    }
}

/// `segs` splits reading `y` into consecutive stretches, each a dictionary
/// reading or a single character, and writes each as one of the dictionary's
/// candidates for it or as itself.
pub open spec fn is_segmentation(dict: KanaKanjiDict, y: Seq<char>, segs: Seq<Segment>) -> bool {
    &&& segs.len() > 0
    &&& segs[0].0 == 0
    &&& segs.last().1 == y.len()
    &&& forall|i: int| 0 <= i < segs.len() - 1 ==> #[trigger] segs[i].1 == segs[i + 1].0
    &&& forall|i: int| 0 <= i < segs.len() ==> valid_segment(dict, y, (#[trigger] segs[i]).0, segs[i].1, segs[i].2)
}

/// The unigram model's word id of a segment of reading `y`.
pub open spec fn seg_id(lm: UnigramLM, y: Seq<char>, s: Segment) -> u32 {
    lm.lookup(word_key(s.2, y.subrange(s.0, s.1))).0 as u32
}

/// The unigram model's cost of a segment of reading `y`.
pub open spec fn seg_node_cost(lm: UnigramLM, y: Seq<char>, s: Segment) -> u32 {
    lm.lookup(word_key(s.2, y.subrange(s.0, s.1))).1
}

/// The cost from BOS through `segs`: each word's unigram cost and the bigram
/// cost of the edge into it.
pub open spec fn seg_prefix_cost(lm: UnigramLM, costs: BigramCosts, y: Seq<char>, segs: Seq<Segment>) -> int
    decreases segs.len(),
{
    if segs.len() == 0 {
        0
    } else {
        let before = if segs.len() == 1 {
            BOS_ID
        } else {
            seg_id(lm, y, segs[segs.len() - 2])
        };
        seg_prefix_cost(lm, costs, y, segs.drop_last()) + costs.spec_cost(before, seg_id(lm, y, segs.last()))
            + seg_node_cost(lm, y, segs.last())
    }
}

/// The cost of a conversion written as `segs`, the edge into EOS included.
pub open spec fn seg_cost(lm: UnigramLM, costs: BigramCosts, y: Seq<char>, segs: Seq<Segment>) -> int {
    seg_prefix_cost(lm, costs, y, segs) + costs.spec_cost(seg_id(lm, y, segs.last()), EOS_ID)
}

/// The segments of the lattice path `p`.
pub open spec fn segments_of(lat: Lattice, p: Seq<int>) -> Seq<Segment> {
    p.map_values(|k: int| (lat.nodes@[k].start as int, lat.nodes@[k].end as int, lat.nodes@[k].surface@))
}

proof fn lemma_joined_path(lat: Lattice, p: Seq<int>)
    ensures
        joined(segments_of(lat, p)) == lat.path_surface(p),
    decreases p.len(),
{
    if p.len() > 0 {
        assert(segments_of(lat, p).drop_last() =~= segments_of(lat, p.drop_last()));
        lemma_joined_path(lat, p.drop_last());
    }
}

proof fn lemma_seg_cost_path(
    dict: KanaKanjiDict,
    lm: UnigramLM,
    costs: BigramCosts,
    y: Seq<char>,
    lat: Lattice,
    p: Seq<int>,
)
    requires
        forall|i: int| 0 <= i < p.len() ==> 0 <= #[trigger] p[i] < lat.nodes@.len(),
        forall|k: int| 0 <= k < lat.nodes@.len() ==> node_ok(dict, lm, y, #[trigger] lat.nodes@[k]),
    ensures
        seg_prefix_cost(lm, costs, y, segments_of(lat, p)) == lat.prefix_cost(costs, p),
        p.len() > 0 ==> seg_id(lm, y, segments_of(lat, p).last()) == lat.nodes@[p.last()].word_id,
    decreases p.len(),
{
    if p.len() > 0 {
        let segs = segments_of(lat, p);
        assert(segs.drop_last() =~= segments_of(lat, p.drop_last()));
        lemma_seg_cost_path(dict, lm, costs, y, lat, p.drop_last());
        assert(node_ok(dict, lm, y, lat.nodes@[p.last()]));
        assert(segs.last() == segs[p.len() - 1]);
        if p.len() > 1 {
            assert(node_ok(dict, lm, y, lat.nodes@[p[p.len() - 2]]));
            assert(segs[p.len() - 2] == segs.drop_last().last());
        }
    }
}

/// Every segmentation is written by some path through a complete lattice.
proof fn lemma_segmentation_path(dict: KanaKanjiDict, y: Seq<char>, lat: Lattice, segs: Seq<Segment>) -> (p: Seq<int>)
    requires
        lat.len == y.len(),
        is_segmentation(dict, y, segs),
        forall|a: int, b: int, s: Seq<char>| #[trigger] valid_segment(dict, y, a, b, s) ==> has_node(lat.nodes@, a, b, s),
    ensures
        lat.is_path(p),
        segments_of(lat, p) == segs,
{
    let p = Seq::new(
        segs.len(),
        |i: int|
            choose|k: int|
                0 <= k < lat.nodes@.len() && (#[trigger] lat.nodes@[k]).start == segs[i].0 && lat.nodes@[k].end
                    == segs[i].1 && lat.nodes@[k].surface@ == segs[i].2,
    );
    assert forall|i: int| 0 <= i < p.len() implies {
        &&& 0 <= #[trigger] p[i] < lat.nodes@.len()
        &&& lat.nodes@[p[i]].start == segs[i].0
        &&& lat.nodes@[p[i]].end == segs[i].1
        &&& lat.nodes@[p[i]].surface@ == segs[i].2
    } by {
        assert(valid_segment(dict, y, segs[i].0, segs[i].1, segs[i].2));
    }
    assert(segments_of(lat, p) =~= segs);
    assert(lat.nodes@[p.last()].end == segs.last().1);
    assert forall|i: int| 0 <= i < p.len() - 1 implies #[trigger] lat.nodes@[p[i]].end == lat.nodes@[p[i + 1]].start by {
        assert(segs[i].1 == segs[i + 1].0);
    }
    p
}

/// A non-empty last segment makes a non-empty writing.
proof fn lemma_joined_nonempty(segs: Seq<Segment>)
    requires
        segs.len() > 0,
        segs.last().2.len() > 0,
    ensures
        joined(segs).len() > 0,
{
}

/// The dictionary and language models a conversion draws on.
pub struct Converter {
    pub dict: KanaKanjiDict,
    pub unigram: UnigramLM,
    pub bigram: BigramCosts,
}

impl Converter {
    pub open spec fn wf(&self) -> bool {
        self.dict.wf() && self.unigram.wf()
    }

    /// Converts reading `yomi`. The result writes a split of the reading into
    /// consecutive words, each as one of the dictionary's candidates for it or
    /// as its own kana, and no other such writing costs less under the unigram
    /// and bigram models. An empty reading gives an empty result.
    pub fn convert(&self, yomi: &str) -> (r: String)
        requires
            self.wf(),
        ensures
            yomi@.len() == 0 ==> r@.len() == 0,
            yomi@.len() > 0 ==> r@.len() > 0,
            yomi@.len() > 0 ==> exists|segs: Seq<Segment>|
                {
                    &&& is_segmentation(self.dict, yomi@, segs)
                    &&& #[trigger] joined(segs) == r@
                    &&& forall|other: Seq<Segment>|
                        #[trigger] is_segmentation(self.dict, yomi@, other) ==> seg_cost(
                            self.unigram,
                            self.bigram,
                            yomi@,
                            segs,
                        ) <= seg_cost(self.unigram, self.bigram, yomi@, other)
                },
    {
        let y = chars_of(yomi);
        if y.len() == 0 {
            return String::new();
        }
        let lat = build_lattice(&self.dict, &self.unigram, &y);
        match resolve(&lat, &self.bigram) {
            None => yomi.to_owned(),
            Some(res) => {
                proof {
                    let p = as_ints(res.path@);
                    let segs = segments_of(lat, p);
                    lemma_joined_path(lat, p);
                    assert forall|i: int| 0 <= i < segs.len() - 1 implies #[trigger] segs[i].1 == segs[i + 1].0 by {
                        assert(lat.nodes@[p[i]].end == lat.nodes@[p[i + 1]].start);
                    }
                    assert forall|i: int| 0 <= i < segs.len() implies valid_segment(
                        self.dict,
                        yomi@,
                        (#[trigger] segs[i]).0,
                        segs[i].1,
                        segs[i].2,
                    ) by {
                        assert(0 <= p[i] < lat.nodes@.len());
                        assert(node_ok(self.dict, self.unigram, y@, lat.nodes@[p[i]]));
                    }
                    assert(segs.last() == segs[segs.len() - 1]);
                    assert(node_ok(self.dict, self.unigram, y@, lat.nodes@[p.last()]));
                    assert(is_segmentation(self.dict, yomi@, segs));
                    lemma_joined_nonempty(segs);
                    lemma_seg_cost_path(self.dict, self.unigram, self.bigram, yomi@, lat, p);
                    assert forall|other: Seq<Segment>|
                        #[trigger] is_segmentation(self.dict, yomi@, other) implies seg_cost(
                            self.unigram,
                            self.bigram,
                            yomi@,
                            segs,
                        ) <= seg_cost(self.unigram, self.bigram, yomi@, other) by {
                        let p2 = lemma_segmentation_path(self.dict, yomi@, lat, other);
                        lemma_seg_cost_path(self.dict, self.unigram, self.bigram, yomi@, lat, p2);
                        assert(lat.is_path(p2));
                    }
                }
                res.surface
            },
        }
    }
}

} // verus!
