//! Keys of the system bigram language model.
//!
//! A bigram entry is stored as a bare key of twelve bytes: the two word ids and
//! the cost, each as four little-endian bytes. The cost is carried as the bit
//! pattern of its IEEE-754 single-precision value.
use vstd::prelude::*;

verus! {

/// The four little-endian bytes of `x`.
pub open spec fn le_bytes(x: u32) -> Seq<u8> {
    seq![
        (x & 0xff) as u8,
        ((x >> 8u32) & 0xff) as u8,
        ((x >> 16u32) & 0xff) as u8,
        ((x >> 24u32) & 0xff) as u8,
    ]
}

/// The four bytes of a word id: those of its two's complement.
pub open spec fn id_bytes(id: i32) -> Seq<u8> {
    le_bytes(#[verifier::truncate] (id as u32))
}

/// The key that records the cost with bit pattern `cost_bits` for the pair of
/// words `word_id1`, `word_id2`.
pub open spec fn bigram_key(word_id1: i32, word_id2: i32, cost_bits: u32) -> Seq<u8> {
    id_bytes(word_id1) + id_bytes(word_id2) + le_bytes(cost_bits)
}

/// The number whose little-endian bytes are `k[at..at + 4]`.
pub open spec fn le_value(k: Seq<u8>, at: int) -> u32 {
    (k[at] as u32) | ((k[at + 1] as u32) << 8u32) | ((k[at + 2] as u32) << 16u32) | ((k[at + 3] as u32) << 24u32)
}

/// Reading back the bytes of a number gives the number.
pub proof fn lemma_le_round_trip(x: u32)
    ensures
        le_value(le_bytes(x), 0) == x,
{
    let b = le_bytes(x);
    let b0 = (x & 0xff) as u8;
    let b1 = ((x >> 8u32) & 0xff) as u8;
    let b2 = ((x >> 16u32) & 0xff) as u8;
    let b3 = ((x >> 24u32) & 0xff) as u8;
    assert(b[0] == b0 && b[1] == b1 && b[2] == b2 && b[3] == b3);
    assert((b0 as u32) | ((b1 as u32) << 8u32) | ((b2 as u32) << 16u32) | ((b3 as u32) << 24u32) == x) by (bit_vector)
        requires
            b0 == (x & 0xff) as u8,
            b1 == ((x >> 8u32) & 0xff) as u8,
            b2 == ((x >> 16u32) & 0xff) as u8,
            b3 == ((x >> 24u32) & 0xff) as u8,
    ;
}

/// `k` is a key for the pair `word_id1`, `word_id2`.
pub open spec fn key_for(k: Seq<u8>, word_id1: i32, word_id2: i32) -> bool {
    k.len() == 12 && k.subrange(0, 8) == id_bytes(word_id1) + id_bytes(word_id2)
}

/// The cost bits of the first key in `keys` for the pair, if any.
pub open spec fn find_in(keys: Seq<Seq<u8>>, word_id1: i32, word_id2: i32) -> Option<u32>
    decreases keys.len(),
{
    if keys.len() == 0 {
        None
    } else {
        match find_in(keys.drop_last(), word_id1, word_id2) {
            Some(c) => Some(c),
            None => if key_for(keys.last(), word_id1, word_id2) {
                Some(le_value(keys.last(), 8))
            } else {
                None
            },
        }
    }
}

fn push_le_bytes(key: &mut Vec<u8>, x: u32)
    ensures
        final(key)@ == old(key)@ + le_bytes(x),
{
    key.push((x & 0xff) as u8);
    key.push(((x >> 8u32) & 0xff) as u8);
    key.push(((x >> 16u32) & 0xff) as u8);
    key.push(((x >> 24u32) & 0xff) as u8);
    assert(final(key)@ =~= old(key)@ + le_bytes(x));
}

/// Collects the keys of a bigram model, in the order they were added.
pub struct SystemBigramLMBuilder {
    keys: Vec<Vec<u8>>,
}

impl Default for SystemBigramLMBuilder {
    fn default() -> (r: SystemBigramLMBuilder)
        ensures
            r.key_seq() == Seq::<Seq<u8>>::empty(),
    {
        let r = SystemBigramLMBuilder { keys: Vec::new() };
        assert(r.key_seq() =~= Seq::<Seq<u8>>::empty());
        r
    }
}

impl SystemBigramLMBuilder {
    /// The keys added so far, oldest first.
    pub closed spec fn key_seq(&self) -> Seq<Seq<u8>> {
        self.keys@.map_values(|k: Vec<u8>| k@)
    }

    /// Records the cost with bit pattern `score` for the word pair.
    pub fn add(&mut self, word_id1: i32, word_id2: i32, score: u32)
        ensures
            final(self).key_seq() == old(self).key_seq().push(bigram_key(word_id1, word_id2, score)),
    {
        let mut key: Vec<u8> = Vec::new();
        push_le_bytes(&mut key, #[verifier::truncate] (word_id1 as u32));
        push_le_bytes(&mut key, #[verifier::truncate] (word_id2 as u32));
        push_le_bytes(&mut key, score);
        assert(key@ =~= bigram_key(word_id1, word_id2, score));
        self.keys.push(key);
        assert(final(self).key_seq() =~= old(self).key_seq().push(bigram_key(word_id1, word_id2, score)));
    }

    /// The number of keys added so far.
    pub fn len(&self) -> (r: usize)
        ensures
            r == self.key_seq().len(),
    {
        self.keys.len()
    }

    /// The key added `i`-th, counting from zero.
    pub fn key(&self, i: usize) -> (r: &Vec<u8>)
        requires
            i < self.key_seq().len(),
        ensures
            r@ == self.key_seq()[i as int],
    {
        &self.keys[i]
    }
}

impl SystemBigramLMBuilder {
    /// The cost bits recorded first for the word pair, if any.
    pub fn find(&self, word_id1: i32, word_id2: i32) -> (r: Option<u32>)
        ensures
            r == find_in(self.key_seq(), word_id1, word_id2),
    {
        let mut prefix: Vec<u8> = Vec::new();
        push_le_bytes(&mut prefix, #[verifier::truncate] (word_id1 as u32));
        push_le_bytes(&mut prefix, #[verifier::truncate] (word_id2 as u32));
        let mut i: usize = 0;
        while i < self.keys.len()
            invariant
                prefix@ == id_bytes(word_id1) + id_bytes(word_id2),
                0 <= i <= self.keys@.len(),
                find_in(self.key_seq().take(i as int), word_id1, word_id2) is None,
            decreases self.keys@.len() - i,
        {
            let key = &self.keys[i];
            let mut same = key.len() == 12;
            let mut j: usize = 0;
            while same && j < 8
                invariant
                    prefix@ == id_bytes(word_id1) + id_bytes(word_id2),
                    prefix@.len() == 8,
                    0 <= j <= 8,
                    same ==> key@.len() == 12 && key@.subrange(0, j as int) == prefix@.subrange(0, j as int),
                    !same ==> !key_for(key@, word_id1, word_id2),
                decreases (8 - j + if same {
                    1int
                } else {
                    0int
                }),
            {
                if key[j] != prefix[j] {
                    same = false;
                    proof {
                        if key@.len() == 12 {
                            assert(key@.subrange(0, 8)[j as int] != prefix@[j as int]);
                        }
                    }
                } else {
                    assert(key@.subrange(0, j + 1) =~= key@.subrange(0, j as int).push(key@[j as int]));
                    assert(prefix@.subrange(0, j + 1) =~= prefix@.subrange(0, j as int).push(prefix@[j as int]));
                    j = j + 1;
                }
            }
            proof {
                assert(self.key_seq().take(i + 1).drop_last() =~= self.key_seq().take(i as int));
                assert(self.key_seq()[i as int] == key@);
                if same {
                    assert(prefix@.subrange(0, 8) =~= prefix@);
                }
            }
            if same {
                let c = (key[8] as u32) | ((key[9] as u32) << 8u32) | ((key[10] as u32) << 16u32) | ((key[11] as u32) << 24u32);
                proof {
                    assert(find_in(self.key_seq().take(i + 1), word_id1, word_id2) == Some(c));
                    lemma_find_extends(self.key_seq(), (i + 1) as int, word_id1, word_id2);
                }
                return Some(c);
            }
            i = i + 1;
        }
        assert(self.key_seq().take(i as int) =~= self.key_seq());
        None
    }
}

proof fn lemma_find_extends(keys: Seq<Seq<u8>>, n: int, word_id1: i32, word_id2: i32)
    requires
        0 <= n <= keys.len(),
        find_in(keys.take(n), word_id1, word_id2) is Some,
    ensures
        find_in(keys, word_id1, word_id2) == find_in(keys.take(n), word_id1, word_id2),
    decreases keys.len() - n,
{
    if n == keys.len() {
        assert(keys.take(n) =~= keys);
    } else {
        assert(keys.drop_last().take(n) =~= keys.take(n));
        lemma_find_extends(keys.drop_last(), n, word_id1, word_id2);
    }
}

/// The keys laid end to end.
pub open spec fn key_stream(keys: Seq<Seq<u8>>) -> Seq<u8>
    decreases keys.len(),
{
    if keys.len() == 0 {
        Seq::empty()
    } else {
        key_stream(keys.drop_last()) + keys.last()
    }
}

impl SystemBigramLMBuilder {
    /// The bytes of the model: the keys in the order they were added, end to
    /// end (each is twelve bytes long).
    pub fn to_bytes(&self) -> (r: Vec<u8>)
        ensures
            r@ == key_stream(self.key_seq()),
    {
        let mut out: Vec<u8> = Vec::new();
        let mut i: usize = 0;
        assert(self.key_seq().take(0) =~= Seq::<Seq<u8>>::empty());
        while i < self.keys.len()
            invariant
                0 <= i <= self.keys@.len(),
                out@ == key_stream(self.key_seq().take(i as int)),
            decreases self.keys@.len() - i,
        {
            let key = &self.keys[i];
            let ghost before = out@;
            let mut j: usize = 0;
            while j < key.len()
                invariant
                    0 <= j <= key@.len(),
                    out@ == before + key@.take(j as int),
                decreases key@.len() - j,
            {
                out.push(key[j]);
                assert(key@.take(j + 1) =~= key@.take(j as int).push(key@[j as int]));
                j = j + 1;
            }
            proof {
                assert(key@.take(j as int) =~= key@);
                assert(self.key_seq().take(i + 1).drop_last() =~= self.key_seq().take(i as int));
                assert(self.key_seq()[i as int] == key@);
                assert(out@ =~= key_stream(self.key_seq().take(i + 1)));
            }
            i = i + 1;
        }
        assert(self.key_seq().take(i as int) =~= self.key_seq());
        out
    }
}

/// After a pair's cost is added, looking the pair up gives the cost recorded
/// first for it: the new one where there was none.
pub proof fn lemma_add_then_find(keys: Seq<Seq<u8>>, word_id1: i32, word_id2: i32, score: u32)
    ensures
        find_in(keys.push(bigram_key(word_id1, word_id2, score)), word_id1, word_id2) == match find_in(
            keys,
            word_id1,
            word_id2,
        ) {
            Some(c) => Some(c),
            None => Some(score),
        },
{
    let k = bigram_key(word_id1, word_id2, score);
    assert(keys.push(k).drop_last() =~= keys);
    assert(k.subrange(0, 8) =~= id_bytes(word_id1) + id_bytes(word_id2));
    lemma_le_round_trip(score);
    assert(k.subrange(8, 12) =~= le_bytes(score));
    assert(le_value(k, 8) == le_value(le_bytes(score), 0));
}

} // verus!
