//! Hiragana to katakana conversion, one character at a time.
use vstd::prelude::*;
use vstd::std_specs::iter::IteratorSpec;

verus! {

/// The table of hiragana (and kana punctuation) with the katakana each turns into.
pub open spec fn kana_pairs() -> Seq<(char, char)> {
    seq![
        ('ぁ', 'ァ'),
        ('あ', 'ア'),
        ('ぃ', 'ィ'),
        ('い', 'イ'),
        ('ぅ', 'ゥ'),
        ('う', 'ウ'),
        ('ぇ', 'ェ'),
        ('え', 'エ'),
        ('ぉ', 'ォ'),
        ('お', 'オ'),
        ('か', 'カ'),
        ('が', 'ガ'),
        ('き', 'キ'),
        ('ぎ', 'ギ'),
        ('く', 'ク'),
        ('ぐ', 'グ'),
        ('け', 'ケ'),
        ('げ', 'ゲ'),
        ('こ', 'コ'),
        ('ご', 'ゴ'),
        ('さ', 'サ'),
        ('ざ', 'ザ'),
        ('し', 'シ'),
        ('じ', 'ジ'),
        ('す', 'ス'),
        ('ず', 'ズ'),
        ('せ', 'セ'),
        ('ぜ', 'ゼ'),
        ('そ', 'ソ'),
        ('ぞ', 'ゾ'),
        ('た', 'タ'),
        ('だ', 'ダ'),
        ('ち', 'チ'),
        ('ぢ', 'ヂ'),
        ('っ', 'ッ'),
        ('つ', 'ツ'),
        ('づ', 'ヅ'),
        ('て', 'テ'),
        ('で', 'デ'),
        ('と', 'ト'),
        ('ど', 'ド'),
        ('な', 'ナ'),
        ('に', 'ニ'),
        ('ぬ', 'ヌ'),
        ('ね', 'ネ'),
        ('の', 'ノ'),
        ('は', 'ハ'),
        ('ば', 'バ'),
        ('ぱ', 'パ'),
        ('ひ', 'ヒ'),
        ('び', 'ビ'),
        ('ぴ', 'ピ'),
        ('ふ', 'フ'),
        ('ぶ', 'ブ'),
        ('ぷ', 'プ'),
        ('へ', 'ヘ'),
        ('べ', 'ベ'),
        ('ぺ', 'ペ'),
        ('ほ', 'ホ'),
        ('ぼ', 'ボ'),
        ('ぽ', 'ポ'),
        ('ま', 'マ'),
        ('み', 'ミ'),
        ('む', 'ム'),
        ('め', 'メ'),
        ('も', 'モ'),
        ('ゃ', 'ャ'),
        ('や', 'ヤ'),
        ('ゅ', 'ュ'),
        ('ゆ', 'ユ'),
        ('ょ', 'ョ'),
        ('よ', 'ヨ'),
        ('ら', 'ラ'),
        ('り', 'リ'),
        ('る', 'ル'),
        ('れ', 'レ'),
        ('ろ', 'ロ'),
        ('わ', 'ワ'),
        ('を', 'ヲ'),
        ('ん', 'ン'),
        ('ー', 'ー'),
        ('ゎ', 'ヮ'),
        ('ゐ', 'ヰ'),
        ('ゑ', 'ヱ'),
        ('ゕ', 'ヵ'),
        ('ゖ', 'ヶ'),
        ('ゔ', 'ヴ'),
        ('ゝ', 'ヽ'),
        ('ゞ', 'ヾ'),
        ('・', '・'),
        ('「', '「'),
        ('」', '」'),
        ('。', '。'),
        ('、', '、'),
    ]
}

/// The image of `c` under the first pair of `table` whose left side is `c`;
/// a character that no pair names stays as it is.
pub open spec fn lookup_char(table: Seq<(char, char)>, c: char) -> char
    decreases table.len(),
{
    if table.len() == 0 {
        c
    } else if table[0].0 == c {
        table[0].1
    } else {
        lookup_char(table.drop_first(), c)
    }
}

/// The katakana form of one character.
pub open spec fn kata_of(c: char) -> char {
    lookup_char(kana_pairs(), c)
}

/// The katakana form of a string: each character converted on its own.
pub open spec fn kata_string(s: Seq<char>) -> Seq<char> {
    s.map_values(|c: char| kata_of(c))
}

/// Relies on `String::push`: the character is appended at the end.
#[verifier::external_body]
pub(crate) fn push_char(s: &mut String, c: char)
    ensures
        final(s)@ == old(s)@.push(c),
{
    s.push(c)
}

pub struct KanaConverter {
    hira2kata_map: Vec<(char, char)>,
}

impl Default for KanaConverter {
    fn default() -> (r: KanaConverter)
        ensures
            r.wf(),
    {
        KanaConverter { hira2kata_map: Self::generate_map() }
    }
}

impl KanaConverter {
    /// The converter's table is the kana table, in its order.
    pub closed spec fn wf(&self) -> bool {
        self.hira2kata_map@ == kana_pairs()
    }

    #[verifier::rlimit(50)]
    fn generate_map() -> (table: Vec<(char, char)>)
        ensures
            table@ == kana_pairs(),
    {
        let mut table: Vec<(char, char)> = Vec::new();
        table.push(('ぁ', 'ァ'));
        table.push(('あ', 'ア'));
        table.push(('ぃ', 'ィ'));
        table.push(('い', 'イ'));
        table.push(('ぅ', 'ゥ'));
        table.push(('う', 'ウ'));
        table.push(('ぇ', 'ェ'));
        table.push(('え', 'エ'));
        table.push(('ぉ', 'ォ'));
        table.push(('お', 'オ'));
        table.push(('か', 'カ'));
        table.push(('が', 'ガ'));
        table.push(('き', 'キ'));
        table.push(('ぎ', 'ギ'));
        table.push(('く', 'ク'));
        table.push(('ぐ', 'グ'));
        table.push(('け', 'ケ'));
        table.push(('げ', 'ゲ'));
        table.push(('こ', 'コ'));
        table.push(('ご', 'ゴ'));
        table.push(('さ', 'サ'));
        table.push(('ざ', 'ザ'));
        table.push(('し', 'シ'));
        table.push(('じ', 'ジ'));
        table.push(('す', 'ス'));
        table.push(('ず', 'ズ'));
        table.push(('せ', 'セ'));
        table.push(('ぜ', 'ゼ'));
        table.push(('そ', 'ソ'));
        table.push(('ぞ', 'ゾ'));
        table.push(('た', 'タ'));
        table.push(('だ', 'ダ'));
        table.push(('ち', 'チ'));
        table.push(('ぢ', 'ヂ'));
        table.push(('っ', 'ッ'));
        table.push(('つ', 'ツ'));
        table.push(('づ', 'ヅ'));
        table.push(('て', 'テ'));
        table.push(('で', 'デ'));
        table.push(('と', 'ト'));
        table.push(('ど', 'ド'));
        table.push(('な', 'ナ'));
        table.push(('に', 'ニ'));
        table.push(('ぬ', 'ヌ'));
        table.push(('ね', 'ネ'));
        table.push(('の', 'ノ'));
        table.push(('は', 'ハ'));
        table.push(('ば', 'バ'));
        table.push(('ぱ', 'パ'));
        table.push(('ひ', 'ヒ'));
        table.push(('び', 'ビ'));
        table.push(('ぴ', 'ピ'));
        table.push(('ふ', 'フ'));
        table.push(('ぶ', 'ブ'));
        table.push(('ぷ', 'プ'));
        table.push(('へ', 'ヘ'));
        table.push(('べ', 'ベ'));
        table.push(('ぺ', 'ペ'));
        table.push(('ほ', 'ホ'));
        table.push(('ぼ', 'ボ'));
        table.push(('ぽ', 'ポ'));
        table.push(('ま', 'マ'));
        table.push(('み', 'ミ'));
        table.push(('む', 'ム'));
        table.push(('め', 'メ'));
        table.push(('も', 'モ'));
        table.push(('ゃ', 'ャ'));
        table.push(('や', 'ヤ'));
        table.push(('ゅ', 'ュ'));
        table.push(('ゆ', 'ユ'));
        table.push(('ょ', 'ョ'));
        table.push(('よ', 'ヨ'));
        table.push(('ら', 'ラ'));
        table.push(('り', 'リ'));
        table.push(('る', 'ル'));
        table.push(('れ', 'レ'));
        table.push(('ろ', 'ロ'));
        table.push(('わ', 'ワ'));
        table.push(('を', 'ヲ'));
        table.push(('ん', 'ン'));
        table.push(('ー', 'ー'));
        table.push(('ゎ', 'ヮ'));
        table.push(('ゐ', 'ヰ'));
        table.push(('ゑ', 'ヱ'));
        table.push(('ゕ', 'ヵ'));
        table.push(('ゖ', 'ヶ'));
        table.push(('ゔ', 'ヴ'));
        table.push(('ゝ', 'ヽ'));
        table.push(('ゞ', 'ヾ'));
        table.push(('・', '・'));
        table.push(('「', '「'));
        table.push(('」', '」'));
        table.push(('。', '。'));
        table.push(('、', '、'));
        assert(table@ =~= kana_pairs());
        table
    }

    fn convert_char(&self, c: char) -> (r: char)
        requires
            self.wf(),
        ensures
            r == kata_of(c),
    {
        let mut i: usize = 0;
        assert(kana_pairs().skip(0) =~= kana_pairs());
        while i < self.hira2kata_map.len()
            invariant
                self.wf(),
                0 <= i <= self.hira2kata_map@.len(),
                lookup_char(kana_pairs(), c) == lookup_char(kana_pairs().skip(i as int), c),
            decreases self.hira2kata_map@.len() - i,
        {
            let (h, k) = self.hira2kata_map[i];
            if h == c {
                return k;
            }
            assert(kana_pairs().skip(i as int).drop_first() =~= kana_pairs().skip(i + 1));
            i = i + 1;
        }
        assert(kana_pairs().skip(i as int).len() == 0);
        c
    }

    /// Turns each hiragana character of `src` into its katakana; other
    /// characters are kept.
    pub fn hira2kata(&self, src: &str) -> (r: String)
        requires
            self.wf(),
        ensures
            r@ == kata_string(src@),
    {
        broadcast use vstd::string::axiom_spec_iter, vstd::string::next_postcondition;
        let mut buf: String = String::new();
        let mut it = src.chars();
        let ghost mut n: int = 0;
        loop
            invariant
                self.wf(),
                0 <= n <= src@.len(),
                it.obeys_prophetic_iter_laws(),
                it.remaining() == src@.skip(n),
                buf@ == kata_string(src@.take(n)),
            ensures
                buf@ == kata_string(src@),
            decreases src@.len() - n,
        {
            match it.next() {
                Some(c) => {
                    let k = self.convert_char(c);
                    push_char(&mut buf, k);
                    proof {
                        assert(src@.skip(n)[0] == src@[n]);
                        assert(src@.skip(n).drop_first() =~= src@.skip(n + 1));
                        assert(src@.take(n + 1) =~= src@.take(n).push(src@[n]));
                        n = n + 1;
                    }
                },
                None => {
                    assert(src@.take(n) =~= src@);
                    break;
                },
            }
        }
        buf
    }
}

} // verus!
