use akaza::converter::Converter;
use akaza::graph::{build_lattice, chars_of, KanaKanjiDict, UnigramLM, UNIGRAM_DEFAULT_COST};
use akaza::resolver::{resolve, BigramCosts, Lattice, LatticeNode, BOS_ID, EOS_ID, UNKNOWN_ID};

fn s(x: &str) -> String {
    x.to_string()
}

fn converter() -> Converter {
    let dict = vec![
        (s("わたし"), vec![s("私"), s("渡し")]),
        (s("の"), vec![s("野")]),
        (s("なまえ"), vec![s("名前")]),
        (s("は"), vec![s("葉"), s("歯")]),
        (s("なかの"), vec![s("中野")]),
        (s("なか"), vec![s("中")]),
        (s("です"), vec![]),
        (s("きょう"), vec![s("今日"), s("京")]),
        (s("いい"), vec![s("良い")]),
        (s("てんき"), vec![s("天気"), s("転機")]),
        (s("ね"), vec![s("根")]),
        (s("にほん"), vec![s("日本")]),
        (s("にっぽん"), vec![s("日本")]),
    ];
    let unigram = vec![
        (s("私/わたし"), 2000),
        (s("の/の"), 1000),
        (s("名前/なまえ"), 3000),
        (s("は/は"), 1000),
        (s("中野/なかの"), 5000),
        (s("中/なか"), 3000),
        (s("です/です"), 1000),
        (s("今日/きょう"), 3000),
        (s("いい/いい"), 2000),
        (s("天気/てんき"), 3000),
        (s("ね/ね"), 1500),
        (s("日本/にほん"), 4000),
        (s("日本/にっぽん"), 4000),
    ];
    Converter {
        dict: KanaKanjiDict { entries: dict },
        unigram: UnigramLM { entries: unigram },
        bigram: BigramCosts { entries: vec![], default_cost: 20000 },
    }
}

#[test]
fn convert_name_sentence() {
    assert_eq!(converter().convert("わたしのなまえはなかのです"), "私の名前は中野です");
}

#[test]
fn convert_weather_sentence() {
    assert_eq!(converter().convert("きょうはいいてんきですね"), "今日はいい天気ですね");
}

#[test]
fn convert_nihon() {
    assert_eq!(converter().convert("にほん"), "日本");
}

#[test]
fn convert_empty() {
    assert_eq!(converter().convert(""), "");
}

#[test]
fn convert_single_unknown_character() {
    assert_eq!(converter().convert("あ"), "あ");
}

#[test]
fn bigram_entry_changes_choice() {
    let mut c = converter();
    c.unigram.entries.push((s("歯/は"), 1500));
    assert_eq!(c.convert("は"), "は");
    // 歯 is word 13; a cheap edge from BOS makes it win.
    c.bigram.entries.push((BOS_ID, 13, 0));
    assert_eq!(c.convert("は"), "歯");
}

#[test]
fn equal_cost_prefers_earlier_candidate() {
    let mut c = converter();
    c.unigram.entries.push((s("歯/は"), 1000));
    assert_eq!(c.convert("は"), "歯");
}

#[test]
fn lattice_has_single_character_nodes() {
    let c = converter();
    let y = chars_of("あい");
    let lat = build_lattice(&c.dict, &c.unigram, &y);
    assert_eq!(lat.len, 2);
    let spans: Vec<(usize, usize)> = lat.nodes.iter().map(|n| (n.start, n.end)).collect();
    assert_eq!(spans, vec![(0, 1), (1, 2)]);
    assert!(lat.nodes.iter().all(|n| n.word_id == UNKNOWN_ID && n.cost == UNIGRAM_DEFAULT_COST));
}

fn node(start: usize, end: usize, surface: &str, word_id: u32, cost: u32) -> LatticeNode {
    LatticeNode { start, end, surface: s(surface), word_id, cost }
}

#[test]
fn resolve_cost_is_sum_along_path() {
    let lat = Lattice {
        len: 2,
        nodes: vec![node(0, 1, "a", 1, 10), node(0, 2, "AB", 3, 50), node(1, 2, "b", 2, 10)],
    };
    let costs = BigramCosts {
        entries: vec![(BOS_ID, 1, 1), (1, 2, 2), (2, EOS_ID, 3)],
        default_cost: 100,
    };
    let r = resolve(&lat, &costs).unwrap();
    assert_eq!(r.path, vec![0, 2]);
    assert_eq!(r.surface, "ab");
    assert_eq!(r.cost, 1 + 10 + 2 + 10 + 3);
}

#[test]
fn resolve_no_path() {
    let lat = Lattice { len: 3, nodes: vec![node(0, 1, "a", 1, 10), node(2, 3, "c", 2, 10)] };
    let costs = BigramCosts { entries: vec![], default_cost: 100 };
    assert!(resolve(&lat, &costs).is_none());
}

#[test]
fn unigram_find_ids() {
    let c = converter();
    assert_eq!(c.unigram.find(&s("の/の")), (1, 1000));
    assert_eq!(c.unigram.find(&s("x/x")), (UNKNOWN_ID, UNIGRAM_DEFAULT_COST));
    assert_eq!(c.bigram.cost(5, 6), 20000);
}

#[test]
fn cheapest_writing_wins_over_longer_word() {
    let mut c = converter();
    // 中野 now costs 60000 + 2 edges; 中 + の cost 4000 + 3 edges; the kana
    // reading as one unknown word costs 20000 + 2 edges, the least of all.
    c.unigram.entries[4].1 = 60000;
    assert_eq!(c.convert("なかの"), "なかの");
    // Without the kana word's low cost, the split into 中 and の wins.
    c.unigram.entries.push((s("なかの/なかの"), 50000));
    assert_eq!(c.convert("なかの"), "中の");
}
