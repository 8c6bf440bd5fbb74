use ib_matcher::matcher::{IbMatcher, Match, PinyinMatchConfig, RomajiMatchConfig};
use ib_matcher::minimal::{find_pinyin_match, is_pinyin_match};
use ib_matcher::pinyin::data::PinyinData;
use ib_matcher::pinyin::notation::PinyinNotation;
use ib_matcher::pinyin::table::{PinyinRangeTable, PinyinTable, NO_PINYIN};
use ib_matcher::romaji::{HepburnRomanizer, KanjiReadings, RomajiTable};

fn pinyin_table(entries: &[(char, &[&str])]) -> PinyinTable {
    let mut pinyins: Vec<String> = Vec::new();
    let mut combinations: Vec<Vec<u16>> = Vec::new();
    let mut pending: Vec<(char, usize)> = Vec::new();
    let start: u32 = 0x3007;
    let end: u32 = 0x30EDE;
    let mut table: Vec<u16> = vec![NO_PINYIN; (end - start + 1) as usize];
    for (c, readings) in entries {
        let mut indices: Vec<u16> = Vec::new();
        for r in readings.iter() {
            let i = match pinyins.iter().position(|p| p == r) {
                Some(i) => i,
                None => {
                    pinyins.push(r.to_string());
                    pinyins.len() - 1
                }
            };
            indices.push(i as u16);
        }
        if indices.len() == 1 {
            table[(*c as u32 - start) as usize] = indices[0];
        } else {
            indices.push(NO_PINYIN);
            combinations.push(indices);
            pending.push((*c, combinations.len() - 1));
        }
    }
    for (c, row) in pending {
        table[(c as u32 - start) as usize] = (pinyins.len() + row) as u16;
    }
    PinyinTable::new(
        pinyins,
        vec![PinyinRangeTable::new(start, end, table)],
        combinations,
    )
}

fn sample_pinyin() -> PinyinTable {
    pinyin_table(&[
        ('拼', &["pīn"]),
        ('音', &["yīn"]),
        ('搜', &["sōu"]),
        ('索', &["suǒ"]),
        ('行', &["xíng", "háng", "hàng", "héng"]),
        ('科', &["kē"]),
        ('鹅', &["é"]),
        ('凯', &["kǎi"]),
        ('尔', &["ěr"]),
        ('柯', &["kē"]),
        ('不', &["bù", "fǒu"]),
        ('初', &["chū"]),
        ('殴', &["ōu"]),
        ('打', &["dǎ", "dá"]),
        ('喜', &["xǐ"]),
        ('羊', &["yáng"]),
    ])
}

fn strings(v: &[&str]) -> Vec<String> {
    v.iter().map(|s| s.to_string()).collect()
}

fn sample_romaji() -> RomajiTable {
    let kana: &[(&str, &str)] = &[
        ("お", "o"),
        ("は", "ha"),
        ("よ", "yo"),
        ("う", "u"),
        ("こ", "ko"),
        ("の", "no"),
        ("に", "ni"),
        ("ら", "ra"),
        ("し", "shi"),
        ("い", "i"),
        ("を", "wo"),
        ("ハ", "ha"),
        ("ジョ", "jo"),
        ("って", "tte"),
    ];
    RomajiTable {
        kanas: kana.iter().map(|(k, _)| k.to_string()).collect(),
        kana_romajis: kana.iter().map(|(_, r)| r.to_string()).collect(),
        words: "素晴らしい\n世界\n今日".to_string(),
        word_romajis: vec![strings(&["subarashii"]), strings(&["sekai"]), strings(&["kyou"])],
        kanjis: vec![
            KanjiReadings {
                kanji: '日',
                romajis: strings(&[
                    "a", "aki", "bi", "chi", "he", "hi", "iru", "jitsu", "ka", "kou", "ku", "kusa",
                    "nchi", "ni", "nichi", "nitsu", "su", "tachi",
                ]),
            },
            KanjiReadings { kanji: '今', romajis: strings(&["ima", "kin", "kon", "na"]) },
            KanjiReadings { kanji: '初', romajis: strings(&["hatsu", "sho", "ui"]) },
            KanjiReadings { kanji: '音', romajis: strings(&["in", "ne", "on", "oto"]) },
        ],
    }
}

fn found(m: Option<Match>) -> Option<(usize, usize)> {
    m.map(|m| (m.start(), m.len()))
}

#[test]
fn scenario_pysousuoeve() {
    let notations = PinyinNotation::ascii() | PinyinNotation::ascii_first_letter();
    let data = PinyinData::new(sample_pinyin(), notations).unwrap();
    let matcher = IbMatcher::builder("pysousuoeve")
        .pinyin(PinyinMatchConfig::notations(notations, &data))
        .build()
        .unwrap();
    assert!(matcher.is_match("拼音搜索Everything"));
    assert_eq!(found(matcher.find("pyssEverything")), None);
    let matcher = IbMatcher::builder("pysseve")
        .pinyin(PinyinMatchConfig::notations(notations, &data))
        .build()
        .unwrap();
    assert_eq!(found(matcher.find("pyssEverything")), Some((0, 7)));
    assert_eq!(found(matcher.find("拼音搜索Everything")), Some((0, 15)));
}

#[test]
fn scenario_xing() {
    let data = PinyinData::new(sample_pinyin(), PinyinNotation::ascii()).unwrap();
    let matcher = IbMatcher::builder("xing")
        .pinyin(PinyinMatchConfig::notations(PinyinNotation::ascii(), &data))
        .build()
        .unwrap();
    assert_eq!(found(matcher.test("行")), Some((0, 3)));
    assert_eq!(found(matcher.test("xing")), Some((0, 4)));
    assert_eq!(found(matcher.test("XiNG")), Some((0, 4)));
    assert_eq!(found(matcher.test("")), None);
}

#[test]
fn scenario_ke_prefers_first_letter() {
    let notations = PinyinNotation::ascii() | PinyinNotation::ascii_first_letter();
    let data = PinyinData::new(sample_pinyin(), notations).unwrap();
    let matcher = IbMatcher::builder("ke")
        .pinyin(PinyinMatchConfig::notations(notations, &data))
        .build()
        .unwrap();
    assert_eq!(found(matcher.test("柯尔")), Some((0, 6)));
}

#[test]
fn scenario_konosuba() {
    let table = sample_romaji();
    let romanizer = HepburnRomanizer::new(&table, true, true, true).unwrap();
    let romaji = RomajiMatchConfig::builder(&romanizer).build();
    let matcher = IbMatcher::builder("konosuba")
        .romaji(romaji)
        .is_pattern_partial(true)
        .build()
        .unwrap();
    assert_eq!(found(matcher.find("この素晴らしい世界に祝福を")), Some((0, 21)));
    let matcher = IbMatcher::builder("konosuba").romaji(romaji).build().unwrap();
    assert_eq!(found(matcher.find("この素晴らしい世界に祝福を")), None);
}

#[test]
fn scenario_hatsuneouda() {
    let notations = PinyinNotation::ascii() | PinyinNotation::ascii_first_letter();
    let data = PinyinData::new(sample_pinyin(), notations).unwrap();
    let table = sample_romaji();
    let romanizer = HepburnRomanizer::new(&table, true, true, true).unwrap();
    let matcher = IbMatcher::builder("hatsuneouda")
        .pinyin(PinyinMatchConfig::notations(notations, &data))
        .romaji(RomajiMatchConfig::builder(&romanizer).build())
        .mix_lang(true)
        .analyze(true)
        .build()
        .unwrap();
    assert_eq!(found(matcher.find("初音殴打喜羊羊.gif")), Some((0, 12)));
}

#[test]
fn scenario_xing_ends_with() {
    let data = PinyinData::new(sample_pinyin(), PinyinNotation::ascii()).unwrap();
    let matcher = IbMatcher::builder("xing")
        .pinyin(PinyinMatchConfig::notations(PinyinNotation::ascii(), &data))
        .ends_with(true)
        .build()
        .unwrap();
    assert_eq!(found(matcher.find("1行")), Some((1, 3)));
    assert_eq!(found(matcher.find("行1")), None);
}

#[test]
fn test_escape_bytes() {
    assert_eq!(
        ib_matcher::matcher::regex_utils::escape_bytes(b"pysseve"),
        "\\x70\\x79\\x73\\x73\\x65\\x76\\x65"
    );
}

#[test]
fn minimal_is_pinyin_match_() {
    // 0x3
    let notation = PinyinNotation::ascii() | PinyinNotation::ascii_first_letter();
    let mut data = PinyinData::new(sample_pinyin(), notation).unwrap();
    assert!(is_pinyin_match(&mut data, "xing", "", notation) == false);
    assert!(is_pinyin_match(&mut data, "xing", "xing", notation));
    assert!(is_pinyin_match(&mut data, "xing", "XiNG", notation));
    assert!(is_pinyin_match(&mut data, "xing", "行", notation));
    assert!(is_pinyin_match(&mut data, "XING", "行", notation) == false);

    assert!(is_pinyin_match(&mut data, "", "", notation));
    assert!(is_pinyin_match(&mut data, "", "abc", notation));
}

fn assert_range(m: Option<Match>, range: Option<(usize, usize)>) {
    match (m, range) {
        (Some(m), Some(range)) => assert!(
            m.start() == range.0 && m.end() == range.1,
            "m: {:?}, range: {:?}",
            m,
            range
        ),
        (None, None) => (),
        (m, range) => panic!("m: {:?}, range: {:?}", m, range),
    }
}

#[test]
fn find_pinyin_match_() {
    let notation = PinyinNotation::ascii() | PinyinNotation::ascii_first_letter();
    let mut data = PinyinData::new(sample_pinyin(), notation).unwrap();
    assert_range(find_pinyin_match(&mut data, "xing", "", notation), None);
    assert_range(find_pinyin_match(&mut data, "xing", "xing", notation), Some((0, 4)));
    assert_range(find_pinyin_match(&mut data, "xing", "XiNG", notation), Some((0, 4)));
    assert_range(find_pinyin_match(&mut data, "xing", "行", notation), Some((0, 3)));
    assert_range(find_pinyin_match(&mut data, "XING", "行", notation), None);

    assert_range(find_pinyin_match(&mut data, "", "", notation), Some((0, 0)));
    assert_range(find_pinyin_match(&mut data, "", "abc", notation), Some((0, 0)));
}

#[test]
fn lowercase() {
    let table = sample_pinyin();
    for unicode in table.pinyins.iter() {
        assert_eq!(unicode, &unicode.to_lowercase());
    }
}
