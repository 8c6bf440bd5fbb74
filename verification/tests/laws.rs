#![allow(dead_code, unused_imports)]
use ib_matcher::matcher::analyze::{PatternAnalyzeConfig, PatternAnalyzer};
use ib_matcher::matcher::ascii::{AsciiMatcher, PlainMatchConfig};
use ib_matcher::matcher::input::Input;
use ib_matcher::matcher::matches::OptionMatchExt;
use ib_matcher::matcher::pattern::{LangOnly, Pattern};
use ib_matcher::matcher::{IbMatcher, Match, PinyinMatchConfig, RomajiMatchConfig};
use ib_matcher::pinyin::data::{is_valid_pinyin, PinyinData};
use ib_matcher::pinyin::encode::{
    ascii_to_diletter_abc, ascii_to_diletter_jiajia, ascii_to_diletter_microsoft,
    ascii_to_diletter_thunisoft, ascii_to_diletter_xiaohe, ascii_to_diletter_zrm, unicode_to_ascii,
    unicode_to_ascii_tone,
};
use ib_matcher::pinyin::notation::PinyinNotation;
use ib_matcher::pinyin::string::PinyinString;
use ib_matcher::pinyin::table::{PinyinRangeTable, PinyinTable, NO_PINYIN};
use ib_matcher::romaji::{
    kanji_romajis, split_lines, HepburnRomanizer, KanjiReadings, RomajiError, RomajiTable,
};
use ib_matcher::unicode::case::{CharToMonoLowercase, StrToMonoLowercase};
use ib_matcher::unicode::str::{ceil_char_boundary, floor_char_boundary, RoundCharBoundaryExt};
use ib_matcher::unicode::utf8::{byte_len, chars_of, len_utf8};

const SYLLABLES: &str = "a o e ai ei ao ou an en ang eng er \
ba bo bai bei bao ban ben bang beng bi bie biao bian bin bing bu \
pa po pai pei pao pou pan pen pang peng pi pie piao pian pin ping pu \
ma mo me mai mei mao mou man men mang meng mi mie miao miu mian min ming mu \
fa fo fei fou fan fen fang feng fu \
da de dai dei dao dou dan den dang deng dong di dia die diao diu dian ding du duo dui duan dun \
ta te tai tei tao tou tan tang teng tong ti tie tiao tian ting tu tuo tui tuan tun \
na ne nai nei nao nou nan nen nang neng nong ni nie niao niu nian nin niang ning nu nuo nuan nun \
la le lai lei lao lou lan lang leng long li lia lie liao liu lian lin liang ling lu luo luan lun lo \
ga ge gai gei gao gou gan gen gang geng gong gu gua guo guai gui guan gun guang \
ka ke kai kei kao kou kan ken kang keng kong ku kua kuo kuai kui kuan kun kuang \
ha he hai hei hao hou han hen hang heng hong hu hua huo huai hui huan hun huang \
ji jia jie jiao jiu jian jin jiang jing jiong ju jue juan jun \
qi qia qie qiao qiu qian qin qiang qing qiong qu que quan qun \
xi xia xie xiao xiu xian xin xiang xing xiong xu xue xuan xun \
zha zhe zhi zhai zhei zhao zhou zhan zhen zhang zheng zhong zhu zhua zhuo zhuai zhui zhuan zhun zhuang \
cha che chi chai chao chou chan chen chang cheng chong chu chua chuo chuai chui chuan chun chuang \
sha she shi shai shei shao shou shan shen shang sheng shu shua shuo shuai shui shuan shun shuang \
re ri rao rou ran ren rang reng rong ru rua ruo rui ruan run \
za ze zi zai zei zao zou zan zen zang zeng zong zu zuo zui zuan zun \
ca ce ci cai cao cou can cen cang ceng cong cu cuo cui cuan cun \
sa se si sai sao sou san sen sang seng song su suo sui suan sun \
ya yo ye yao you yan yang yi yin ying yong yu yue yuan yun \
wa wo wai wei wan wen wang weng wu \
m n ng hm hng nǚ lǜ nüè lüè";

const READINGS: &[(char, &[&str])] = &[
    ('拼', &["pīn"]),
    ('音', &["yīn"]),
    ('搜', &["sōu"]),
    ('索', &["suǒ"]),
    ('行', &["xíng", "háng", "hàng", "héng"]),
    ('科', &["kē"]),
    ('鹅', &["é"]),
    ('凯', &["kǎi"]),
    ('尔', &["ěr"]),
    ('柯', &["kē"]),
    ('不', &["bù", "fǒu"]),
    ('中', &["zhōng", "zhòng"]),
    ('初', &["chū"]),
    ('殴', &["ōu"]),
    ('打', &["dǎ", "dá"]),
    ('喜', &["xǐ"]),
    ('羊', &["yáng"]),
    ('双', &["shuāng"]),
    ('协', &["xié"]),
    ('作', &["zuò", "zuō"]),
    ('我', &["wǒ"]),
    ('是', &["shì"]),
    ('只', &["zhī", "zhǐ"]),
    ('螃', &["páng"]),
    ('蟹', &["xiè"]),
];

fn ascii_of(unicode: &str) -> String {
    unicode_to_ascii(unicode).unwrap().as_str().to_string()
}

/// A dictionary of the syllables of Mandarin, each once without a tone,
/// and of the readings of some characters, in the order of their full
/// pinyin.
fn full_table() -> PinyinTable {
    let mut pinyins: Vec<String> = SYLLABLES.split_whitespace().map(|s| s.to_string()).collect();
    for (_, readings) in READINGS {
        for r in readings.iter() {
            if !pinyins.iter().any(|p| p == r) {
                pinyins.push(r.to_string());
            }
        }
    }
    pinyins.sort_by_key(|p| (ascii_of(p), p.clone()));
    let start: u32 = 0x3007;
    let end: u32 = 0x30EDE;
    let mut table: Vec<u16> = vec![NO_PINYIN; (end - start + 1) as usize];
    let mut combinations: Vec<Vec<u16>> = Vec::new();
    for (c, readings) in READINGS {
        let mut indices: Vec<u16> = readings
            .iter()
            .map(|r| pinyins.iter().position(|p| p == r).unwrap() as u16)
            .collect();
        if indices.len() == 1 {
            table[(*c as u32 - start) as usize] = indices[0];
        } else {
            indices.push(NO_PINYIN);
            combinations.push(indices);
            table[(*c as u32 - start) as usize] = (pinyins.len() + combinations.len() - 1) as u16;
        }
    }
    PinyinTable::new(pinyins, vec![PinyinRangeTable::new(start, end, table)], combinations)
}

fn strings(v: &[&str]) -> Vec<String> {
    v.iter().map(|s| s.to_string()).collect()
}

const KANAS: &[(&str, &str)] = &[
    ("あ", "a"),
    ("い", "i"),
    ("う", "u"),
    ("お", "o"),
    ("か", "ka"),
    ("こ", "ko"),
    ("し", "shi"),
    ("す", "su"),
    ("つ", "tsu"),
    ("て", "te"),
    ("に", "ni"),
    ("の", "no"),
    ("は", "ha"),
    ("よ", "yo"),
    ("ら", "ra"),
    ("を", "wo"),
    ("ハ", "ha"),
    ("ジ", "ji"),
    ("ジョ", "jo"),
    ("って", "tte"),
    ("っちゃ", "tcha"),
];

fn romaji_table() -> RomajiTable {
    RomajiTable {
        kanas: KANAS.iter().map(|(k, _)| k.to_string()).collect(),
        kana_romajis: KANAS.iter().map(|(_, r)| r.to_string()).collect(),
        words: "素晴らしい\n世界\n今日".to_string(),
        word_romajis: vec![strings(&["subarashii"]), strings(&["sekai"]), strings(&["kyou"])],
        kanjis: vec![
            KanjiReadings {
                kanji: '日',
                romajis: strings(&[
                    "a", "aki", "bi", "chi", "he", "hi", "iru", "jitsu", "ka", "kou", "ku", "kusa",
                    "nchi", "ni", "nichi", "nitsu", "su", "tachi",
                ]),
            },
            KanjiReadings { kanji: '今', romajis: strings(&["ima", "kin", "kon", "na"]) },
            KanjiReadings { kanji: '初', romajis: strings(&["hatsu", "sho", "ui"]) },
            KanjiReadings { kanji: '音', romajis: strings(&["in", "ne", "on", "oto"]) },
        ],
    }
}

fn found(m: Option<Match>) -> Option<(usize, usize)> {
    m.map(|m| (m.start(), m.len()))
}

#[test]
fn every_notation_is_short_and_lower_case() {
    let data = PinyinData::new(full_table(), PinyinNotation::all()).unwrap();
    for pinyin in data.iter() {
        let ascii = pinyin.notation(PinyinNotation::ascii()).unwrap();
        let first = pinyin.notation(PinyinNotation::ascii_first_letter()).unwrap();
        assert_eq!(first, &ascii[0..1]);
        for notation in PinyinNotation::all().iter() {
            let s = pinyin.notation(notation).unwrap();
            assert!(!s.is_empty());
            assert!(s.len() <= 7);
            assert!(s.len() <= notation.max_len().unwrap());
            assert_eq!(s, s.to_lowercase());
        }
    }
}

#[test]
fn no_pinyins_outside_the_range() {
    let data = PinyinData::new(full_table(), PinyinNotation::empty()).unwrap();
    for c in ['a', 'Z', '\u{3006}', '\u{30EDF}', '\u{10FFFF}', 'あ'] {
        assert_eq!(data.get_pinyins(c).len(), 0);
        assert_eq!(data.tables().get_pinyin_index(c), None);
    }
    assert_eq!(data.get_pinyins('行').len(), 4);
    assert_eq!(data.get_pinyins('拼').len(), 1);
}

#[test]
fn min_haystack_len_is_within_its_bounds() {
    let data = PinyinData::new(full_table(), PinyinNotation::all()).unwrap();
    let sets = [
        PinyinNotation::ascii(),
        PinyinNotation::ascii_first_letter(),
        PinyinNotation::ascii() | PinyinNotation::ascii_first_letter(),
        PinyinNotation::unicode() | PinyinNotation::diletter_xiaohe(),
        PinyinNotation::all(),
        PinyinNotation::empty(),
    ];
    for pattern in ["", "a", "pinyin", "pysousuoeve", "shuangshuang", "xi'an", "拼音", "zhuangzhuangzhuangzhuang"] {
        for set in sets {
            for partial in [false, true] {
                let config = PinyinMatchConfig::notations(set, &data);
                let mut analyzer = PatternAnalyzer::new(pattern, partial, Some(config), None);
                for analysis in [PatternAnalyzeConfig::new(), PatternAnalyzeConfig::standard()] {
                    analyzer.analyze(analysis);
                    let unit = set.max_len().unwrap_or(1);
                    let len = analyzer.min_haystack_len();
                    assert!(len >= pattern.len().div_ceil(unit), "{pattern} {len}");
                    assert!(len <= pattern.len() * 3);
                    assert!(len <= pattern.len());
                    assert!(set.contains(analyzer.pinyin().used_notations));
                }
            }
        }
    }
}

#[test]
fn estimate_divides_by_the_longest_notation() {
    let data = PinyinData::new(full_table(), PinyinNotation::all()).unwrap();
    let cases = [
        (PinyinNotation::unicode(), 3),
        (PinyinNotation::ascii_tone(), 3),
        (PinyinNotation::ascii(), 3),
        (PinyinNotation::diletter_abc(), 8),
        (PinyinNotation::ascii_first_letter(), 15),
        (PinyinNotation::empty(), 15),
    ];
    for (set, expected) in cases {
        let config = PinyinMatchConfig::notations(set, &data);
        let mut analyzer = PatternAnalyzer::new("zhuangzhuangabc", false, Some(config), None);
        analyzer.analyze(PatternAnalyzeConfig::new());
        assert_eq!(analyzer.min_haystack_len(), expected);
        assert_eq!(analyzer.pinyin().used_notations, set);
    }
    let mut analyzer = PatternAnalyzer::new("zhuangzhuangabc", false, None, None);
    analyzer.analyze(PatternAnalyzeConfig::new());
    assert_eq!(analyzer.min_haystack_len(), 15);
}

#[test]
fn a_walk_of_too_many_steps_gives_the_estimate() {
    let data = PinyinData::new(full_table(), PinyinNotation::all()).unwrap();
    let config = PinyinMatchConfig::notations(PinyinNotation::all(), &data);
    let pattern = "shuangshuangshuangshuangshuang";
    let mut walked = PatternAnalyzer::new(pattern, true, Some(config), None);
    walked.analyze(PatternAnalyzeConfig::standard());
    let mut estimated = PatternAnalyzer::new(pattern, true, Some(config), None);
    estimated.analyze(PatternAnalyzeConfig::new());
    assert_eq!(walked.min_haystack_len(), estimated.min_haystack_len());
    assert_eq!(walked.pinyin().used_notations, PinyinNotation::all());
    assert_eq!(walked.min_haystack_len(), 5);
}

#[test]
fn too_short_a_haystack_has_no_match() {
    let data = PinyinData::new(full_table(), PinyinNotation::all()).unwrap();
    let notations = PinyinNotation::ascii() | PinyinNotation::ascii_first_letter();
    for analyze in [false, true] {
        for pattern in ["pysousuoeve", "xing", "pinyin", "拼音"] {
            let matcher = IbMatcher::builder(pattern)
                .pinyin(PinyinMatchConfig::notations(notations, &data))
                .analyze(analyze)
                .build()
                .unwrap();
            for haystack in ["", "p", "拼", "拼音", "py", "pinyi", "拼y", "xin", "行"] {
                if matcher.is_haystack_too_short(haystack) {
                    assert!(matcher.find(haystack).is_none());
                    assert!(matcher.test(haystack).is_none());
                }
            }
        }
    }
}

#[test]
fn capped_and_walked_analyses_accept_the_same() {
    let data = PinyinData::new(full_table(), PinyinNotation::all()).unwrap();
    let notations = PinyinNotation::ascii() | PinyinNotation::ascii_first_letter();
    for pattern in ["pysousuoeve", "xing", "ke", "pinyin", "bx"] {
        let plain = IbMatcher::builder(pattern)
            .pinyin(PinyinMatchConfig::notations(notations, &data))
            .build()
            .unwrap();
        let analyzed = IbMatcher::builder(pattern)
            .pinyin(PinyinMatchConfig::notations(notations, &data))
            .analyze(true)
            .build()
            .unwrap();
        for haystack in ["拼音搜索Everything", "不行", "行", "科", "k鹅", "凯尔", "柯尔", "拼音", "pinyin", ""] {
            assert_eq!(found(plain.find(haystack)), found(analyzed.find(haystack)), "{pattern} {haystack}");
            assert_eq!(plain.is_match(haystack), analyzed.is_match(haystack));
            assert_eq!(found(plain.test(haystack)), found(analyzed.test(haystack)));
        }
    }
}

#[test]
fn languages_are_mixed_only_on_demand() {
    let data = PinyinData::new(full_table(), PinyinNotation::all()).unwrap();
    let notations = PinyinNotation::ascii() | PinyinNotation::ascii_first_letter();
    let table = romaji_table();
    let romanizer = HepburnRomanizer::new(&table, true, true, true).unwrap();
    let build = |pattern: &'static str, mix: bool| {
        IbMatcher::builder(pattern)
            .pinyin(PinyinMatchConfig::notations(notations, &data))
            .romaji(RomajiMatchConfig::builder(&romanizer).build())
            .mix_lang(mix)
            .build()
            .unwrap()
    };
    // romaji, romaji, pinyin, pinyin
    assert_eq!(found(build("hatsuneouda", true).find("初音殴打喜羊羊.gif")), Some((0, 12)));
    assert_eq!(found(build("hatsuneouda", false).find("初音殴打喜羊羊.gif")), None);
    // romaji alone and pinyin alone need no mixing
    assert_eq!(found(build("hatsune", false).find("初音殴打")), Some((0, 6)));
    assert_eq!(found(build("ouda", false).find("初音殴打")), Some((6, 6)));
    // a character that is matched as itself lets the language change
    assert_eq!(found(build("hatsune-ouda", false).find("初音-殴打")), Some((0, 13)));
    assert_eq!(found(build("hatsune-ouda", true).find("初音-殴打")), Some((0, 13)));
}

#[test]
fn ascii_match_is_containment_without_case() {
    let data = PinyinData::new(full_table(), PinyinNotation::all()).unwrap();
    let patterns = ["", "a", "abc", "ABC", "xing", "b c", "zz", "A;b"];
    let haystacks = ["", "abc", "xxABCxx", "XING", "a b c", "ab", "buxing", "zzz", "xa;By"];
    for pattern in patterns {
        let matcher = IbMatcher::builder(pattern)
            .pinyin(PinyinMatchConfig::notations(PinyinNotation::ascii(), &data))
            .build()
            .unwrap();
        let bare = IbMatcher::builder(pattern).build().unwrap();
        for haystack in haystacks {
            let expected = haystack.to_ascii_lowercase().contains(&pattern.to_ascii_lowercase());
            assert_eq!(matcher.is_match(haystack), expected, "{pattern:?} in {haystack:?}");
            assert_eq!(bare.is_match(haystack), expected);
            assert_eq!(
                found(bare.find(haystack)),
                haystack
                    .to_ascii_lowercase()
                    .find(&pattern.to_ascii_lowercase())
                    .map(|at| (at, pattern.len()))
            );
        }
    }
}

#[test]
fn case_sensitive_ascii_match() {
    let matcher = IbMatcher::builder("Abc").case_insensitive(false).build().unwrap();
    assert!(matcher.is_match("xAbc"));
    assert!(!matcher.is_match("xabc"));
    assert_eq!(found(matcher.find("abcAbc")), Some((3, 3)));
    assert_eq!(found(matcher.test("Abcd")), Some((0, 3)));
    assert_eq!(found(matcher.test("xAbc")), None);
}

#[test]
fn asking_for_notations_twice_changes_nothing() {
    let notations = PinyinNotation::ascii() | PinyinNotation::diletter_zrm();
    let mut once = PinyinData::new(full_table(), PinyinNotation::empty()).unwrap();
    once.init_notations(notations);
    let mut twice = PinyinData::new(full_table(), PinyinNotation::empty()).unwrap();
    twice.init_notations(notations);
    twice.init_notations(notations);
    assert_eq!(once.inited_notations(), twice.inited_notations());
    assert_eq!(
        once.inited_notations(),
        PinyinNotation::unicode() | PinyinNotation::ascii() | PinyinNotation::diletter_zrm()
    );
    for (a, b) in once.iter().into_iter().zip(twice.iter()) {
        for notation in PinyinNotation::all().iter() {
            assert_eq!(a.notation(notation), b.notation(notation));
        }
    }
    assert!(once.iter()[0].notation(PinyinNotation::ascii_tone()).is_none());
    assert!(once.iter()[0].notation(PinyinNotation::ascii_first_letter()).is_some());
    for c in ['行', '中', 'a'] {
        let got: Vec<u16> = once.get_pinyins(c).iter().map(|_| 0).collect();
        let again: Vec<u16> = twice.get_pinyins(c).iter().map(|_| 0).collect();
        assert_eq!(got, again);
    }
}

#[test]
fn every_kana_romanizes_to_its_romaji() {
    let table = romaji_table();
    for (kana, word) in [(true, false), (true, true)] {
        let romanizer = HepburnRomanizer::new(&table, kana, false, word).unwrap();
        for (k, r) in KANAS {
            assert_eq!(romanizer.romanize_kana(k), Some((k.len(), *r)));
        }
    }
}

#[test]
fn romanizer_errors() {
    let mut table = romaji_table();
    table.kana_romajis.pop();
    assert_eq!(HepburnRomanizer::new(&table, true, false, false).err(), Some(RomajiError::LengthMismatch));
    assert!(HepburnRomanizer::new(&table, false, true, true).is_ok());

    let mut table = romaji_table();
    table.word_romajis.push(strings(&["x"]));
    assert_eq!(HepburnRomanizer::new(&table, false, false, true).err(), Some(RomajiError::LengthMismatch));
    assert!(HepburnRomanizer::new(&table, true, true, false).is_ok());

    let mut table = romaji_table();
    table.kanas[3] = String::new();
    assert_eq!(HepburnRomanizer::new(&table, true, false, false).err(), Some(RomajiError::EmptyPattern));

    let mut table = romaji_table();
    table.words = "素晴らしい\n\n今日".to_string();
    assert_eq!(HepburnRomanizer::new(&table, false, false, true).err(), Some(RomajiError::EmptyPattern));

    let mut table = romaji_table();
    table.words = String::new();
    table.word_romajis = vec![strings(&["x"])];
    assert_eq!(HepburnRomanizer::new(&table, false, false, true).err(), Some(RomajiError::EmptyPattern));
}

#[test]
fn romanizer_without_anything_reads_nothing() {
    let table = romaji_table();
    let romanizer = HepburnRomanizer::builder(&table).build().unwrap();
    assert_eq!(romanizer.romanize_vec("は"), vec![]);
    assert_eq!(romanizer.romanize_kana("は"), None);
    assert_eq!(romanizer.kana_max_len(), 0);
    assert!(romanizer.is_romanizable(""));
    assert!(!romanizer.is_romanizable("は"));
}

#[test]
fn romanize_longest_and_in_order() {
    let table = romaji_table();
    let romanizer = HepburnRomanizer::new(&table, true, true, true).unwrap();
    // the longest kana wins
    assert_eq!(romanizer.romanize_vec("っちゃう"), vec![(9, "tcha")]);
    assert_eq!(romanizer.romanize_vec("ジョ"), vec![(6, "jo")]);
    assert_eq!(romanizer.romanize_vec("ジ"), vec![(3, "ji")]);
    // a match further right does not count
    assert_eq!(romanizer.romanize_vec("xは"), vec![]);
    assert_eq!(romanizer.romanize_vec(""), vec![]);
    // every candidate is handed out in turn
    let seen = std::cell::RefCell::new(Vec::new());
    let got = romanizer.romanize_and_try_for_each("今日", |len, romaji| {
        seen.borrow_mut().push((len, romaji));
        if romaji == "kin" {
            Some(len)
        } else {
            None
        }
    });
    assert_eq!(got, Some(3));
    assert_eq!(*seen.borrow(), vec![(6, "kyou"), (3, "ima"), (3, "kin")]);
    assert!(romanizer.is_romanizable("今日は"));
    assert!(!romanizer.is_romanizable("今日x"));
    assert_eq!(romanizer.romanize_kana_str_all("はよう"), Some("hayou".to_string()));
    assert_eq!(romanizer.romanize_kana_str_all("は日"), None);
    assert_eq!(romanizer.romanize_kana_str_all(""), None);
    assert_eq!(romanizer.romanize_kana_str("は、は日"), Some((9, "ha、ha".to_string())));
}

#[test]
fn lines_of_a_blob() {
    assert_eq!(split_lines(""), vec![""]);
    assert_eq!(split_lines("a"), vec!["a"]);
    assert_eq!(split_lines("a\nbc"), vec!["a", "bc"]);
    assert_eq!(split_lines("a\n"), vec!["a", ""]);
    assert_eq!(split_lines("\n今日\n\nx"), vec!["", "今日", "", "x"]);
}

#[test]
fn tables_that_do_not_fit_are_refused() {
    let good = || full_table();
    assert!(PinyinData::new(good(), PinyinNotation::empty()).is_some());

    let mut t = good();
    t.pinyins[0] = "x1".to_string();
    assert!(PinyinData::new(t, PinyinNotation::empty()).is_none());

    let mut t = good();
    t.pinyins[0] = "Xing".to_string();
    assert!(PinyinData::new(t, PinyinNotation::empty()).is_none());

    let mut t = good();
    t.pinyins[0] = "zhuāngg".to_string();
    assert!(PinyinData::new(t, PinyinNotation::empty()).is_none());

    let mut t = good();
    t.pinyins[0] = String::new();
    assert!(PinyinData::new(t, PinyinNotation::empty()).is_none());

    let mut t = good();
    t.pinyins[0] = "bq".to_string();
    assert!(PinyinData::new(t, PinyinNotation::empty()).is_none());

    let mut t = good();
    t.ranges[0].table.pop();
    assert!(PinyinData::new(t, PinyinNotation::empty()).is_none());

    let mut t = good();
    t.ranges[0].start = t.ranges[0].end + 1;
    assert!(PinyinData::new(t, PinyinNotation::empty()).is_none());

    let mut t = good();
    let n = t.pinyins.len() + t.combinations.len();
    t.ranges[0].table[5] = n as u16;
    assert!(PinyinData::new(t, PinyinNotation::empty()).is_none());

    let mut t = good();
    let n = t.pinyins.len() as u16;
    t.combinations[0][0] = n;
    assert!(PinyinData::new(t, PinyinNotation::empty()).is_none());

    // what follows the end mark of a row is not looked at
    let mut t = good();
    let n = t.pinyins.len() as u16;
    t.combinations[0].push(n);
    assert!(PinyinData::new(t, PinyinNotation::empty()).is_some());
}

#[test]
fn valid_pinyins() {
    for good in ["a", "xíng", "zhuāng", "lǜ", "ê̄", "m̀", "ń", "ng", "hm", "er"] {
        assert!(is_valid_pinyin(good), "{good}");
    }
    for bad in ["", "A", "x1", "ê", "zhuāngg", "bq", "ong", "pin yin", "拼"] {
        assert!(!is_valid_pinyin(bad), "{bad}");
    }
}

#[test]
fn full_pinyin_and_tone() {
    let cases = [
        ("xíng", "xing", "xing2"),
        ("pīn", "pin", "pin1"),
        ("suǒ", "suo", "suo3"),
        ("bù", "bu", "bu4"),
        ("ma", "ma", "ma5"),
        ("lǜ", "lv", "lv4"),
        ("nüè", "nve", "nve4"),
        ("ê̄", "e", "e1"),
        ("ê̌", "e", "e3"),
        ("ế", "e", "e2"),
        ("ề", "e", "e4"),
        ("m̀", "m", "m4"),
        ("ḿ", "m", "m2"),
        ("ǹ", "n", "n4"),
        ("ň", "n", "n3"),
        ("zhuāng", "zhuang", "zhuang1"),
    ];
    for (unicode, ascii, tone) in cases {
        assert_eq!(unicode_to_ascii(unicode).unwrap().as_str(), ascii);
        assert_eq!(unicode_to_ascii_tone(unicode).unwrap().as_str(), tone);
    }
    assert!(unicode_to_ascii("ê").is_none());
    assert!(unicode_to_ascii("Xíng").is_none());
    assert!(unicode_to_ascii("zhuangzh").is_none());
    assert!(unicode_to_ascii_tone("zhuangz").is_none());
    assert_eq!(unicode_to_ascii("").unwrap().as_str(), "");
}

#[test]
fn double_letter_schemes() {
    // scheme by scheme: zhuang, er, a, ang, yue, m
    let cases: [(fn(&str) -> Option<PinyinString>, [&str; 6]); 6] = [
        (ascii_to_diletter_abc, ["at", "er", "oa", "oh", "ym", "mu"]),
        (ascii_to_diletter_jiajia, ["vh", "er", "aa", "ag", "yx", "mu"]),
        (ascii_to_diletter_microsoft, ["vd", "er", "oa", "oh", "yt", "mu"]),
        (ascii_to_diletter_thunisoft, ["ug", "er", "oa", "os", "yn", "mu"]),
        (ascii_to_diletter_xiaohe, ["vl", "er", "aa", "ah", "yt", "mu"]),
        (ascii_to_diletter_zrm, ["vd", "er", "aa", "ah", "yt", "mu"]),
    ];
    for (scheme, expected) in cases {
        for (ascii, want) in ["zhuang", "er", "a", "ang", "yue", "m"].iter().zip(expected) {
            assert_eq!(scheme(ascii).unwrap().as_str(), want, "{ascii}");
        }
    }
    assert_eq!(ascii_to_diletter_xiaohe("hm").unwrap().as_str(), "hf");
    assert_eq!(ascii_to_diletter_xiaohe("hng").unwrap().as_str(), "hg");
    assert_eq!(ascii_to_diletter_xiaohe("n").unwrap().as_str(), "en");
    assert_eq!(ascii_to_diletter_xiaohe("ng").unwrap().as_str(), "en");
    assert_eq!(ascii_to_diletter_xiaohe("chi").unwrap().as_str(), "ii");
    assert_eq!(ascii_to_diletter_xiaohe("shi").unwrap().as_str(), "ui");
    assert_eq!(ascii_to_diletter_xiaohe("si").unwrap().as_str(), "si");
    assert!(ascii_to_diletter_xiaohe("bq").is_none());
    assert!(ascii_to_diletter_xiaohe("z").is_none());
}

#[test]
fn initial_and_final() {
    let data = PinyinData::new(full_table(), PinyinNotation::ascii()).unwrap();
    let split = |c: char| data.get_pinyins(c)[0].initial_final().unwrap();
    assert_eq!(split('中'), ("zh", "ong"));
    assert_eq!(split('拼'), ("p", "in"));
    assert_eq!(split('鹅'), ("", "e"));
    assert_eq!(split('索'), ("s", "uo"));
    let bare = PinyinData::new(full_table(), PinyinNotation::empty()).unwrap();
    assert!(bare.get_pinyins('中')[0].initial_final().is_none());
}

#[test]
fn notation_sets() {
    let set = PinyinNotation::ascii() | PinyinNotation::diletter_abc();
    assert_eq!(set.bits(), 0x12);
    assert!(set.contains(PinyinNotation::ascii()));
    assert!(!set.contains(PinyinNotation::unicode()));
    assert!(set.contains_diletter());
    assert!(!PinyinNotation::ascii_tone().contains_diletter());
    assert!(set.intersects(PinyinNotation::all()));
    assert!(!set.intersects(PinyinNotation::unicode()));
    assert_eq!(PinyinNotation::from_bits_truncate(0xFFFF_FFFF), PinyinNotation::all());
    assert_eq!(PinyinNotation::from_bits_truncate(0x402).bits(), 0x2);
    assert_eq!(set.intersection(PinyinNotation::ascii()), PinyinNotation::ascii());
    assert_eq!(set.difference(PinyinNotation::ascii()), PinyinNotation::diletter_abc());
    assert_eq!(set.union(PinyinNotation::unicode()).bits(), 0x1A);
    assert!(PinyinNotation::empty().is_empty());
    assert_eq!(
        PinyinNotation::all().iter(),
        vec![
            PinyinNotation::unicode(),
            PinyinNotation::ascii(),
            PinyinNotation::ascii_tone(),
            PinyinNotation::ascii_first_letter(),
            PinyinNotation::diletter_abc(),
            PinyinNotation::diletter_jiajia(),
            PinyinNotation::diletter_microsoft(),
            PinyinNotation::diletter_thunisoft(),
            PinyinNotation::diletter_xiaohe(),
            PinyinNotation::diletter_zrm(),
        ]
    );
    assert_eq!(PinyinNotation::unicode().max_len(), Some(7));
    assert_eq!(PinyinNotation::ascii_tone().max_len(), Some(7));
    assert_eq!(PinyinNotation::ascii().max_len(), Some(6));
    assert_eq!(PinyinNotation::diletter_zrm().max_len(), Some(2));
    assert_eq!(PinyinNotation::ascii_first_letter().max_len(), Some(1));
    assert_eq!((PinyinNotation::ascii_first_letter() | PinyinNotation::diletter_abc()).max_len(), Some(2));
    assert_eq!(PinyinNotation::empty().max_len(), None);
}

#[test]
fn prefix_group_comes_first() {
    let data = PinyinData::new(full_table(), PinyinNotation::all()).unwrap();
    // with the tone digit and the full pinyin both asked for
    let matcher = IbMatcher::builder("xing2")
        .pinyin(PinyinMatchConfig::notations(
            PinyinNotation::ascii() | PinyinNotation::ascii_tone(),
            &data,
        ))
        .build()
        .unwrap();
    assert_eq!(found(matcher.test("行")), Some((0, 3)));
    let matcher = IbMatcher::builder("xíng")
        .pinyin(PinyinMatchConfig::notations(PinyinNotation::unicode(), &data))
        .build()
        .unwrap();
    assert_eq!(found(matcher.find("不行")), Some((3, 3)));
    let matcher = IbMatcher::builder("xk")
        .pinyin(PinyinMatchConfig::notations(PinyinNotation::diletter_xiaohe(), &data))
        .build()
        .unwrap();
    assert_eq!(found(matcher.find("不行")), Some((3, 3)));
}

#[test]
fn partial_pattern_of_pinyin() {
    let data = PinyinData::new(full_table(), PinyinNotation::all()).unwrap();
    let build = |partial: bool, allow: bool, ends_with: bool| {
        IbMatcher::builder("pinyi")
            .pinyin(
                PinyinMatchConfig::builder(PinyinNotation::ascii(), &data)
                    .allow_partial_pattern(allow)
                    .build(),
            )
            .is_pattern_partial(partial)
            .ends_with(ends_with)
            .build()
            .unwrap()
    };
    let m = build(true, true, false).find("拼音搜索").unwrap();
    assert_eq!((m.start(), m.end(), m.is_pattern_partial()), (0, 6, true));
    assert!(build(false, true, false).find("拼音搜索").is_none());
    assert!(build(true, false, false).find("拼音搜索").is_none());
    // a partial reading has to stand at the end where matches end at the end
    assert!(build(true, true, true).find("拼音搜索").is_none());
    assert_eq!(found(build(true, true, true).find("搜拼音")), Some((3, 6)));
}

#[test]
fn lower_case_folding() {
    assert_eq!('A'.to_mono_lowercase(), 'a');
    assert_eq!('z'.to_mono_lowercase(), 'z');
    assert_eq!('1'.to_mono_lowercase(), '1');
    assert_eq!('Ä'.to_mono_lowercase(), 'ä');
    assert_eq!('Σ'.to_mono_lowercase(), 'σ');
    assert_eq!('İ'.to_mono_lowercase(), 'i');
    assert_eq!('行'.to_mono_lowercase(), '行');
    assert_eq!("XiNG İÄ行".to_mono_lowercase(), "xing iä行");
    // a pattern folds as a haystack does
    let matcher = IbMatcher::builder("ÄB").build().unwrap();
    assert_eq!(found(matcher.find("xäb")), Some((1, 3)));
}

#[test]
fn bounded_strings() {
    assert_eq!(PinyinString::from_chars(&['a', 'b']).unwrap().as_str(), "ab");
    assert_eq!(PinyinString::from_chars(&[]).unwrap().as_str(), "");
    assert_eq!(PinyinString::from_chars(&['a'; 7]).unwrap().as_str(), "aaaaaaa");
    assert!(PinyinString::from_chars(&['a'; 8]).is_none());
    assert_eq!(PinyinString::from_chars(&['行', '行', 'a']).unwrap().as_str(), "行行a");
    assert!(PinyinString::from_chars(&['行', '行', 'ä']).is_none());
}

#[test]
fn lengths_in_utf8() {
    assert_eq!(len_utf8('a'), 1);
    assert_eq!(len_utf8('ä'), 2);
    assert_eq!(len_utf8('行'), 3);
    assert_eq!(len_utf8('𠮾'), 4);
    assert_eq!(byte_len(&['a', 'ä', '行', '𠮾']), Some(10));
    assert_eq!(chars_of("a行"), vec!['a', '行']);
}

#[test]
fn char_boundaries() {
    let s = "a行ä𠮾";
    let expected_floor = [0, 1, 1, 1, 4, 4, 6, 6, 6, 6, 10, 10, 10];
    let expected_ceil = [0, 1, 4, 4, 4, 6, 6, 10, 10, 10, 10, 10, 10];
    for index in 0..13 {
        assert_eq!(floor_char_boundary(s, index), expected_floor[index], "{index}");
        assert_eq!(s.floor_char_boundary_ib(index), expected_floor[index]);
        assert_eq!(ceil_char_boundary(s, index), expected_ceil[index], "{index}");
        assert_eq!(s.ceil_char_boundary_ib(index), expected_ceil[index]);
    }
}

#[test]
fn match_offsets() {
    let m = Match::new(4, 10, true);
    assert_eq!((m.start(), m.end(), m.len(), m.is_empty(), m.is_pattern_partial()), (4, 10, 6, false, true));
    assert_eq!(m.range(), 4..10);
    let half = m.div(2);
    assert_eq!((half.start(), half.end(), half.is_pattern_partial()), (2, 5, true));
    assert!(Match::new(3, 3, false).is_empty());
    assert_eq!(found(Some(Match::new(4, 8, false)).div(4)), Some((1, 1)));
    assert!(None::<Match>.div(4).is_none());
}

#[test]
fn postmodifiers_can_be_switched_off() {
    let p = Pattern::parse_ev("a;en").postmodifier_en(false).call();
    assert_eq!((p.pattern, p.lang_only), ("a;en", None));
    let p = Pattern::parse_ev("a;py").postmodifier_py(false).call();
    assert_eq!((p.pattern, p.lang_only), ("a;py", None));
    let p = Pattern::parse_ev("a;rm").postmodifier_rm(false).call();
    assert_eq!((p.pattern, p.lang_only), ("a;rm", None));
    let p = Pattern::parse_ev(";rm").call();
    assert_eq!((p.pattern, p.lang_only), ("", Some(LangOnly::Romaji)));
    let p = Pattern::parse_ev("行;en").call();
    assert_eq!((p.pattern, p.lang_only), ("行", Some(LangOnly::English)));
    let p = Pattern::parse_ev("en").call();
    assert_eq!((p.pattern, p.lang_only), ("en", None));
}

#[test]
fn one_language_only() {
    let data = PinyinData::new(full_table(), PinyinNotation::all()).unwrap();
    let table = romaji_table();
    let romanizer = HepburnRomanizer::new(&table, true, true, true).unwrap();
    let build = |pattern: &'static str| {
        IbMatcher::builder_for(Pattern::parse_ev(pattern).call())
            .pinyin(PinyinMatchConfig::notations(PinyinNotation::ascii(), &data))
            .romaji(RomajiMatchConfig::builder(&romanizer).build())
            .build()
            .unwrap()
    };
    assert!(build("yin").is_match("音"));
    assert!(build("ne").is_match("音"));
    assert!(build("yin").is_match("yin"));
    assert!(build("yin;en").is_match("yin"));
    assert!(!build("yin;en").is_match("音"));
    assert!(build("yin;py").is_match("音"));
    assert!(!build("ne;py").is_match("音"));
    assert!(!build("yin;py").is_match("yin"));
    assert!(build("ne;rm").is_match("音"));
    assert!(!build("yin;rm").is_match("音"));
    assert!(!build("ne;rm").is_match("ne"));
}

#[test]
fn pinyins_that_a_pattern_starts_with() {
    let data = PinyinData::new(full_table(), PinyinNotation::all()).unwrap();
    assert_eq!(
        data.match_pinyin(PinyinNotation::ascii(), "xiang"),
        vec!["xi", "xia", "xian", "xiang"]
    );
    assert_eq!(data.match_pinyin(PinyinNotation::ascii_first_letter(), "xiang"), vec!["x"]);
    assert_eq!(
        data.match_pinyin_partial(PinyinNotation::ascii(), "shuan", true),
        vec![("shu", false), ("shua", false), ("shuan", false), ("shuang", true)]
    );
    assert_eq!(
        data.match_pinyin_partial(PinyinNotation::ascii(), "shuan", false),
        vec![("shu", false), ("shua", false), ("shuan", false)]
    );
    assert_eq!(data.match_pinyin_partial(PinyinNotation::ascii(), "", false), vec![]);
    assert_eq!(
        data.match_pinyin_partial(PinyinNotation::ascii_first_letter(), "", true).len(),
        23
    );
    let seen = std::cell::RefCell::new(Vec::new());
    let got = data.get_pinyins_and_try_for_each('行', |p| {
        let s = p.notation(PinyinNotation::unicode()).unwrap();
        seen.borrow_mut().push(s);
        if s == "háng" {
            Some(s)
        } else {
            None
        }
    });
    assert_eq!(got, Some("háng"));
    assert_eq!(*seen.borrow(), vec!["xíng", "háng"]);
    let count = std::cell::Cell::new(0);
    data.get_pinyins_and_for_each('行', |_| count.set(count.get() + 1));
    assert_eq!(count.get(), 4);
}

#[test]
fn ascii_matcher_anchors() {
    let new = |starts_with, ends_with| {
        AsciiMatcher::new(b"ab", PlainMatchConfig::case_insensitive(false).as_ref(), starts_with, ends_with)
            .unwrap()
    };
    assert_eq!(found(new(false, false).find(b"xxabab")), Some((2, 2)));
    assert_eq!(found(new(false, true).find(b"xxabab")), Some((4, 2)));
    assert_eq!(found(new(true, false).find(b"xxabab")), None);
    assert_eq!(found(new(true, false).find(b"abab")), Some((0, 2)));
    assert_eq!(found(new(true, true).find(b"ab")), Some((0, 2)));
    assert_eq!(found(new(true, true).find(b"abx")), None);
    assert_eq!(found(new(false, false).find(b"AB")), None);
    assert_eq!(found(new(false, false).test(b"abx")), Some((0, 2)));
    assert_eq!(found(new(false, false).test(b"xab")), None);
    assert_eq!(found(new(false, true).test(b"abx")), None);
    assert_eq!(found(new(false, true).test(b"ab")), Some((0, 2)));
    assert!(!new(false, false).is_match(b"a"));
    // a pattern that is not ASCII, or that is not matched as itself, never matches
    let fail = AsciiMatcher::new("行".as_bytes(), PlainMatchConfig::case_insensitive(true).as_ref(), false, false).unwrap();
    assert!(!fail.is_match("行".as_bytes()));
    let fail = AsciiMatcher::new(b"ab", None, false, false).unwrap();
    assert!(!fail.is_match(b"ab"));
    assert!(fail.find(b"ab").is_none());
    assert!(fail.test(b"ab").is_none());
}

#[test]
fn offsets_in_other_units() {
    let hay: Vec<char> = "a行𠮾b".chars().collect();
    let utf16 = ib_matcher::matcher::encoding::Encoding::Utf16;
    let utf32 = ib_matcher::matcher::encoding::Encoding::Utf32;
    let utf8 = ib_matcher::matcher::encoding::Encoding::Utf8;
    assert_eq!((utf8.element_len_byte(), utf16.element_len_byte(), utf32.element_len_byte()), (1, 2, 4));
    let bytes = [0, 1, 4, 8, 9];
    for (i, b) in bytes.iter().enumerate() {
        assert_eq!(utf8.offset_of(&hay, *b), Some(*b));
        assert_eq!(utf16.offset_of(&hay, *b), Some([0, 1, 2, 4, 5][i]));
        assert_eq!(utf32.offset_of(&hay, *b), Some(i));
    }
    for b in [2, 3, 5, 6, 7, 10, 100] {
        assert_eq!(utf16.offset_of(&hay, b), None);
    }
    assert_eq!(found(utf16.convert(&hay, Match::new(1, 8, false))), Some((1, 3)));
    assert_eq!(found(utf32.convert(&hay, Match::new(4, 9, true))), Some((2, 2)));
    assert!(utf32.convert(&hay, Match::new(4, 9, true)).unwrap().is_pattern_partial());
    assert!(utf16.convert(&hay, Match::new(2, 8, false)).is_none());
}

#[test]
fn matches_as_numbers() {
    use_bindings();
}

fn use_bindings() {
    let mut data = PinyinData::new(full_table(), PinyinNotation::all()).unwrap();
    assert_eq!(ib_matcher::bindings::ib_pinyin::match_to_u64(None), u64::MAX);
    assert_eq!(
        ib_matcher::bindings::ib_pinyin::match_to_u64(Some(Match::new(3, 6, false))),
        3 | (6 << 32)
    );
    assert!(ib_matcher::bindings::ib_pinyin::is_match_u8(&mut data, "xing", "不行", 0x3));
    assert!(!ib_matcher::bindings::ib_pinyin::is_match_u8(&mut data, "xing", "不", 0x3));
    assert!(ib_matcher::bindings::ib_pinyin::is_match_u8(&mut data, "bx", "不行", 0xFFFF_FC01));
    assert_eq!(
        ib_matcher::bindings::ib_pinyin::find_match_u8(&mut data, "xing", "不行", 0x3),
        3 | (6 << 32)
    );
    assert_eq!(ib_matcher::bindings::ib_pinyin::find_match_u8(&mut data, "xing", "不", 0x3), u64::MAX);
}

#[test]
fn builders_and_clones() {
    let data = PinyinData::new(full_table(), PinyinNotation::all()).unwrap();
    let config = PinyinMatchConfig::builder(PinyinNotation::ascii(), &data)
        .case_insensitive(true)
        .allow_partial_pattern(false)
        .build();
    let clone = config.shallow_clone();
    assert_eq!(clone.notations, PinyinNotation::ascii());
    assert!(clone.case_insensitive);
    assert!(!clone.allow_partial_pattern);
    assert!(std::ptr::eq(clone.data, &data));
    let default = PinyinMatchConfig::notations(PinyinNotation::ascii(), &data);
    assert!(!default.case_insensitive);
    assert!(default.allow_partial_pattern);

    let table = romaji_table();
    let romanizer = HepburnRomanizer::new(&table, true, false, false).unwrap();
    let romaji = RomajiMatchConfig::builder(&romanizer).case_insensitive(true).build();
    let clone = romaji.shallow_clone();
    assert!(clone.case_insensitive);
    assert!(clone.allow_partial_pattern);
    assert!(std::ptr::eq(clone.romanizer, &romanizer));

    let mut analyzer = PatternAnalyzer::builder("pinyi")
        .is_pattern_partial(true)
        .pinyin(default)
        .romaji(romaji)
        .build();
    analyzer.analyze(PatternAnalyzeConfig::standard());
    assert!(analyzer.pinyin().partial_pattern);
    assert_eq!(analyzer.min_haystack_len(), 2);
    assert_eq!(analyzer.min_haystack_chars(), 1);
}

#[test]
fn upper_case_and_readings() {
    let data = PinyinData::new(full_table(), PinyinNotation::all()).unwrap();
    let table = romaji_table();
    let romanizer = HepburnRomanizer::new(&table, true, true, true).unwrap();
    let build = |pattern: &'static str, pinyin_ci: bool, romaji_ci: bool| {
        IbMatcher::builder(pattern)
            .pinyin(
                PinyinMatchConfig::builder(PinyinNotation::ascii(), &data)
                    .case_insensitive(pinyin_ci)
                    .build(),
            )
            .romaji(RomajiMatchConfig::builder(&romanizer).case_insensitive(romaji_ci).build())
            .build()
            .unwrap()
    };
    assert!(!build("YIN", false, false).is_match("音"));
    assert!(build("YIN", true, false).is_match("音"));
    assert!(!build("NE", true, false).is_match("音"));
    assert!(build("NE", false, true).is_match("音"));
    assert!(!build("YIN", false, true).is_match("音"));
}

#[test]
fn strings_in_an_encoding() {
    use_encoded("a行", false, 4, 2);
    use_encoded("abc", true, 3, 3);
    use_encoded("", true, 0, 0);
}

fn use_encoded(s: &str, ascii: bool, bytes: usize, chars: usize) {
    assert_eq!(ib_matcher::matcher::encoding::EncodedStr::is_ascii(s), ascii);
    assert_eq!(s.len(), bytes);
    assert_eq!(ib_matcher::matcher::encoding::EncodedStr::chars_count(s), chars);
}

#[test]
fn ascii_matcher_as_a_regular_expression() {
    let regex = |pattern: &[u8], case_insensitive: bool| {
        AsciiMatcher::with_regex(pattern, PlainMatchConfig::case_insensitive(case_insensitive).as_ref())
            .unwrap()
    };
    let m = regex(b"a.c", true);
    assert_eq!(found(m.find(b"xxA.Cx")), Some((2, 3)));
    assert_eq!(found(m.find(b"xxabcx")), None);
    assert!(m.is_match(b"a.c"));
    assert!(!m.is_match(b"abc"));
    assert_eq!(found(m.test(b"a.cx")), Some((0, 3)));
    assert_eq!(found(m.test(b"xa.c")), None);
    let m = regex(b"ab", false);
    assert_eq!(found(m.find(b"ABab")), Some((2, 2)));
    assert!(!m.is_match(b"AB"));
    assert!(!AsciiMatcher::with_regex(b"ab", None).unwrap().is_match(b"ab"));
    assert!(!AsciiMatcher::with_regex("行".as_bytes(), PlainMatchConfig::case_insensitive(true).as_ref())
        .unwrap()
        .is_match("行".as_bytes()));
    let bytes = ib_matcher::matcher::regex_utils::RegexMatcher::new(&[0xFF, b'(', 0x00], false).unwrap();
    assert_eq!(bytes.find(&[1, 0xFF, b'(', 0, 0xFF]), Some((1, 4)));
    assert_eq!(bytes.find(&[0xFF, b'(']), None);
}

#[test]
fn defaults() {
    let config = PatternAnalyzeConfig::default();
    assert!(!config.traversal);
    assert!(PatternAnalyzeConfig::standard().traversal);
    let result = ib_matcher::matcher::PinyinAnalyzeResult::default();
    assert_eq!(result.used_notations, PinyinNotation::empty());
    assert!(!result.partial_pattern);
    assert!(PlainMatchConfig::new().case_insensitive);
}

#[test]
fn a_match_that_starts_at_the_start_and_ends_at_the_end_is_the_whole() {
    let plain = PlainMatchConfig::case_insensitive(true);
    let matcher = AsciiMatcher::new(b"abc", plain.as_ref(), true, true).unwrap();
    assert_eq!(found(matcher.find(b"abc")), Some((0, 3)));
    assert_eq!(found(matcher.find(b"ABC")), Some((0, 3)));
    assert_eq!(found(matcher.find(b"abcabc")), None);
    assert!(!matcher.is_match(b"abcabc"));
    assert_eq!(found(matcher.find(b"abcd")), None);
    assert_eq!(found(matcher.find(b"xabc")), None);
    assert_eq!(found(matcher.test(b"abcabc")), None);
    assert_eq!(found(matcher.test(b"abc")), Some((0, 3)));

    let matcher = IbMatcher::builder("abc").starts_with(true).ends_with(true).build().unwrap();
    assert_eq!(found(matcher.find("abcabc")), None);
    assert!(!matcher.is_match("abcabc"));
    assert_eq!(found(matcher.find("abc")), Some((0, 3)));
    assert!(matcher.is_match("abc"));
    assert_eq!(found(matcher.find_input(Input::builder("abc").no_start(true).build())), None);

    let matcher = AsciiMatcher::new(b"abc", plain.as_ref(), false, true).unwrap();
    assert_eq!(found(matcher.find(b"abcabc")), Some((3, 3)));
    assert_eq!(found(matcher.find(b"bc")), None);
    assert_eq!(found(matcher.find(b"abcab")), None);
}

#[test]
fn the_empty_pattern_matches_where_nothing_is_matched_as_itself() {
    let data = PinyinData::new(full_table(), PinyinNotation::all()).unwrap();
    let matcher = IbMatcher::builder("")
        .no_plain(true)
        .pinyin(PinyinMatchConfig::notations(PinyinNotation::ascii(), &data))
        .build()
        .unwrap();
    assert!(matcher.is_match("abc"));
    assert!(matcher.is_match(""));
    assert!(matcher.is_match("行"));
    assert_eq!(found(matcher.find("abc")), Some((0, 0)));
    let matcher = IbMatcher::builder("").starts_with(true).ends_with(true).build().unwrap();
    assert!(matcher.is_match("abc"));
    assert_eq!(found(matcher.find("abc")), Some((0, 0)));
    assert_eq!(found(matcher.test("abc")), Some((0, 0)));
}

#[test]
fn no_pinyin_is_given_twice() {
    let pinyins = strings(&["xíng", "bù", "xiàng"]);
    let table: Vec<u16> = vec![0, 1, 2];
    let table =
        PinyinTable::new(pinyins, vec![PinyinRangeTable::new(0x4E00, 0x4E02, table)], Vec::new());
    let data = PinyinData::new(table, PinyinNotation::all()).unwrap();
    let first = PinyinNotation::ascii_first_letter();
    assert_eq!(data.match_pinyin(first, "x"), vec!["x"]);
    assert_eq!(data.match_pinyin(first, "xb"), vec!["x"]);
    assert_eq!(data.match_pinyin_partial(first, "x", true), vec![("x", false)]);
    assert_eq!(data.match_pinyin_partial(first, "b", false), vec![("b", false)]);
    assert_eq!(
        data.match_pinyin_partial(PinyinNotation::ascii(), "x", true),
        vec![("xing", true), ("xiang", true)]
    );
}

#[test]
fn a_double_letter_notation_brings_the_full_pinyin() {
    let mut data = PinyinData::new(full_table(), PinyinNotation::empty()).unwrap();
    assert_eq!(data.inited_notations(), PinyinNotation::unicode());
    assert!(data.iter()[0].notation(PinyinNotation::ascii()).is_none());
    data.init_notations(PinyinNotation::diletter_xiaohe());
    assert_eq!(
        data.inited_notations(),
        PinyinNotation::unicode() | PinyinNotation::ascii() | PinyinNotation::diletter_xiaohe()
    );
    for p in data.iter() {
        assert!(p.notation(PinyinNotation::ascii()).is_some());
        assert_eq!(p.notation(PinyinNotation::diletter_xiaohe()).unwrap().chars().count(), 2);
        assert!(p.notation(PinyinNotation::ascii_tone()).is_none());
    }
    let mut data = PinyinData::new(full_table(), PinyinNotation::empty()).unwrap();
    data.init_notations(PinyinNotation::ascii_first_letter());
    assert_eq!(
        data.inited_notations(),
        PinyinNotation::unicode() | PinyinNotation::ascii_first_letter()
    );
}

#[test]
fn matching_in_one_call_makes_the_notations() {
    let mut data = PinyinData::new(full_table(), PinyinNotation::empty()).unwrap();
    let notations = PinyinNotation::ascii() | PinyinNotation::ascii_first_letter();
    assert!(ib_matcher::minimal::is_pinyin_match(&mut data, "xing", "不行", notations));
    assert!(data.inited_notations().contains(notations));
    assert!(!ib_matcher::minimal::is_pinyin_match(&mut data, "xing", "不", notations));
    assert_eq!(
        found(ib_matcher::minimal::find_pinyin_match(
            &mut data,
            "ul",
            "好了",
            PinyinNotation::diletter_xiaohe()
        )),
        None
    );
    assert!(data.inited_notations().contains(PinyinNotation::diletter_xiaohe()));
    assert!(data.inited_notations().contains(PinyinNotation::ascii()));
    let mut data = PinyinData::new(full_table(), PinyinNotation::empty()).unwrap();
    assert!(ib_matcher::bindings::ib_pinyin::is_match_u8(&mut data, "bx", "不行", 0xFFFF_FC01));
    assert_eq!(
        data.inited_notations(),
        PinyinNotation::unicode() | PinyinNotation::ascii_first_letter()
    );
    assert_eq!(
        ib_matcher::bindings::ib_pinyin::find_match_u8(&mut data, "xing", "不行", 0x2),
        3 | (6 << 32)
    );
}

#[test]
fn the_leading_match_of_the_kanas() {
    let table = romaji_table();
    let romanizer = HepburnRomanizer::new(&table, true, false, false).unwrap();
    assert_eq!(romanizer.leading_of("あい", Some((0, 3, 0))), Some((1, 3, 0)));
    assert_eq!(romanizer.leading_of("ジョあ", Some((0, 6, 18))), Some((2, 6, 18)));
    assert_eq!(romanizer.leading_of("xい", Some((1, 4, 1))), None);
    assert_eq!(romanizer.leading_of("xyz", None), None);
}

#[test]
fn strings_that_end_with_a_zero() {
    let mut data = PinyinData::new(full_table(), PinyinNotation::empty()).unwrap();
    let wide = |s: &str| -> Vec<u32> { s.chars().map(|c| c as u32).chain([0, 0x61]).collect() };
    let (xing, xinga, hay) = (wide("xing"), wide("xinga"), wide("不行"));
    assert!(ib_matcher::bindings::ib_pinyin::is_match_u32c(&mut data, &xing, &hay, 0x2));
    assert!(!ib_matcher::bindings::ib_pinyin::is_match_u32c(&mut data, &xinga, &hay, 0x2));
    let open: Vec<u32> = "不行".chars().map(|c| c as u32).collect();
    assert!(ib_matcher::bindings::ib_pinyin::is_match_u32c(&mut data, &wide("bx"), &open, 0x1));
    assert_eq!(ib_matcher::matcher::encoding::until_nul_u32(&[0x61, 0, 0x62]), &[0x61]);
    assert_eq!(ib_matcher::matcher::encoding::until_nul(&[0, 0x62]), &[] as &[u16]);
}

#[test]
fn find_starts_where_test_first_matches() {
    let data = PinyinData::new(full_table(), PinyinNotation::all()).unwrap();
    let table = romaji_table();
    let romanizer = HepburnRomanizer::new(&table, true, true, true).unwrap();
    let notations = PinyinNotation::ascii() | PinyinNotation::ascii_first_letter();
    let matchers = [
        IbMatcher::builder("xing")
            .pinyin(PinyinMatchConfig::notations(notations, &data))
            .build()
            .unwrap(),
        IbMatcher::builder("xing")
            .pinyin(PinyinMatchConfig::notations(notations, &data))
            .ends_with(true)
            .build()
            .unwrap(),
        IbMatcher::builder("ni")
            .pinyin(PinyinMatchConfig::notations(notations, &data))
            .romaji(RomajiMatchConfig::builder(&romanizer).build())
            .is_pattern_partial(true)
            .build()
            .unwrap(),
        IbMatcher::builder("行x").build().unwrap(),
    ];
    let haystacks = [
        "", "xing", "abxing", "不行", "行不行", "x行xing", "xin", "不x行", "今日に", "nに日",
        "行X", "a行xb",
    ];
    for matcher in &matchers {
        for h in haystacks {
            let first =
                h.char_indices().map(|(i, _)| i).find(|&i| matcher.test(&h[i..]).is_some());
            let found = matcher.find(h);
            assert_eq!(found.map(|m| m.start()), first, "{h}");
            if let Some(m) = found {
                let tested = matcher.test(&h[m.start()..]).unwrap();
                assert_eq!(tested.len(), m.len());
                assert_eq!(tested.is_pattern_partial(), m.is_pattern_partial());
                assert!(m.start() < m.end() && m.end() <= h.len());
            }
        }
    }
}

#[test]
fn no_match_is_lost_to_the_test_of_the_length() {
    let data = PinyinData::new(full_table(), PinyinNotation::all()).unwrap();
    let table = romaji_table();
    let romanizer = HepburnRomanizer::new(&table, true, true, true).unwrap();
    let matchers = [
        IbMatcher::builder("xingbuxing")
            .pinyin(PinyinMatchConfig::notations(PinyinNotation::all(), &data))
            .build()
            .unwrap(),
        IbMatcher::builder("xbx")
            .pinyin(PinyinMatchConfig::notations(PinyinNotation::ascii_first_letter(), &data))
            .build()
            .unwrap(),
        IbMatcher::builder("konnichi")
            .romaji(RomajiMatchConfig::builder(&romanizer).build())
            .build()
            .unwrap(),
        IbMatcher::builder("行不x").case_insensitive(false).build().unwrap(),
        IbMatcher::builder("行不x").build().unwrap(),
        IbMatcher::builder("\u{2C65}x").build().unwrap(),
        IbMatcher::builder("xingbuxing")
            .pinyin(PinyinMatchConfig::notations(PinyinNotation::all(), &data))
            .analyze(true)
            .build()
            .unwrap(),
        IbMatcher::builder("xbx")
            .pinyin(PinyinMatchConfig::notations(
                PinyinNotation::ascii() | PinyinNotation::ascii_first_letter(),
                &data,
            ))
            .is_pattern_partial(true)
            .analyze(true)
            .build()
            .unwrap(),
        IbMatcher::builder("abux")
            .pinyin(PinyinMatchConfig::notations(
                PinyinNotation::ascii() | PinyinNotation::ascii_first_letter(),
                &data,
            ))
            .romaji(RomajiMatchConfig::builder(&romanizer).build())
            .analyze(true)
            .build()
            .unwrap(),
    ];
    let haystacks = [
        "行不行", "xing不x", "行bux", "今日", "a今日", "行不X", "行不x", "xbx", "啊不行", "a不x",
        "x不行", "\u{023A}x", "a\u{023A}X",
    ];
    for matcher in &matchers {
        for h in haystacks {
            let chars: Vec<char> = h.chars().collect();
            for (k, (i, _)) in h.char_indices().enumerate() {
                let any = ib_matcher::matcher::engine::Lang::Any;
                if matcher.sub_test(&chars, 0, k, 0, any).is_some() {
                    assert!(!matcher.is_haystack_too_short(&h[i..]), "{h} {i}");
                }
            }
        }
    }
}

#[test]
fn a_sign_that_folds_to_a_letter() {
    // The Kelvin sign folds to the letter k: in a haystack that is not
    // ASCII the letter is found, and alone it is not.
    let matcher = IbMatcher::builder("\u{212A}").build().unwrap();
    assert_eq!(found(matcher.find("行k")), Some((3, 1)));
    assert_eq!(found(matcher.test("k")), None);
    assert_eq!(found(matcher.test("k行")), Some((0, 1)));
    // U+2C65 takes three bytes and U+023A, its upper case form, two: a
    // haystack of two bytes is not too short for the pattern.
    let matcher = IbMatcher::builder("\u{2C65}").build().unwrap();
    assert_eq!(found(matcher.find("\u{2C65}")), Some((0, 3)));
    assert_eq!(found(matcher.find("\u{023A}")), Some((0, 2)));
    assert_eq!(found(matcher.test("\u{023A}")), Some((0, 2)));
    assert!(!matcher.is_haystack_too_short("\u{023A}"));
    assert!(matcher.is_haystack_too_short(""));
    assert_eq!(found(matcher.find("\u{023A}a")), Some((0, 2)));
    // With regard to case the pattern stands for itself alone.
    let matcher = IbMatcher::builder("\u{2C65}").case_insensitive(false).build().unwrap();
    assert_eq!(found(matcher.find("\u{023A}")), None);
    assert!(matcher.is_haystack_too_short("\u{023A}"));
    assert_eq!(found(matcher.find("a\u{2C65}")), Some((1, 3)));
}

#[test]
fn the_notations_that_are_tried_are_the_used_ones() {
    let data = PinyinData::new(full_table(), PinyinNotation::all()).unwrap();
    for bits in 0u32..0x400 {
        let used = PinyinNotation::from_bits_truncate(bits);
        let matcher = ib_matcher::matcher::PinyinMatcher::new(
            PinyinMatchConfig::notations(PinyinNotation::all(), &data),
            ib_matcher::matcher::PinyinAnalyzeResult {
                used_notations: used,
                partial_pattern: false,
            },
        );
        let mut tried: Vec<PinyinNotation> = matcher.notations_prefix_group.clone();
        tried.extend(matcher.notations.iter().copied());
        assert_eq!(tried.len() as u32, bits.count_ones());
        for n in &tried {
            assert!(used.contains(*n));
            assert_eq!(tried.iter().filter(|m| *m == n).count(), 1);
        }
    }
}
