#![allow(dead_code, unused_imports)]
use ib_matcher::matcher::analyze::{PatternAnalyzeConfig, PatternAnalyzer};
use ib_matcher::matcher::ascii::{AsciiMatcher, PlainMatchConfig};
use ib_matcher::matcher::input::Input;
use ib_matcher::matcher::pattern::{LangOnly, Pattern};
use ib_matcher::matcher::{IbMatcher, Match, PinyinMatchConfig, RomajiMatchConfig};
use ib_matcher::pinyin::data::PinyinData;
use ib_matcher::pinyin::encode::{
    ascii_to_diletter_abc, ascii_to_diletter_jiajia, ascii_to_diletter_microsoft,
    ascii_to_diletter_thunisoft, ascii_to_diletter_xiaohe, ascii_to_diletter_zrm, unicode_to_ascii,
};
use ib_matcher::pinyin::matcher::PinyinMatcher;
use ib_matcher::pinyin::notation::PinyinNotation;
use ib_matcher::pinyin::table::{PinyinRangeTable, PinyinTable, NO_PINYIN};
use ib_matcher::romaji::{kanji_romajis, HepburnRomanizer, KanjiReadings, RomajiTable};

const SYLLABLES: &str = "a o e ai ei ao ou an en ang eng er \
ba bo bai bei bao ban ben bang beng bi bie biao bian bin bing bu \
pa po pai pei pao pou pan pen pang peng pi pie piao pian pin ping pu \
ma mo me mai mei mao mou man men mang meng mi mie miao miu mian min ming mu \
fa fo fei fou fan fen fang feng fu \
da de dai dei dao dou dan den dang deng dong di dia die diao diu dian ding du duo dui duan dun \
ta te tai tei tao tou tan tang teng tong ti tie tiao tian ting tu tuo tui tuan tun \
na ne nai nei nao nou nan nen nang neng nong ni nie niao niu nian nin niang ning nu nuo nuan nun \
la le lai lei lao lou lan lang leng long li lia lie liao liu lian lin liang ling lu luo luan lun lo \
ga ge gai gei gao gou gan gen gang geng gong gu gua guo guai gui guan gun guang \
ka ke kai kei kao kou kan ken kang keng kong ku kua kuo kuai kui kuan kun kuang \
ha he hai hei hao hou han hen hang heng hong hu hua huo huai hui huan hun huang \
ji jia jie jiao jiu jian jin jiang jing jiong ju jue juan jun \
qi qia qie qiao qiu qian qin qiang qing qiong qu que quan qun \
xi xia xie xiao xiu xian xin xiang xing xiong xu xue xuan xun \
zha zhe zhi zhai zhei zhao zhou zhan zhen zhang zheng zhong zhu zhua zhuo zhuai zhui zhuan zhun zhuang \
cha che chi chai chao chou chan chen chang cheng chong chu chua chuo chuai chui chuan chun chuang \
sha she shi shai shei shao shou shan shen shang sheng shu shua shuo shuai shui shuan shun shuang \
re ri rao rou ran ren rang reng rong ru rua ruo rui ruan run \
za ze zi zai zei zao zou zan zen zang zeng zong zu zuo zui zuan zun \
ca ce ci cai cao cou can cen cang ceng cong cu cuo cui cuan cun \
sa se si sai sao sou san sen sang seng song su suo sui suan sun \
ya yo ye yao you yan yang yi yin ying yong yu yue yuan yun \
wa wo wai wei wan wen wang weng wu \
m n ng hm hng nǚ lǜ nüè lüè";

const READINGS: &[(char, &[&str])] = &[
    ('拼', &["pīn"]),
    ('音', &["yīn"]),
    ('搜', &["sōu"]),
    ('索', &["suǒ"]),
    ('行', &["xíng", "háng", "hàng", "héng"]),
    ('科', &["kē"]),
    ('鹅', &["é"]),
    ('凯', &["kǎi"]),
    ('尔', &["ěr"]),
    ('柯', &["kē"]),
    ('不', &["bù", "fǒu"]),
    ('中', &["zhōng", "zhòng"]),
    ('初', &["chū"]),
    ('殴', &["ōu"]),
    ('打', &["dǎ", "dá"]),
    ('喜', &["xǐ"]),
    ('羊', &["yáng"]),
    ('双', &["shuāng"]),
    ('协', &["xié"]),
    ('作', &["zuò", "zuō"]),
    ('我', &["wǒ"]),
    ('是', &["shì"]),
    ('只', &["zhī", "zhǐ"]),
    ('螃', &["páng"]),
    ('蟹', &["xiè"]),
];

fn ascii_of(unicode: &str) -> String {
    unicode_to_ascii(unicode).unwrap().as_str().to_string()
}

/// A dictionary of the syllables of Mandarin, each once without a tone,
/// and of the readings of some characters, in the order of their full
/// pinyin.
fn full_table() -> PinyinTable {
    let mut pinyins: Vec<String> = SYLLABLES.split_whitespace().map(|s| s.to_string()).collect();
    for (_, readings) in READINGS {
        for r in readings.iter() {
            if !pinyins.iter().any(|p| p == r) {
                pinyins.push(r.to_string());
            }
        }
    }
    pinyins.sort_by_key(|p| (ascii_of(p), p.clone()));
    let start: u32 = 0x3007;
    let end: u32 = 0x30EDE;
    let mut table: Vec<u16> = vec![NO_PINYIN; (end - start + 1) as usize];
    let mut combinations: Vec<Vec<u16>> = Vec::new();
    for (c, readings) in READINGS {
        let mut indices: Vec<u16> = readings
            .iter()
            .map(|r| pinyins.iter().position(|p| p == r).unwrap() as u16)
            .collect();
        if indices.len() == 1 {
            table[(*c as u32 - start) as usize] = indices[0];
        } else {
            indices.push(NO_PINYIN);
            combinations.push(indices);
            table[(*c as u32 - start) as usize] = (pinyins.len() + combinations.len() - 1) as u16;
        }
    }
    PinyinTable::new(pinyins, vec![PinyinRangeTable::new(start, end, table)], combinations)
}

fn strings(v: &[&str]) -> Vec<String> {
    v.iter().map(|s| s.to_string()).collect()
}

const KANAS: &[(&str, &str)] = &[
    ("あ", "a"),
    ("い", "i"),
    ("う", "u"),
    ("お", "o"),
    ("か", "ka"),
    ("こ", "ko"),
    ("し", "shi"),
    ("す", "su"),
    ("つ", "tsu"),
    ("て", "te"),
    ("に", "ni"),
    ("の", "no"),
    ("は", "ha"),
    ("よ", "yo"),
    ("ら", "ra"),
    ("を", "wo"),
    ("ハ", "ha"),
    ("ジ", "ji"),
    ("ジョ", "jo"),
    ("って", "tte"),
    ("っちゃ", "tcha"),
];

fn romaji_table() -> RomajiTable {
    RomajiTable {
        kanas: KANAS.iter().map(|(k, _)| k.to_string()).collect(),
        kana_romajis: KANAS.iter().map(|(_, r)| r.to_string()).collect(),
        words: "素晴らしい\n世界\n今日".to_string(),
        word_romajis: vec![strings(&["subarashii"]), strings(&["sekai"]), strings(&["kyou"])],
        kanjis: vec![
            KanjiReadings {
                kanji: '日',
                romajis: strings(&[
                    "a", "aki", "bi", "chi", "he", "hi", "iru", "jitsu", "ka", "kou", "ku", "kusa",
                    "nchi", "ni", "nichi", "nitsu", "su", "tachi",
                ]),
            },
            KanjiReadings { kanji: '今', romajis: strings(&["ima", "kin", "kon", "na"]) },
            KanjiReadings { kanji: '初', romajis: strings(&["hatsu", "sho", "ui"]) },
            KanjiReadings { kanji: '音', romajis: strings(&["in", "ne", "on", "oto"]) },
        ],
    }
}

fn found(m: Option<Match>) -> Option<(usize, usize)> {
    m.map(|m| (m.start(), m.len()))
}

#[test]
fn mod_is_haystack_too_short() {
    let data = PinyinData::new(full_table(), PinyinNotation::all()).unwrap();
    // assert!(IbMatcher::is_haystack_too_short_with_pattern(&[], "") == false);
    // assert!(IbMatcher::is_haystack_too_short_with_pattern(&[], "a") == false);

    let matcher = IbMatcher::builder("pysseve")
        .pinyin(PinyinMatchConfig::notations(PinyinNotation::ascii(), &data))
        .analyze(true)
        .build()
        .unwrap();
    assert!(matcher.is_haystack_too_short(""));
    assert!(matcher.is_haystack_too_short("a"));
    assert!(matcher.is_haystack_too_short("pyss"));
    assert!(matcher.is_haystack_too_short("pyssEverything") == false);
    assert!(matcher.is_haystack_too_short("拼"));
    assert!(matcher.is_haystack_too_short("拼音"));
    assert!(matcher.is_haystack_too_short("拼音搜") == false);
}

#[test]
fn mod_test() {
    let data = PinyinData::new(full_table(), PinyinNotation::all()).unwrap();
    let matcher = IbMatcher::builder("xing")
        .pinyin(PinyinMatchConfig::notations(PinyinNotation::ascii(), &data))
        .build()
        .unwrap();
    assert_eq!(found(matcher.test("")), None);
    assert_eq!(found(matcher.test("xing")), Some((0, 4)));
    assert_eq!(found(matcher.test("XiNG")), Some((0, 4)));
    assert_eq!(found(matcher.test("行")), Some((0, 3)));

    let matcher = IbMatcher::builder("ke")
        .pinyin(PinyinMatchConfig::notations(PinyinNotation::ascii(), &data))
        .build()
        .unwrap();
    assert_eq!(found(matcher.test("ke")), Some((0, 2)));
    assert_eq!(found(matcher.test("科")), Some((0, 3)));
    assert_eq!(found(matcher.test("k鹅")), Some((0, 4)));
    assert_eq!(found(matcher.test("凯尔")), None);

    let matcher = IbMatcher::builder("")
        .pinyin(PinyinMatchConfig::notations(PinyinNotation::ascii(), &data))
        .build()
        .unwrap();
    assert_eq!(found(matcher.test("")), Some((0, 0)));
    assert_eq!(found(matcher.test("abc")), Some((0, 0)));

    let matcher = IbMatcher::builder("ke")
        .pinyin(PinyinMatchConfig::notations(PinyinNotation::ascii() | PinyinNotation::ascii_first_letter(), &data))
        .build()
        .unwrap();
    assert_eq!(found(matcher.test("ke")), Some((0, 2)));
    assert_eq!(found(matcher.test("科")), Some((0, 3)));
    assert_eq!(found(matcher.test("k鹅")), Some((0, 4)));
    assert_eq!(found(matcher.test("凯尔")), Some((0, 6)));
    // AsciiFirstLetter is preferred
    assert_eq!(found(matcher.test("柯尔")), Some((0, 6)));
}

#[test]
fn mod_test_case_insensitive() {
    let data = PinyinData::new(full_table(), PinyinNotation::all()).unwrap();
    let matcher = IbMatcher::builder("xing")
        .case_insensitive(false)
        .pinyin(
            PinyinMatchConfig::builder(PinyinNotation::ascii(), &data)
                .case_insensitive(false)
                .build(),
        )
        .build()
        .unwrap();
    assert_eq!(found(matcher.test("xing")), Some((0, 4)));
    assert_eq!(found(matcher.test("XiNG")), None);
    assert_eq!(found(matcher.test("行")), Some((0, 3)));

    let matcher = IbMatcher::builder("XING")
        .case_insensitive(true)
        .pinyin(
            PinyinMatchConfig::builder(PinyinNotation::ascii(), &data)
                .case_insensitive(false)
                .build(),
        )
        .build()
        .unwrap();
    assert_eq!(found(matcher.test("xing")), Some((0, 4)));
    assert_eq!(found(matcher.test("XiNG")), Some((0, 4)));
    assert_eq!(found(matcher.test("行")), None);

    let matcher = IbMatcher::builder("XING")
        .case_insensitive(true)
        .pinyin(
            PinyinMatchConfig::builder(PinyinNotation::ascii(), &data)
                .case_insensitive(true)
                .build(),
        )
        .build()
        .unwrap();
    assert_eq!(found(matcher.test("xing")), Some((0, 4)));
    assert_eq!(found(matcher.test("XiNG")), Some((0, 4)));
    assert_eq!(found(matcher.test("行")), Some((0, 3)));

    let matcher = IbMatcher::builder("XiNG")
        .case_insensitive(false)
        .pinyin(
            PinyinMatchConfig::builder(PinyinNotation::ascii(), &data)
                .case_insensitive(true)
                .build(),
        )
        .build()
        .unwrap();
    assert_eq!(found(matcher.test("xing")), None);
    assert_eq!(found(matcher.test("XiNG")), Some((0, 4)));
    assert_eq!(found(matcher.test("行")), Some((0, 3)));
}

#[test]
fn test_no_plain() {
    let data = PinyinData::new(full_table(), PinyinNotation::all()).unwrap();
    let matcher = IbMatcher::builder("xing")
        .no_plain(true)
        .pinyin(PinyinMatchConfig::notations(PinyinNotation::ascii(), &data))
        .build()
        .unwrap();
    assert_eq!(found(matcher.test("")), None);
    assert_eq!(found(matcher.test("xing")), None);
    assert_eq!(found(matcher.test("XiNG")), None);
    assert_eq!(found(matcher.test("行")), Some((0, 3)));

    let matcher = IbMatcher::builder("ke")
        .no_plain(true)
        .pinyin(PinyinMatchConfig::notations(PinyinNotation::ascii(), &data))
        .build()
        .unwrap();
    assert_eq!(found(matcher.test("ke")), None);
    assert_eq!(found(matcher.test("科")), Some((0, 3)));
    assert_eq!(found(matcher.test("k鹅")), None);
    assert_eq!(found(matcher.test("凯尔")), None);

    let matcher = IbMatcher::builder("")
        .no_plain(true)
        .pinyin(PinyinMatchConfig::notations(PinyinNotation::ascii(), &data))
        .build()
        .unwrap();
    assert_eq!(found(matcher.test("")), Some((0, 0)));
    assert_eq!(found(matcher.test("abc")), Some((0, 0)));

    let matcher = IbMatcher::builder("ke")
        .no_plain(true)
        .pinyin(PinyinMatchConfig::notations(PinyinNotation::ascii() | PinyinNotation::ascii_first_letter(), &data))
        .build()
        .unwrap();
    assert_eq!(found(matcher.test("ke")), None);
    assert_eq!(found(matcher.test("科")), Some((0, 3)));
    assert_eq!(found(matcher.test("k鹅")), None);
    assert_eq!(found(matcher.test("凯尔")), Some((0, 6)));
    // AsciiFirstLetter is preferred
    assert_eq!(found(matcher.test("柯尔")), Some((0, 6)));
}

#[test]
fn mod_find() {
    let data = PinyinData::new(full_table(), PinyinNotation::all()).unwrap();
    let matcher = IbMatcher::builder("xing")
        .pinyin(PinyinMatchConfig::notations(PinyinNotation::ascii(), &data))
        .build()
        .unwrap();
    assert_eq!(found(matcher.find("")), None);
    assert_eq!(found(matcher.find("buxing")), Some((2, 4)));
    assert_eq!(found(matcher.find("BuXiNG")), Some((2, 4)));
    assert_eq!(found(matcher.find("不行")), Some((3, 3)));

    let matcher = IbMatcher::builder("")
        .pinyin(PinyinMatchConfig::notations(PinyinNotation::ascii(), &data))
        .build()
        .unwrap();
    assert_eq!(found(matcher.find("")), Some((0, 0)));
    assert_eq!(found(matcher.find("abc")), Some((0, 0)));
}

#[test]
fn mod_ends_with() {
    let data = PinyinData::new(full_table(), PinyinNotation::all()).unwrap();
    let matcher = IbMatcher::builder("xing")
        .pinyin(PinyinMatchConfig::notations(PinyinNotation::ascii(), &data))
        .ends_with(true)
        .build()
        .unwrap();
    assert_eq!(found(matcher.test("")), None);
    assert_eq!(found(matcher.test("xing")), Some((0, 4)));
    assert_eq!(found(matcher.test("XiNG")), Some((0, 4)));
    assert_eq!(found(matcher.test("行")), Some((0, 3)));

    assert_eq!(found(matcher.find("1xing")), Some((1, 4)));
    assert_eq!(found(matcher.find("1XiNG")), Some((1, 4)));
    assert_eq!(found(matcher.find("1行")), Some((1, 3)));
    assert_eq!(found(matcher.test("xing1")), None);
    assert_eq!(found(matcher.test("XiNG1")), None);
    assert_eq!(found(matcher.test("行1")), None);

    let matcher = IbMatcher::builder("ke")
        .pinyin(PinyinMatchConfig::notations(PinyinNotation::ascii(), &data))
        .ends_with(true)
        .build()
        .unwrap();
    assert_eq!(found(matcher.test("ke")), Some((0, 2)));
    assert_eq!(found(matcher.test("科")), Some((0, 3)));
    assert_eq!(found(matcher.test("k鹅")), Some((0, 4)));
    assert_eq!(found(matcher.test("凯尔")), None);

    assert_eq!(found(matcher.find("1ke")), Some((1, 2)));
    assert_eq!(found(matcher.find("1科")), Some((1, 3)));
    assert_eq!(found(matcher.find("1k鹅")), Some((1, 4)));
    assert_eq!(found(matcher.test("ke1")), None);
    assert_eq!(found(matcher.test("科1")), None);
    assert_eq!(found(matcher.test("k鹅1")), None);

    let matcher = IbMatcher::builder("")
        .pinyin(PinyinMatchConfig::notations(PinyinNotation::ascii(), &data))
        .ends_with(true)
        .build()
        .unwrap();
    assert_eq!(found(matcher.test("")), Some((0, 0)));
    assert_eq!(found(matcher.test("abc")), Some((0, 0)));

    let matcher = IbMatcher::builder("ke")
        .pinyin(PinyinMatchConfig::notations(PinyinNotation::ascii() | PinyinNotation::ascii_first_letter(), &data))
        .ends_with(true)
        .build()
        .unwrap();
    assert_eq!(found(matcher.test("ke")), Some((0, 2)));
    assert_eq!(found(matcher.test("科")), Some((0, 3)));
    assert_eq!(found(matcher.test("k鹅")), Some((0, 4)));
    assert_eq!(found(matcher.test("凯尔")), Some((0, 6)));
    // AsciiFirstLetter is preferred
    assert_eq!(found(matcher.test("柯尔")), Some((0, 6)));

    assert_eq!(found(matcher.find("1ke")), Some((1, 2)));
    assert_eq!(found(matcher.find("1科")), Some((1, 3)));
    assert_eq!(found(matcher.find("1k鹅")), Some((1, 4)));
    assert_eq!(found(matcher.find("1凯尔")), Some((1, 6)));
    // AsciiFirstLetter is preferred
    assert_eq!(found(matcher.find("1柯尔")), Some((1, 6)));

    assert_eq!(found(matcher.find("ke1")), None);
    assert_eq!(found(matcher.find("科1")), None);
    assert_eq!(found(matcher.find("k鹅1")), None);
    assert_eq!(found(matcher.find("凯尔1")), None);
    // AsciiFirstLetter is preferred
    assert_eq!(found(matcher.find("柯尔1")), None);
}

#[test]
fn mod_starts_with() {
    let data = PinyinData::new(full_table(), PinyinNotation::all()).unwrap();
    let matcher = IbMatcher::builder("xing")
        .pinyin(PinyinMatchConfig::notations(PinyinNotation::ascii(), &data))
        .starts_with(true)
        .build()
        .unwrap();
    assert_eq!(found(matcher.test("")), None);
    assert_eq!(found(matcher.test("xing")), Some((0, 4)));
    assert_eq!(found(matcher.test("XiNG")), Some((0, 4)));
    assert_eq!(found(matcher.test("行")), Some((0, 3)));

    assert_eq!(found(matcher.find("xing1")), Some((0, 4)));
    assert_eq!(found(matcher.find("XiNG1")), Some((0, 4)));
    assert_eq!(found(matcher.find("行1")), Some((0, 3)));
    assert_eq!(found(matcher.test("1xing")), None);
    assert_eq!(found(matcher.test("1XiNG")), None);
    assert_eq!(found(matcher.test("1行")), None);

    let matcher = IbMatcher::builder("ke")
        .pinyin(PinyinMatchConfig::notations(PinyinNotation::ascii(), &data))
        .starts_with(true)
        .build()
        .unwrap();
    assert_eq!(found(matcher.test("ke")), Some((0, 2)));
    assert_eq!(found(matcher.test("科")), Some((0, 3)));
    assert_eq!(found(matcher.test("k鹅")), Some((0, 4)));
    assert_eq!(found(matcher.test("凯尔")), None);

    assert_eq!(found(matcher.find("ke1")), Some((0, 2)));
    assert_eq!(found(matcher.find("科1")), Some((0, 3)));
    assert_eq!(found(matcher.find("k鹅1")), Some((0, 4)));
    assert_eq!(found(matcher.test("1ke")), None);
    assert_eq!(found(matcher.test("1科")), None);
    assert_eq!(found(matcher.test("1k鹅")), None);

    let matcher = IbMatcher::builder("")
        .pinyin(PinyinMatchConfig::notations(PinyinNotation::ascii(), &data))
        .starts_with(true)
        .build()
        .unwrap();
    assert_eq!(found(matcher.test("")), Some((0, 0)));
    assert_eq!(found(matcher.test("abc")), Some((0, 0)));

    let matcher = IbMatcher::builder("ke")
        .pinyin(PinyinMatchConfig::notations(PinyinNotation::ascii() | PinyinNotation::ascii_first_letter(), &data))
        .starts_with(true)
        .build()
        .unwrap();
    assert_eq!(found(matcher.test("ke")), Some((0, 2)));
    assert_eq!(found(matcher.test("科")), Some((0, 3)));
    assert_eq!(found(matcher.test("k鹅")), Some((0, 4)));
    assert_eq!(found(matcher.test("凯尔")), Some((0, 6)));
    // AsciiFirstLetter is preferred
    assert_eq!(found(matcher.test("柯尔")), Some((0, 6)));

    assert_eq!(found(matcher.find("ke1")), Some((0, 2)));
    assert_eq!(found(matcher.find("科1")), Some((0, 3)));
    assert_eq!(found(matcher.find("k鹅1")), Some((0, 4)));
    assert_eq!(found(matcher.find("凯尔1")), Some((0, 6)));
    // AsciiFirstLetter is preferred
    assert_eq!(found(matcher.find("柯尔1")), Some((0, 6)));

    assert_eq!(found(matcher.find("1ke")), None);
    assert_eq!(found(matcher.find("1科")), None);
    assert_eq!(found(matcher.find("1k鹅")), None);
    assert_eq!(found(matcher.find("1凯尔")), None);
    // AsciiFirstLetter is preferred
    assert_eq!(found(matcher.find("1柯尔")), None);

    assert_eq!(
        found(matcher.find_input(Input::builder("柯尔1").no_start(true).build())),
        None
    );

    let matcher = IbMatcher::builder("ke")
        .pinyin(PinyinMatchConfig::notations(PinyinNotation::ascii() | PinyinNotation::ascii_first_letter(), &data))
        .build()
        .unwrap();
    assert_eq!(
        found(matcher.find_input(Input::builder("柯尔1").no_start(true).build())),
        Some((0, 6))
    );
}

#[test]
fn starts_ends_with() {
    let data = PinyinData::new(full_table(), PinyinNotation::all()).unwrap();
    let matcher = IbMatcher::builder("xing")
        .pinyin(PinyinMatchConfig::notations(PinyinNotation::ascii(), &data))
        .starts_with(true)
        .ends_with(true)
        .build()
        .unwrap();
    assert_eq!(found(matcher.test("")), None);
    assert_eq!(found(matcher.test("xing")), Some((0, 4)));
    assert_eq!(found(matcher.test("XiNG")), Some((0, 4)));
    assert_eq!(found(matcher.test("行")), Some((0, 3)));

    assert_eq!(found(matcher.find("xing1")), None);
    assert_eq!(found(matcher.find("XiNG1")), None);
    assert_eq!(found(matcher.find("行1")), None);
    assert_eq!(found(matcher.test("1xing")), None);
    assert_eq!(found(matcher.test("1XiNG")), None);
    assert_eq!(found(matcher.test("1行")), None);

    let matcher = IbMatcher::builder("ke")
        .pinyin(PinyinMatchConfig::notations(PinyinNotation::ascii(), &data))
        .starts_with(true)
        .ends_with(true)
        .build()
        .unwrap();
    assert_eq!(found(matcher.test("ke")), Some((0, 2)));
    assert_eq!(found(matcher.test("科")), Some((0, 3)));
    assert_eq!(found(matcher.test("k鹅")), Some((0, 4)));
    assert_eq!(found(matcher.test("凯尔")), None);

    assert_eq!(found(matcher.find("ke1")), None);
    assert_eq!(found(matcher.find("科1")), None);
    assert_eq!(found(matcher.find("k鹅1")), None);
    assert_eq!(found(matcher.test("1ke")), None);
    assert_eq!(found(matcher.test("1科")), None);
    assert_eq!(found(matcher.test("1k鹅")), None);

    let matcher = IbMatcher::builder("")
        .pinyin(PinyinMatchConfig::notations(PinyinNotation::ascii(), &data))
        .starts_with(true)
        .ends_with(true)
        .build()
        .unwrap();
    assert_eq!(found(matcher.test("")), Some((0, 0)));
    assert_eq!(found(matcher.test("abc")), Some((0, 0)));

    let matcher = IbMatcher::builder("ke")
        .pinyin(PinyinMatchConfig::notations(PinyinNotation::ascii() | PinyinNotation::ascii_first_letter(), &data))
        .starts_with(true)
        .ends_with(true)
        .build()
        .unwrap();
    assert_eq!(found(matcher.test("ke")), Some((0, 2)));
    assert_eq!(found(matcher.test("科")), Some((0, 3)));
    assert_eq!(found(matcher.test("k鹅")), Some((0, 4)));
    assert_eq!(found(matcher.test("凯尔")), Some((0, 6)));
    // AsciiFirstLetter is preferred
    assert_eq!(found(matcher.test("柯尔")), Some((0, 6)));

    assert_eq!(found(matcher.find("ke1")), None);
    assert_eq!(found(matcher.find("科1")), None);
    assert_eq!(found(matcher.find("k鹅1")), None);
    assert_eq!(found(matcher.find("凯尔1")), None);
    // AsciiFirstLetter is preferred
    assert_eq!(found(matcher.find("柯尔1")), None);

    assert_eq!(found(matcher.find("1ke")), None);
    assert_eq!(found(matcher.find("1科")), None);
    assert_eq!(found(matcher.find("1k鹅")), None);
    assert_eq!(found(matcher.find("1凯尔")), None);
    // AsciiFirstLetter is preferred
    assert_eq!(found(matcher.find("1柯尔")), None);
}


#[test]
fn ordered_notations() {
    assert_eq!(
        PinyinNotation::all().iter().len(),
        ib_matcher::matcher::pinyin::ordered_notations().len()
    )
}

#[test]
fn matcher_ordered_pinyin_notations() {
    let ordered = ib_matcher::matcher::pinyin::ordered_notations();
    assert_eq!(PinyinNotation::all().iter().len(), ordered.len());
    for n in PinyinNotation::all().iter() {
        assert_eq!(ordered.iter().filter(|o| **o == n).count(), 1);
    }
}

#[test]
fn mod_ordered_pinyin_notations() {
    let ordered = ib_matcher::matcher::pinyin::ordered_notations();
    assert_eq!(ordered[0], PinyinNotation::ascii_first_letter());
    assert_eq!(ordered[1], PinyinNotation::ascii());
    assert_eq!(ordered[2], PinyinNotation::ascii_tone());
    assert_eq!(ordered[3], PinyinNotation::unicode());
    assert_eq!(PinyinNotation::all().iter().len(), ordered.len())
}

#[test]
fn matcher_test() {
    let data = PinyinData::new(full_table(), PinyinNotation::all()).unwrap();
    let matcher = PinyinMatcher::builder("xing", &data)
        .pinyin_notations(PinyinNotation::ascii())
        .build()
        .unwrap();
    assert_eq!(found(matcher.test("")), None);
    assert_eq!(found(matcher.test("xing")), Some((0, 4)));
    assert_eq!(found(matcher.test("XiNG")), Some((0, 4)));
    assert_eq!(found(matcher.test("行")), Some((0, 3)));

    let matcher = PinyinMatcher::builder("ke", &data)
        .pinyin_notations(PinyinNotation::ascii())
        .build()
        .unwrap();
    assert_eq!(found(matcher.test("ke")), Some((0, 2)));
    assert_eq!(found(matcher.test("科")), Some((0, 3)));
    assert_eq!(found(matcher.test("k鹅")), Some((0, 4)));
    assert_eq!(found(matcher.test("凯尔")), None);

    let matcher = PinyinMatcher::builder("", &data)
        .pinyin_notations(PinyinNotation::ascii())
        .build()
        .unwrap();
    assert_eq!(found(matcher.test("")), Some((0, 0)));
    assert_eq!(found(matcher.test("abc")), Some((0, 0)));

    let matcher = PinyinMatcher::builder("ke", &data)
        .pinyin_notations(PinyinNotation::ascii() | PinyinNotation::ascii_first_letter())
        .build()
        .unwrap();
    assert_eq!(found(matcher.test("ke")), Some((0, 2)));
    assert_eq!(found(matcher.test("科")), Some((0, 3)));
    assert_eq!(found(matcher.test("k鹅")), Some((0, 4)));
    assert_eq!(found(matcher.test("凯尔")), Some((0, 6)));
    // AsciiFirstLetter is preferred
    assert_eq!(found(matcher.test("柯尔")), Some((0, 6)));
}

#[test]
fn matcher_test_case_insensitive() {
    let data = PinyinData::new(full_table(), PinyinNotation::all()).unwrap();
    let matcher = PinyinMatcher::builder("xing", &data)
        .case_insensitive(false)
        .pinyin_case_insensitive(false)
        .pinyin_notations(PinyinNotation::ascii())
        .build()
        .unwrap();
    assert_eq!(found(matcher.test("xing")), Some((0, 4)));
    assert_eq!(found(matcher.test("XiNG")), None);
    assert_eq!(found(matcher.test("行")), Some((0, 3)));

    let matcher = PinyinMatcher::builder("XING", &data)
        .case_insensitive(true)
        .pinyin_case_insensitive(false)
        .pinyin_notations(PinyinNotation::ascii())
        .build()
        .unwrap();
    assert_eq!(found(matcher.test("xing")), Some((0, 4)));
    assert_eq!(found(matcher.test("XiNG")), Some((0, 4)));
    assert_eq!(found(matcher.test("行")), None);

    let matcher = PinyinMatcher::builder("XING", &data)
        .case_insensitive(true)
        .pinyin_case_insensitive(true)
        .pinyin_notations(PinyinNotation::ascii())
        .build()
        .unwrap();
    assert_eq!(found(matcher.test("xing")), Some((0, 4)));
    assert_eq!(found(matcher.test("XiNG")), Some((0, 4)));
    assert_eq!(found(matcher.test("行")), Some((0, 3)));

    let matcher = PinyinMatcher::builder("XiNG", &data)
        .case_insensitive(false)
        .pinyin_case_insensitive(true)
        .pinyin_notations(PinyinNotation::ascii())
        .build()
        .unwrap();
    assert_eq!(found(matcher.test("xing")), None);
    assert_eq!(found(matcher.test("XiNG")), Some((0, 4)));
    assert_eq!(found(matcher.test("行")), Some((0, 3)));
}

#[test]
fn matcher_find() {
    let data = PinyinData::new(full_table(), PinyinNotation::all()).unwrap();
    let matcher = PinyinMatcher::builder("xing", &data)
        .pinyin_notations(PinyinNotation::ascii())
        .build()
        .unwrap();
    assert_eq!(found(matcher.find("")), None);
    assert_eq!(found(matcher.find("buxing")), Some((2, 4)));
    assert_eq!(found(matcher.find("BuXiNG")), Some((2, 4)));
    assert_eq!(found(matcher.find("不行")), Some((3, 3)));

    let matcher = PinyinMatcher::builder("", &data)
        .pinyin_notations(PinyinNotation::ascii())
        .build()
        .unwrap();
    assert_eq!(found(matcher.find("")), Some((0, 0)));
    assert_eq!(found(matcher.find("abc")), Some((0, 0)));
}

#[test]
fn romaji() {
    let table = romaji_table();
    let romanizer = HepburnRomanizer::builder(&table).kana(true).kanji(true).word(true).build().unwrap();
    let romaji = RomajiMatchConfig::builder(&romanizer).build();

    let matcher = IbMatcher::builder("ohayo").romaji(romaji.clone()).build().unwrap();
    assert_eq!(found(matcher.find("おはよう")), Some((0, 9)));

    let matcher = IbMatcher::builder("jojo").romaji(romaji.clone()).build().unwrap();
    assert_eq!(found(matcher.find("おはよジョジョ")), Some((9, 12)));

    let matcher = IbMatcher::builder("konosubarashiisekaini")
        .romaji(romaji.clone())
        .build()
        .unwrap();
    assert_eq!(found(matcher.find("この素晴らしい世界に祝福を")), Some((0, 30)));

    let matcher = IbMatcher::builder("konosuba").romaji(romaji.clone()).build().unwrap();
    assert_eq!(found(matcher.find("この素晴らしい世界に祝福を")), None);
    let matcher = IbMatcher::builder("konosuba")
        .romaji(romaji.clone())
        .is_pattern_partial(true)
        .build()
        .unwrap();
    assert_eq!(found(matcher.find("この素晴らしい世界に祝福を")), Some((0, 21)));
}

#[test]
fn lang_only() {
    let data = PinyinData::new(full_table(), PinyinNotation::all()).unwrap();
    let p = Pattern::parse_ev("pinyin").call();
    assert!(p.lang_only.is_none());

    let p = Pattern::parse_ev("pinyin;en").call();
    assert_eq!(p.lang_only, Some(LangOnly::English));

    let p = Pattern::parse_ev("pinyin;py").call();
    assert_eq!(p.lang_only, Some(LangOnly::Pinyin));

    let p = Pattern::parse_ev("pinyin;rm").call();
    assert_eq!(p.lang_only, Some(LangOnly::Romaji));

    let p = Pattern::parse_ev("pinyin;en;py").call();
    assert_eq!(p.pattern, "pinyin;en");
    assert_eq!(p.lang_only, Some(LangOnly::Pinyin));

    let matcher = IbMatcher::builder_for(Pattern::parse_ev("pinyin;py").call())
        .pinyin(PinyinMatchConfig::notations(PinyinNotation::ascii(), &data))
        .build()
        .unwrap();
    assert!(matcher.is_match("拼音搜索"));
    assert!(matcher.is_match("pinyin") == false);
}

#[test]
fn ascii_ends_with() {
    let matcher =
        AsciiMatcher::new(b"abc", PlainMatchConfig::case_insensitive(true).as_ref(), false, true)
            .unwrap();
    assert!(matcher.is_match(b"abc"));
    assert!(!matcher.is_match(b"ab"));
    assert_eq!(found(matcher.find(b"abcd")), None);
    assert!(!matcher.is_match(b"abcd"));
    assert!(matcher.is_match(b"ABC"));
    assert_eq!(found(matcher.find(b"xyzabc")), Some((3, 3)));
    assert!(matcher.is_match(b"xyzabc"));
    assert!(!matcher.is_match(b"xyzab"));

    let matcher =
        AsciiMatcher::new(b"abc", PlainMatchConfig::case_insensitive(true).as_ref(), false, false)
            .unwrap();
    assert!(matcher.is_match(b"abc"));
    assert!(!matcher.is_match(b"ab"));
    assert!(matcher.is_match(b"abcd"));
    assert!(matcher.is_match(b"ABC"));
    assert!(matcher.is_match(b"xyzabc"));
    assert!(!matcher.is_match(b"xyzab"));
}

#[test]
fn ascii_starts_with() {
    let matcher =
        AsciiMatcher::new(b"abc", PlainMatchConfig::case_insensitive(true).as_ref(), true, false)
            .unwrap();
    assert!(matcher.is_match(b"abc"));
    assert!(!matcher.is_match(b"ab"));
    assert!(matcher.is_match(b"abcd"));
    assert!(matcher.is_match(b"ABC"));
    assert!(!matcher.is_match(b"xyzabc"));
    assert!(!matcher.is_match(b"xyzab"));

    let matcher =
        AsciiMatcher::new(b"abc", PlainMatchConfig::case_insensitive(true).as_ref(), false, false)
            .unwrap();
    assert!(matcher.is_match(b"abc"));
    assert!(!matcher.is_match(b"ab"));
    assert!(matcher.is_match(b"abcd"));
    assert!(matcher.is_match(b"ABC"));
    assert!(matcher.is_match(b"xyzabc"));
    assert!(!matcher.is_match(b"xyzab"));
}

fn units(s: &str) -> Vec<u16> {
    s.encode_utf16().collect()
}

fn points(s: &str) -> Vec<u32> {
    s.chars().map(|c| c as u32).collect()
}

#[test]
fn mod_test_u16() {
    let data = PinyinData::new(full_table(), PinyinNotation::all()).unwrap();
    let matcher = IbMatcher::builder("xing")
        .pinyin(PinyinMatchConfig::notations(PinyinNotation::ascii(), &data))
        .build()
        .unwrap();

    assert_eq!(found(matcher.test_u16(&units("xing"))), Some((0, 4)));

    assert_eq!(found(matcher.test_u16(&units("XiNG"))), Some((0, 4)));
    assert_eq!(found(matcher.test_u16(&units("行"))), Some((0, 1)));

    let matcher = IbMatcher::builder("ke")
        .pinyin(PinyinMatchConfig::notations(PinyinNotation::ascii(), &data))
        .build()
        .unwrap();
    assert_eq!(found(matcher.test_u16(&units("ke"))), Some((0, 2)));
    assert_eq!(found(matcher.test_u16(&units("科"))), Some((0, 1)));
    assert_eq!(found(matcher.test_u16(&units("k鹅"))), Some((0, 2)));
    assert_eq!(found(matcher.test_u16(&units("凯尔"))), None);

    let matcher = IbMatcher::builder("")
        .pinyin(PinyinMatchConfig::notations(PinyinNotation::ascii(), &data))
        .build()
        .unwrap();
    assert_eq!(found(matcher.test_u16(&units(""))), Some((0, 0)));
    assert_eq!(found(matcher.test_u16(&units("abc"))), Some((0, 0)));

    let matcher = IbMatcher::builder("ke")
        .pinyin(PinyinMatchConfig::notations(
            PinyinNotation::ascii() | PinyinNotation::ascii_first_letter(),
            &data,
        ))
        .build()
        .unwrap();
    assert_eq!(found(matcher.test_u16(&units("ke"))), Some((0, 2)));
    assert_eq!(found(matcher.test_u16(&units("科"))), Some((0, 1)));
    assert_eq!(found(matcher.test_u16(&units("k鹅"))), Some((0, 2)));
    assert_eq!(found(matcher.test_u16(&units("凯尔"))), Some((0, 2)));
    // AsciiFirstLetter is preferred
    assert_eq!(found(matcher.test_u16(&units("柯尔"))), Some((0, 2)));
}

#[test]
fn u16_is_ascii() {
    use_is_ascii_u16();
}

fn use_is_ascii_u16() {
    assert!(ib_matcher::matcher::encoding::EncodedStr::is_ascii(units("").as_slice()));
    assert!(ib_matcher::matcher::encoding::EncodedStr::is_ascii(units("abc").as_slice()));
    assert!(ib_matcher::matcher::encoding::EncodedStr::is_ascii(units("协作").as_slice()) == false);
}

#[test]
fn u32_is_ascii() {
    assert!(ib_matcher::matcher::encoding::EncodedStr::is_ascii(points("").as_slice()));
    assert!(ib_matcher::matcher::encoding::EncodedStr::is_ascii(points("abc").as_slice()));
    assert!(ib_matcher::matcher::encoding::EncodedStr::is_ascii(points("协作").as_slice()) == false);
}

#[test]
fn minimal_is_pinyin_match_u16_() {
    let mut data = PinyinData::new(full_table(), PinyinNotation::all()).unwrap();
    assert!(ib_matcher::minimal::is_pinyin_match_u16(
        &mut data,
        &units("zuo"),
        &units("协作"),
        PinyinNotation::ascii() | PinyinNotation::ascii_first_letter(),
    ));
}

#[test]
fn is_match_u16() {
    let mut data = PinyinData::new(full_table(), PinyinNotation::all()).unwrap();
    let pattern = units("zuo");
    let haystack = units("协作");
    assert!(ib_matcher::bindings::ib_pinyin::is_match_u16(
        &mut data,
        &pattern,
        &haystack,
        (PinyinNotation::ascii() | PinyinNotation::ascii_first_letter()).bits()
    ));

    let pattern = units("wszpx");
    let haystack = units("我是只螃蟹");
    assert!(ib_matcher::bindings::ib_pinyin::is_match_u16(
        &mut data,
        &pattern,
        &haystack,
        (PinyinNotation::ascii() | PinyinNotation::ascii_first_letter()).bits()
    ));
}

#[test]
fn is_match_u16c() {
    let mut data = PinyinData::new(full_table(), PinyinNotation::all()).unwrap();
    let pattern = units("zuo\0xx");
    let haystack = units("协作\0");
    assert!(ib_matcher::bindings::ib_pinyin::is_match_u16c(
        &mut data,
        &pattern,
        &haystack,
        (PinyinNotation::ascii() | PinyinNotation::ascii_first_letter()).bits()
    ));
    assert!(!ib_matcher::bindings::ib_pinyin::is_match_u16c(
        &mut data,
        &units("zuo"),
        &units("协\0作"),
        (PinyinNotation::ascii() | PinyinNotation::ascii_first_letter()).bits()
    ));
}

#[test]
fn wide_haystacks() {
    let mut data = PinyinData::new(full_table(), PinyinNotation::all()).unwrap();
    let matcher = IbMatcher::builder("xing")
        .pinyin(PinyinMatchConfig::notations(PinyinNotation::ascii(), &data))
        .build()
        .unwrap();
    // a character of two units before the match
    assert_eq!(found(matcher.find_u16(&units("𠮾不行"))), Some((3, 1)));
    assert_eq!(found(matcher.find_u32(&points("𠮾不行"))), Some((2, 1)));
    assert_eq!(found(matcher.find("𠮾不行")), Some((7, 3)));
    assert!(matcher.is_match_u16(&units("𠮾不行")));
    assert!(matcher.is_match_u32(&points("𠮾不行")));
    assert_eq!(found(matcher.test_u32(&points("行𠮾"))), Some((0, 1)));
    // half a pair, and a unit that is no character, read as U+FFFD
    assert_eq!(
        ib_matcher::matcher::encoding::decode_utf16(&[0x61, 0xD800, 0x62, 0xDC00, 0xD842, 0xDFBE]),
        vec!['a', '\u{FFFD}', 'b', '\u{FFFD}', '𠮾']
    );
    assert_eq!(
        ib_matcher::matcher::encoding::decode_utf32(&[0x61, 0xD800, 0x110000, 0x20BBE]),
        vec!['a', '\u{FFFD}', '\u{FFFD}', '𠮾']
    );
    assert_eq!(found(matcher.find_u16(&[0xD800, 0x884C])), Some((1, 1)));
    assert_eq!(
        ib_matcher::minimal::find_pinyin_match_u16(
            &mut data,
            &units("xing"),
            &units("𠮾不行"),
            PinyinNotation::ascii()
        )
        .map(|m| (m.start(), m.end())),
        Some((3, 4))
    );
    assert_eq!(
        ib_matcher::bindings::ib_pinyin::find_match_u32(&mut data, &points("xing"), &points("𠮾不行"), 0x2),
        2 | (3 << 32)
    );
    assert_eq!(
        ib_matcher::bindings::ib_pinyin::find_match_u16(&mut data, &units("xing"), &units("不"), 0x2),
        u64::MAX
    );
    assert!(ib_matcher::bindings::ib_pinyin::is_match_u32(&mut data, &points("bx"), &points("不行"), 0x1));
    assert!(ib_matcher::minimal::is_pinyin_match_u32(
        &mut data,
        &points("bu"),
        &points("不行"),
        PinyinNotation::ascii()
    ));
    assert_eq!(
        ib_matcher::minimal::find_pinyin_match_u32(
            &mut data,
            &points("xing"),
            &points("不行"),
            PinyinNotation::ascii()
        )
        .map(|m| (m.start(), m.end())),
        Some((1, 2))
    );
    assert_eq!(ib_matcher::matcher::encoding::until_nul(&[1, 2, 0, 3]), &[1, 2]);
    assert_eq!(ib_matcher::matcher::encoding::until_nul(&[1, 2]), &[1, 2]);
}
