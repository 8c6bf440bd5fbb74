#![allow(dead_code, unused_imports)]
use ib_matcher::matcher::analyze::{PatternAnalyzeConfig, PatternAnalyzer};
use ib_matcher::matcher::ascii::{AsciiMatcher, PlainMatchConfig};
use ib_matcher::matcher::input::Input;
use ib_matcher::matcher::pattern::{LangOnly, Pattern};
use ib_matcher::matcher::pinyin::ordered_notations;
use ib_matcher::matcher::{IbMatcher, Match, PinyinMatchConfig, RomajiMatchConfig};
use ib_matcher::pinyin::data::PinyinData;
use ib_matcher::pinyin::encode::{
    ascii_to_diletter_abc, ascii_to_diletter_jiajia, ascii_to_diletter_microsoft,
    ascii_to_diletter_thunisoft, ascii_to_diletter_xiaohe, ascii_to_diletter_zrm, unicode_to_ascii,
};
use ib_matcher::pinyin::matcher::PinyinMatcher;
use ib_matcher::pinyin::notation::PinyinNotation;
use ib_matcher::pinyin::table::{PinyinRangeTable, PinyinTable, NO_PINYIN};
use ib_matcher::romaji::{kanji_romajis, HepburnRomanizer, KanjiReadings, RomajiTable};

const SYLLABLES: &str = "a o e ai ei ao ou an en ang eng er \
ba bo bai bei bao ban ben bang beng bi bie biao bian bin bing bu \
pa po pai pei pao pou pan pen pang peng pi pie piao pian pin ping pu \
ma mo me mai mei mao mou man men mang meng mi mie miao miu mian min ming mu \
fa fo fei fou fan fen fang feng fu \
da de dai dei dao dou dan den dang deng dong di dia die diao diu dian ding du duo dui duan dun \
ta te tai tei tao tou tan tang teng tong ti tie tiao tian ting tu tuo tui tuan tun \
na ne nai nei nao nou nan nen nang neng nong ni nie niao niu nian nin niang ning nu nuo nuan nun \
la le lai lei lao lou lan lang leng long li lia lie liao liu lian lin liang ling lu luo luan lun lo \
ga ge gai gei gao gou gan gen gang geng gong gu gua guo guai gui guan gun guang \
ka ke kai kei kao kou kan ken kang keng kong ku kua kuo kuai kui kuan kun kuang \
ha he hai hei hao hou han hen hang heng hong hu hua huo huai hui huan hun huang \
ji jia jie jiao jiu jian jin jiang jing jiong ju jue juan jun \
qi qia qie qiao qiu qian qin qiang qing qiong qu que quan qun \
xi xia xie xiao xiu xian xin xiang xing xiong xu xue xuan xun \
zha zhe zhi zhai zhei zhao zhou zhan zhen zhang zheng zhong zhu zhua zhuo zhuai zhui zhuan zhun zhuang \
cha che chi chai chao chou chan chen chang cheng chong chu chua chuo chuai chui chuan chun chuang \
sha she shi shai shei shao shou shan shen shang sheng shu shua shuo shuai shui shuan shun shuang \
re ri rao rou ran ren rang reng rong ru rua ruo rui ruan run \
za ze zi zai zei zao zou zan zen zang zeng zong zu zuo zui zuan zun \
ca ce ci cai cao cou can cen cang ceng cong cu cuo cui cuan cun \
sa se si sai sao sou san sen sang seng song su suo sui suan sun \
ya yo ye yao you yan yang yi yin ying yong yu yue yuan yun \
wa wo wai wei wan wen wang weng wu \
m n ng hm hng nǚ lǜ nüè lüè";

const READINGS: &[(char, &[&str])] = &[
    ('拼', &["pīn"]),
    ('音', &["yīn"]),
    ('搜', &["sōu"]),
    ('索', &["suǒ"]),
    ('行', &["xíng", "háng", "hàng", "héng"]),
    ('科', &["kē"]),
    ('鹅', &["é"]),
    ('凯', &["kǎi"]),
    ('尔', &["ěr"]),
    ('柯', &["kē"]),
    ('不', &["bù", "fǒu"]),
    ('中', &["zhōng", "zhòng"]),
    ('初', &["chū"]),
    ('殴', &["ōu"]),
    ('打', &["dǎ", "dá"]),
    ('喜', &["xǐ"]),
    ('羊', &["yáng"]),
    ('双', &["shuāng"]),
    ('协', &["xié"]),
    ('作', &["zuò", "zuō"]),
    ('我', &["wǒ"]),
    ('是', &["shì"]),
    ('只', &["zhī", "zhǐ"]),
    ('螃', &["páng"]),
    ('蟹', &["xiè"]),
];

fn ascii_of(unicode: &str) -> String {
    unicode_to_ascii(unicode).unwrap().as_str().to_string()
}

/// A dictionary of the syllables of Mandarin, each once without a tone,
/// and of the readings of some characters, in the order of their full
/// pinyin.
fn full_table() -> PinyinTable {
    let mut pinyins: Vec<String> = SYLLABLES.split_whitespace().map(|s| s.to_string()).collect();
    for (_, readings) in READINGS {
        for r in readings.iter() {
            if !pinyins.iter().any(|p| p == r) {
                pinyins.push(r.to_string());
            }
        }
    }
    pinyins.sort_by_key(|p| (ascii_of(p), p.clone()));
    let start: u32 = 0x3007;
    let end: u32 = 0x30EDE;
    let mut table: Vec<u16> = vec![NO_PINYIN; (end - start + 1) as usize];
    let mut combinations: Vec<Vec<u16>> = Vec::new();
    for (c, readings) in READINGS {
        let mut indices: Vec<u16> = readings
            .iter()
            .map(|r| pinyins.iter().position(|p| p == r).unwrap() as u16)
            .collect();
        if indices.len() == 1 {
            table[(*c as u32 - start) as usize] = indices[0];
        } else {
            indices.push(NO_PINYIN);
            combinations.push(indices);
            table[(*c as u32 - start) as usize] = (pinyins.len() + combinations.len() - 1) as u16;
        }
    }
    PinyinTable::new(pinyins, vec![PinyinRangeTable::new(start, end, table)], combinations)
}

fn strings(v: &[&str]) -> Vec<String> {
    v.iter().map(|s| s.to_string()).collect()
}

const KANAS: &[(&str, &str)] = &[
    ("あ", "a"),
    ("い", "i"),
    ("う", "u"),
    ("お", "o"),
    ("か", "ka"),
    ("こ", "ko"),
    ("し", "shi"),
    ("す", "su"),
    ("つ", "tsu"),
    ("て", "te"),
    ("に", "ni"),
    ("の", "no"),
    ("は", "ha"),
    ("よ", "yo"),
    ("ら", "ra"),
    ("を", "wo"),
    ("ハ", "ha"),
    ("ジ", "ji"),
    ("ジョ", "jo"),
    ("って", "tte"),
    ("っちゃ", "tcha"),
];

fn romaji_table() -> RomajiTable {
    RomajiTable {
        kanas: KANAS.iter().map(|(k, _)| k.to_string()).collect(),
        kana_romajis: KANAS.iter().map(|(_, r)| r.to_string()).collect(),
        words: "素晴らしい\n世界\n今日".to_string(),
        word_romajis: vec![strings(&["subarashii"]), strings(&["sekai"]), strings(&["kyou"])],
        kanjis: vec![
            KanjiReadings {
                kanji: '日',
                romajis: strings(&[
                    "a", "aki", "bi", "chi", "he", "hi", "iru", "jitsu", "ka", "kou", "ku", "kusa",
                    "nchi", "ni", "nichi", "nitsu", "su", "tachi",
                ]),
            },
            KanjiReadings { kanji: '今', romajis: strings(&["ima", "kin", "kon", "na"]) },
            KanjiReadings { kanji: '初', romajis: strings(&["hatsu", "sho", "ui"]) },
            KanjiReadings { kanji: '音', romajis: strings(&["in", "ne", "on", "oto"]) },
        ],
    }
}

fn found(m: Option<Match>) -> Option<(usize, usize)> {
    m.map(|m| (m.start(), m.len()))
}

#[test]
fn mod_pinyin_max_len() {
    let table = full_table();
    let max = table.pinyins.iter().map(|p| p.len()).max().unwrap();
    assert_eq!(max, 7);
}

#[test]
fn mod_pinyin_range_tables() {
    let table = full_table();
    let min_start = table.ranges.iter().map(|range| range.start).min().unwrap();
    let max_end = table.ranges.iter().map(|range| range.end).max().unwrap();
    assert_eq!(
        min_start..=max_end,
        ib_matcher::pinyin::table::MAX_RANGE_START..=ib_matcher::pinyin::table::MAX_RANGE_END
    )
}

#[test]
fn mod_get_pinyins() {
    let data = PinyinData::new(full_table(), PinyinNotation::all()).unwrap();

    assert_eq!(data.get_pinyins('中').len(), 2);

    for pinyin in data.get_pinyins('中') {
        for notation in PinyinNotation::all().iter() {
            assert!(pinyin.notation(notation).is_some_and(|py| !py.is_empty()));
        }
    }
}

#[test]
fn max_len() {
    for unicode in full_table().pinyins.iter() {
        let ascii = unicode_to_ascii(unicode).unwrap();
        let ascii = ascii.as_str();

        assert!(unicode.len() <= 7, "{}", unicode.len());
        assert!(ascii.len() <= 6);

        assert_eq!(ascii_to_diletter_abc(ascii).unwrap().as_str().len(), 2);
        assert_eq!(ascii_to_diletter_jiajia(ascii).unwrap().as_str().len(), 2);
        assert_eq!(ascii_to_diletter_microsoft(ascii).unwrap().as_str().len(), 2);
        assert_eq!(ascii_to_diletter_thunisoft(ascii).unwrap().as_str().len(), 2);
        assert_eq!(ascii_to_diletter_xiaohe(ascii).unwrap().as_str().len(), 2);
        assert_eq!(ascii_to_diletter_zrm(ascii).unwrap().as_str().len(), 2);
    }
}

#[test]
fn unicode_to_ascii_() {
    for unicode in full_table().pinyins.iter() {
        let ascii = unicode_to_ascii(unicode).unwrap();
        assert!(ascii.as_str().len() <= 6);
    }
}

#[test]
fn ascii_to_diletter_microsoft_() {
    assert_eq!(ascii_to_diletter_microsoft("pin").unwrap().as_str(), "pn");
    assert_eq!(ascii_to_diletter_microsoft("ying").unwrap().as_str(), "y;");
}

#[test]
fn ascii_to_diletter_xiaohe_() {
    assert_eq!(ascii_to_diletter_xiaohe("pin").unwrap().as_str(), "pb");
    assert_eq!(ascii_to_diletter_xiaohe("yin").unwrap().as_str(), "yb");
}
