//! The feature schema: the indicator features of one boundary position.

use vstd::prelude::*;
use vstd::string::*;

use crate::language::Language;
use crate::text::{join1, join2, join3, join4};

verus! {

/// A four-character feature prefix such as `UP1:`.
pub open spec fn tag(a: char, b: char, n: char) -> Seq<char> {
    seq![a, b, n, ':']
}

/// The window of slots that the features of position `i` read.
pub struct Window {
    pub w1: Seq<char>,
    pub w2: Seq<char>,
    pub w3: Seq<char>,
    pub w4: Seq<char>,
    pub w5: Seq<char>,
    pub w6: Seq<char>,
    pub c1: Seq<char>,
    pub c2: Seq<char>,
    pub c3: Seq<char>,
    pub c4: Seq<char>,
    pub c5: Seq<char>,
    pub c6: Seq<char>,
    pub p1: Seq<char>,
    pub p2: Seq<char>,
    pub p3: Seq<char>,
}

/// The window around position `i`: characters and types from `i - 3` to
/// `i + 2`, tags from `i - 3` to `i - 1`.
pub open spec fn window_at(
    i: int,
    tags: Seq<Seq<char>>,
    chars: Seq<Seq<char>>,
    types: Seq<Seq<char>>,
) -> Window {
    Window {
        w1: chars[i - 3],
        w2: chars[i - 2],
        w3: chars[i - 1],
        w4: chars[i],
        w5: chars[i + 1],
        w6: chars[i + 2],
        c1: types[i - 3],
        c2: types[i - 2],
        c3: types[i - 1],
        c4: types[i],
        c5: types[i + 1],
        c6: types[i + 2],
        p1: tags[i - 3],
        p2: tags[i - 2],
        p3: tags[i - 1],
    }
}

/// The payloads of the features that every language has, in schema order.
pub open spec fn base_payloads(win: Window) -> Seq<Seq<char>> {
    seq![
        win.p1,
        win.p2,
        win.p3,
        win.p1 + win.p2,
        win.p2 + win.p3,
        win.w1,
        win.w2,
        win.w3,
        win.w4,
        win.w5,
        win.w6,
        win.w2 + win.w3,
        win.w3 + win.w4,
        win.w4 + win.w5,
        win.c1,
        win.c2,
        win.c3,
        win.c4,
        win.c5,
        win.c6,
        win.c2 + win.c3,
        win.c3 + win.c4,
        win.c4 + win.c5,
        win.c1 + win.c2 + win.c3,
        win.c2 + win.c3 + win.c4,
        win.c3 + win.c4 + win.c5,
        win.c4 + win.c5 + win.c6,
        win.p1 + win.c1,
        win.p2 + win.c2,
        win.p3 + win.c3,
        win.p2 + win.c2 + win.c3,
        win.p2 + win.c3 + win.c4,
        win.p3 + win.c2 + win.c3,
        win.p3 + win.c3 + win.c4,
        win.p2 + win.c1 + win.c2 + win.c3,
        win.p2 + win.c2 + win.c3 + win.c4,
        win.p3 + win.c1 + win.c2 + win.c3,
        win.p3 + win.c2 + win.c3 + win.c4,
    ]
}

/// The payloads of the four features that mix a character with a type.
pub open spec fn mixed_payloads(win: Window) -> Seq<Seq<char>> {
    seq![
        win.w3 + win.c4,
        win.c3 + win.w4,
        win.w3 + win.c3,
        win.w4 + win.c4,
    ]
}

/// Whether a language uses the mixed character and type features.
pub open spec fn uses_mixed(lang: Language) -> bool {
    lang == Language::Japanese || lang == Language::Chinese
}

/// The payloads of one window, in schema order.
pub open spec fn payloads(win: Window, lang: Language) -> Seq<Seq<char>> {
    if uses_mixed(lang) {
        base_payloads(win) + mixed_payloads(win)
    } else {
        base_payloads(win)
    }
}

/// The features of one window, in schema order: each prefix followed by its payload.
pub open spec fn window_features(win: Window, lang: Language) -> Seq<Seq<char>> {
    Seq::new(payloads(win, lang).len(), |k: int| prefixes()[k] + payloads(win, lang)[k])
}

/// The features of position `i`.
pub open spec fn attribute_list(
    i: int,
    tags: Seq<Seq<char>>,
    chars: Seq<Seq<char>>,
    types: Seq<Seq<char>>,
    lang: Language,
) -> Seq<Seq<char>> {
    window_features(window_at(i, tags, chars, types), lang)
}

/// The number of features a language has at every position.
pub open spec fn feature_count(lang: Language) -> nat {
    if uses_mixed(lang) {
        42
    } else {
        38
    }
}

/// The prefixes of the schema, in order.
pub open spec fn prefixes() -> Seq<Seq<char>> {
    seq![
        "UP1:"@,
        "UP2:"@,
        "UP3:"@,
        "BP1:"@,
        "BP2:"@,
        "UW1:"@,
        "UW2:"@,
        "UW3:"@,
        "UW4:"@,
        "UW5:"@,
        "UW6:"@,
        "BW1:"@,
        "BW2:"@,
        "BW3:"@,
        "UC1:"@,
        "UC2:"@,
        "UC3:"@,
        "UC4:"@,
        "UC5:"@,
        "UC6:"@,
        "BC1:"@,
        "BC2:"@,
        "BC3:"@,
        "TC1:"@,
        "TC2:"@,
        "TC3:"@,
        "TC4:"@,
        "UQ1:"@,
        "UQ2:"@,
        "UQ3:"@,
        "BQ1:"@,
        "BQ2:"@,
        "BQ3:"@,
        "BQ4:"@,
        "TQ1:"@,
        "TQ2:"@,
        "TQ3:"@,
        "TQ4:"@,
        "WC1:"@,
        "WC2:"@,
        "WC3:"@,
        "WC4:"@,
    ]
}

/// The views of a slice of strings.
pub open spec fn views(s: Seq<String>) -> Seq<Seq<char>> {
    s.map_values(|x: String| x@)
}

proof fn lemma_prefixes_distinct()
    ensures
        prefixes().len() == 42,
        forall|a: int, b: int|
            0 <= a < 42 && 0 <= b < 42 && a != b ==> #[trigger] prefixes()[a] != #[trigger] prefixes()[b],
        forall|k: int| 0 <= k < 42 ==> (#[trigger] prefixes()[k]).len() == 4,
{
    reveal_strlit("UP1:");
    assert("UP1:"@ =~= tag('U', 'P', '1'));
    reveal_strlit("UP2:");
    assert("UP2:"@ =~= tag('U', 'P', '2'));
    reveal_strlit("UP3:");
    assert("UP3:"@ =~= tag('U', 'P', '3'));
    reveal_strlit("BP1:");
    assert("BP1:"@ =~= tag('B', 'P', '1'));
    reveal_strlit("BP2:");
    assert("BP2:"@ =~= tag('B', 'P', '2'));
    reveal_strlit("UW1:");
    assert("UW1:"@ =~= tag('U', 'W', '1'));
    reveal_strlit("UW2:");
    assert("UW2:"@ =~= tag('U', 'W', '2'));
    reveal_strlit("UW3:");
    assert("UW3:"@ =~= tag('U', 'W', '3'));
    reveal_strlit("UW4:");
    assert("UW4:"@ =~= tag('U', 'W', '4'));
    reveal_strlit("UW5:");
    assert("UW5:"@ =~= tag('U', 'W', '5'));
    reveal_strlit("UW6:");
    assert("UW6:"@ =~= tag('U', 'W', '6'));
    reveal_strlit("BW1:");
    assert("BW1:"@ =~= tag('B', 'W', '1'));
    reveal_strlit("BW2:");
    assert("BW2:"@ =~= tag('B', 'W', '2'));
    reveal_strlit("BW3:");
    assert("BW3:"@ =~= tag('B', 'W', '3'));
    reveal_strlit("UC1:");
    assert("UC1:"@ =~= tag('U', 'C', '1'));
    reveal_strlit("UC2:");
    assert("UC2:"@ =~= tag('U', 'C', '2'));
    reveal_strlit("UC3:");
    assert("UC3:"@ =~= tag('U', 'C', '3'));
    reveal_strlit("UC4:");
    assert("UC4:"@ =~= tag('U', 'C', '4'));
    reveal_strlit("UC5:");
    assert("UC5:"@ =~= tag('U', 'C', '5'));
    reveal_strlit("UC6:");
    assert("UC6:"@ =~= tag('U', 'C', '6'));
    reveal_strlit("BC1:");
    assert("BC1:"@ =~= tag('B', 'C', '1'));
    reveal_strlit("BC2:");
    assert("BC2:"@ =~= tag('B', 'C', '2'));
    reveal_strlit("BC3:");
    assert("BC3:"@ =~= tag('B', 'C', '3'));
    reveal_strlit("TC1:");
    assert("TC1:"@ =~= tag('T', 'C', '1'));
    reveal_strlit("TC2:");
    assert("TC2:"@ =~= tag('T', 'C', '2'));
    reveal_strlit("TC3:");
    assert("TC3:"@ =~= tag('T', 'C', '3'));
    reveal_strlit("TC4:");
    assert("TC4:"@ =~= tag('T', 'C', '4'));
    reveal_strlit("UQ1:");
    assert("UQ1:"@ =~= tag('U', 'Q', '1'));
    reveal_strlit("UQ2:");
    assert("UQ2:"@ =~= tag('U', 'Q', '2'));
    reveal_strlit("UQ3:");
    assert("UQ3:"@ =~= tag('U', 'Q', '3'));
    reveal_strlit("BQ1:");
    assert("BQ1:"@ =~= tag('B', 'Q', '1'));
    reveal_strlit("BQ2:");
    assert("BQ2:"@ =~= tag('B', 'Q', '2'));
    reveal_strlit("BQ3:");
    assert("BQ3:"@ =~= tag('B', 'Q', '3'));
    reveal_strlit("BQ4:");
    assert("BQ4:"@ =~= tag('B', 'Q', '4'));
    reveal_strlit("TQ1:");
    assert("TQ1:"@ =~= tag('T', 'Q', '1'));
    reveal_strlit("TQ2:");
    assert("TQ2:"@ =~= tag('T', 'Q', '2'));
    reveal_strlit("TQ3:");
    assert("TQ3:"@ =~= tag('T', 'Q', '3'));
    reveal_strlit("TQ4:");
    assert("TQ4:"@ =~= tag('T', 'Q', '4'));
    reveal_strlit("WC1:");
    assert("WC1:"@ =~= tag('W', 'C', '1'));
    reveal_strlit("WC2:");
    assert("WC2:"@ =~= tag('W', 'C', '2'));
    reveal_strlit("WC3:");
    assert("WC3:"@ =~= tag('W', 'C', '3'));
    reveal_strlit("WC4:");
    assert("WC4:"@ =~= tag('W', 'C', '4'));
    assert forall|a: int, b: int|
        0 <= a < 42 && 0 <= b < 42 && a != b implies #[trigger] prefixes()[a] != #[trigger] prefixes()[b] by {
        let pa = prefixes()[a];
        let pb = prefixes()[b];
        assert(pa[0] != pb[0] || pa[1] != pb[1] || pa[2] != pb[2]);
    }
}

/// Every feature of a window is its prefix followed by its payload.
proof fn lemma_feature_prefix(win: Window, lang: Language)
    ensures
        window_features(win, lang).len() == feature_count(lang),
        forall|k: int|
            0 <= k < window_features(win, lang).len() ==> (#[trigger] window_features(win, lang)[k]).subrange(0, 4)
                == prefixes()[k],
{
    let f = window_features(win, lang);
    lemma_prefixes_distinct();
    assert forall|k: int| 0 <= k < f.len() implies (#[trigger] f[k]).subrange(0, 4) == prefixes()[k] by {
        assert(f[k].subrange(0, 4) =~= prefixes()[k]);
    }
}

/// Within one window no feature occurs twice.
pub proof fn lemma_features_distinct(win: Window, lang: Language)
    ensures
        window_features(win, lang).len() == feature_count(lang),
        window_features(win, lang).no_duplicates(),
{
    lemma_prefixes_distinct();
    lemma_feature_prefix(win, lang);
    let f = window_features(win, lang);
    assert forall|a: int, b: int| 0 <= a < f.len() && 0 <= b < f.len() && a != b implies f[a] != f[b] by {
        assert(f[a].subrange(0, 4) == prefixes()[a]);
        assert(f[b].subrange(0, 4) == prefixes()[b]);
    }
}

/// Every position has 38 features in Korean and 42 in Japanese and Chinese,
/// all different.
pub proof fn lemma_feature_cardinality(
    i: int,
    tags: Seq<Seq<char>>,
    chars: Seq<Seq<char>>,
    types: Seq<Seq<char>>,
    lang: Language,
)
    ensures
        attribute_list(i, tags, chars, types, lang).to_set().len() == feature_count(lang),
        lang == Language::Korean ==> attribute_list(i, tags, chars, types, lang).to_set().len() == 38,
        lang != Language::Korean ==> attribute_list(i, tags, chars, types, lang).to_set().len() == 42,
{
    let f = attribute_list(i, tags, chars, types, lang);
    lemma_features_distinct(window_at(i, tags, chars, types), lang);
    f.unique_seq_to_set();
}

/// The features of position `i` of a sentence: the window of characters
/// `chars[i-3..=i+2]`, of types `types[i-3..=i+2]` and of tags `tags[i-3..i]`
/// turned into prefixed indicator strings; 42 of them for Japanese and
/// Chinese, 38 for Korean, all different.
#[verifier::rlimit(100)]
#[verifier::spinoff_prover]
pub fn attributes(
    i: usize,
    tags: &[String],
    chars: &[String],
    types: &[String],
    lang: Language,
) -> (r: Vec<String>)
    requires
        3 <= i,
        i <= tags@.len(),
        i + 2 < chars@.len(),
        i + 2 < types@.len(),
    ensures
        views(r@) == attribute_list(i as int, views(tags@), views(chars@), views(types@), lang),
        r@.len() == feature_count(lang),
        views(r@).no_duplicates(),
{
    let w1 = &chars[i - 3];
    let w2 = &chars[i - 2];
    let w3 = &chars[i - 1];
    let w4 = &chars[i];
    let w5 = &chars[i + 1];
    let w6 = &chars[i + 2];
    let c1 = &types[i - 3];
    let c2 = &types[i - 2];
    let c3 = &types[i - 1];
    let c4 = &types[i];
    let c5 = &types[i + 1];
    let c6 = &types[i + 2];
    let p1 = &tags[i - 3];
    let p2 = &tags[i - 2];
    let p3 = &tags[i - 1];
    let ghost win = window_at(i as int, views(tags@), views(chars@), views(types@));
    let mut r: Vec<String> = Vec::new();
    r.push(join1("UP1:", p1.as_str()));
    assert(r@[0]@ == prefixes()[0] + base_payloads(win)[0]);
    r.push(join1("UP2:", p2.as_str()));
    assert(r@[1]@ == prefixes()[1] + base_payloads(win)[1]);
    r.push(join1("UP3:", p3.as_str()));
    assert(r@[2]@ == prefixes()[2] + base_payloads(win)[2]);
    r.push(join2("BP1:", p1.as_str(), p2.as_str()));
    assert(r@[3]@ == prefixes()[3] + base_payloads(win)[3]);
    r.push(join2("BP2:", p2.as_str(), p3.as_str()));
    assert(r@[4]@ == prefixes()[4] + base_payloads(win)[4]);
    r.push(join1("UW1:", w1.as_str()));
    assert(r@[5]@ == prefixes()[5] + base_payloads(win)[5]);
    r.push(join1("UW2:", w2.as_str()));
    assert(r@[6]@ == prefixes()[6] + base_payloads(win)[6]);
    r.push(join1("UW3:", w3.as_str()));
    assert(r@[7]@ == prefixes()[7] + base_payloads(win)[7]);
    r.push(join1("UW4:", w4.as_str()));
    assert(r@[8]@ == prefixes()[8] + base_payloads(win)[8]);
    r.push(join1("UW5:", w5.as_str()));
    assert(r@[9]@ == prefixes()[9] + base_payloads(win)[9]);
    r.push(join1("UW6:", w6.as_str()));
    assert(r@[10]@ == prefixes()[10] + base_payloads(win)[10]);
    r.push(join2("BW1:", w2.as_str(), w3.as_str()));
    assert(r@[11]@ == prefixes()[11] + base_payloads(win)[11]);
    r.push(join2("BW2:", w3.as_str(), w4.as_str()));
    assert(r@[12]@ == prefixes()[12] + base_payloads(win)[12]);
    r.push(join2("BW3:", w4.as_str(), w5.as_str()));
    assert(r@[13]@ == prefixes()[13] + base_payloads(win)[13]);
    r.push(join1("UC1:", c1.as_str()));
    assert(r@[14]@ == prefixes()[14] + base_payloads(win)[14]);
    r.push(join1("UC2:", c2.as_str()));
    assert(r@[15]@ == prefixes()[15] + base_payloads(win)[15]);
    r.push(join1("UC3:", c3.as_str()));
    assert(r@[16]@ == prefixes()[16] + base_payloads(win)[16]);
    r.push(join1("UC4:", c4.as_str()));
    assert(r@[17]@ == prefixes()[17] + base_payloads(win)[17]);
    r.push(join1("UC5:", c5.as_str()));
    assert(r@[18]@ == prefixes()[18] + base_payloads(win)[18]);
    r.push(join1("UC6:", c6.as_str()));
    assert(r@[19]@ == prefixes()[19] + base_payloads(win)[19]);
    r.push(join2("BC1:", c2.as_str(), c3.as_str()));
    assert(r@[20]@ == prefixes()[20] + base_payloads(win)[20]);
    r.push(join2("BC2:", c3.as_str(), c4.as_str()));
    assert(r@[21]@ == prefixes()[21] + base_payloads(win)[21]);
    r.push(join2("BC3:", c4.as_str(), c5.as_str()));
    assert(r@[22]@ == prefixes()[22] + base_payloads(win)[22]);
    r.push(join3("TC1:", c1.as_str(), c2.as_str(), c3.as_str()));
    assert(r@[23]@ == prefixes()[23] + base_payloads(win)[23]);
    r.push(join3("TC2:", c2.as_str(), c3.as_str(), c4.as_str()));
    assert(r@[24]@ == prefixes()[24] + base_payloads(win)[24]);
    r.push(join3("TC3:", c3.as_str(), c4.as_str(), c5.as_str()));
    assert(r@[25]@ == prefixes()[25] + base_payloads(win)[25]);
    r.push(join3("TC4:", c4.as_str(), c5.as_str(), c6.as_str()));
    assert(r@[26]@ == prefixes()[26] + base_payloads(win)[26]);
    r.push(join2("UQ1:", p1.as_str(), c1.as_str()));
    assert(r@[27]@ == prefixes()[27] + base_payloads(win)[27]);
    r.push(join2("UQ2:", p2.as_str(), c2.as_str()));
    assert(r@[28]@ == prefixes()[28] + base_payloads(win)[28]);
    r.push(join2("UQ3:", p3.as_str(), c3.as_str()));
    assert(r@[29]@ == prefixes()[29] + base_payloads(win)[29]);
    r.push(join3("BQ1:", p2.as_str(), c2.as_str(), c3.as_str()));
    assert(r@[30]@ == prefixes()[30] + base_payloads(win)[30]);
    r.push(join3("BQ2:", p2.as_str(), c3.as_str(), c4.as_str()));
    assert(r@[31]@ == prefixes()[31] + base_payloads(win)[31]);
    r.push(join3("BQ3:", p3.as_str(), c2.as_str(), c3.as_str()));
    assert(r@[32]@ == prefixes()[32] + base_payloads(win)[32]);
    r.push(join3("BQ4:", p3.as_str(), c3.as_str(), c4.as_str()));
    assert(r@[33]@ == prefixes()[33] + base_payloads(win)[33]);
    r.push(join4("TQ1:", p2.as_str(), c1.as_str(), c2.as_str(), c3.as_str()));
    assert(r@[34]@ == prefixes()[34] + base_payloads(win)[34]);
    r.push(join4("TQ2:", p2.as_str(), c2.as_str(), c3.as_str(), c4.as_str()));
    assert(r@[35]@ == prefixes()[35] + base_payloads(win)[35]);
    r.push(join4("TQ3:", p3.as_str(), c1.as_str(), c2.as_str(), c3.as_str()));
    assert(r@[36]@ == prefixes()[36] + base_payloads(win)[36]);
    r.push(join4("TQ4:", p3.as_str(), c2.as_str(), c3.as_str(), c4.as_str()));
    assert(r@[37]@ == prefixes()[37] + base_payloads(win)[37]);
    proof {
        assert(views(r@) =~= window_features(win, Language::Korean));
    }
    match lang {
        Language::Japanese | Language::Chinese => {
            r.push(join2("WC1:", w3.as_str(), c4.as_str()));
            assert(r@[38]@ == prefixes()[38] + mixed_payloads(win)[0]);
            r.push(join2("WC2:", c3.as_str(), w4.as_str()));
            assert(r@[39]@ == prefixes()[39] + mixed_payloads(win)[1]);
            r.push(join2("WC3:", w3.as_str(), c3.as_str()));
            assert(r@[40]@ == prefixes()[40] + mixed_payloads(win)[2]);
            r.push(join2("WC4:", w4.as_str(), c4.as_str()));
            assert(r@[41]@ == prefixes()[41] + mixed_payloads(win)[3]);
            proof {
                assert(views(r@) =~= window_features(win, lang));
            }
        },
        Language::Korean => {
            assert(views(r@) =~= window_features(win, lang));
        },
    }
    proof {
        lemma_features_distinct(win, lang);
    }
    r
}

} // verus!
