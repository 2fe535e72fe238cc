//! Languages and their character-type rules.



use regex::Regex;
use vstd::prelude::*;
use vstd::string::*;

use crate::text::str_eq;

verus! {

/// The languages the segmenter knows.
#[derive(Debug, Clone, Copy, PartialEq, Eq, Hash, Structural)]
pub enum Language {
    /// Japanese.
    Japanese,
    /// Chinese, simplified and traditional.
    Chinese,
    /// Korean.
    Korean,
}

impl Default for Language {
    fn default() -> (r: Self)
        ensures
            r == Language::Japanese,
    {
        Language::Japanese
    }
}

/// The lower-case name of a language.
pub open spec fn language_name(lang: Language) -> Seq<char> {
    match lang {
        Language::Japanese => "japanese"@,
        Language::Chinese => "chinese"@,
        Language::Korean => "korean"@,
    }
}

/// The language that a lower-cased name or code stands for.
pub open spec fn language_named(name: Seq<char>) -> Option<Language> {
    if name == "japanese"@ || name == "ja"@ {
        Some(Language::Japanese)
    } else if name == "chinese"@ || name == "zh"@ {
        Some(Language::Chinese)
    } else if name == "korean"@ || name == "ko"@ {
        Some(Language::Korean)
    } else {
        None
    }
}

/// What `str::to_lowercase` makes of a string.
pub uninterp spec fn lower_of(s: Seq<char>) -> Seq<char>;

/// Relies on `str::to_lowercase` from std: its result depends on the characters alone.
#[verifier::external_body]
fn lowercase(s: &str) -> (r: String)
    ensures
        r@ == lower_of(s@),
{
    s.to_lowercase()
}

impl Language {
    /// The lower-case name of the language (`"japanese"`, `"chinese"`, `"korean"`).
    pub fn to_string(&self) -> (r: String)
        ensures
            r@ == language_name(*self),
    {
        match self {
            Language::Japanese => String::from_str("japanese"),
            Language::Chinese => String::from_str("chinese"),
            Language::Korean => String::from_str("korean"),
        }
    }

    /// The language named by an already lower-cased name or code.
    pub fn from_lowercase(name: &str) -> (r: Option<Language>)
        ensures
            r == language_named(name@),
    {
        if str_eq(name, "japanese") || str_eq(name, "ja") {
            Some(Language::Japanese)
        } else if str_eq(name, "chinese") || str_eq(name, "zh") {
            Some(Language::Chinese)
        } else if str_eq(name, "korean") || str_eq(name, "ko") {
            Some(Language::Korean)
        } else {
            None
        }
    }

    /// Reads a language name or code in any letter case
    /// (`japanese`/`ja`, `chinese`/`zh`, `korean`/`ko`).
    pub fn parse(s: &str) -> (r: Result<Language, String>)
        ensures
            language_named(lower_of(s@)) matches Some(l) ==> r == Ok::<Language, String>(l),
            language_named(lower_of(s@)) is None ==> r is Err,
    {
        let lowered = lowercase(s);
        match Language::from_lowercase(lowered.as_str()) {
            Some(l) => Ok(l),
            None => {
                let mut msg = String::from_str("Unsupported language: '");
                msg.append(s);
                msg.append("'. Supported: japanese (ja), chinese (zh), korean (ko)");
                Err(msg)
            },
        }
    }

    /// The character-type rules of this language, in the order they are tried.
    pub fn char_type_patterns(&self) -> (r: CharTypePatterns)
        ensures
            r.wf(),
            r.rules() == rule_table(*self),
            r.compiled().len() == r.rules().len(),
            forall|k: int|
                0 <= k < r.rules().len() ==> #[trigger] r.compiled()[k] == regex_compiles(
                    rule_table(*self)[k].0,
                ),
    {
        let mut rules: Vec<TypeRule> = Vec::new();
        match self {
            Language::Japanese => {
                rules.push(TypeRule::new("[一二三四五六七八九十百千万億兆]", "M"));
                rules.push(TypeRule::new("[一-龠々〆ヵヶ]", "H"));
                rules.push(TypeRule::new("[ぁ-ん]", "I"));
                rules.push(TypeRule::new("[ァ-ヴーｱ-ﾝﾞﾟ]", "K"));
                rules.push(TypeRule::new("[a-zA-Zａ-ｚＡ-Ｚ]", "A"));
                rules.push(TypeRule::new("[0-9０-９]", "N"));
            },
            Language::Chinese => {
                rules.push(TypeRule::new("[\\u{4E00}-\\u{9FFF}]", "C"));
                rules.push(TypeRule::new("[\\u{3400}-\\u{4DBF}]", "X"));
                rules.push(TypeRule::new("[\\u{2E80}-\\u{2FDF}]", "R"));
                rules.push(
                    TypeRule::new(
                        "[\\u{3000}-\\u{303F}\\u{FF01}-\\u{FF0F}\\u{FF1A}-\\u{FF20}\\u{FF3B}-\\u{FF40}\\u{FF5B}-\\u{FF65}]",
                        "P",
                    ),
                );
                rules.push(TypeRule::new("[\\u{3100}-\\u{312F}\\u{31A0}-\\u{31BF}]", "B"));
                rules.push(TypeRule::new("[a-zA-Zａ-ｚＡ-Ｚ]", "A"));
                rules.push(TypeRule::new("[0-9０-９]", "N"));
            },
            Language::Korean => {
                rules.push(TypeRule::new("[\\u{AC00}-\\u{D7AF}]", "S"));
                rules.push(TypeRule::new("[\\u{1100}-\\u{11FF}]", "J"));
                rules.push(TypeRule::new("[\\u{3130}-\\u{318F}]", "G"));
                rules.push(TypeRule::new("[\\u{4E00}-\\u{9FFF}]", "H"));
                rules.push(
                    TypeRule::new("[\\u{3000}-\\u{303F}\\u{FF01}-\\u{FF0F}\\u{FF1A}-\\u{FF20}]", "P"),
                );
                rules.push(TypeRule::new("[a-zA-Zａ-ｚＡ-Ｚ]", "A"));
                rules.push(TypeRule::new("[0-9０-９]", "N"));
            },
        }
        let r = CharTypePatterns::new(rules);
        assert(r.rules() =~= rule_table(*self));
        assert forall|k: int| 0 <= k < r.rules().len() implies #[trigger] r.compiled()[k]
            == regex_compiles(rule_table(*self)[k].0) by {
            assert(r.compiled()[k] == rules@[k].compiled());
            assert(r.rules()[k] == (rules@[k].source(), rules@[k].code()));
        }
        r
    }
}

impl std::str::FromStr for Language {
    type Err = String;

    fn from_str(s: &str) -> Result<Self, Self::Err> {
        Language::parse(s)
    }
}

/// The rules of each language as (pattern, type code) pairs, first match wins.
pub open spec fn rule_table(lang: Language) -> Seq<(Seq<char>, Seq<char>)> {
    match lang {
        Language::Japanese => seq![
            ("[一二三四五六七八九十百千万億兆]"@, "M"@),
            ("[一-龠々〆ヵヶ]"@, "H"@),
            ("[ぁ-ん]"@, "I"@),
            ("[ァ-ヴーｱ-ﾝﾞﾟ]"@, "K"@),
            ("[a-zA-Zａ-ｚＡ-Ｚ]"@, "A"@),
            ("[0-9０-９]"@, "N"@),
        ],
        Language::Chinese => seq![
            ("[\\u{4E00}-\\u{9FFF}]"@, "C"@),
            ("[\\u{3400}-\\u{4DBF}]"@, "X"@),
            ("[\\u{2E80}-\\u{2FDF}]"@, "R"@),
            ("[\\u{3000}-\\u{303F}\\u{FF01}-\\u{FF0F}\\u{FF1A}-\\u{FF20}\\u{FF3B}-\\u{FF40}\\u{FF5B}-\\u{FF65}]"@, "P"@),
            ("[\\u{3100}-\\u{312F}\\u{31A0}-\\u{31BF}]"@, "B"@),
            ("[a-zA-Zａ-ｚＡ-Ｚ]"@, "A"@),
            ("[0-9０-９]"@, "N"@),
        ],
        Language::Korean => seq![
            ("[\\u{AC00}-\\u{D7AF}]"@, "S"@),
            ("[\\u{1100}-\\u{11FF}]"@, "J"@),
            ("[\\u{3130}-\\u{318F}]"@, "G"@),
            ("[\\u{4E00}-\\u{9FFF}]"@, "H"@),
            ("[\\u{3000}-\\u{303F}\\u{FF01}-\\u{FF0F}\\u{FF1A}-\\u{FF20}]"@, "P"@),
            ("[a-zA-Zａ-ｚＡ-Ｚ]"@, "A"@),
            ("[0-9０-９]"@, "N"@),
        ],
    }
}

/// Relies on `regex::Regex`, declared so that a compiled expression can be
/// kept; nothing inside it is read.
#[verifier::external_type_specification]
#[verifier::external_body]
pub struct ExRegex(regex::Regex);

/// Whether the regular expression `pattern` finds a match in `text`.
pub uninterp spec fn regex_is_match(pattern: Seq<char>, text: Seq<char>) -> bool;

/// Whether `regex::Regex::new` accepts the pattern.
pub uninterp spec fn regex_compiles(pattern: Seq<char>) -> bool;

/// Relies on `regex::Regex::new`: compiles a pattern, `None` where it is not
/// valid; which of the two depends on the pattern alone.
#[verifier::external_body]
fn compile_regex(pattern: &str) -> (r: Option<Regex>)
    ensures
        r is Some <==> regex_compiles(pattern@),
{
    Regex::new(pattern).ok()
}

/// A regular expression kept with the text it was compiled from.
pub struct CompiledPattern {
    regex: Regex,
    source: String,
}

impl CompiledPattern {
    /// The text the expression was compiled from.
    pub closed spec fn view(&self) -> Seq<char> {
        self.source@
    }

    /// Compiles `pattern`; `None` where it is not a valid expression.
    pub fn compile(pattern: &str) -> (r: Option<CompiledPattern>)
        ensures
            r is Some <==> regex_compiles(pattern@),
            r matches Some(c) ==> c@ == pattern@,
    {
        match compile_regex(pattern) {
            Some(regex) => Some(CompiledPattern { regex, source: String::from_str(pattern) }),
            None => None,
        }
    }

    /// Relies on `regex::Regex::is_match`. The one constructor, `compile`,
    /// keeps `regex` the compilation of `source`.
    #[verifier::external_body]
    fn is_match(&self, text: &str) -> (r: bool)
        ensures
            r == regex_is_match(self@, text@),
    {
        self.regex.is_match(text)
    }
}

/// One character-type rule: a pattern and the code of the characters it matches.
pub struct TypeRule {
    source: String,
    compiled: Option<CompiledPattern>,
    code: String,
}

impl TypeRule {
    /// The rule is its pattern text with its pattern compiled from it.
    pub closed spec fn wf(&self) -> bool {
        self.compiled matches Some(c) ==> c@ == self.source@
    }

    /// The pattern text.
    pub closed spec fn source(&self) -> Seq<char> {
        self.source@
    }

    /// The type code.
    pub closed spec fn code(&self) -> Seq<char> {
        self.code@
    }

    /// Whether the pattern compiled; a rule whose pattern did not never matches.
    pub closed spec fn compiled(&self) -> bool {
        self.compiled is Some
    }

    /// A rule from its pattern and code.
    pub fn new(pattern: &str, code: &str) -> (r: TypeRule)
        ensures
            r.wf(),
            r.source() == pattern@,
            r.code() == code@,
            r.compiled() == regex_compiles(pattern@),
    {
        TypeRule {
            source: String::from_str(pattern),
            compiled: CompiledPattern::compile(pattern),
            code: String::from_str(code),
        }
    }

    /// Whether the rule applies to `text`.
    pub fn applies(&self, text: &str) -> (r: bool)
        requires
            self.wf(),
        ensures
            r == (self.compiled() && regex_is_match(self.source(), text@)),
    {
        match &self.compiled {
            Some(c) => c.is_match(text),
            None => false,
        }
    }
}

/// The code of the first rule that applies, `"O"` where none does.
pub open spec fn first_hit_code(hits: Seq<bool>, codes: Seq<Seq<char>>) -> Seq<char>
    decreases hits.len(),
{
    if hits.len() == 0 || codes.len() == 0 {
        "O"@
    } else if hits[0] {
        codes[0]
    } else {
        first_hit_code(hits.drop_first(), codes.drop_first())
    }
}

/// The type code of `text` under a list of rules.
pub open spec fn type_code(
    rules: Seq<(Seq<char>, Seq<char>)>,
    compiled: Seq<bool>,
    text: Seq<char>,
) -> Seq<char> {
    first_hit_code(
        Seq::new(rules.len(), |k: int| compiled[k] && regex_is_match(rules[k].0, text)),
        rules.map_values(|r: (Seq<char>, Seq<char>)| r.1),
    )
}

proof fn lemma_first_hit_prefix(h: Seq<bool>, p: Seq<bool>, c: Seq<Seq<char>>)
    requires
        p.len() <= h.len() <= c.len(),
        forall|j: int| 0 <= j < p.len() ==> p[j] == h[j],
        p.len() == h.len() || (p.len() > 0 && p.last()),
    ensures
        first_hit_code(p, c) == first_hit_code(h, c),
    decreases p.len(),
{
    if p.len() > 0 && h.len() > 0 && !p[0] {
        lemma_first_hit_prefix(h.drop_first(), p.drop_first(), c.drop_first());
    } else if p.len() == 0 {
        assert(h.len() == 0);
    }
}

/// The character-type rules of one language, tried in order.
pub struct CharTypePatterns {
    patterns: Vec<TypeRule>,
}

impl CharTypePatterns {
    /// Every rule is well formed.
    pub closed spec fn wf(&self) -> bool {
        forall|k: int| 0 <= k < self.patterns@.len() ==> #[trigger] self.patterns@[k].wf()
    }

    /// The rules as (pattern, code) pairs.
    pub closed spec fn rules(&self) -> Seq<(Seq<char>, Seq<char>)> {
        self.patterns@.map_values(|r: TypeRule| (r.source(), r.code()))
    }

    /// For each rule, whether its pattern compiled.
    pub closed spec fn compiled(&self) -> Seq<bool> {
        self.patterns@.map_values(|r: TypeRule| r.compiled())
    }

    /// Rules tried in the order given.
    pub fn new(patterns: Vec<TypeRule>) -> (r: CharTypePatterns)
        requires
            forall|k: int| 0 <= k < patterns@.len() ==> #[trigger] patterns@[k].wf(),
        ensures
            r.wf(),
            r.rules() == patterns@.map_values(|t: TypeRule| (t.source(), t.code())),
            r.compiled() == patterns@.map_values(|t: TypeRule| t.compiled()),
    {
        CharTypePatterns { patterns }
    }

    /// The codes of the rules, in order.
    pub open spec fn codes(&self) -> Seq<Seq<char>> {
        self.rules().map_values(|r: (Seq<char>, Seq<char>)| r.1)
    }

    /// The type code chosen for a character, given for the first rules
    /// whether each applies: the code of the first that applies, `"O"`
    /// where none of them does.
    pub fn select_code(&self, hits: &Vec<bool>) -> (r: String)
        requires
            hits@.len() <= self.rules().len(),
        ensures
            r@ == first_hit_code(hits@, self.codes()),
    {
        let mut k: usize = 0;
        assert(hits@.subrange(0, hits.len() as int) =~= hits@);
        assert(self.codes().subrange(0, self.codes().len() as int) =~= self.codes());
        while k < hits.len()
            invariant
                k <= hits.len() <= self.patterns@.len(),
                self.codes().len() == self.patterns@.len(),
                first_hit_code(hits@, self.codes()) == first_hit_code(
                    hits@.subrange(k as int, hits.len() as int),
                    self.codes().subrange(k as int, self.codes().len() as int),
                ),
            decreases hits.len() - k,
        {
            let ghost hs = hits@.subrange(k as int, hits.len() as int);
            let ghost cs = self.codes().subrange(k as int, self.codes().len() as int);
            assert(hs.drop_first() =~= hits@.subrange(k + 1, hits.len() as int));
            assert(cs.drop_first() =~= self.codes().subrange(k + 1, self.codes().len() as int));
            if hits[k] {
                assert(cs[0] == self.patterns@[k as int].code());
                return self.patterns[k].code.clone();
            }
            k = k + 1;
        }
        String::from_str("O")
    }

    /// The type code of one character: the code of the first rule whose
    /// pattern matches, `"O"` where none does. No rule after the first
    /// match is tried.
    pub fn get_type(&self, ch: &str) -> (r: String)
        requires
            self.wf(),
        ensures
            r@ == type_code(self.rules(), self.compiled(), ch@),
    {
        let ghost full = Seq::new(
            self.rules().len(),
            |j: int| self.compiled()[j] && regex_is_match(self.rules()[j].0, ch@),
        );
        let mut hits: Vec<bool> = Vec::new();
        let mut k: usize = 0;
        let mut found = false;
        while k < self.patterns.len() && !found
            invariant
                self.wf(),
                k <= self.patterns.len(),
                hits.len() == k,
                found ==> k > 0 && hits@[k - 1],
                full.len() == self.patterns@.len(),
                full == Seq::new(
                    self.rules().len(),
                    |j: int| self.compiled()[j] && regex_is_match(self.rules()[j].0, ch@),
                ),
                forall|j: int| 0 <= j < k ==> hits@[j] == full[j],
            decreases self.patterns.len() - k,
        {
            let rule = &self.patterns[k];
            assert(rule.wf());
            let hit = rule.applies(ch);
            assert(self.rules()[k as int].0 == rule.source());
            assert(self.compiled()[k as int] == rule.compiled());
            hits.push(hit);
            found = hit;
            k = k + 1;
        }
        proof {
            lemma_first_hit_prefix(full, hits@, self.codes());
        }
        self.select_code(&hits)
    }
}

} // verus!
