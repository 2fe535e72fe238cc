//! The segmenter: character windows, the corpus walker and the
//! left-to-right inference loop.

use vstd::prelude::*;
use vstd::string::*;

use crate::features::{attribute_list, attributes, feature_count, views, window_at};
use crate::language::{regex_compiles, rule_table, type_code, CharTypePatterns, Language};
use crate::text::{char_to_string, chars_of, str_eq};

verus! {

/// The characters of a sentence as one-character strings, between the
/// begin pads `B3 B2 B1` and the end pads `E1 E2 E3`.
pub open spec fn padded_chars(letters: Seq<char>) -> Seq<Seq<char>> {
    seq!["B3"@, "B2"@, "B1"@] + letters.map_values(|c: char| seq![c]) + seq!["E1"@, "E2"@, "E3"@]
}

/// Each letter paired with whether a word starts at it, reading a
/// space-separated gold segmentation; spaces themselves are dropped.
pub open spec fn word_starts(s: Seq<char>) -> Seq<(char, bool)>
    decreases s.len(),
{
    if s.len() == 0 {
        seq![]
    } else {
        let p = s.drop_last();
        if s.last() == ' ' {
            word_starts(p)
        } else {
            word_starts(p).push((s.last(), p.len() == 0 || p.last() == ' '))
        }
    }
}

/// The gold tags of a walked corpus: three `U` pads, then `B` where a word
/// starts and `O` elsewhere, with the first letter's tag forced to `U`.
pub open spec fn gold_tags(marks: Seq<(char, bool)>) -> Seq<Seq<char>> {
    let t = seq!["U"@, "U"@, "U"@] + marks.map_values(
        |m: (char, bool)|
            if m.1 {
                "B"@
            } else {
                "O"@
            },
    );
    if marks.len() > 0 {
        t.update(3, "U"@)
    } else {
        t
    }
}

/// The label of a gold tag: `1` for a word start, `-1` otherwise.
pub open spec fn label_of(tag: Seq<char>) -> i8 {
    if tag == "B"@ {
        1
    } else {
        -1i8
    }
}

/// The tags known while segmenting after the decisions `d`: four `U` pads,
/// then `B` for a word start and `O` for a continuation.
pub open spec fn tags_after(d: Seq<bool>) -> Seq<Seq<char>> {
    seq!["U"@, "U"@, "U"@, "U"@] + d.map_values(
        |b: bool|
            if b {
                "B"@
            } else {
                "O"@
            },
    )
}

/// `b` is what `predict` answers on the features `attrs`: a new word
/// starts exactly when the answer is not negative.
pub open spec fn decided_by<F: Fn(&Vec<String>) -> i8>(
    predict: F,
    attrs: Seq<Seq<char>>,
    b: bool,
) -> bool {
    exists|v: Vec<String>, d: i8| views(v@) == attrs && call_ensures(predict, (&v,), d) && b == (d >= 0)
}

/// The views of labelled instances.
pub open spec fn instances_view(r: Seq<(Vec<String>, i8)>) -> Seq<(Seq<Seq<char>>, i8)> {
    r.map_values(|x: (Vec<String>, i8)| (views(x.0@), x.1))
}

/// The words of `s` when `d[k]` says whether a new word starts at `s[k + 1]`.
pub open spec fn tokens(s: Seq<char>, d: Seq<bool>) -> Seq<Seq<char>>
    decreases s.len(),
{
    if s.len() == 0 {
        seq![]
    } else if s.len() == 1 {
        seq![s]
    } else {
        let prev = tokens(s.drop_last(), d.drop_last());
        if d.last() {
            prev.push(seq![s.last()])
        } else {
            prev.update(prev.len() - 1, prev.last().push(s.last()))
        }
    }
}

proof fn lemma_tokens_nonempty(s: Seq<char>, d: Seq<bool>)
    requires
        s.len() > 0,
    ensures
        tokens(s, d).len() > 0,
    decreases s.len(),
{
    if s.len() > 1 {
        lemma_tokens_nonempty(s.drop_last(), d.drop_last());
    }
}

/// The features at position `i` read only the tags before `i`.
proof fn lemma_window_reads_prefix(
    i: int,
    t1: Seq<Seq<char>>,
    t2: Seq<Seq<char>>,
    chars: Seq<Seq<char>>,
    types: Seq<Seq<char>>,
    lang: Language,
)
    requires
        3 <= i <= t1.len(),
        i <= t2.len(),
        forall|j: int| 0 <= j < i ==> t1[j] == t2[j],
    ensures
        attribute_list(i, t1, chars, types, lang) == attribute_list(i, t2, chars, types, lang),
{
    assert(t1[i - 3] == t2[i - 3]);
    assert(t1[i - 2] == t2[i - 2]);
    assert(t1[i - 1] == t2[i - 1]);
    assert(window_at(i, t1, chars, types) == window_at(i, t2, chars, types));
}

/// A segmenter for one language.
pub struct Segmenter {
    language: Language,
    char_types: CharTypePatterns,
}

impl Segmenter {
    /// The language of the character-type rules.
    pub closed spec fn lang(&self) -> Language {
        self.language
    }

    /// The language of the character-type rules.
    pub fn language(&self) -> (r: Language)
        ensures
            r == self.lang(),
    {
        self.language
    }

    /// The rules are those of `language`.
    pub closed spec fn wf(&self) -> bool {
        &&& self.char_types.wf()
        &&& self.char_types.rules() == rule_table(self.lang())
        &&& self.char_types.compiled().len() == self.char_types.rules().len()
    }

    /// For each rule, whether its pattern compiled.
    pub closed spec fn compiled(&self) -> Seq<bool> {
        self.char_types.compiled()
    }

    /// The type code of `text` under this segmenter's rules.
    pub open spec fn type_of(&self, text: Seq<char>) -> Seq<char> {
        type_code(rule_table(self.lang()), self.compiled(), text)
    }

    /// The types of a sentence's letters between `O` pads.
    pub open spec fn padded_types(&self, letters: Seq<char>) -> Seq<Seq<char>> {
        seq!["O"@, "O"@, "O"@] + letters.map_values(|c: char| self.type_of(seq![c])) + seq![
            "O"@,
            "O"@,
            "O"@,
        ]
    }

    /// The labelled instances that a gold-segmented line yields: one per
    /// letter after the first, with the features of its position and `1`
    /// where a word starts there, `-1` otherwise.
    pub open spec fn corpus_instance_list(&self, corpus: Seq<char>) -> Seq<(Seq<Seq<char>>, i8)> {
        let marks = word_starts(corpus);
        let letters = marks.map_values(|m: (char, bool)| m.0);
        let tags = gold_tags(marks);
        let chars = padded_chars(letters);
        let types = self.padded_types(letters);
        Seq::new(
            if letters.len() > 0 {
                (letters.len() - 1) as nat
            } else {
                0
            },
            |k: int|
                (
                    attribute_list(k + 4, tags, chars, types, self.lang()),
                    label_of(tags[k + 4]),
                ),
        )
    }

    /// The decisions `d` are those that `predict` makes, in order, on the
    /// padded sentence `chars` / `types`, each seeing the tags of the ones before.
    pub open spec fn decisions_of<F: Fn(&Vec<String>) -> i8>(
        &self,
        predict: F,
        d: Seq<bool>,
        chars: Seq<Seq<char>>,
        types: Seq<Seq<char>>,
    ) -> bool {
        forall|k: int|
            0 <= k < d.len() ==> #[trigger] decided_by(
                predict,
                attribute_list(k + 4, tags_after(d), chars, types, self.lang()),
                d[k],
            )
    }

    /// A segmenter with the character-type rules of `language`.
    pub fn new(language: Language) -> (r: Segmenter)
        ensures
            r.wf(),
            r.lang() == language,
            r.compiled().len() == rule_table(language).len(),
            forall|k: int|
                0 <= k < rule_table(language).len() ==> #[trigger] r.compiled()[k] == regex_compiles(
                    rule_table(language)[k].0,
                ),
    {
        Segmenter { language, char_types: language.char_type_patterns() }
    }

    /// The type code of one character under this segmenter's rules.
    pub fn get_type(&self, ch: &str) -> (r: String)
        requires
            self.wf(),
        ensures
            r@ == self.type_of(ch@),
    {
        self.char_types.get_type(ch)
    }

    /// The features of position `i` in this segmenter's language.
    pub fn get_attributes(
        &self,
        i: usize,
        tags: &[String],
        chars: &[String],
        types: &[String],
    ) -> (r: Vec<String>)
        requires
            3 <= i,
            i <= tags@.len(),
            i + 2 < chars@.len(),
            i + 2 < types@.len(),
        ensures
            views(r@) == attribute_list(
                i as int,
                views(tags@),
                views(chars@),
                views(types@),
                self.lang(),
            ),
            r@.len() == feature_count(self.lang()),
            views(r@).no_duplicates(),
    {
        attributes(i, tags, chars, types, self.language)
    }

    /// The letters of a gold-segmented line and their gold tags.
    fn walk(&self, cs: &Vec<char>) -> (r: (Vec<char>, Vec<String>))
        ensures
            r.0@ == word_starts(cs@).map_values(|m: (char, bool)| m.0),
            views(r.1@) == gold_tags(word_starts(cs@)),
    {
        let mut letters: Vec<char> = Vec::new();
        let mut tags: Vec<String> = Vec::new();
        tags.push(String::from_str("U"));
        tags.push(String::from_str("U"));
        tags.push(String::from_str("U"));
        let mut prev_space = true;
        let mut j: usize = 0;
        assert(cs@.take(0) =~= Seq::<char>::empty());
        assert(views(tags@) =~= seq!["U"@, "U"@, "U"@] + word_starts(cs@.take(0)).map_values(
            |m: (char, bool)| if m.1 { "B"@ } else { "O"@ },
        ));
        while j < cs.len()
            invariant
                j <= cs.len(),
                prev_space == (j == 0 || cs@[j - 1] == ' '),
                letters@ == word_starts(cs@.take(j as int)).map_values(|m: (char, bool)| m.0),
                views(tags@) == seq!["U"@, "U"@, "U"@] + word_starts(cs@.take(j as int)).map_values(
                    |m: (char, bool)| if m.1 { "B"@ } else { "O"@ },
                ),
            decreases cs.len() - j,
        {
            let c = cs[j];
            let ghost before = cs@.take(j as int);
            assert(cs@.take(j + 1).drop_last() =~= before);
            assert(cs@.take(j + 1).last() == c);
            if c == ' ' {
                prev_space = true;
            } else {
                let ghost t0 = tags@;
                let t = if prev_space {
                    String::from_str("B")
                } else {
                    String::from_str("O")
                };
                let ghost tv = t@;
                letters.push(c);
                tags.push(t);
                proof {
                    assert(views(tags@) =~= views(t0).push(tv));
                    assert(letters@ =~= word_starts(cs@.take(j + 1)).map_values(
                        |m: (char, bool)| m.0,
                    ));
                    assert(views(tags@) =~= seq!["U"@, "U"@, "U"@] + word_starts(
                        cs@.take(j + 1),
                    ).map_values(|m: (char, bool)| if m.1 { "B"@ } else { "O"@ }));
                }
                prev_space = false;
            }
            j = j + 1;
        }
        assert(cs@.take(cs.len() as int) =~= cs@);
        if letters.len() > 0 {
            let ghost t0 = tags@;
            tags.set(3, String::from_str("U"));
            assert(views(tags@) =~= views(t0).update(3, "U"@));
        }
        (letters, tags)
    }

    /// Walks one gold-segmented line (words separated by spaces) and returns
    /// its labelled instances: for every letter after the first, the
    /// features of its position and `1` where a word starts there, `-1`
    /// otherwise. An empty line, or one of spaces, yields none.
    pub fn corpus_instances(&self, corpus: &str) -> (r: Vec<(Vec<String>, i8)>)
        requires
            self.wf(),
        ensures
            instances_view(r@) == self.corpus_instance_list(corpus@),
    {
        let cs = chars_of(corpus);
        let (letters, tags) = self.walk(&cs);
        let mut r: Vec<(Vec<String>, i8)> = Vec::new();
        if letters.len() == 0 {
            assert(instances_view(r@) =~= self.corpus_instance_list(corpus@));
            return r;
        }
        let (chars, types) = self.window(&letters);
        let ghost list = self.corpus_instance_list(corpus@);
        assert(views(chars@).len() == chars@.len());
        assert(views(types@).len() == types@.len());
        assert(views(tags@).len() == tags@.len());
        assert(padded_chars(letters@).len() == letters@.len() + 6);
        assert(self.padded_types(letters@).len() == letters@.len() + 6);
        let mut i: usize = 4;
        while i < chars.len() - 3
            invariant
                self.wf(),
                4 <= i <= chars.len() - 3,
                chars.len() == letters.len() + 6,
                types.len() == chars.len(),
                tags.len() == letters.len() + 3,
                letters.len() > 0,
                list == self.corpus_instance_list(corpus@),
                list.len() == letters.len() - 1,
                letters@ == word_starts(cs@).map_values(|m: (char, bool)| m.0),
                views(tags@) == gold_tags(word_starts(cs@)),
                views(chars@) == padded_chars(letters@),
                views(types@) == self.padded_types(letters@),
                cs@ == corpus@,
                r@.len() == i - 4,
                forall|k: int|
                    0 <= k < r@.len() ==> views(#[trigger] r@[k].0@) == list[k].0 && r@[k].1
                        == list[k].1,
            decreases chars.len() - 3 - i,
        {
            let attrs = attributes(i, tags.as_slice(), chars.as_slice(), types.as_slice(), self.language);
            let label: i8 = if str_eq(tags[i].as_str(), "B") {
                1
            } else {
                -1
            };
            r.push((attrs, label));
            i = i + 1;
        }
        assert(instances_view(r@) =~= list);
        r
    }

    /// Segments a sentence into words, left to right. At every letter after
    /// the first, `predict` is asked about the features of its position,
    /// which include the decisions already made; a new word starts there
    /// exactly when the answer is not negative. The words, in order, make up
    /// the sentence; an empty sentence has none.
    pub fn segment<F: Fn(&Vec<String>) -> i8>(&self, sentence: &str, predict: F) -> (r: Vec<String>)
        requires
            self.wf(),
            forall|v: &Vec<String>| #[trigger] predict.requires((v,)),
        ensures
            sentence@.len() == 0 ==> r@.len() == 0,
            sentence@.len() > 0 ==> exists|d: Seq<bool>|
                #![trigger tokens(sentence@, d)]
                d.len() == sentence@.len() - 1 && self.decisions_of(
                    predict,
                    d,
                    padded_chars(sentence@),
                    self.padded_types(sentence@),
                ) && views(r@) == tokens(sentence@, d),
    {
        let letters = chars_of(sentence);
        if letters.len() == 0 {
            return Vec::new();
        }
        let (chars, types) = self.window(&letters);
        assert(views(chars@).len() == chars@.len());
        assert(views(types@).len() == types@.len());
        assert(padded_chars(letters@).len() == letters@.len() + 6);
        assert(self.padded_types(letters@).len() == letters@.len() + 6);
        let mut tags: Vec<String> = Vec::new();
        tags.push(String::from_str("U"));
        tags.push(String::from_str("U"));
        tags.push(String::from_str("U"));
        tags.push(String::from_str("U"));
        let mut result: Vec<String> = Vec::new();
        let mut word: String = chars[3].clone();
        let ghost mut d: Seq<bool> = seq![];
        proof {
            assert(views(tags@) =~= tags_after(d));
            assert(views(chars@)[3] == seq![letters@[0]]);
            assert(letters@.take(1) =~= seq![letters@[0]]);
            assert(views(result@).push(word@) =~= tokens(letters@.take(1), d));
        }
        let mut i: usize = 4;
        while i < chars.len() - 3
            invariant
                self.wf(),
                forall|v: &Vec<String>| #[trigger] predict.requires((v,)),
                4 <= i <= chars.len() - 3,
                chars.len() == letters.len() + 6,
                types.len() == chars.len(),
                letters@ == sentence@,
                views(chars@) == padded_chars(letters@),
                views(types@) == self.padded_types(letters@),
                d.len() == i - 4,
                views(tags@) == tags_after(d),
                self.decisions_of(predict, d, views(chars@), views(types@)),
                views(result@).push(word@) == tokens(letters@.take(i - 3), d),
            decreases chars.len() - 3 - i,
        {
            assert(views(tags@).len() == tags@.len());
            let attrs = attributes(i, tags.as_slice(), chars.as_slice(), types.as_slice(), self.language);
            let label = predict(&attrs);
            let ghost b = label >= 0;
            let ghost d2 = d.push(b);
            let ghost t0 = tags@;
            let ghost r0 = result@;
            let ghost w0 = word@;
            proof {
                assert(views(attrs@) == attribute_list(
                    i as int,
                    tags_after(d),
                    views(chars@),
                    views(types@),
                    self.lang(),
                ) && call_ensures(predict, (&attrs,), label) && b == (label >= 0));
            }
            let t = if label >= 0 {
                String::from_str("B")
            } else {
                String::from_str("O")
            };
            let ghost tv = t@;
            tags.push(t);
            if label >= 0 {
                result.push(word);
                word = String::new();
            }
            let ghost w1 = word@;
            word.append(chars[i].as_str());
            proof {
                assert(views(tags@) =~= views(t0).push(tv));
                assert(views(tags@) =~= tags_after(d2));
                assert forall|k: int| 0 <= k < d2.len() implies #[trigger] decided_by(
                    predict,
                    attribute_list(k + 4, tags_after(d2), views(chars@), views(types@), self.lang()),
                    d2[k],
                ) by {
                    lemma_window_reads_prefix(
                        k + 4,
                        tags_after(d2),
                        tags_after(d),
                        views(chars@),
                        views(types@),
                        self.lang(),
                    );
                    if k < d.len() {
                        assert(d2[k] == d[k]);
                    } else {
                        assert(views(attrs@) == attribute_list(
                            k + 4,
                            tags_after(d),
                            views(chars@),
                            views(types@),
                            self.lang(),
                        ));
                    }
                }
                let s2 = letters@.take(i - 2);
                assert(s2.drop_last() =~= letters@.take(i - 3));
                assert(d2.drop_last() =~= d);
                assert(views(chars@)[i as int] == seq![letters@[i - 3]]);
                lemma_tokens_nonempty(letters@.take(i - 3), d);
                if b {
                    assert(views(result@) =~= views(r0).push(w0));
                    assert(views(result@).push(word@) =~= tokens(s2, d2));
                } else {
                    assert(s2.last() == letters@[i - 3]);
                    assert(word@ =~= w0.push(letters@[i - 3]));
                    assert(views(result@).push(word@) =~= tokens(s2, d2));
                }
                d = d2;
            }
            i = i + 1;
        }
        result.push(word);
        proof {
            assert(letters@.take(i - 3) =~= sentence@);
            assert(views(result@) == tokens(sentence@, d));
        }
        result
    }

    /// The padded characters and types of a sequence of letters.
    fn window(&self, letters: &Vec<char>) -> (r: (Vec<String>, Vec<String>))
        requires
            self.wf(),
        ensures
            views(r.0@) == padded_chars(letters@),
            views(r.1@) == self.padded_types(letters@),
    {
        let mut chars: Vec<String> = Vec::new();
        let mut types: Vec<String> = Vec::new();
        chars.push(String::from_str("B3"));
        chars.push(String::from_str("B2"));
        chars.push(String::from_str("B1"));
        types.push(String::from_str("O"));
        types.push(String::from_str("O"));
        types.push(String::from_str("O"));
        let mut j: usize = 0;
        while j < letters.len()
            invariant
                self.wf(),
                j <= letters.len(),
                views(chars@) == seq!["B3"@, "B2"@, "B1"@] + letters@.take(j as int).map_values(
                    |c: char| seq![c],
                ),
                views(types@) == seq!["O"@, "O"@, "O"@] + letters@.take(j as int).map_values(
                    |c: char| self.type_of(seq![c]),
                ),
            decreases letters.len() - j,
        {
            let s = char_to_string(letters[j]);
            let t = self.get_type(s.as_str());
            let ghost c0 = chars@;
            let ghost t0 = types@;
            let ghost sv = s@;
            let ghost tv = t@;
            chars.push(s);
            types.push(t);
            proof {
                assert(views(chars@) =~= views(c0).push(sv));
                assert(views(types@) =~= views(t0).push(tv));
                assert(letters@.take(j + 1) =~= letters@.take(j as int).push(letters@[j as int]));
                assert(views(chars@) =~= seq!["B3"@, "B2"@, "B1"@] + letters@.take(
                    j + 1,
                ).map_values(|c: char| seq![c]));
                assert(views(types@) =~= seq!["O"@, "O"@, "O"@] + letters@.take(j + 1).map_values(
                    |c: char| self.type_of(seq![c]),
                ));
            }
            j = j + 1;
        }
        chars.push(String::from_str("E1"));
        chars.push(String::from_str("E2"));
        chars.push(String::from_str("E3"));
        types.push(String::from_str("O"));
        types.push(String::from_str("O"));
        types.push(String::from_str("O"));
        proof {
            assert(letters@.take(letters.len() as int) =~= letters@);
            assert(views(chars@) =~= padded_chars(letters@));
            assert(views(types@) =~= self.padded_types(letters@));
        }
        (chars, types)
    }
}

} // verus!
