//! The line-oriented text of feature files and model files.

use vstd::prelude::*;
use vstd::string::*;

use crate::features::views;
use crate::vocab::{position_in, seq_le, sort_strings, strictly_sorted, vocabulary, FeatureIndex};
use crate::text::{chars_of, string_of};

verus! {

/// Unicode white space, the separators between the fields of a line.
pub open spec fn is_white_space(c: char) -> bool {
    c == '\t' || c == '\n' || c == '\u{0B}' || c == '\u{0C}' || c == '\r' || c == ' ' || c
        == '\u{85}' || c == '\u{A0}' || c == '\u{1680}' || ('\u{2000}' <= c && c <= '\u{200A}')
        || c == '\u{2028}' || c == '\u{2029}' || c == '\u{202F}' || c == '\u{205F}' || c
        == '\u{3000}'
}

/// Whether `c` is Unicode white space.
pub fn white_space(c: char) -> (r: bool)
    ensures
        r == is_white_space(c),
{
    c == '\t' || c == '\n' || c == '\u{0B}' || c == '\u{0C}' || c == '\r' || c == ' ' || c
        == '\u{85}' || c == '\u{A0}' || c == '\u{1680}' || ('\u{2000}' <= c && c <= '\u{200A}')
        || c == '\u{2028}' || c == '\u{2029}' || c == '\u{202F}' || c == '\u{205F}' || c
        == '\u{3000}'
}

/// The maximal runs of non-white-space characters of `s`, in order.
pub open spec fn fields(s: Seq<char>) -> Seq<Seq<char>>
    decreases s.len(),
{
    if s.len() == 0 {
        seq![]
    } else {
        let p = fields(s.drop_last());
        let c = s.last();
        if is_white_space(c) {
            p
        } else if s.len() == 1 || is_white_space(s[s.len() - 2]) {
            p.push(seq![c])
        } else {
            p.update(p.len() - 1, p.last().push(c))
        }
    }
}

/// The pieces of `s` between line feeds; one more than there are line feeds.
pub open spec fn segments(s: Seq<char>) -> Seq<Seq<char>>
    decreases s.len(),
{
    if s.len() == 0 {
        seq![seq![]]
    } else {
        let p = segments(s.drop_last());
        if s.last() == '\n' {
            p.push(seq![])
        } else {
            p.update(p.len() - 1, p.last().push(s.last()))
        }
    }
}

/// A line without the carriage return that ended it.
pub open spec fn strip_cr(l: Seq<char>) -> Seq<char> {
    if l.len() > 0 && l.last() == '\r' {
        l.drop_last()
    } else {
        l
    }
}

/// The lines of a text: split at each line feed, a carriage return before
/// the line feed dropped, and no last line after a final line feed.
pub open spec fn lines_of(s: Seq<char>) -> Seq<Seq<char>> {
    let segs = segments(s);
    let n = segs.len();
    Seq::new(
        if segs.last().len() == 0 {
            (n - 1) as nat
        } else {
            n
        },
        |k: int|
            if k < n - 1 {
                strip_cr(segs[k])
            } else {
                segs[k]
            },
    )
}

/// The lines of a text (see `lines_of`).
pub fn split_lines(text: &str) -> (r: Vec<String>)
    ensures
        views(r@) == lines_of(text@),
{
    let cs = chars_of(text);
    let mut out: Vec<String> = Vec::new();
    let mut st: usize = 0;
    let mut j: usize = 0;
    proof {
        assert(cs@.take(0) =~= Seq::<char>::empty());
        assert(cs@.subrange(0, 0) =~= Seq::<char>::empty());
    }
    while j < cs.len()
        invariant
            st <= j <= cs.len(),
            segments(cs@.take(j as int)).len() >= 1,
            segments(cs@.take(j as int)).last() == cs@.subrange(st as int, j as int),
            views(out@) == segments(cs@.take(j as int)).drop_last().map_values(
                |l: Seq<char>| strip_cr(l),
            ),
        decreases cs.len() - j,
    {
        let ghost pre = cs@.take(j as int);
        let ghost segs = segments(pre);
        assert(cs@.take(j + 1).drop_last() =~= pre);
        if cs[j] == '\n' {
            let end = if j > st && cs[j - 1] == '\r' {
                j - 1
            } else {
                j
            };
            let line = string_of(&cs, st, end);
            let ghost o0 = out@;
            out.push(line);
            proof {
                assert(strip_cr(cs@.subrange(st as int, j as int)) =~= cs@.subrange(
                    st as int,
                    end as int,
                ));
                assert(views(out@) =~= views(o0).push(line@));
                let segs2 = segments(cs@.take(j + 1));
                assert(segs2 == segs.push(seq![]));
                assert(segs2.drop_last() =~= segs);
                assert(segs =~= segs.drop_last().push(segs.last()));
                assert(views(out@) =~= segs2.drop_last().map_values(|l: Seq<char>| strip_cr(l)));
                assert(cs@.subrange(j + 1, j + 1) =~= Seq::<char>::empty());
            }
            st = j + 1;
        } else {
            proof {
                let segs2 = segments(cs@.take(j + 1));
                assert(segs2.drop_last() =~= segs.drop_last());
                assert(cs@.subrange(st as int, j + 1) =~= cs@.subrange(st as int, j as int).push(
                    cs@[j as int],
                ));
            }
        }
        j = j + 1;
    }
    let ghost segs = segments(cs@.take(j as int));
    assert(cs@.take(j as int) =~= text@);
    if st < j {
        let line = string_of(&cs, st, j);
        let ghost o0 = out@;
        out.push(line);
        assert(views(out@) =~= views(o0).push(line@));
        assert(views(out@) =~= lines_of(text@));
    } else {
        assert(views(out@) =~= lines_of(text@));
    }
    out
}

/// The fields of a line (see `fields`).
pub fn split_fields(line: &str) -> (r: Vec<String>)
    ensures
        views(r@) == fields(line@),
{
    let cs = chars_of(line);
    let mut out: Vec<String> = Vec::new();
    let mut st: usize = 0;
    let mut j: usize = 0;
    assert(cs@.take(0) =~= Seq::<char>::empty());
    while j < cs.len()
        invariant
            st <= j <= cs.len(),
            (j > 0 && !is_white_space(cs@[j - 1])) ==> st < j && views(out@).push(
                cs@.subrange(st as int, j as int),
            ) == fields(cs@.take(j as int)),
            !(j > 0 && !is_white_space(cs@[j - 1])) ==> views(out@) == fields(cs@.take(j as int)),
        decreases cs.len() - j,
    {
        let ghost pre = cs@.take(j as int);
        assert(cs@.take(j + 1).drop_last() =~= pre);
        let in_field = j > 0 && !white_space(cs[j - 1]);
        if white_space(cs[j]) {
            if in_field {
                let f = string_of(&cs, st, j);
                let ghost o0 = out@;
                out.push(f);
                assert(views(out@) =~= views(o0).push(f@));
            }
        } else {
            if !in_field {
                st = j;
                assert(cs@.subrange(st as int, j + 1) =~= seq![cs@[j as int]]);
                assert(cs@.take(j + 1).len() == 1 || cs@.take(j + 1)[j - 1] == cs@[j - 1]);
            } else {
                assert(cs@.subrange(st as int, j + 1) =~= cs@.subrange(st as int, j as int).push(
                    cs@[j as int],
                ));
                assert(cs@.take(j + 1)[j - 1] == cs@[j - 1]);
            }
        }
        j = j + 1;
    }
    assert(cs@.take(j as int) =~= line@);
    if j > 0 && !white_space(cs[j - 1]) {
        let f = string_of(&cs, st, j);
        let ghost o0 = out@;
        out.push(f);
        assert(views(out@) =~= views(o0).push(f@));
    }
    out
}

/// Whether `c` is an ASCII decimal digit.
pub open spec fn is_digit(c: char) -> bool {
    '0' <= c && c <= '9'
}

/// The value of a string of decimal digits.
pub open spec fn decimal(ds: Seq<char>) -> int
    decreases ds.len(),
{
    if ds.len() == 0 {
        0
    } else {
        decimal(ds.drop_last()) * 10 + (ds.last() as int - '0' as int)
    }
}

/// Whether every character of `ds` is a decimal digit.
pub open spec fn all_digits(ds: Seq<char>) -> bool {
    forall|k: int| 0 <= k < ds.len() ==> is_digit(#[trigger] ds[k])
}

/// A number's text without its sign.
pub open spec fn unsigned_part(s: Seq<char>) -> Seq<char> {
    if s.len() > 0 && (s[0] == '-' || s[0] == '+') {
        s.drop_first()
    } else {
        s
    }
}

/// The `i8` that a text spells: an optional `+` or `-`, then one or more
/// decimal digits, with a value from -128 to 127.
pub open spec fn i8_of(s: Seq<char>) -> Option<i8> {
    let ds = unsigned_part(s);
    let v = if s.len() > 0 && s[0] == '-' {
        -decimal(ds)
    } else {
        decimal(ds)
    };
    if ds.len() == 0 || !all_digits(ds) {
        None
    } else if -128 <= v && v <= 127 {
        Some(v as i8)
    } else {
        None
    }
}

proof fn lemma_decimal_nonneg(ds: Seq<char>)
    requires
        forall|k: int| 0 <= k < ds.len() ==> is_digit(#[trigger] ds[k]),
    ensures
        decimal(ds) >= 0,
    decreases ds.len(),
{
    if ds.len() > 0 {
        lemma_decimal_nonneg(ds.drop_last());
    }
}

/// Reads an `i8` written in decimal (see `i8_of`).
pub fn parse_i8(s: &str) -> (r: Option<i8>)
    ensures
        r == i8_of(s@),
{
    let cs = chars_of(s);
    let signed = cs.len() > 0 && (cs[0] == '-' || cs[0] == '+');
    let neg = cs.len() > 0 && cs[0] == '-';
    let start: usize = if signed {
        1
    } else {
        0
    };
    let ghost ds = if signed {
        s@.drop_first()
    } else {
        s@
    };
    assert(ds =~= cs@.subrange(start as int, cs.len() as int));
    assert(ds == unsigned_part(s@));
    if start == cs.len() {
        return None;
    }
    let mut acc: u32 = 0;
    let mut big = false;
    let mut j: usize = start;
    while j < cs.len()
        invariant
            start <= j <= cs.len(),
            ds == cs@.subrange(start as int, cs.len() as int),
            ds == unsigned_part(s@),
            cs@ == s@,
            neg == (s@.len() > 0 && s@[0] == '-'),
            forall|k: int| start <= k < j ==> is_digit(#[trigger] cs@[k]),
            big ==> decimal(cs@.subrange(start as int, j as int)) > 128,
            !big ==> acc == decimal(cs@.subrange(start as int, j as int)) && acc <= 128,
        decreases cs.len() - j,
    {
        let c = cs[j];
        if !('0' <= c && c <= '9') {
            assert(!is_digit(ds[j - start]));
            assert(!all_digits(ds));
            assert(ds == unsigned_part(s@));
            return None;
        }
        let ghost pre = cs@.subrange(start as int, j as int);
        let ghost next = cs@.subrange(start as int, j + 1);
        assert(next.drop_last() =~= pre);
        assert(forall|k: int| 0 <= k < pre.len() ==> is_digit(#[trigger] pre[k]));
        proof {
            lemma_decimal_nonneg(pre);
        }
        let d = (c as u32) - ('0' as u32);
        if !big {
            let v = acc * 10 + d;
            if v > 128 {
                big = true;
            } else {
                acc = v;
            }
        }
        j = j + 1;
    }
    assert(cs@.subrange(start as int, j as int) =~= ds);
    assert(ds == unsigned_part(s@));
    assert(all_digits(ds)) by {
        assert forall|k: int| 0 <= k < ds.len() implies is_digit(#[trigger] ds[k]) by {
            assert(ds[k] == cs@[start + k]);
        }
    }
    if big {
        None
    } else if neg {
        Some((0 - (acc as i32)) as i8)
    } else if acc <= 127 {
        Some(acc as i8)
    } else {
        None
    }
}

/// One line of a model file.
#[derive(Debug, PartialEq, Eq)]
pub enum ModelEntry {
    /// A feature and the text of its weight.
    Weight(String, String),
    /// The text of the bias, on a line of its own.
    Bias(String),
}

/// The view of a model line: its first field and, where there is one, its second.
pub open spec fn entry_view(e: ModelEntry) -> (Seq<char>, Option<Seq<char>>) {
    match e {
        ModelEntry::Weight(f, w) => (f@, Some(w@)),
        ModelEntry::Bias(b) => (b@, None),
    }
}

/// What a model-file line says: its first field, with its second where
/// there is one; `None` for a line without fields. Fields after the
/// second are ignored.
pub open spec fn model_line(l: Seq<char>) -> Option<(Seq<char>, Option<Seq<char>>)> {
    let f = fields(l);
    if f.len() == 0 {
        None
    } else if f.len() == 1 {
        Some((f[0], None))
    } else {
        Some((f[0], Some(f[1])))
    }
}

/// Why the text of a model file was refused. Line numbers count from 1.
#[derive(Debug, PartialEq, Eq)]
pub enum ModelTextError {
    /// The line has no fields.
    EmptyLine(usize),
    /// A line holding a number alone comes before the last line.
    MisplacedBias(usize),
    /// The last line is not a bias line, or there is no line at all.
    MissingBias,
}

/// Line `k` of a model file is in order: a weight line, or the bias line
/// as the last line.
pub open spec fn line_in_order(ls: Seq<Seq<char>>, k: int) -> bool {
    fields(ls[k]).len() >= 2 || (fields(ls[k]).len() == 1 && k == ls.len() - 1)
}

/// Reads the lines of a model file: `feature<TAB>weight` lines, then the
/// bias alone on the last line. The first line out of order is refused: a
/// line without fields, or a lone number before the last line; a file whose
/// last line is not a lone number, or that has no line, lacks its bias.
/// The numbers themselves are read by the caller.
pub fn parse_model_lines(content: &str) -> (r: Result<Vec<ModelEntry>, ModelTextError>)
    ensures
        match r {
            Ok(es) => {
                &&& lines_of(content@).len() > 0
                &&& fields(lines_of(content@).last()).len() == 1
                &&& forall|k: int|
                    0 <= k < lines_of(content@).len() ==> #[trigger] line_in_order(
                        lines_of(content@),
                        k,
                    )
                &&& es@.len() == lines_of(content@).len()
                &&& forall|k: int|
                    0 <= k < es@.len() ==> Some(entry_view(#[trigger] es@[k])) == model_line(
                        lines_of(content@)[k],
                    )
            },
            Err(ModelTextError::EmptyLine(n)) => {
                &&& 1 <= n <= lines_of(content@).len()
                &&& fields(lines_of(content@)[n - 1]).len() == 0
                &&& forall|k: int| 0 <= k < n - 1 ==> #[trigger] line_in_order(lines_of(content@), k)
            },
            Err(ModelTextError::MisplacedBias(n)) => {
                &&& 1 <= n < lines_of(content@).len()
                &&& fields(lines_of(content@)[n - 1]).len() == 1
                &&& forall|k: int| 0 <= k < n - 1 ==> #[trigger] line_in_order(lines_of(content@), k)
            },
            Err(ModelTextError::MissingBias) => {
                forall|k: int|
                    0 <= k < lines_of(content@).len() ==> fields(
                        #[trigger] lines_of(content@)[k],
                    ).len() >= 2
            },
        },
{
    let lines = split_lines(content);
    let ghost ls = lines_of(content@);
    let mut es: Vec<ModelEntry> = Vec::new();
    let mut k: usize = 0;
    assert(views(lines@).len() == lines@.len());
    while k < lines.len()
        invariant
            views(lines@) == ls,
            lines@.len() == ls.len(),
            ls == lines_of(content@),
            k <= lines.len(),
            es@.len() == k,
            forall|j: int| 0 <= j < k ==> #[trigger] line_in_order(ls, j),
            forall|j: int| 0 <= j < k ==> fields(#[trigger] ls[j]).len() >= 2 || j == ls.len() - 1,
            forall|j: int| 0 <= j < k ==> Some(entry_view(#[trigger] es@[j])) == model_line(ls[j]),
        decreases lines.len() - k,
    {
        let fs = split_fields(lines[k].as_str());
        assert(views(lines@)[k as int] == lines@[k as int]@);
        assert(views(fs@).len() == fs@.len());
        if fs.len() == 0 {
            return Err(ModelTextError::EmptyLine(k + 1));
        }
        assert(views(fs@)[0] == fs@[0]@);
        let e = if fs.len() == 1 {
            if k + 1 < lines.len() {
                return Err(ModelTextError::MisplacedBias(k + 1));
            }
            ModelEntry::Bias(fs[0].clone())
        } else {
            assert(views(fs@)[1] == fs@[1]@);
            ModelEntry::Weight(fs[0].clone(), fs[1].clone())
        };
        es.push(e);
        assert(line_in_order(ls, k as int));
        k = k + 1;
    }
    if k == 0 {
        return Err(ModelTextError::MissingBias);
    }
    match &es[k - 1] {
        ModelEntry::Bias(_) => {
            assert(fields(ls.last()).len() == 1) by {
                assert(ls.last() == ls[k - 1]);
            }
            Ok(es)
        },
        ModelEntry::Weight(_, _) => {
            assert forall|j: int| 0 <= j < ls.len() implies fields(#[trigger] ls[j]).len() >= 2 by {
                if j == k - 1 {
                    assert(Some(entry_view(es@[j])) == model_line(ls[j]));
                }
            }
            Err(ModelTextError::MissingBias)
        },
    }
}

/// Why a line of a feature file was refused.
#[derive(Debug, PartialEq, Eq)]
pub enum LineError {
    /// The line has no fields, so no label.
    MissingLabel,
    /// The first field is not an `i8`; the field is kept.
    InvalidLabel(String),
}

/// Reads one line of a feature file: a label, then the names of the
/// features the instance has.
pub fn parse_instance_line(line: &str) -> (r: Result<(i8, Vec<String>), LineError>)
    ensures
        fields(line@).len() == 0 ==> r == Err::<(i8, Vec<String>), LineError>(
            LineError::MissingLabel,
        ),
        fields(line@).len() > 0 ==> match i8_of(fields(line@)[0]) {
            None => r matches Err(LineError::InvalidLabel(f)) && f@ == fields(line@)[0],
            Some(l) => r matches Ok((l2, fs)) && l2 == l && views(fs@) == fields(line@).drop_first(),
        },
{
    let mut fs = split_fields(line);
    assert(views(fs@).len() == fs@.len());
    if fs.len() == 0 {
        return Err(LineError::MissingLabel);
    }
    let ghost v0 = views(fs@);
    let first = fs.remove(0);
    assert(first@ == v0[0]);
    assert(views(fs@) =~= v0.drop_first());
    match parse_i8(first.as_str()) {
        Some(l) => Ok((l, fs)),
        None => Err(LineError::InvalidLabel(first)),
    }
}

/// The first pass over the lines of a feature file: how many lines carry a
/// label, and the feature names after the labels, in order. Lines without
/// fields are skipped.
pub open spec fn scan(ls: Seq<Seq<char>>) -> (nat, Seq<Seq<char>>)
    decreases ls.len(),
{
    if ls.len() == 0 {
        (0, seq![])
    } else {
        let (n, names) = scan(ls.drop_last());
        let f = fields(ls.last());
        if f.len() == 0 {
            (n, names)
        } else {
            (n + 1, names + f.drop_first())
        }
    }
}

proof fn lemma_scan_count(ls: Seq<Seq<char>>)
    ensures
        scan(ls).0 <= ls.len(),
    decreases ls.len(),
{
    if ls.len() > 0 {
        lemma_scan_count(ls.drop_last());
    }
}

/// What the first pass over a feature file found.
pub struct FeatureScan {
    /// Every feature name after a label, in order, repeats included.
    pub names: Vec<String>,
    /// The number of lines with a label.
    pub num_instances: usize,
}

/// Why a feature file was refused.
#[derive(Debug, Clone, Copy, PartialEq, Eq)]
pub enum ScanError {
    /// No line names a feature: the vocabulary would hold the bias alone.
    NoFeatures,
}

/// The first pass over the text of a feature file (see `scan`). A file in
/// which no line names a feature is refused.
pub fn scan_features(content: &str) -> (r: Result<FeatureScan, ScanError>)
    ensures
        scan(lines_of(content@)).1.len() == 0 ==> r == Err::<FeatureScan, ScanError>(
            ScanError::NoFeatures,
        ),
        scan(lines_of(content@)).1.len() > 0 ==> (r matches Ok(fs) && views(fs.names@) == scan(
            lines_of(content@),
        ).1 && fs.num_instances == scan(lines_of(content@)).0),
{
    let lines = split_lines(content);
    let ghost ls = lines_of(content@);
    let mut names: Vec<String> = Vec::new();
    let mut n: usize = 0;
    let mut k: usize = 0;
    assert(views(lines@).len() == lines@.len());
    assert(ls.take(0) =~= Seq::<Seq<char>>::empty());
    while k < lines.len()
        invariant
            views(lines@) == ls,
            lines@.len() == ls.len(),
            k <= lines.len(),
            n == scan(ls.take(k as int)).0,
            views(names@) == scan(ls.take(k as int)).1,
        decreases lines.len() - k,
    {
        let ghost pre = ls.take(k as int);
        assert(ls.take(k + 1).drop_last() =~= pre);
        assert(ls.take(k + 1).last() == lines@[k as int]@);
        proof {
            lemma_scan_count(ls.take(k + 1));
        }
        let fs = split_fields(lines[k].as_str());
        assert(views(fs@).len() == fs@.len());
        if fs.len() > 0 {
            let mut j: usize = 1;
            let ghost base = views(names@);
            assert(views(fs@).drop_first().take(0) =~= Seq::<Seq<char>>::empty());
            assert(views(names@) =~= base + views(fs@).drop_first().take(0));
            while j < fs.len()
                invariant
                    1 <= j <= fs.len(),
                    views(names@) == base + views(fs@).drop_first().take(j - 1),
                decreases fs.len() - j,
            {
                let ghost before = names@;
                names.push(fs[j].clone());
                assert(views(fs@).drop_first().take(j as int) =~= views(fs@).drop_first().take(
                    j - 1,
                ).push(fs@[j as int]@));
                assert(views(names@) =~= views(before).push(fs@[j as int]@));
                j = j + 1;
            }
            assert(views(fs@).drop_first().take(j - 1) =~= views(fs@).drop_first());
            n = n + 1;
        }
        k = k + 1;
    }
    assert(ls.take(k as int) =~= ls);
    if names.len() == 0 {
        assert(views(names@).len() == 0);
        return Err(ScanError::NoFeatures);
    }
    Ok(FeatureScan { names, num_instances: n })
}

/// Each string preceded by a tab, all joined.
pub open spec fn tab_join(s: Seq<Seq<char>>) -> Seq<char>
    decreases s.len(),
{
    if s.len() == 0 {
        seq![]
    } else {
        tab_join(s.drop_last()) + seq!['\t'] + s.last()
    }
}

/// The text of a label of `1` or `-1`.
pub open spec fn label_text(label: i8) -> Seq<char> {
    if label > 0 {
        seq!['1']
    } else {
        seq!['-', '1']
    }
}

/// The line of a feature file for one instance: its label, then its
/// features in code-point order, separated by tabs.
pub fn feature_line(attrs: &Vec<String>, label: i8) -> (r: String)
    requires
        label == 1 || label == -1,
    ensures
        exists|sorted: Seq<Seq<char>>|
            #![trigger tab_join(sorted)]
            sorted.to_multiset() == views(attrs@).to_multiset() && (forall|i: int, j: int|
                0 <= i < j < sorted.len() ==> seq_le(#[trigger] sorted[i], #[trigger] sorted[j]))
                && r@ == label_text(label) + tab_join(sorted),
{
    let mut sorted = attrs.clone();
    proof {
        assert(sorted@ == attrs@);
    }
    sort_strings(&mut sorted);
    let mut r = if label > 0 {
        String::from_str("1")
    } else {
        String::from_str("-1")
    };
    proof {
        reveal_strlit("1");
        reveal_strlit("-1");
        assert(r@ =~= label_text(label));
        assert(views(sorted@).take(0) =~= Seq::<Seq<char>>::empty());
    }
    let mut k: usize = 0;
    while k < sorted.len()
        invariant
            k <= sorted.len(),
            r@ == label_text(label) + tab_join(views(sorted@).take(k as int)),
        decreases sorted.len() - k,
    {
        let ghost r0 = r@;
        r.append("\t");
        r.append(sorted[k].as_str());
        proof {
            reveal_strlit("\t");
            let t = views(sorted@).take(k + 1);
            assert(t.drop_last() =~= views(sorted@).take(k as int));
            assert(t.last() == sorted@[k as int]@);
            assert(r@ =~= label_text(label) + tab_join(t));
        }
        k = k + 1;
    }
    assert(views(sorted@).take(k as int) =~= views(sorted@));
    r
}

/// `w` is a possible field: not empty, without white space.
pub open spec fn is_field(w: Seq<char>) -> bool {
    w.len() > 0 && forall|k: int| 0 <= k < w.len() ==> !is_white_space(#[trigger] w[k])
}

proof fn lemma_fields_single(w: Seq<char>)
    requires
        is_field(w),
    ensures
        fields(w) == seq![w],
    decreases w.len(),
{
    let p = w.drop_last();
    let c = w.last();
    assert(!is_white_space(w[w.len() - 1]));
    if w.len() == 1 {
        assert(p =~= Seq::<char>::empty());
        assert(fields(p) == Seq::<Seq<char>>::empty());
        assert(fields(w) == fields(p).push(seq![c]));
        assert(seq![c] =~= w);
        assert(fields(p).push(seq![c]) =~= seq![w]);
    } else {
        assert(is_field(p)) by {
            assert forall|k: int| 0 <= k < p.len() implies !is_white_space(#[trigger] p[k]) by {
                assert(p[k] == w[k]);
            }
        }
        lemma_fields_single(p);
        assert(!is_white_space(w[w.len() - 2]));
        assert(fields(w) == fields(p).update(0, fields(p).last().push(c)));
        assert(p.push(c) =~= w);
        assert(fields(p).update(0, p.push(c)) =~= seq![w]);
    }
}

proof fn lemma_fields_tab(x: Seq<char>, w: Seq<char>)
    requires
        is_field(w),
    ensures
        fields(x + seq!['\t'] + w) == fields(x).push(w),
    decreases w.len(),
{
    let s = x + seq!['\t'] + w;
    let c = w.last();
    assert(!is_white_space(w[w.len() - 1]));
    assert(s.last() == c);
    if w.len() == 1 {
        let xt = x + seq!['\t'];
        assert(s.drop_last() =~= xt);
        assert(xt.drop_last() =~= x);
        assert(xt.last() == '\t');
        assert(fields(xt) == fields(x));
        assert(s[s.len() - 2] == '\t');
        assert(fields(s) == fields(xt).push(seq![c]));
        assert(seq![c] =~= w);
    } else {
        let p = w.drop_last();
        assert(is_field(p)) by {
            assert forall|k: int| 0 <= k < p.len() implies !is_white_space(#[trigger] p[k]) by {
                assert(p[k] == w[k]);
            }
        }
        lemma_fields_tab(x, p);
        assert(s.drop_last() =~= x + seq!['\t'] + p);
        assert(s[s.len() - 2] == w[w.len() - 2]);
        assert(!is_white_space(w[w.len() - 2]));
        let prev = fields(x).push(p);
        assert(fields(s) == prev.update(prev.len() - 1, prev.last().push(c)));
        assert(p.push(c) =~= w);
        assert(prev.update(prev.len() - 1, w) =~= fields(x).push(w));
    }
}

/// A line made by `feature_line` splits back into its label and its
/// features, and the label reads back as itself.
pub proof fn lemma_feature_line_fields(label: i8, sorted: Seq<Seq<char>>)
    requires
        label == 1 || label == -1,
        forall|k: int| 0 <= k < sorted.len() ==> is_field(#[trigger] sorted[k]),
    ensures
        fields(label_text(label) + tab_join(sorted)) == seq![label_text(label)] + sorted,
        i8_of(label_text(label)) == Some(label),
    decreases sorted.len(),
{
    let t = label_text(label);
    if sorted.len() == 0 {
        assert(t + tab_join(sorted) =~= t);
        lemma_fields_single(t);
        assert(seq![t] + sorted =~= seq![t]);
    } else {
        let p = sorted.drop_last();
        lemma_feature_line_fields(label, p);
        assert(t + tab_join(sorted) =~= (t + tab_join(p)) + seq!['\t'] + sorted.last());
        lemma_fields_tab(t + tab_join(p), sorted.last());
        assert(seq![t] + sorted =~= (seq![t] + p).push(sorted.last()));
    }
    let ds = unsigned_part(t);
    assert(ds =~= seq!['1']);
    assert(ds.drop_last() =~= Seq::<char>::empty());
    assert(decimal(Seq::<char>::empty()) == 0);
    assert(decimal(ds) == decimal(ds.drop_last()) * 10 + ('1' as int - '0' as int));
    assert(decimal(ds) == 1);
    assert(all_digits(ds));
}

/// The text of one model-file line.
pub open spec fn entry_line(e: (Seq<char>, Option<Seq<char>>)) -> Seq<char> {
    match e.1 {
        Some(w) => e.0 + seq!['\t'] + w,
        None => e.0,
    }
}

/// Lines joined, each ended by a line feed.
pub open spec fn nl_join(ls: Seq<Seq<char>>) -> Seq<char>
    decreases ls.len(),
{
    if ls.len() == 0 {
        seq![]
    } else {
        nl_join(ls.drop_last()) + ls.last() + seq!['\n']
    }
}

/// The text of a model file holding the entries `es`, in order.
pub open spec fn model_file(es: Seq<(Seq<char>, Option<Seq<char>>)>) -> Seq<char> {
    nl_join(es.map_values(|e: (Seq<char>, Option<Seq<char>>)| entry_line(e)))
}

/// The views of model entries.
pub open spec fn entries_view(es: Seq<ModelEntry>) -> Seq<(Seq<char>, Option<Seq<char>>)> {
    es.map_values(|e: ModelEntry| entry_view(e))
}

/// The text of a model file: one line per entry, a weight line as
/// `feature<TAB>weight`, the bias line as the bias alone.
pub fn model_text(entries: &Vec<ModelEntry>) -> (r: String)
    ensures
        r@ == model_file(entries_view(entries@)),
{
    let ghost lines = entries_view(entries@).map_values(
        |e: (Seq<char>, Option<Seq<char>>)| entry_line(e),
    );
    let mut r = String::new();
    let mut k: usize = 0;
    assert(lines.take(0) =~= Seq::<Seq<char>>::empty());
    while k < entries.len()
        invariant
            k <= entries.len(),
            lines == entries_view(entries@).map_values(
                |e: (Seq<char>, Option<Seq<char>>)| entry_line(e),
            ),
            r@ == nl_join(lines.take(k as int)),
        decreases entries.len() - k,
    {
        let ghost r0 = r@;
        match &entries[k] {
            ModelEntry::Weight(f, w) => {
                r.append(f.as_str());
                r.append("\t");
                r.append(w.as_str());
            },
            ModelEntry::Bias(b) => {
                r.append(b.as_str());
            },
        }
        r.append("\n");
        proof {
            reveal_strlit("\t");
            reveal_strlit("\n");
            let t = lines.take(k + 1);
            assert(t.drop_last() =~= lines.take(k as int));
            assert(r@ =~= r0 + t.last() + seq!['\n']);
        }
        k = k + 1;
    }
    assert(lines.take(k as int) =~= lines);
    r
}

/// `l` holds no line feed.
pub open spec fn one_line(l: Seq<char>) -> bool {
    forall|k: int| 0 <= k < l.len() ==> #[trigger] l[k] != '\n'
}

proof fn lemma_segments_append(x: Seq<char>, l: Seq<char>)
    requires
        one_line(l),
    ensures
        segments(x + l).len() == segments(x).len(),
        segments(x + l) == segments(x).update(
            segments(x).len() - 1,
            segments(x).last() + l,
        ),
    decreases l.len(),
{
    lemma_segments_nonempty(x);
    if l.len() == 0 {
        assert(x + l =~= x);
        assert(segments(x).last() + l =~= segments(x).last());
        assert(segments(x).update(segments(x).len() - 1, segments(x).last()) =~= segments(x));
    } else {
        let p = l.drop_last();
        assert(one_line(p)) by {
            assert forall|k: int| 0 <= k < p.len() implies #[trigger] p[k] != '\n' by {
                assert(p[k] == l[k]);
            }
        }
        lemma_segments_append(x, p);
        assert((x + l).drop_last() =~= x + p);
        assert(l[l.len() - 1] != '\n');
        assert((x + l).last() == l.last());
        let sp = segments(x + p);
        assert(segments(x + l) == sp.update(sp.len() - 1, sp.last().push(l.last())));
        assert(sp.last() == segments(x).last() + p);
        assert((segments(x).last() + p).push(l.last()) =~= segments(x).last() + l);
        assert(sp.update(sp.len() - 1, segments(x).last() + l) =~= segments(x).update(
            segments(x).len() - 1,
            segments(x).last() + l,
        ));
    }
}

proof fn lemma_segments_nonempty(s: Seq<char>)
    ensures
        segments(s).len() >= 1,
    decreases s.len(),
{
    if s.len() > 0 {
        lemma_segments_nonempty(s.drop_last());
    }
}

proof fn lemma_segments_join(ls: Seq<Seq<char>>)
    requires
        forall|k: int| 0 <= k < ls.len() ==> one_line(#[trigger] ls[k]),
    ensures
        segments(nl_join(ls)) == ls.push(seq![]),
    decreases ls.len(),
{
    if ls.len() == 0 {
        assert(segments(Seq::<char>::empty()) == seq![Seq::<char>::empty()]);
        assert(ls.push(seq![]) =~= seq![Seq::<char>::empty()]);
    } else {
        let p = ls.drop_last();
        lemma_segments_join(p);
        let x = nl_join(p);
        let l = ls.last();
        assert(one_line(ls[ls.len() - 1]));
        lemma_segments_append(x, l);
        let xl = x + l;
        assert(nl_join(ls) =~= xl + seq!['\n']);
        assert((xl + seq!['\n']).drop_last() =~= xl);
        assert(segments(xl + seq!['\n']) == segments(xl).push(seq![]));
        assert(p.push(seq![]).last() == Seq::<char>::empty());
        assert(Seq::<char>::empty() + l =~= l);
        assert(p.push(seq![]).update(p.len() as int, l) =~= p.push(l));
        assert(p.push(l) =~= ls);
    }
}

/// Model text written by `model_text` reads back as the same entries, when
/// every feature, weight and bias text is a single field.
pub proof fn lemma_model_text_round_trip(es: Seq<(Seq<char>, Option<Seq<char>>)>)
    requires
        forall|k: int|
            0 <= k < es.len() ==> is_field((#[trigger] es[k]).0) && (es[k].1 matches Some(w)
                ==> is_field(w)),
    ensures
        lines_of(model_file(es)).len() == es.len(),
        forall|k: int| 0 <= k < es.len() ==> model_line(#[trigger] lines_of(model_file(es))[k]) == Some(es[k]),
{
    let ls = es.map_values(|e: (Seq<char>, Option<Seq<char>>)| entry_line(e));
    assert forall|k: int| 0 <= k < ls.len() implies one_line(#[trigger] ls[k]) && ls[k].len() > 0
        && ls[k].last() != '\r' && model_line(ls[k]) == Some(es[k]) by {
        let e = es[k];
        assert(is_field(e.0));
        match e.1 {
            Some(w) => {
                assert(is_field(w));
                let l = e.0 + seq!['\t'] + w;
                assert(ls[k] == l);
                assert forall|j: int| 0 <= j < l.len() implies #[trigger] l[j] != '\n' by {
                    if j < e.0.len() {
                        assert(l[j] == e.0[j]);
                    } else if j > e.0.len() {
                        assert(l[j] == w[j - e.0.len() - 1]);
                    }
                }
                assert(l.last() == w[w.len() - 1]);
                lemma_fields_single(e.0);
                lemma_fields_tab(e.0, w);
                assert(fields(l) == seq![e.0].push(w));
                assert(seq![e.0].push(w) =~= seq![e.0, w]);
            },
            None => {
                assert(ls[k] == e.0);
                assert forall|j: int| 0 <= j < e.0.len() implies #[trigger] e.0[j] != '\n' by {
                    assert(!is_white_space(e.0[j]));
                }
                assert(e.0.last() == e.0[e.0.len() - 1]);
                lemma_fields_single(e.0);
            },
        }
    }
    lemma_segments_join(ls);
    let segs = segments(nl_join(ls));
    assert(segs.last() == Seq::<char>::empty());
    assert forall|k: int| 0 <= k < es.len() implies model_line(
        #[trigger] lines_of(nl_join(ls))[k],
    ) == Some(es[k]) by {
        assert(segs[k] == ls[k]);
        assert(strip_cr(ls[k]) == ls[k]);
    }
}

/// What one line of a feature file says: its label and its feature names,
/// `None` where it has no fields or its first field is not an `i8`.
pub open spec fn instance_line(l: Seq<char>) -> Option<(i8, Seq<Seq<char>>)> {
    if fields(l).len() == 0 {
        None
    } else {
        match i8_of(fields(l)[0]) {
            Some(x) => Some((x, fields(l).drop_first())),
            None => None,
        }
    }
}

/// The view of a parsed instance line.
pub open spec fn parsed_view(p: (i8, Vec<String>)) -> (i8, Seq<Seq<char>>) {
    (p.0, views(p.1@))
}

/// Reads every line of a feature file as a label and feature names. The
/// first line that has no label, or whose label is not an `i8`, is refused
/// with its number, counting from 1, and the reason.
pub fn parse_instance_lines(content: &str) -> (r: Result<Vec<(i8, Vec<String>)>, (usize, LineError)>)
    ensures
        match r {
            Ok(ps) => {
                &&& ps@.len() == lines_of(content@).len()
                &&& forall|k: int|
                    0 <= k < ps@.len() ==> Some(parsed_view(#[trigger] ps@[k])) == instance_line(
                        lines_of(content@)[k],
                    )
            },
            Err((n, e)) => {
                &&& 1 <= n <= lines_of(content@).len()
                &&& instance_line(lines_of(content@)[n - 1]) is None
                &&& forall|k: int|
                    0 <= k < n - 1 ==> #[trigger] instance_line(lines_of(content@)[k]) is Some
                &&& (e == LineError::MissingLabel <==> fields(lines_of(content@)[n - 1]).len() == 0)
                &&& (e matches LineError::InvalidLabel(f) ==> f@ == fields(
                    lines_of(content@)[n - 1],
                )[0])
            },
        },
{
    let lines = split_lines(content);
    let ghost ls = lines_of(content@);
    let mut ps: Vec<(i8, Vec<String>)> = Vec::new();
    let mut k: usize = 0;
    assert(views(lines@).len() == lines@.len());
    while k < lines.len()
        invariant
            views(lines@) == ls,
            lines@.len() == ls.len(),
            ls == lines_of(content@),
            k <= lines.len(),
            ps@.len() == k,
            forall|j: int| 0 <= j < k ==> Some(parsed_view(#[trigger] ps@[j])) == instance_line(ls[j]),
        decreases lines.len() - k,
    {
        assert(views(lines@)[k as int] == lines@[k as int]@);
        match parse_instance_line(lines[k].as_str()) {
            Ok(p) => {
                ps.push(p);
            },
            Err(e) => {
                assert forall|j: int| 0 <= j < k implies #[trigger] instance_line(ls[j]) is Some by {
                    assert(Some(parsed_view(ps@[j])) == instance_line(ls[j]));
                }
                return Err((k + 1, e));
            },
        }
        k = k + 1;
    }
    Ok(ps)
}

/// The feature name a model entry sets: its feature, or the empty name,
/// the bias bucket, for the bias line.
pub open spec fn entry_name(e: ModelEntry) -> Seq<char> {
    match e {
        ModelEntry::Weight(f, _) => f@,
        ModelEntry::Bias(_) => Seq::<char>::empty(),
    }
}

/// The names of a layout, in order.
pub open spec fn layout_names(r: Seq<(String, usize)>) -> Seq<Seq<char>> {
    r.map_values(|x: (String, usize)| x.0@)
}

/// Where each weight of a loaded model comes from: every name that the
/// entries set, once, in code-point order, paired with the index of the last
/// entry that sets it (a later line overrides an earlier one).
pub fn model_layout(entries: &Vec<ModelEntry>) -> (r: Vec<(String, usize)>)
    requires
        exists|k: int| 0 <= k < entries@.len() && #[trigger] entries@[k] is Bias,
    ensures
        strictly_sorted(layout_names(r@)),
        forall|s: Seq<char>|
            #[trigger] layout_names(r@).contains(s) <==> exists|k: int|
                0 <= k < entries@.len() && #[trigger] entry_name(entries@[k]) == s,
        forall|i: int|
            0 <= i < r@.len() ==> {
                let j = (#[trigger] r@[i]).1 as int;
                &&& 0 <= j < entries@.len()
                &&& entry_name(entries@[j]) == r@[i].0@
                &&& forall|k: int| j < k < entries@.len() ==> entry_name(entries@[k]) != r@[i].0@
            },
{
    let mut names: Vec<String> = Vec::new();
    let mut k: usize = 0;
    while k < entries.len()
        invariant
            k <= entries.len(),
            names@.len() == k,
            forall|j: int| 0 <= j < k ==> #[trigger] names@[j]@ == entry_name(entries@[j]),
        decreases entries.len() - k,
    {
        let n = match &entries[k] {
            ModelEntry::Weight(f, _) => f.clone(),
            ModelEntry::Bias(_) => String::new(),
        };
        names.push(n);
        k = k + 1;
    }
    let vocab = vocabulary(&names);
    let ghost vv = views(vocab@);
    assert forall|s: Seq<char>| vv.contains(s) <==> exists|j: int|
        0 <= j < entries@.len() && #[trigger] entry_name(entries@[j]) == s by {
        if views(names@).contains(s) {
            let j = choose|j: int| 0 <= j < views(names@).len() && views(names@)[j] == s;
            assert(entry_name(entries@[j]) == s);
        }
        if exists|j: int| 0 <= j < entries@.len() && #[trigger] entry_name(entries@[j]) == s {
            let j = choose|j: int| 0 <= j < entries@.len() && #[trigger] entry_name(entries@[j]) == s;
            assert(views(names@)[j] == s);
        }
        if s == Seq::<char>::empty() {
            let b = choose|b: int| 0 <= b < entries@.len() && #[trigger] entries@[b] is Bias;
            assert(entry_name(entries@[b]) == s);
        }
    }
    let index = match FeatureIndex::new(vocab) {
        Some(ix) => ix,
        None => {
            return Vec::new();
        },
    };
    assert(index@ == vv);
    let nv = index.len();
    let mut latest: Vec<Option<usize>> = Vec::new();
    let mut p: usize = 0;
    while p < nv
        invariant
            p <= nv,
            latest@.len() == p,
            forall|q: int| 0 <= q < p ==> latest@[q] is None,
        decreases nv - p,
    {
        latest.push(None);
        p = p + 1;
    }
    k = 0;
    while k < entries.len()
        invariant
            index.wf(),
            index@ == vv,
            nv == vv.len(),
            names@.len() == entries@.len(),
            forall|j: int| 0 <= j < entries@.len() ==> #[trigger] names@[j]@ == entry_name(entries@[j]),
            forall|s: Seq<char>| vv.contains(s) <==> exists|j: int|
                0 <= j < entries@.len() && #[trigger] entry_name(entries@[j]) == s,
            k <= entries.len(),
            latest@.len() == nv,
            forall|q: int|
                0 <= q < nv ==> match #[trigger] latest@[q] {
                    Some(j) => j < k && entry_name(entries@[j as int]) == vv[q] && forall|i: int|
                        j < i < k ==> entry_name(entries@[i]) != vv[q],
                    None => forall|i: int| 0 <= i < k ==> entry_name(entries@[i]) != vv[q],
                },
        decreases entries.len() - k,
    {
        let ghost nk = entry_name(entries@[k as int]);
        assert(vv.contains(nk));
        match index.position(names[k].as_str()) {
            Some(q) => {
                proof {
                    let pq = position_in(vv, nk);
                    assert(vv[pq] == nk);
                    index.lemma_no_duplicates();
                }
                latest.set(q, Some(k));
                assert forall|q2: int| 0 <= q2 < nv && q2 != q implies vv[q2] != nk by {
                    assert(vv.no_duplicates());
                }
            },
            None => {
                assert(false);
            },
        }
        k = k + 1;
    }
    let mut r: Vec<(String, usize)> = Vec::new();
    p = 0;
    while p < nv
        invariant
            index.wf(),
            index@ == vv,
            nv == vv.len(),
            strictly_sorted(vv),
            forall|s: Seq<char>| vv.contains(s) <==> exists|j: int|
                0 <= j < entries@.len() && #[trigger] entry_name(entries@[j]) == s,
            latest@.len() == nv,
            forall|q: int|
                0 <= q < nv ==> match #[trigger] latest@[q] {
                    Some(j) => j < entries@.len() && entry_name(entries@[j as int]) == vv[q]
                        && forall|i: int| j < i < entries@.len() ==> entry_name(entries@[i]) != vv[q],
                    None => forall|i: int| 0 <= i < entries@.len() ==> entry_name(entries@[i]) != vv[q],
                },
            p <= nv,
            r@.len() == p,
            layout_names(r@) == vv.take(p as int),
            forall|i: int|
                0 <= i < p ==> {
                    let j = (#[trigger] r@[i]).1 as int;
                    &&& 0 <= j < entries@.len()
                    &&& entry_name(entries@[j]) == r@[i].0@
                    &&& forall|k2: int|
                        j < k2 < entries@.len() ==> entry_name(entries@[k2]) != r@[i].0@
                },
        decreases nv - p,
    {
        let j = match latest[p] {
            Some(j) => j,
            None => {
                proof {
                    assert(vv.contains(vv[p as int]));
                    let w = choose|w: int|
                        0 <= w < entries@.len() && #[trigger] entry_name(entries@[w]) == vv[p as int];
                }
                0
            },
        };
        let name = index.name(p).clone();
        let ghost r0 = r@;
        r.push((name, j));
        assert(layout_names(r@) =~= layout_names(r0).push(vv[p as int]));
        assert(vv.take(p + 1) =~= vv.take(p as int).push(vv[p as int]));
        p = p + 1;
    }
    assert(vv.take(p as int) =~= vv);
    r
}

} // verus!
