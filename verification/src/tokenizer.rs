//! The lexical rule: a word is a run of word characters in which single
//! apostrophes may join one part to the next.

use std::str::Chars;
use vstd::prelude::*;
use vstd::std_specs::iter::IteratorSpec;
use vstd::string::*;
use crate::encoding::{
    byte_len, chars_before, is_boundary, lemma_chars_before, lemma_len_concat,
    lemma_prefix_monotonic, lemma_prefix_step, substring, utf8_len, utf8_width,
};

verus! {

/// What a character is to the lexical rule.
#[derive(Clone, Copy, PartialEq, Eq, Debug, Structural)]
pub enum CharKind {
    /// A letter, a digit, an underscore or another Unicode word character.
    Word,
    /// The ASCII apostrophe or the right single quotation mark.
    Apostrophe,
    /// Whitespace, punctuation, symbols: separators.
    Other,
}

/// Whether a character belongs to the Unicode word class: the `Alphabetic`
/// and `Join_Control` properties and the general categories `Mark`,
/// `Decimal_Number` and `Connector_Punctuation`.
pub uninterp spec fn unicode_word(c: char) -> bool;

/// `regex_syntax::is_word_character`: a lookup of `c` in the table of the
/// Unicode word class (`\w`). The answer depends on `c` alone. The call
/// panics only in a build of `regex-syntax` without its `unicode-perl`
/// feature, which this crate's dependency on it switches on.
#[verifier::external_body]
fn is_unicode_word(c: char) -> (b: bool)
    ensures
        b == unicode_word(c),
{
    regex_syntax::is_word_character(c)
}

/// Whether a character is one of the two apostrophes that may join the
/// parts of a word.
pub open spec fn is_apostrophe(c: char) -> bool {
    c == '\'' || c == '\u{2019}'
}

/// The kind of a character, given whether it is a word character. A word
/// character is `Word` whatever else it is.
pub open spec fn kind_from(word: bool, c: char) -> CharKind {
    if word {
        CharKind::Word
    } else if is_apostrophe(c) {
        CharKind::Apostrophe
    } else {
        CharKind::Other
    }
}

/// The kind of a character.
pub open spec fn kind_of(c: char) -> CharKind {
    kind_from(unicode_word(c), c)
}

/// The kinds of the characters of a text, one for one.
pub open spec fn kinds_of(text: Seq<char>) -> Seq<CharKind> {
    Seq::new(text.len(), |i: int| kind_of(text[i]))
}

impl CharKind {
    /// The kind of `c`, where `word` says whether `c` is a word character.
    pub fn from_class(word: bool, c: char) -> (kind: CharKind)
        ensures
            kind == kind_from(word, c),
    {
        if word {
            CharKind::Word
        } else if c == '\'' || c == '\u{2019}' {
            CharKind::Apostrophe
        } else {
            CharKind::Other
        }
    }
}

/// Classifies one character.
pub fn classify(c: char) -> (kind: CharKind)
    ensures
        kind == kind_of(c),
{
    CharKind::from_class(is_unicode_word(c), c)
}

/// Classifies the characters of a text, in order.
pub fn classify_text(text: &str) -> (kinds: Vec<CharKind>)
    ensures
        kinds@ == kinds_of(text@),
{
    let mut kinds: Vec<CharKind> = Vec::new();
    let mut rest = text.chars();
    proof {
        assert(text@.skip(0) =~= text@);
    }
    loop
        invariant
            kinds@.len() <= text@.len(),
            rest.remaining() == text@.skip(kinds@.len() as int),
            kinds@ == kinds_of(text@.take(kinds@.len() as int)),
        ensures
            kinds@ == kinds_of(text@),
        decreases text@.len() - kinds@.len(),
    {
        let ghost i = kinds@.len() as int;
        match rest.next() {
            None => {
                assert(text@.take(i) =~= text@);
                break ;
            },
            Some(c) => {
                kinds.push(classify(c));
                proof {
                    assert(text@.skip(i).drop_first() =~= text@.skip(i + 1));
                    assert(kinds@ =~= kinds_of(text@.take(i + 1)));
                }
            },
        }
    }
    kinds
}

/// Whether the character at `i` is an apostrophe directly flanked by word
/// characters on both sides.
pub open spec fn joins(kinds: Seq<CharKind>, i: int) -> bool {
    &&& 0 < i
    &&& i + 1 < kinds.len()
    &&& kinds[i] == CharKind::Apostrophe
    &&& kinds[i - 1] == CharKind::Word
    &&& kinds[i + 1] == CharKind::Word
}

/// Whether the character at `i` is part of a word: a word character, or an
/// apostrophe that joins two of them.
pub open spec fn in_word(kinds: Seq<CharKind>, i: int) -> bool {
    0 <= i < kinds.len() && (kinds[i] == CharKind::Word || joins(kinds, i))
}

/// The first position at or after `i` that is not part of a word.
pub open spec fn run_end(kinds: Seq<CharKind>, i: int) -> int
    decreases kinds.len() - i,
{
    if in_word(kinds, i) {
        run_end(kinds, i + 1)
    } else {
        i
    }
}

/// `run_end` stops at the first position outside a word, at the end of the
/// text at the latest.
pub proof fn lemma_run_end(kinds: Seq<CharKind>, i: int)
    requires
        0 <= i <= kinds.len(),
    ensures
        i <= run_end(kinds, i) <= kinds.len(),
        !in_word(kinds, run_end(kinds, i)),
        forall|j: int| i <= j < run_end(kinds, i) ==> in_word(kinds, j),
    decreases kinds.len() - i,
{
    if in_word(kinds, i) {
        lemma_run_end(kinds, i + 1);
    }
}

/// The words that start at or after `i`, as half-open ranges of character
/// positions, in the order of the text. A word starts at a word character
/// and runs up to the first position that is not part of a word.
pub open spec fn runs_from(kinds: Seq<CharKind>, i: int) -> Seq<(int, int)>
    decreases kinds.len() - i,
{
    if i < 0 || i >= kinds.len() {
        Seq::empty()
    } else if kinds[i] == CharKind::Word {
        proof {
            lemma_run_end(kinds, i + 1);
        }
        seq![(i, run_end(kinds, i + 1))] + runs_from(kinds, run_end(kinds, i + 1))
    } else {
        runs_from(kinds, i + 1)
    }
}

/// Whether `a..b` is a maximal stretch of positions that are part of a
/// word: nothing in it is a separator, and it cannot be extended.
pub open spec fn is_maximal_run(kinds: Seq<CharKind>, a: int, b: int) -> bool {
    &&& 0 <= a < b <= kinds.len()
    &&& forall|j: int| a <= j < b ==> in_word(kinds, j)
    &&& !in_word(kinds, a - 1)
    &&& !in_word(kinds, b)
}

/// Whether run `k` of `runs` holds position `j`.
pub open spec fn covers(runs: Seq<(int, int)>, k: int, j: int) -> bool {
    0 <= k < runs.len() && runs[k].0 <= j < runs[k].1
}

/// Whether position `i` does not lie strictly inside a word.
pub open spec fn at_word_edge(kinds: Seq<CharKind>, i: int) -> bool {
    !(in_word(kinds, i - 1) && in_word(kinds, i))
}

/// From a position that is not inside a word, `runs_from` lists the
/// maximal runs from there on, each once, in order and apart.
pub proof fn lemma_runs_from(kinds: Seq<CharKind>, i: int)
    requires
        0 <= i <= kinds.len(),
        at_word_edge(kinds, i),
    ensures
        forall|k: int|
            0 <= k < runs_from(kinds, i).len() ==> i <= (#[trigger] runs_from(kinds, i)[k]).0
                && is_maximal_run(kinds, runs_from(kinds, i)[k].0, runs_from(kinds, i)[k].1),
        forall|k: int, m: int|
            0 <= k < m < runs_from(kinds, i).len() ==> (#[trigger] runs_from(kinds, i)[k]).1 < (
            #[trigger] runs_from(kinds, i)[m]).0,
        forall|j: int|
            i <= j && in_word(kinds, j) ==> exists|k: int|
                covers(runs_from(kinds, i), k, j),
    decreases kinds.len() - i,
{
    let r = runs_from(kinds, i);
    if i >= kinds.len() {
    } else if kinds[i] == CharKind::Word {
        lemma_run_end(kinds, i + 1);
        let e = run_end(kinds, i + 1);
        let rest = runs_from(kinds, e);
        lemma_runs_from(kinds, e);
        assert(r =~= seq![(i, e)] + rest);
        assert forall|k: int| 0 <= k < r.len() implies i <= (#[trigger] r[k]).0 && is_maximal_run(
            kinds,
            r[k].0,
            r[k].1,
        ) by {
            if k > 0 {
                assert(r[k] == rest[k - 1]);
            }
        }
        assert forall|k: int, m: int| 0 <= k < m < r.len() implies (#[trigger] r[k]).1 < (
        #[trigger] r[m]).0 by {
            assert(r[m] == rest[m - 1]);
            assert(is_maximal_run(kinds, rest[m - 1].0, rest[m - 1].1));
            if k > 0 {
                assert(r[k] == rest[k - 1]);
            }
        }
        assert forall|j: int| i <= j && in_word(kinds, j) implies exists|k: int|
            covers(r, k, j) by {
            if j < e {
                assert(covers(r, 0, j));
            } else {
                let k = choose|k: int| covers(rest, k, j);
                assert(r[k + 1] == rest[k]);
                assert(covers(r, k + 1, j));
            }
        }
    } else {
        lemma_runs_from(kinds, i + 1);
    }
}

/// The words of a text whose characters have the given kinds.
pub open spec fn word_runs(kinds: Seq<CharKind>) -> Seq<(int, int)> {
    runs_from(kinds, 0)
}

/// The words of a text are its maximal runs: each recorded range is one,
/// the ranges follow one another with a separator between them, and every
/// position that is part of a word lies in one of them.
pub proof fn lemma_word_runs(kinds: Seq<CharKind>)
    ensures
        forall|k: int|
            0 <= k < word_runs(kinds).len() ==> is_maximal_run(
                kinds,
                (#[trigger] word_runs(kinds)[k]).0,
                word_runs(kinds)[k].1,
            ),
        forall|k: int, m: int|
            0 <= k < m < word_runs(kinds).len() ==> (#[trigger] word_runs(kinds)[k]).1 < (
            #[trigger] word_runs(kinds)[m]).0,
        forall|j: int| in_word(kinds, j) ==> exists|k: int| covers(word_runs(kinds), k, j),
{
    lemma_runs_from(kinds, 0);
}

/// A word as a half-open range of character positions.
#[derive(Clone, Copy, Debug)]
pub struct WordRun {
    pub start: usize,
    pub end: usize,
}

impl View for WordRun {
    type V = (int, int);

    open spec fn view(&self) -> (int, int) {
        (self.start as int, self.end as int)
    }
}

/// The ranges that a sequence of runs stands for.
pub open spec fn run_views(runs: Seq<WordRun>) -> Seq<(int, int)> {
    runs.map_values(|r: WordRun| r@)
}

/// Tells whether position `i` is part of a word.
pub fn is_in_word(kinds: &Vec<CharKind>, i: usize) -> (b: bool)
    requires
        i < kinds.len(),
    ensures
        b == in_word(kinds@, i as int),
{
    match kinds[i] {
        CharKind::Word => true,
        CharKind::Apostrophe => {
            i > 0 && i + 1 < kinds.len() && kinds[i - 1] == CharKind::Word && kinds[i + 1]
                == CharKind::Word
        },
        CharKind::Other => false,
    }
}

/// Finds the words in a sequence of character kinds.
pub fn find_runs(kinds: &Vec<CharKind>) -> (runs: Vec<WordRun>)
    ensures
        run_views(runs@) == word_runs(kinds@),
{
    let mut runs: Vec<WordRun> = Vec::new();
    let mut i: usize = 0;
    assert(run_views(runs@) + runs_from(kinds@, 0) =~= word_runs(kinds@));
    while i < kinds.len()
        invariant
            i <= kinds.len(),
            run_views(runs@) + runs_from(kinds@, i as int) == word_runs(kinds@),
        decreases kinds.len() - i,
    {
        if kinds[i] == CharKind::Word {
            let start = i;
            i = i + 1;
            while i < kinds.len() && is_in_word(kinds, i)
                invariant
                    start < i <= kinds.len(),
                    run_end(kinds@, start + 1) == run_end(kinds@, i as int),
                decreases kinds.len() - i,
            {
                i = i + 1;
            }
            let ghost before = run_views(runs@);
            runs.push(WordRun { start, end: i });
            proof {
                let rest = runs_from(kinds@, i as int);
                assert(run_views(runs@) =~= before.push((start as int, i as int)));
                assert(run_views(runs@) + rest =~= before + (seq![(start as int, i as int)]
                    + rest));
            }
        } else {
            i = i + 1;
        }
    }
    assert(run_views(runs@) + runs_from(kinds@, i as int) =~= run_views(runs@));
    runs
}

/// A word found in a text: its characters, and where it lies in the text,
/// counted in bytes of the text's UTF-8 encoding.
#[derive(Clone, Copy, Debug)]
pub struct TextSpan<'a> {
    pub text: &'a str,
    pub native_start: usize,
    pub native_length: usize,
}

/// What a `TextSpan` stands for.
pub struct SpanView {
    pub text: Seq<char>,
    pub native_start: int,
    pub native_length: int,
}

impl<'a> View for TextSpan<'a> {
    type V = SpanView;

    open spec fn view(&self) -> SpanView {
        SpanView {
            text: self.text@,
            native_start: self.native_start as int,
            native_length: self.native_length as int,
        }
    }
}

/// What a sequence of spans stands for.
pub open spec fn span_views(spans: Seq<TextSpan>) -> Seq<SpanView> {
    spans.map_values(|s: TextSpan| s@)
}

/// The span of the word that occupies the character positions `run` of
/// `text`.
pub open spec fn span_at(text: Seq<char>, run: (int, int)) -> SpanView {
    SpanView {
        text: text.subrange(run.0, run.1),
        native_start: utf8_len(text.take(run.0)) as int,
        native_length: utf8_len(text.subrange(run.0, run.1)) as int,
    }
}

/// The words of a text as spans, in the order of the text.
pub open spec fn word_spans(text: Seq<char>) -> Seq<SpanView> {
    word_runs(kinds_of(text)).map_values(|run: (int, int)| span_at(text, run))
}

/// The spans of a text are those of its maximal runs: each starts at the
/// character boundary at which its run starts and holds the characters of
/// its run, and each ends before the next one starts.
pub proof fn lemma_word_spans(text: Seq<char>)
    ensures
        word_spans(text).len() == word_runs(kinds_of(text)).len(),
        forall|k: int|
            0 <= k < word_spans(text).len() ==> {
                let span = #[trigger] word_spans(text)[k];
                let run = word_runs(kinds_of(text))[k];
                &&& is_maximal_run(kinds_of(text), run.0, run.1)
                &&& is_boundary(text, span.native_start)
                &&& chars_before(text, span.native_start) == run.0
                &&& span.text == text.subrange(run.0, run.1)
                &&& span.native_length == utf8_len(span.text)
            },
        forall|k: int, m: int|
            0 <= k < m < word_spans(text).len() ==> (#[trigger] word_spans(text)[k]).native_start
                + word_spans(text)[k].native_length < (#[trigger] word_spans(
                text,
            )[m]).native_start,
{
    let kinds = kinds_of(text);
    let runs = word_runs(kinds);
    let spans = word_spans(text);
    lemma_word_runs(kinds);
    assert forall|k: int| 0 <= k < spans.len() implies {
        let span = #[trigger] spans[k];
        let run = runs[k];
        &&& is_maximal_run(kinds, run.0, run.1)
        &&& is_boundary(text, span.native_start)
        &&& chars_before(text, span.native_start) == run.0
        &&& span.text == text.subrange(run.0, run.1)
        &&& span.native_length == utf8_len(span.text)
    } by {
        assert(is_maximal_run(kinds, runs[k].0, runs[k].1));
        lemma_chars_before(text, runs[k].0);
    }
    assert forall|k: int, m: int| 0 <= k < m < spans.len() implies (#[trigger] spans[k]).native_start
        + spans[k].native_length < (#[trigger] spans[m]).native_start by {
        assert(is_maximal_run(kinds, runs[k].0, runs[k].1));
        assert(is_maximal_run(kinds, runs[m].0, runs[m].1));
        assert(runs[k].1 < runs[m].0);
        lemma_prefix_monotonic(text, runs[k].0, runs[k].1);
        lemma_prefix_monotonic(text, runs[k].1, runs[m].0);
    }
}

/// Takes the next `count` characters from `rest` and returns their length
/// in bytes.
fn skip_chars(rest: &mut Chars<'_>, count: usize) -> (bytes: usize)
    requires
        count <= (*old(rest)).remaining().len(),
        utf8_len((*old(rest)).remaining()) <= usize::MAX,
    ensures
        (*final(rest)).remaining() == (*old(rest)).remaining().skip(count as int),
        bytes == utf8_len((*old(rest)).remaining().take(count as int)),
{
    let ghost all = (*rest).remaining();
    let mut taken: usize = 0;
    let mut bytes: usize = 0;
    proof {
        assert(all.skip(0) =~= all);
        assert(all.take(0) =~= Seq::<char>::empty());
    }
    while taken < count
        invariant
            taken <= count <= all.len(),
            utf8_len(all) <= usize::MAX,
            (*rest).remaining() == all.skip(taken as int),
            bytes == utf8_len(all.take(taken as int)),
        decreases count - taken,
    {
        let c = rest.next().unwrap();
        proof {
            lemma_prefix_step(all, taken as int);
            lemma_prefix_monotonic(all, taken + 1, all.len() as int);
            assert(all.take(all.len() as int) =~= all);
            assert(all.skip(taken as int).drop_first() =~= all.skip(taken + 1));
        }
        bytes = bytes + utf8_width(c);
        taken = taken + 1;
    }
    bytes
}

/// Finds the words of a text, left to right. Every call scans the text
/// from its beginning.
pub fn tokenize<'a>(text: &'a str) -> (spans: Vec<TextSpan<'a>>)
    ensures
        span_views(spans@) == word_spans(text@),
        text@.len() == 0 ==> spans@.len() == 0,
{
    let kinds = classify_text(text);
    let runs = find_runs(&kinds);
    let total = byte_len(text);
    let mut spans: Vec<TextSpan<'a>> = Vec::new();
    let mut rest = text.chars();
    let mut pos: usize = 0;
    let mut at: usize = 0;
    let mut k: usize = 0;
    proof {
        assert(text@.skip(0) =~= text@);
        assert(text@.take(0) =~= Seq::<char>::empty());
        assert(span_views(spans@) =~= word_spans(text@).take(0));
    }
    while k < runs.len()
        invariant
            k <= runs.len(),
            kinds@ == kinds_of(text@),
            run_views(runs@) == word_runs(kinds@),
            total == utf8_len(text@),
            at <= text@.len(),
            rest.remaining() == text@.skip(at as int),
            pos == utf8_len(text@.take(at as int)),
            k == 0 ==> at == 0,
            k > 0 ==> at == runs[k - 1].end,
            span_views(spans@) == word_spans(text@).take(k as int),
        decreases runs.len() - k,
    {
        let run = runs[k];
        proof {
            lemma_word_runs(kinds@);
            let all = word_runs(kinds@);
            assert(all[k as int] == runs@[k as int]@);
            assert(is_maximal_run(kinds@, all[k as int].0, all[k as int].1));
            if k > 0 {
                assert(all[k - 1] == runs@[k - 1]@);
            }
            lemma_stretch(text@, at as int, run.start as int);
            lemma_stretch(text@, run.start as int, run.end as int);
        }
        let start = pos + skip_chars(&mut rest, run.start - at);
        let end = start + skip_chars(&mut rest, run.end - run.start);
        let word = substring(text, start, end, Ghost(run.start as int), Ghost(run.end as int));
        let ghost before = span_views(spans@);
        spans.push(TextSpan { text: word, native_start: start, native_length: end - start });
        proof {
            assert(span_views(spans@) =~= before.push(span_at(text@, run@)));
            assert(word_spans(text@).take(k + 1) =~= word_spans(text@).take(k as int).push(
                span_at(text@, run@),
            ));
        }
        pos = end;
        at = run.end;
        k = k + 1;
    }
    assert(word_spans(text@).take(k as int) =~= word_spans(text@));
    spans
}

/// Taking `j - i` characters from what follows the first `i` characters of
/// a text gives the characters `i..j` and leaves what follows the first
/// `j`; in bytes, the stretch reaches from the offset of `i` to that of
/// `j`, within the text.
proof fn lemma_stretch(text: Seq<char>, i: int, j: int)
    requires
        0 <= i <= j <= text.len(),
    ensures
        text.skip(i).take(j - i) == text.subrange(i, j),
        text.skip(i).skip(j - i) == text.skip(j),
        utf8_len(text.skip(i)) <= utf8_len(text),
        utf8_len(text.take(i)) + utf8_len(text.subrange(i, j)) == utf8_len(text.take(j)),
        utf8_len(text.take(j)) <= utf8_len(text),
{
    assert(text.skip(i).take(j - i) =~= text.subrange(i, j));
    assert(text.skip(i).skip(j - i) =~= text.skip(j));
    assert(text =~= text.take(i) + text.skip(i));
    lemma_len_concat(text.take(i), text.skip(i));
    lemma_prefix_monotonic(text, i, j);
    lemma_prefix_monotonic(text, j, text.len() as int);
    assert(text.take(text.len() as int) =~= text);
}

} // verus!
