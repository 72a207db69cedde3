//! The scan: which words of a text are reported as misspelled, and where.

use vstd::prelude::*;
use crate::cursor::ScanCursor;
use crate::encoding::{
    is_boundary, lemma_chars_before, lemma_prefix_monotonic, utf16_len, utf16_length,
    utf16_offset,
};
use crate::tokenizer::{
    is_maximal_run, kinds_of, lemma_word_runs, lemma_word_spans, span_at, span_views, tokenize,
    word_runs, word_spans, SpanView, TextSpan,
};
use crate::words::{normalize_apostrophes, normalized, CustomWordSet};

verus! {

/// A word reported as misspelled. `index` and `length` count UTF-16 code
/// units: where the word starts in the text, and how long it is.
#[derive(Debug, PartialEq, Eq)]
pub struct ReportedMatch {
    pub word: String,
    pub index: usize,
    pub length: usize,
}

/// What a `ReportedMatch` stands for.
pub struct MatchView {
    pub word: Seq<char>,
    pub index: int,
    pub length: int,
}

impl View for ReportedMatch {
    type V = MatchView;

    open spec fn view(&self) -> MatchView {
        MatchView { word: self.word@, index: self.index as int, length: self.length as int }
    }
}

impl Clone for ReportedMatch {
    fn clone(&self) -> (copy: Self)
        ensures
            copy@ == self@,
    {
        ReportedMatch { word: self.word.clone(), index: self.index, length: self.length }
    }
}

/// What a sequence of matches stands for.
pub open spec fn match_views(matches: Seq<ReportedMatch>) -> Seq<MatchView> {
    matches.map_values(|m: ReportedMatch| m@)
}

/// The match that reports a span of `text`: the index is the UTF-16 offset
/// of the span's start, the length is that of the word itself.
pub open spec fn match_of(text: Seq<char>, span: SpanView) -> MatchView {
    MatchView {
        word: span.text,
        index: utf16_offset(text, span.native_start) as int,
        length: utf16_len(span.text) as int,
    }
}

/// Whether a word is taken as correct: it is a custom word, or the
/// dictionary recognizes it as written or with straight apostrophes.
pub open spec fn is_accepted(
    custom: Seq<Seq<char>>,
    recognized: Set<Seq<char>>,
    word: Seq<char>,
) -> bool {
    custom.contains(word) || recognized.contains(word) || recognized.contains(normalized(word))
}

/// The matches that a scan reports for the given spans: one for each span
/// whose word is not accepted, in the order of the spans.
pub open spec fn reports(
    text: Seq<char>,
    custom: Seq<Seq<char>>,
    recognized: Set<Seq<char>>,
    spans: Seq<SpanView>,
) -> Seq<MatchView>
    decreases spans.len(),
{
    if spans.len() == 0 {
        Seq::empty()
    } else {
        let before = reports(text, custom, recognized, spans.drop_last());
        if is_accepted(custom, recognized, spans.last().text) {
            before
        } else {
            before.push(match_of(text, spans.last()))
        }
    }
}

/// The matches that a scan of `text` reports, where `custom` holds the
/// custom words and `recognized` the words that the dictionary recognizes.
pub open spec fn misspelled(
    text: Seq<char>,
    custom: Seq<Seq<char>>,
    recognized: Set<Seq<char>>,
) -> Seq<MatchView> {
    reports(text, custom, recognized, word_spans(text))
}

/// Whether reporting `spans` may ask the dictionary about `word`: it is
/// the word of a span, as written or with straight apostrophes, and the
/// word of that span is no custom word.
pub open spec fn may_be_asked(custom: Seq<Seq<char>>, spans: Seq<SpanView>, word: Seq<char>) -> bool {
    exists|k: int|
        0 <= k < spans.len() && !custom.contains((#[trigger] spans[k]).text) && (word
            == spans[k].text || word == normalized(spans[k].text))
}

/// Whether `check` answers for `dictionary` as a dictionary that
/// recognizes exactly the words of `recognized` does.
pub open spec fn answers_as<D, F: Fn(&D, &str) -> bool>(
    check: F,
    dictionary: &D,
    recognized: Set<Seq<char>>,
) -> bool {
    forall|word: &str, answer: bool| #[trigger]
        call_ensures(check, (dictionary, word), answer) ==> answer == recognized.contains(word@)
}

/// Whether `check` may give `answer` when it is asked about `word`.
pub open spec fn may_answer<D, F: Fn(&D, &str) -> bool>(
    check: F,
    dictionary: &D,
    word: Seq<char>,
    answer: bool,
) -> bool {
    exists|asked: &str| asked@ == word && #[trigger] call_ensures(check, (dictionary, asked), answer)
}

/// Whether a scan may take `word` as correct: it is a custom word, or
/// `check` may recognize it as written, or may refuse it as written and
/// recognize it with straight apostrophes.
pub open spec fn may_accept<D, F: Fn(&D, &str) -> bool>(
    check: F,
    dictionary: &D,
    custom: Seq<Seq<char>>,
    word: Seq<char>,
) -> bool {
    ||| custom.contains(word)
    ||| may_answer(check, dictionary, word, true)
    ||| (may_answer(check, dictionary, word, false) && may_answer(
        check,
        dictionary,
        normalized(word),
        true,
    ))
}

/// Whether a scan may report `word`: it is no custom word, and `check` may
/// refuse it both as written and with straight apostrophes.
pub open spec fn may_reject<D, F: Fn(&D, &str) -> bool>(
    check: F,
    dictionary: &D,
    custom: Seq<Seq<char>>,
    word: Seq<char>,
) -> bool {
    &&& !custom.contains(word)
    &&& may_answer(check, dictionary, word, false)
    &&& may_answer(check, dictionary, normalized(word), false)
}

/// Whether reporting `spans` may result in `outcome`: every span is either
/// taken as correct and left out, or refused and reported, and the matches
/// stand in the order of the spans.
pub open spec fn may_result_in<D, F: Fn(&D, &str) -> bool>(
    text: Seq<char>,
    custom: Seq<Seq<char>>,
    dictionary: &D,
    check: F,
    spans: Seq<SpanView>,
    outcome: Seq<MatchView>,
) -> bool
    decreases spans.len(),
{
    if spans.len() == 0 {
        outcome.len() == 0
    } else {
        ||| (may_accept(check, dictionary, custom, spans.last().text) && may_result_in(
            text,
            custom,
            dictionary,
            check,
            spans.drop_last(),
            outcome,
        ))
        ||| (outcome.len() > 0 && outcome.last() == match_of(text, spans.last()) && may_reject(
            check,
            dictionary,
            custom,
            spans.last().text,
        ) && may_result_in(text, custom, dictionary, check, spans.drop_last(), outcome.drop_last()))
    }
}

/// Whether `outcome` is what a scan of `text` may return: what reporting
/// the words of the text may result in, which is exactly the misspelled
/// words where `check` answers as a dictionary with a fixed set of words
/// does.
pub open spec fn is_scan_outcome<D, F: Fn(&D, &str) -> bool>(
    text: Seq<char>,
    custom: Seq<Seq<char>>,
    dictionary: &D,
    check: F,
    outcome: Seq<MatchView>,
) -> bool {
    &&& may_result_in(text, custom, dictionary, check, word_spans(text), outcome)
    &&& forall|recognized: Set<Seq<char>>| #[trigger]
        answers_as(check, dictionary, recognized) ==> outcome == misspelled(
            text,
            custom,
            recognized,
        )
}

/// Whether the spans start at character boundaries of `text`, none before
/// an earlier one.
pub open spec fn spans_in_order(text: Seq<char>, spans: Seq<SpanView>) -> bool {
    &&& forall|k: int| 0 <= k < spans.len() ==> is_boundary(text, (#[trigger] spans[k]).native_start)
    &&& forall|k: int, m: int|
        0 <= k <= m < spans.len() ==> (#[trigger] spans[k]).native_start <= (
        #[trigger] spans[m]).native_start
}

/// Against a dictionary that answers as a fixed set of words does, the
/// outcome is determined: the spans whose words are not accepted.
pub proof fn lemma_outcome_with_fixed_words<D, F: Fn(&D, &str) -> bool>(
    text: Seq<char>,
    custom: Seq<Seq<char>>,
    dictionary: &D,
    check: F,
    recognized: Set<Seq<char>>,
    spans: Seq<SpanView>,
    outcome: Seq<MatchView>,
)
    requires
        answers_as(check, dictionary, recognized),
        may_result_in(text, custom, dictionary, check, spans, outcome),
    ensures
        outcome == reports(text, custom, recognized, spans),
    decreases spans.len(),
{
    if spans.len() > 0 {
        let word = spans.last().text;
        let fewer = spans.drop_last();
        if may_accept(check, dictionary, custom, word) && may_result_in(
            text,
            custom,
            dictionary,
            check,
            fewer,
            outcome,
        ) {
            lemma_outcome_with_fixed_words(
                text,
                custom,
                dictionary,
                check,
                recognized,
                fewer,
                outcome,
            );
        } else {
            lemma_outcome_with_fixed_words(
                text,
                custom,
                dictionary,
                check,
                recognized,
                fewer,
                outcome.drop_last(),
            );
            assert(outcome =~= outcome.drop_last().push(outcome.last()));
        }
    } else {
        assert(outcome =~= Seq::<MatchView>::empty());
    }
}

/// Reports the spans whose words are not accepted. Each span is placed by
/// moving one cursor forward through `text`. `check` need only take the
/// words that may be asked: the dictionary is not asked on account of a
/// custom word, and about any other word first as written, then with
/// straight apostrophes.
pub fn report<D, F: Fn(&D, &str) -> bool>(
    text: &str,
    spans: &Vec<TextSpan>,
    custom_words: &CustomWordSet,
    dictionary: &D,
    check: F,
) -> (matches: Vec<ReportedMatch>)
    requires
        spans_in_order(text@, span_views(spans@)),
        forall|word: &str|
            may_be_asked(custom_words@, span_views(spans@), word@) ==> call_requires(
                check,
                (dictionary, word),
            ),
    ensures
        may_result_in(
            text@,
            custom_words@,
            dictionary,
            check,
            span_views(spans@),
            match_views(matches@),
        ),
        forall|recognized: Set<Seq<char>>| #[trigger]
            answers_as(check, dictionary, recognized) ==> match_views(matches@) == reports(
                text@,
                custom_words@,
                recognized,
                span_views(spans@),
            ),
        matches@.len() <= spans@.len(),
{
    let mut matches: Vec<ReportedMatch> = Vec::new();
    let mut cursor = ScanCursor::new();
    let mut k: usize = 0;
    let ghost all = span_views(spans@);
    let ghost custom = custom_words@;
    proof {
        assert(all.take(0) =~= Seq::<SpanView>::empty());
        assert(match_views(matches@) =~= Seq::<MatchView>::empty());
    }
    while k < spans.len()
        invariant
            k <= spans.len(),
            all == span_views(spans@),
            custom == custom_words@,
            spans_in_order(text@, all),
            forall|word: &str|
                may_be_asked(custom, all, word@) ==> call_requires(check, (dictionary, word)),
            cursor.tracks(text@),
            k == 0 ==> cursor.native_pos == 0,
            k > 0 ==> cursor.native_pos == spans[k - 1].native_start,
            matches@.len() <= k,
            may_result_in(
                text@,
                custom,
                dictionary,
                check,
                all.take(k as int),
                match_views(matches@),
            ),
        decreases spans.len() - k,
    {
        let span = spans[k];
        let ghost seen = match_views(matches@);
        proof {
            assert(all[k as int] == span@);
            if k > 0 {
                assert(all[k - 1] == spans@[k - 1]@);
            }
            assert(all.take(k + 1).drop_last() =~= all.take(k as int));
            assert(all.take(k + 1).last() == span@);
        }
        let index = cursor.advance_to(text, span.native_start);
        let word = span.text;
        let mut misspelt = false;
        if !custom_words.contains(word) {
            assert(may_be_asked(custom, all, word@));
            let as_written = check(dictionary, word);
            assert(may_answer(check, dictionary, word@, as_written));
            if !as_written {
                let straight = normalize_apostrophes(word);
                assert(may_be_asked(custom, all, straight@));
                let with_straight = check(dictionary, straight.as_str());
                assert(may_answer(check, dictionary, normalized(word@), with_straight));
                misspelt = !with_straight;
            }
        }
        if misspelt {
            let length = utf16_length(word);
            matches.push(ReportedMatch { word: word.to_owned(), index, length });
            proof {
                assert(match_views(matches@) =~= seen.push(match_of(text@, span@)));
                assert(match_views(matches@).drop_last() =~= seen);
            }
        }
        k = k + 1;
    }
    proof {
        assert(all.take(k as int) =~= all);
        assert forall|recognized: Set<Seq<char>>| #[trigger]
            answers_as(check, dictionary, recognized) implies match_views(matches@) == reports(
            text@,
            custom,
            recognized,
            all,
        ) by {
            lemma_outcome_with_fixed_words(
                text@,
                custom,
                dictionary,
                check,
                recognized,
                all,
                match_views(matches@),
            );
        }
    }
    matches
}

/// Scans a text: finds its words and reports, in the order of the text,
/// those that are neither custom words nor accepted by the dictionary.
/// `check` asks `dictionary` whether it recognizes a word; it need only
/// take the words that may be asked. A text without words has no matches.
pub fn scan<D, F: Fn(&D, &str) -> bool>(
    text: &str,
    custom_words: &CustomWordSet,
    dictionary: &D,
    check: F,
) -> (matches: Vec<ReportedMatch>)
    requires
        forall|word: &str|
            may_be_asked(custom_words@, word_spans(text@), word@) ==> call_requires(
                check,
                (dictionary, word),
            ),
    ensures
        is_scan_outcome(text@, custom_words@, dictionary, check, match_views(matches@)),
        matches@.len() <= word_spans(text@).len(),
        text@.len() == 0 ==> matches@.len() == 0,
{
    let spans = tokenize(text);
    proof {
        lemma_word_spans(text@);
    }
    report(text, &spans, custom_words, dictionary, check)
}

/// The match that reports the word at the character positions `run` of
/// `text`: it starts where the UTF-16 encoding of the characters before
/// the word ends.
pub open spec fn match_at(text: Seq<char>, run: (int, int)) -> MatchView {
    MatchView {
        word: text.subrange(run.0, run.1),
        index: utf16_len(text.take(run.0)) as int,
        length: utf16_len(text.subrange(run.0, run.1)) as int,
    }
}

/// Whether `m` reports run `j` of `runs`.
pub open spec fn reports_run(text: Seq<char>, m: MatchView, runs: Seq<(int, int)>, j: int) -> bool {
    0 <= j < runs.len() && m == match_at(text, runs[j])
}

/// Whether `m` reports one of the first `n` runs of `runs`.
pub open spec fn reports_run_before(
    text: Seq<char>,
    m: MatchView,
    runs: Seq<(int, int)>,
    n: int,
) -> bool {
    exists|j: int| j < n && #[trigger] reports_run(text, m, runs, j)
}

/// Whether `m` reports one of the words of `text`: the word's characters,
/// the UTF-16 length of the text before it, and its own UTF-16 length.
pub open spec fn reports_word(text: Seq<char>, m: MatchView) -> bool {
    reports_run_before(
        text,
        m,
        word_runs(kinds_of(text)),
        word_runs(kinds_of(text)).len() as int,
    )
}

/// Whether `part` can be had from `whole` by leaving items out.
pub open spec fn is_selection_of<T>(part: Seq<T>, whole: Seq<T>) -> bool
    decreases whole.len(),
{
    if whole.len() == 0 {
        part.len() == 0
    } else {
        ||| is_selection_of(part, whole.drop_last())
        ||| (part.len() > 0 && part.last() == whole.last() && is_selection_of(
            part.drop_last(),
            whole.drop_last(),
        ))
    }
}

/// Whether the items `k` and `m` of `part` are the items `j` and `l` of
/// `whole`, in the same order.
pub open spec fn picked_from<T>(part: Seq<T>, whole: Seq<T>, k: int, m: int, j: int, l: int) -> bool {
    &&& 0 <= j <= l < whole.len()
    &&& part[k] == whole[j]
    &&& part[m] == whole[l]
    &&& (k < m ==> j < l)
}

/// Placing a word by the byte offset of its span gives the UTF-16 length
/// of the characters before it, and index and length together give the
/// UTF-16 length of the text up to the word's end.
pub proof fn lemma_match_of_span(text: Seq<char>, run: (int, int))
    requires
        0 <= run.0 <= run.1 <= text.len(),
    ensures
        match_of(text, span_at(text, run)) == match_at(text, run),
        match_at(text, run).index + match_at(text, run).length == utf16_len(text.take(run.1)),
        utf16_offset(
            text,
            span_at(text, run).native_start + span_at(text, run).native_length,
        ) == utf16_len(text.take(run.1)),
{
    lemma_chars_before(text, run.0);
    lemma_chars_before(text, run.1);
    lemma_prefix_monotonic(text, run.0, run.1);
}

proof fn lemma_reports_of_prefix(
    text: Seq<char>,
    custom: Seq<Seq<char>>,
    recognized: Set<Seq<char>>,
    n: int,
)
    requires
        0 <= n <= word_spans(text).len(),
    ensures
        ({
            let r = reports(text, custom, recognized, word_spans(text).take(n));
            let runs = word_runs(kinds_of(text));
            &&& forall|k: int|
                0 <= k < r.len() ==> reports_run_before(text, #[trigger] r[k], runs, n)
            &&& forall|k: int, m: int|
                0 <= k < m < r.len() ==> (#[trigger] r[k]).index + r[k].length < (
                #[trigger] r[m]).index
            &&& n > 0 ==> forall|k: int|
                0 <= k < r.len() ==> (#[trigger] r[k]).index + r[k].length <= utf16_len(
                    text.take(runs[n - 1].1),
                )
        }),
    decreases n,
{
    let kinds = kinds_of(text);
    let runs = word_runs(kinds);
    let spans = word_spans(text);
    let r = reports(text, custom, recognized, spans.take(n));
    if n > 0 {
        let run = runs[n - 1];
        let earlier = reports(text, custom, recognized, spans.take(n - 1));
        let end = utf16_len(text.take(run.1));
        lemma_reports_of_prefix(text, custom, recognized, n - 1);
        lemma_word_runs(kinds);
        assert(is_maximal_run(kinds, run.0, run.1));
        lemma_match_of_span(text, run);
        lemma_prefix_monotonic(text, run.0, run.1);
        assert(spans.take(n).drop_last() =~= spans.take(n - 1));
        assert(spans.take(n).last() == span_at(text, run));
        assert(r == earlier || r == earlier.push(match_at(text, run)));
        assert forall|k: int| 0 <= k < earlier.len() implies (#[trigger] earlier[k]).index
            + earlier[k].length < match_at(text, run).index by {
            assert(n > 1);
            assert(runs[n - 2].1 < run.0);
            lemma_prefix_monotonic(text, runs[n - 2].1, run.0);
        }
        assert forall|k: int| 0 <= k < r.len() implies reports_run_before(
            text,
            #[trigger] r[k],
            runs,
            n,
        ) by {
            if k < earlier.len() {
                assert(r[k] == earlier[k]);
                assert(reports_run_before(text, earlier[k], runs, n - 1));
                let j = choose|j: int|
                    j < n - 1 && #[trigger] reports_run(text, earlier[k], runs, j);
                assert(reports_run(text, r[k], runs, j));
            } else {
                assert(reports_run(text, r[k], runs, n - 1));
            }
        }
        assert forall|k: int, m: int| 0 <= k < m < r.len() implies (#[trigger] r[k]).index
            + r[k].length < (#[trigger] r[m]).index by {
            assert(r[k] == earlier[k]);
            if m < earlier.len() {
                assert(r[m] == earlier[m]);
            }
        }
        assert forall|k: int| 0 <= k < r.len() implies (#[trigger] r[k]).index + r[k].length
            <= end by {
            if k < earlier.len() {
                assert(r[k] == earlier[k]);
            }
        }
    } else {
        assert(spans.take(0).len() == 0);
        assert(r =~= Seq::<MatchView>::empty());
    }
}

/// Matches are reported in the order of the text and never overlap: each
/// ends before the next one starts.
pub proof fn lemma_matches_in_order(
    text: Seq<char>,
    custom: Seq<Seq<char>>,
    recognized: Set<Seq<char>>,
)
    ensures
        forall|k: int, m: int|
            0 <= k < m < misspelled(text, custom, recognized).len() ==> (#[trigger] misspelled(
                text,
                custom,
                recognized,
            )[k]).index + misspelled(text, custom, recognized)[k].length < (#[trigger] misspelled(
                text,
                custom,
                recognized,
            )[m]).index,
{
    let spans = word_spans(text);
    let r = misspelled(text, custom, recognized);
    lemma_reports_of_prefix(text, custom, recognized, spans.len() as int);
    assert(spans.take(spans.len() as int) =~= spans);
    assert(r == reports(text, custom, recognized, spans.take(spans.len() as int)));
}

/// Every match reports one of the words of the text: its index is the
/// number of UTF-16 code units of the text before the word, its length
/// that of the word.
pub proof fn lemma_matches_report_words(
    text: Seq<char>,
    custom: Seq<Seq<char>>,
    recognized: Set<Seq<char>>,
)
    ensures
        forall|k: int|
            0 <= k < misspelled(text, custom, recognized).len() ==> reports_word(
                text,
                #[trigger] misspelled(text, custom, recognized)[k],
            ),
{
    let spans = word_spans(text);
    let r = misspelled(text, custom, recognized);
    let runs = word_runs(kinds_of(text));
    lemma_reports_of_prefix(text, custom, recognized, spans.len() as int);
    assert(spans.take(spans.len() as int) =~= spans);
    assert(r == reports(text, custom, recognized, spans.take(spans.len() as int)));
    assert(runs.len() == spans.len());
}

/// No accepted word is reported, whatever the spans are: neither a custom
/// word, whatever the dictionary holds, nor a word that the dictionary
/// recognizes.
pub proof fn lemma_accepted_never_reported(
    text: Seq<char>,
    custom: Seq<Seq<char>>,
    recognized: Set<Seq<char>>,
    spans: Seq<SpanView>,
)
    ensures
        forall|k: int|
            0 <= k < reports(text, custom, recognized, spans).len() ==> !is_accepted(
                custom,
                recognized,
                (#[trigger] reports(text, custom, recognized, spans)[k]).word,
            ),
    decreases spans.len(),
{
    let r = reports(text, custom, recognized, spans);
    if spans.len() > 0 {
        let earlier = reports(text, custom, recognized, spans.drop_last());
        lemma_accepted_never_reported(text, custom, recognized, spans.drop_last());
        assert forall|k: int| 0 <= k < r.len() implies !is_accepted(
            custom,
            recognized,
            (#[trigger] r[k]).word,
        ) by {
            if k < earlier.len() {
                assert(r[k] == earlier[k]);
            }
        }
    }
}

/// A custom word is never reported, whatever the dictionary recognizes.
pub proof fn lemma_custom_never_reported(
    text: Seq<char>,
    custom: Seq<Seq<char>>,
    recognized: Set<Seq<char>>,
)
    ensures
        forall|k: int|
            0 <= k < misspelled(text, custom, recognized).len() ==> !custom.contains(
                (#[trigger] misspelled(text, custom, recognized)[k]).word,
            ),
{
    lemma_accepted_never_reported(text, custom, recognized, word_spans(text));
}

/// The dictionary is not asked on account of custom words: where every
/// word of the spans is a custom word, no word may be asked.
pub proof fn lemma_custom_words_not_asked(
    custom: Seq<Seq<char>>,
    spans: Seq<SpanView>,
    word: Seq<char>,
)
    requires
        forall|k: int| 0 <= k < spans.len() ==> custom.contains((#[trigger] spans[k]).text),
    ensures
        !may_be_asked(custom, spans, word),
{
}

/// A word and its form with straight apostrophes are accepted alike where
/// the dictionary recognizes the straight form, or where the straight form
/// is a custom word exactly when the word as written is a custom word or
/// recognized by the dictionary.
pub proof fn lemma_apostrophe_forms(
    custom: Seq<Seq<char>>,
    recognized: Set<Seq<char>>,
    word: Seq<char>,
)
    requires
        recognized.contains(normalized(word)) || (custom.contains(normalized(word)) == (
        custom.contains(word) || recognized.contains(word))),
    ensures
        is_accepted(custom, recognized, word) == is_accepted(
            custom,
            recognized,
            normalized(word),
        ),
{
    assert(normalized(normalized(word)) =~= normalized(word));
}

/// Any two items of a selection are items of the whole, in the same order.
pub proof fn lemma_selection_keeps_order<T>(part: Seq<T>, whole: Seq<T>, k: int, m: int)
    requires
        is_selection_of(part, whole),
        0 <= k <= m < part.len(),
    ensures
        exists|j: int, l: int| picked_from(part, whole, k, m, j, l),
    decreases whole.len(),
{
    let fewer = whole.drop_last();
    if is_selection_of(part, fewer) {
        lemma_selection_keeps_order(part, fewer, k, m);
        let (j, l) = choose|j: int, l: int| picked_from(part, fewer, k, m, j, l);
        assert(picked_from(part, whole, k, m, j, l));
    } else if m < part.len() - 1 {
        lemma_selection_keeps_order(part.drop_last(), fewer, k, m);
        let (j, l) = choose|j: int, l: int| picked_from(part.drop_last(), fewer, k, m, j, l);
        assert(picked_from(part, whole, k, m, j, l));
    } else if k < m {
        lemma_selection_keeps_order(part.drop_last(), fewer, k, k);
        let (j, l) = choose|j: int, l: int| picked_from(part.drop_last(), fewer, k, k, j, l);
        assert(picked_from(part, whole, k, m, j, whole.len() - 1));
    } else {
        assert(picked_from(part, whole, k, m, whole.len() - 1, whole.len() - 1));
    }
}

/// Whatever the dictionary answers, the outcome is a selection of the
/// spans whose words are not custom words.
pub proof fn lemma_outcome_is_selection<D, F: Fn(&D, &str) -> bool>(
    text: Seq<char>,
    custom: Seq<Seq<char>>,
    dictionary: &D,
    check: F,
    spans: Seq<SpanView>,
    outcome: Seq<MatchView>,
)
    requires
        may_result_in(text, custom, dictionary, check, spans, outcome),
    ensures
        is_selection_of(outcome, reports(text, custom, Set::empty(), spans)),
    decreases spans.len(),
{
    if spans.len() > 0 {
        let none = Set::<Seq<char>>::empty();
        let word = spans.last().text;
        let fewer = spans.drop_last();
        let whole = reports(text, custom, none, spans);
        if !custom.contains(word) {
            assert(whole.drop_last() =~= reports(text, custom, none, fewer));
        }
        if may_accept(check, dictionary, custom, word) && may_result_in(
            text,
            custom,
            dictionary,
            check,
            fewer,
            outcome,
        ) {
            lemma_outcome_is_selection(text, custom, dictionary, check, fewer, outcome);
        } else {
            lemma_outcome_is_selection(
                text,
                custom,
                dictionary,
                check,
                fewer,
                outcome.drop_last(),
            );
        }
    }
}

/// Whatever the dictionary answers, a scan reports words of the text, each
/// at the UTF-16 offset of its start, none of them a custom word, in the
/// order of the text and without overlap.
pub proof fn lemma_scan_outcome<D, F: Fn(&D, &str) -> bool>(
    text: Seq<char>,
    custom: Seq<Seq<char>>,
    dictionary: &D,
    check: F,
    outcome: Seq<MatchView>,
)
    requires
        is_scan_outcome(text, custom, dictionary, check, outcome),
    ensures
        forall|k: int| 0 <= k < outcome.len() ==> reports_word(text, #[trigger] outcome[k]),
        forall|k: int| 0 <= k < outcome.len() ==> !custom.contains((#[trigger] outcome[k]).word),
        forall|k: int, m: int|
            0 <= k < m < outcome.len() ==> (#[trigger] outcome[k]).index + outcome[k].length < (
            #[trigger] outcome[m]).index,
{
    let none = Set::<Seq<char>>::empty();
    let whole = misspelled(text, custom, none);
    lemma_outcome_is_selection(text, custom, dictionary, check, word_spans(text), outcome);
    lemma_matches_in_order(text, custom, none);
    lemma_matches_report_words(text, custom, none);
    lemma_custom_never_reported(text, custom, none);
    assert forall|k: int| 0 <= k < outcome.len() implies reports_word(text, #[trigger] outcome[k])
        && !custom.contains(outcome[k].word) by {
        lemma_selection_keeps_order(outcome, whole, k, k);
        let (j, l) = choose|j: int, l: int| picked_from(outcome, whole, k, k, j, l);
        assert(outcome[k] == whole[j]);
    }
    assert forall|k: int, m: int| 0 <= k < m < outcome.len() implies (#[trigger] outcome[k]).index
        + outcome[k].length < (#[trigger] outcome[m]).index by {
        lemma_selection_keeps_order(outcome, whole, k, m);
        let (j, l) = choose|j: int, l: int| picked_from(outcome, whole, k, m, j, l);
        assert(outcome[k] == whole[j] && outcome[m] == whole[l]);
    }
}

/// Two scans of one text with the same custom words, against a dictionary
/// that answers as a fixed set of words does, report the same matches in
/// the same order.
pub proof fn lemma_scan_repeatable<D, F: Fn(&D, &str) -> bool>(
    text: Seq<char>,
    custom: Seq<Seq<char>>,
    dictionary: &D,
    check: F,
    recognized: Set<Seq<char>>,
    first: Seq<MatchView>,
    second: Seq<MatchView>,
)
    requires
        answers_as(check, dictionary, recognized),
        is_scan_outcome(text, custom, dictionary, check, first),
        is_scan_outcome(text, custom, dictionary, check, second),
    ensures
        first == second,
        first == misspelled(text, custom, recognized),
{
}

} // verus!
