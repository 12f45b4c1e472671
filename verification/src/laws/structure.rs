//! How documents are built: paragraphs, their endings, lists and closings.
use vstd::prelude::*;

use crate::bounds::{blank_line_end, paragraphs_from, paragraphs_of, trim_line_end, Bound};
use crate::chars::whitespace;
use crate::emit::ByteRange;
use crate::grammar::ai_structure::{
    binary_contrast, contrasts, dash_overuse, first_where, formulaic_ending, formulaic_endings,
    heavy_dashes, list_density, live, live_paragraphs, live_spans, paragraph_endings,
    sentence_contrasts, span_contrasts, tail_start, CONCESSIVE_STARTS, ENDING_PATTERNS,
    PROGRESSIVE_STARTS,
};
use crate::grammar::closer::{
    closes_section, closing_hit, closing_phrases, closings, heading_line, heading_sentence,
    in_heading, next_line, run_end, FORMULAIC_ENDINGS, LINE_BREAKS,
};
use crate::issue::StructuralFamily;
use crate::laws::reading::{
    absent, lemma_count_all, lemma_first_entry, lemma_first_read, lemma_hits_first, lemma_next_is,
    lemma_read_found, lemma_reads, lemma_untouched, reads, untouched,
};
use crate::lines::{skip_white, trimmed};
use crate::text::{
    after_last, any_in, byte_pos, first_entry_in, lemma_byte_pos_monotone, lemma_floor_bounds,
    next_of,
};
use crate::walk::{each, lemma_each_contains, style_reported};

verus! {

/// The characters are on one line.
pub open spec fn one_line(t: Seq<char>, from: int, to: int) -> bool {
    forall|q: int| from <= q < to ==> #[trigger] t[q] != '\n' && t[q] != '\r'
}

/// A blank line divides two paragraphs, whichever of the two ways it is written,
/// and neither takes in a line end.
pub proof fn law_a_blank_line_divides(t: Seq<char>, a: int, b: int)
    requires
        0 < a < b < t.len(),
        one_line(t, 0, a),
        one_line(t, b, t.len() as int),
        (b == a + 2 && t[a] == '\n' && t[a + 1] == '\n') || (b == a + 3 && t[a] == '\n' && t[a + 1]
            == '\r' && t[a + 2] == '\n'),
    ensures
        paragraphs_of(t) =~= seq![(0int, a), (b, t.len() as int)],
{
    lemma_paragraph_upto(t, 0, 0, a);
    assert(blank_line_end(t, a) == Some(b));
    assert(trim_line_end(t, 0, a) == a) by {
        assert(t[a - 1] != '\n' && t[a - 1] != '\r');
    }
    lemma_paragraph_rest(t, b, b);
}

/// A line end alone does not divide.
pub proof fn law_a_line_end_does_not_divide(t: Seq<char>, a: int)
    requires
        0 < a,
        a + 1 < t.len(),
        one_line(t, 0, a),
        t[a] == '\n',
        one_line(t, a + 1, t.len() as int),
    ensures
        paragraphs_of(t) =~= seq![(0int, t.len() as int)],
{
    lemma_paragraph_upto(t, 0, 0, a);
    assert(t[a + 1] != '\n' && t[a + 1] != '\r');
    assert(blank_line_end(t, a) is None);
    lemma_paragraph_on(t, 0, a + 1);
}

proof fn lemma_paragraph_upto(t: Seq<char>, prev: int, i: int, a: int)
    requires
        0 <= i <= a < t.len(),
        one_line(t, i, a),
    ensures
        paragraphs_from(t, prev, i) == paragraphs_from(t, prev, a),
    decreases a - i,
{
    if i < a {
        assert(t[i] != '\n');
        lemma_paragraph_upto(t, prev, i + 1, a);
    }
}

proof fn lemma_paragraph_rest(t: Seq<char>, prev: int, i: int)
    requires
        0 <= prev <= i <= t.len(),
        prev < t.len(),
        one_line(t, prev, t.len() as int),
    ensures
        paragraphs_from(t, prev, i) == seq![(prev, t.len() as int)],
    decreases t.len() - i,
{
    if i < t.len() {
        assert(t[i] != '\n');
        lemma_paragraph_rest(t, prev, i + 1);
    } else {
        assert(t[t.len() - 1] != '\n' && t[t.len() - 1] != '\r');
    }
}

proof fn lemma_paragraph_on(t: Seq<char>, prev: int, i: int)
    requires
        0 <= prev < i <= t.len(),
        one_line(t, i, t.len() as int),
        t[t.len() - 1] != '\n' && t[t.len() - 1] != '\r',
    ensures
        paragraphs_from(t, prev, i) == seq![(prev, t.len() as int)],
    decreases t.len() - i,
{
    if i < t.len() {
        assert(t[i] != '\n');
        lemma_paragraph_on(t, prev, i + 1);
    }
}

/// Where nothing is excluded, every paragraph that begins with a character other
/// than white space counts.
pub proof fn lemma_all_live(t: Seq<char>, p: Seq<(int, int)>, n: int)
    requires
        0 <= n <= p.len(),
        forall|k: int|
            0 <= k < p.len() ==> 0 <= (#[trigger] p[k]).0 < p[k].1 <= t.len() && !whitespace(
                t[p[k].0],
            ),
    ensures
        live_spans(t, Seq::empty(), p, n) =~= p.take(n),
    decreases n,
{
    if n > 0 {
        lemma_all_live(t, p, n - 1);
        assert(!whitespace(t[p[n - 1].0]));
        assert(skip_white(t, p[n - 1].0, p[n - 1].1) == p[n - 1].0);
        assert(live(t, Seq::empty(), p[n - 1]));
    }
}

/// A document of five or more paragraphs, every one of which ends on 由此可見 or on
/// 的基礎, is reported on the first.
pub proof fn law_formulaic_endings_are_reported(t: Seq<char>, x: Seq<char>)
    requires
        x == seq!['由', '此', '可', '見'] || x == seq!['的', '基', '礎'],
        paragraphs_of(t).len() >= 5,
        forall|k: int|
            0 <= k < paragraphs_of(t).len() ==> {
                let s = #[trigger] paragraphs_of(t)[k];
                0 <= s.0 <= s.1 - x.len() && s.1 <= t.len() && !whitespace(t[s.0]) && reads(
                    t,
                    s.1 - x.len(),
                    x,
                )
            },
    ensures
        style_reported(
            paragraph_endings(t, Seq::empty()),
            byte_pos(t, paragraphs_of(t)[0].0),
            byte_pos(t, paragraphs_of(t)[0].0),
            Some(StructuralFamily::ParagraphEndings),
        ),
{
    let p = paragraphs_of(t);
    lemma_all_live(t, p, p.len() as int);
    assert(p.take(p.len() as int) =~= p);
    assert(live_paragraphs(t, Seq::empty()) == p);
    let f = formulaic_endings(t, p);
    assert forall|k: int| 0 <= k < p.len() implies #[trigger] f(k) by {
        lemma_ends_on(t, p[k], x);
    }
    lemma_count_all(0, p.len() as int, f);
    assert(f(0));
    assert(first_where(0, p.len() as int, f) == 0);
    assert(paragraph_endings(t, Seq::empty())[0].offset == byte_pos(t, p[0].0));
}

proof fn lemma_ends_on(t: Seq<char>, s: (int, int), x: Seq<char>)
    requires
        x == seq!['由', '此', '可', '見'] || x == seq!['的', '基', '礎'],
        0 <= s.0 <= s.1 - x.len(),
        s.1 <= t.len(),
        !whitespace(t[s.0]),
        reads(t, s.1 - x.len(), x),
    ensures
        formulaic_ending(t, s),
{
    reveal_strlit("由此可見");
    reveal_strlit("的基礎");
    assert(ENDING_PATTERNS@[0]@ =~= seq!['的', '基', '礎']);
    assert(ENDING_PATTERNS@[9]@ =~= seq!['由', '此', '可', '見']);
    let n = x.len() as int;
    let at = s.1 - n;
    assert(t[at + (n - 1)] == x[n - 1]);
    assert(!whitespace(t[s.1 - 1]));
    assert(trimmed(t, s.0, s.1) == s);
    lemma_byte_pos_monotone(t, at, s.1);
    lemma_byte_pos_monotone(t, s.0, at);
    let tail = tail_start(t, s.0, s.1);
    if byte_pos(t, s.1) - byte_pos(t, s.0) > 90 {
        lemma_floor_bounds(t, byte_pos(t, s.1) - 90, s.0, at);
    }
    assert(s.0 <= tail <= at);
    if n == 4 {
        lemma_read_found(t, ENDING_PATTERNS@[9]@, tail, s.1, at);
    } else {
        lemma_read_found(t, ENDING_PATTERNS@[0]@, tail, s.1, at);
    }
    assert(any_in(t, ENDING_PATTERNS@, tail, s.1));
}

/// A document of fewer than five paragraphs is judged neither for its endings nor
/// for its lists.
pub proof fn law_short_documents_are_not_judged(t: Seq<char>, ex: Seq<ByteRange>, percent: int)
    requires
        paragraphs_of(t).len() < 5,
    ensures
        paragraph_endings(t, ex).len() == 0,
        list_density(t, ex, percent).len() == 0,
{
    lemma_fewer_live(t, ex, paragraphs_of(t), paragraphs_of(t).len() as int);
}

proof fn lemma_fewer_live(t: Seq<char>, ex: Seq<ByteRange>, p: Seq<(int, int)>, n: int)
    requires
        0 <= n <= p.len(),
    ensures
        live_spans(t, ex, p, n).len() <= n,
    decreases n,
{
    if n > 0 {
        lemma_fewer_live(t, ex, p, n - 1);
    }
}

/// A document of three or more paragraphs, every one of which holds three dashes,
/// is reported on the first; one without dashes is not.
pub proof fn law_dashes_of_a_document_are_counted(t: Seq<char>, at: Seq<(int, int, int)>)
    requires
        paragraphs_of(t).len() >= 3,
        at.len() == paragraphs_of(t).len(),
        forall|k: int|
            0 <= k < at.len() ==> {
                let s = #[trigger] paragraphs_of(t)[k];
                let (a, b, c) = at[k];
                &&& 0 <= s.0 <= a < b < c < s.1 <= t.len()
                &&& !whitespace(t[s.0])
                &&& t[a] == '—' && t[b] == '—' && t[c] == '—'
                &&& forall|q: int|
                    s.0 <= q < c && q != a && q != b ==> #[trigger] t[q] != '—'
            },
    ensures
        style_reported(
            dash_overuse(t, Seq::empty()),
            byte_pos(t, paragraphs_of(t)[0].0),
            byte_pos(t, paragraphs_of(t)[0].0),
            Some(StructuralFamily::DashOveruse),
        ),
{
    let ex = Seq::<ByteRange>::empty();
    let p = paragraphs_of(t);
    assert forall|k: int| 0 <= k < p.len() implies 0 <= (#[trigger] p[k]).0 < p[k].1 <= t.len()
        && !whitespace(t[p[k].0]) by {
        let (a, b, c) = at[k];
    }
    lemma_all_live(t, p, p.len() as int);
    assert(p.take(p.len() as int) =~= p);
    let f = heavy_dashes(t, ex, p);
    assert forall|k: int| 0 <= k < p.len() implies #[trigger] f(k) by {
        let (a, b, c) = at[k];
        let s = p[k];
        reveal_strlit("—");
        let x = seq!['—'];
        assert("—"@ =~= x);
        crate::laws::reading::lemma_absent_char(t, '—', s.0, a);
        crate::laws::reading::lemma_absent_char(t, '—', a + 1, b);
        crate::laws::reading::lemma_absent_char(t, '—', b + 1, c);
        assert(reads(t, a, x) && reads(t, b, x) && reads(t, c, x));
        lemma_hits_first(t, ex, x, s.0, s.1, a);
        lemma_hits_first(t, ex, x, a + 1, s.1, b);
        lemma_hits_first(t, ex, x, b + 1, s.1, c);
    }
    lemma_count_all(0, p.len() as int, f);
    assert(f(0));
    assert(first_where(0, p.len() as int, f) == 0);
    assert(dash_overuse(t, ex)[0].offset == byte_pos(t, p[0].0));
}

/// A text in which no word stands that opens a contrast holds none.
pub proof fn law_no_contrast_without_its_words(t: Seq<char>, ex: Seq<ByteRange>, percent: int)
    requires
        forall|q: int|
            0 <= q < t.len() ==> #[trigger] t[q] != '雖' && t[q] != '儘' && t[q] != '即' && t[q]
                != '不',
        forall|k: int|
            0 <= k < paragraphs_of(t).len() ==> 0 <= (#[trigger] paragraphs_of(t)[k]).0
                <= paragraphs_of(t)[k].1 <= t.len(),
    ensures
        binary_contrast(t, ex, percent).len() == 0,
{
    lemma_no_contrasts(t, ex, paragraphs_of(t), paragraphs_of(t).len() as int);
}

proof fn lemma_no_contrasts(t: Seq<char>, ex: Seq<ByteRange>, p: Seq<(int, int)>, n: int)
    requires
        0 <= n <= p.len(),
        forall|q: int|
            0 <= q < t.len() ==> #[trigger] t[q] != '雖' && t[q] != '儘' && t[q] != '即' && t[q]
                != '不',
        forall|k: int| 0 <= k < p.len() ==> 0 <= (#[trigger] p[k]).0 <= p[k].1 <= t.len(),
    ensures
        contrasts(t, ex, p, n).len() == 0,
    decreases n,
{
    if n > 0 {
        lemma_no_contrasts(t, ex, p, n - 1);
        lemma_no_span_contrasts(t, ex, p[n - 1].0, p[n - 1].1);
    }
}

proof fn lemma_no_span_contrasts(t: Seq<char>, ex: Seq<ByteRange>, from: int, to: int)
    requires
        0 <= from <= to <= t.len(),
        forall|q: int|
            0 <= q < t.len() ==> #[trigger] t[q] != '雖' && t[q] != '儘' && t[q] != '即' && t[q]
                != '不',
    ensures
        span_contrasts(t, ex, from, to).len() == 0,
    decreases to - from,
{
    let end = next_of(t, crate::grammar::ai_structure::CONTRAST_MARKS@, from, to);
    if from <= end < to {
        lemma_no_sentence_contrasts(t, ex, from, end);
        lemma_no_span_contrasts(t, ex, end + 1, to);
    } else {
        lemma_no_sentence_contrasts(t, ex, from, to);
    }
}

proof fn lemma_no_sentence_contrasts(t: Seq<char>, ex: Seq<ByteRange>, from: int, to: int)
    requires
        0 <= from <= to <= t.len(),
        forall|q: int|
            0 <= q < t.len() ==> #[trigger] t[q] != '雖' && t[q] != '儘' && t[q] != '即' && t[q]
                != '不',
    ensures
        sentence_contrasts(t, ex, from, to).len() == 0,
{
    reveal_strlit("雖然");
    reveal_strlit("儘管");
    reveal_strlit("即便");
    reveal_strlit("即使");
    reveal_strlit("不僅");
    reveal_strlit("不只");
    reveal_strlit("不單");
    assert(CONCESSIVE_STARTS@.len() == 4);
    assert(PROGRESSIVE_STARTS@.len() == 3);
    lemma_first_entry(t, CONCESSIVE_STARTS@, 0, from, to);
    lemma_first_entry(t, PROGRESSIVE_STARTS@, 0, from, to);
    if let Some((c, q)) = first_entry_in(t, CONCESSIVE_STARTS@, 0, from, to) {
        let x = CONCESSIVE_STARTS@[c]@;
        lemma_reads(t, q, x);
        assert(x.len() == 2);
        assert(t[q + 0] == x[0]);
    }
    if let Some((c, q)) = first_entry_in(t, PROGRESSIVE_STARTS@, 0, from, to) {
        let x = PROGRESSIVE_STARTS@[c]@;
        lemma_reads(t, q, x);
        assert(x.len() == 2);
        assert(t[q + 0] == x[0]);
    }
}

proof fn lemma_line_breaks(c: char)
    ensures
        LINE_BREAKS@.contains(c) == (c == '\n' || c == '\r'),
{
    assert(LINE_BREAKS@.len() == 2 && LINE_BREAKS@[0] == '\n' && LINE_BREAKS@[1] == '\r');
    if LINE_BREAKS@.contains(c) {
        let i = choose|i: int| 0 <= i < LINE_BREAKS@.len() && LINE_BREAKS@[i] == c;
        assert(i == 0 || i == 1);
    }
}

/// 展望未來, 拭目以待, 值得期待 or another closing formula in the last sentence of a
/// document of one line that is no heading is reported where it stands for the
/// first time.
pub proof fn law_closing_formulas_are_reported(
    t: Seq<char>,
    ex: Seq<ByteRange>,
    blocks: Option<Seq<usize>>,
    sentences: Seq<Bound>,
    j: int,
    n: int,
    p: int,
)
    requires
        0 <= j < sentences.len(),
        sentences[j].start < sentences[j].end,
        sentences[j].end == t.len(),
        one_line(t, 0, t.len() as int),
        t[0] != ' ' && t[0] != '#',
        t[sentences[j].start as int] != ' ' && t[sentences[j].start as int] != '#',
        0 <= n < 25,
        sentences[j].start <= p,
        reads(t, p, FORMULAIC_ENDINGS@[n]@),
        absent(t, FORMULAIC_ENDINGS@[n]@, sentences[j].start as int, p),
        untouched(t, ex, p, p + FORMULAIC_ENDINGS@[n]@.len()),
    ensures
        style_reported(
            closings(t, ex, blocks, sentences, j, j + 1),
            byte_pos(t, p),
            byte_pos(t, p + FORMULAIC_ENDINGS@[n]@.len()),
            Some(StructuralFamily::FormulaicClosing),
        ),
{
    let (from, to) = (sentences[j].start as int, sentences[j].end as int);
    let len = t.len() as int;
    let x = FORMULAIC_ENDINGS@[n]@;
    assert forall|q: int| 0 <= q < len implies !LINE_BREAKS@.contains(#[trigger] t[q]) by {
        lemma_line_breaks(t[q]);
    }
    lemma_next_is(t, LINE_BREAKS@, from, to, to);
    assert(run_end(t, ' ', from, to) == from);
    assert(run_end(t, '#', from, to) == from);
    assert(!heading_line(t, from, to));
    assert(!heading_sentence(t, sentences[j]));
    lemma_next_is(t, LINE_BREAKS@, to, len, len);
    assert(next_line(t, len) is None);
    assert(closes_section(t, blocks, sentences, j, j + 1));
    lemma_after_last(t, p);
    lemma_next_is(t, LINE_BREAKS@, p, len, len);
    assert(run_end(t, ' ', 0, len) == 0);
    assert(run_end(t, '#', 0, len) == 0);
    assert(!in_heading(t, p));
    lemma_first_read(t, x, from, to, p);
    lemma_untouched(t, ex, p, p + x.len(), p, p + x.len());
    assert(closing_hit(t, ex, x, from, to) == Some(p));
    let f = closing_phrases(t, ex, from, to);
    let m = f(n)[0];
    assert(f(n).contains(m));
    lemma_each_contains(25, f, n, m);
    let v = closings(t, ex, blocks, sentences, j, j + 1);
    assert(closings(t, ex, blocks, sentences, j + 1, j + 1) =~= Seq::empty());
    assert(v =~= each(25, f));
    let k = choose|k: int| 0 <= k < v.len() && v[k] == m;
    assert(v[k].offset == byte_pos(t, p));
}

proof fn lemma_after_last(t: Seq<char>, p: int)
    requires
        0 <= p <= t.len(),
        forall|q: int| 0 <= q < t.len() ==> !LINE_BREAKS@.contains(#[trigger] t[q]),
    ensures
        after_last(t, LINE_BREAKS@, p) == 0,
    decreases p,
{
    if p > 0 {
        lemma_after_last(t, p - 1);
    }
}

/// 雖然 with 但 behind it in the sentence is a contrast, and is counted
/// where it begins.
pub proof fn law_contrasts_are_counted(
    t: Seq<char>,
    ex: Seq<ByteRange>,
    from: int,
    to: int,
    p: int,
    q: int,
)
    requires
        0 <= from <= p,
        to <= t.len(),
        reads(t, p, seq!['雖', '然']),
        absent(t, seq!['雖', '然'], from, p),
        p + 2 <= q < to,
        t[q] == '但',
        untouched(t, ex, p, q + 1),
    ensures
        sentence_contrasts(t, ex, from, to).contains(p),
{
    reveal_strlit("雖然");
    reveal_strlit("但");
    assert(CONCESSIVE_STARTS@[0]@ =~= seq!['雖', '然']);
    let turns = crate::grammar::ai_structure::CONCESSIVE_TURNS@;
    assert(turns[0]@ =~= seq!['但']);
    lemma_first_read(t, seq!['雖', '然'], from, to, p);
    assert(first_entry_in(t, CONCESSIVE_STARTS@, 0, from, to) == Some((0int, p)));
    lemma_untouched(t, ex, p, q + 1, q, q + 1);
    let x = seq!['但'];
    assert(reads(t, q, x));
    crate::laws::reading::lemma_hits_hold(t, ex, x, p + 2, to, q);
    assert(crate::emit::hits(t, ex, turns[0]@, p + 2, to).len() > 0);
    assert(crate::emit::any_hit(t, ex, turns, p + 2, to));
    lemma_byte_pos_monotone(t, p, p + 1);
    lemma_byte_pos_monotone(t, p + 1, q + 1);
    assert(!crate::emit::excluded_in(ex, byte_pos(t, p), byte_pos(t, p) + 1)) by {
        if crate::emit::excluded_in(ex, byte_pos(t, p), byte_pos(t, p) + 1) {
            let k = choose|k: int|
                0 <= k < ex.len() && #[trigger] crate::emit::overlaps(
                    ex[k],
                    byte_pos(t, p),
                    byte_pos(t, p) + 1,
                );
            assert(ex[k].end <= byte_pos(t, p) || ex[k].start >= byte_pos(t, q + 1));
        }
    }
    assert(sentence_contrasts(t, ex, from, to)[0] == p);
}

} // verus!
