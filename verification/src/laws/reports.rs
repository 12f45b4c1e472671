//! What becomes of findings: which are kept, how they weigh, what they say, and
//! what a document and a profile leave out.
use vstd::prelude::*;

use crate::content::{excluded_byte, ContentType, DocumentRanges, MdScanOptions};
use crate::emit::ByteRange;
use crate::grammar::ai::{invisible_rule, structural_findings};
use crate::grammar::ai_phrase::{ai_grammar_findings, density_findings};
use crate::inflate::{inflated, shown_end};
use crate::issue::{IssueModel, PhaseFamily, PhasePass, Severity, TableCell};
use crate::laws::reading::{
    absent, lemma_count_all, lemma_count_none, lemma_read_found, lemma_read_nowhere, reads,
};
use crate::overlap::{
    clash, law_lone_findings_survive, law_only_the_better_displace, law_survivors_do_not_clash,
    outranks, resolved,
};
use crate::passes::{
    ai_findings, any_ai, StructuralExtras, curly_findings, dunhao_findings, if_on, lexical_findings,
    mark_findings, punctuation_findings, range_findings, spacing_findings, LexicalExtras,
};
use crate::phases::{deduplicated, law_indexed_findings_win, share, superseded, supersedes};
use crate::prepare::{law_winning_rules_are_compiled, prepared, with_unique_clues, ProfileFilter};
use crate::profile::ProfileConfig;
use crate::ranges::{covers, holds};
use crate::regions::{annotated, boosted, cell_from, inside, lies_in, TableCellSpan};
use crate::rules::{nonempty_of, RuleModel};
use crate::script::{blank, chinese_type, one_of, only_second};
use crate::selector::groups_of;
use crate::signals::{ideograph_at, in_marker, in_word, marker_at, oral_density, ORAL_MARKERS};
use crate::text::{byte_pos, find_in, lemma_byte_pos_monotone, lemma_find_in, lemma_floor_bounds};
use crate::walk::{each, lemma_sum_holds};

verus! {

/// The two findings have a byte in common.
pub open spec fn in_common(a: IssueModel, b: IssueModel) -> bool {
    exists|x: int|
        a.offset <= x < a.offset + a.length && #[trigger] within_span(b, x)
}

pub open spec fn within_span(m: IssueModel, x: int) -> bool {
    m.offset <= x < m.offset + m.length
}

/// The finding has a place in a text.
pub open spec fn placed(m: IssueModel) -> bool {
    0 <= m.offset && 0 < m.length && m.offset + m.length <= usize::MAX
}

proof fn lemma_common(a: IssueModel, b: IssueModel)
    requires
        placed(a),
        placed(b),
    ensures
        in_common(a, b) == clash(a, b),
        in_common(a, b) == share(a, b),
{
    if clash(a, b) {
        let x = if a.offset >= b.offset {
            a.offset
        } else {
            b.offset
        };
        assert(within_span(b, x));
    }
}

/// Of two findings that have a byte in common the longer is left and the other
/// is not, where neither has one in common with a third. Of the same length the
/// graver is left: an error before a warning, and that before a remark.
pub proof fn law_the_longer_or_graver_is_left(
    v: Seq<IssueModel>,
    out: Seq<IssueModel>,
    i: int,
    j: int,
)
    requires
        resolved(v, out),
        0 <= i < v.len(),
        0 <= j < v.len(),
        i != j,
        forall|k: int| 0 <= k < v.len() ==> placed(#[trigger] v[k]),
        in_common(v[i], v[j]),
        forall|k: int|
            0 <= k < v.len() && k != i && k != j ==> !in_common(v[i], #[trigger] v[k]),
        v[i].length > v[j].length || (v[i].length == v[j].length && ((v[i].severity
            == Severity::Error && v[j].severity != Severity::Error) || (v[i].severity
            == Severity::Warning && v[j].severity == Severity::Info))),
    ensures
        out.contains(v[i]),
        !out.contains(v[j]),
{
    lemma_common(v[i], v[j]);
    if !out.contains(v[i]) {
        law_only_the_better_displace(v, out, i);
        let k = choose|k: int|
            0 <= k < v.len() && outranks(v, k, i) && clash(v[i], #[trigger] v[k]) && out.contains(
                v[k],
            );
        lemma_common(v[i], v[k]);
        if k != i && k != j {
            assert(!in_common(v[i], v[k]));
        }
        assert(false);
    }
    if out.contains(v[j]) {
        let a = choose|a: int| 0 <= a < out.len() && out[a] == v[i];
        let b = choose|b: int| 0 <= b < out.len() && out[b] == v[j];
        if a < b {
            law_survivors_do_not_clash(v, out, a, b);
        } else if b < a {
            law_survivors_do_not_clash(v, out, b, a);
        }
        assert(clash(v[i], v[j]));
        assert(clash(v[j], v[i]));
    }
}

/// A finding that has no byte in common with another is left.
pub proof fn law_findings_apart_are_left(v: Seq<IssueModel>, out: Seq<IssueModel>, i: int)
    requires
        resolved(v, out),
        0 <= i < v.len(),
        forall|k: int| 0 <= k < v.len() ==> placed(#[trigger] v[k]),
        forall|k: int| 0 <= k < v.len() && k != i ==> !in_common(v[i], #[trigger] v[k]),
    ensures
        out.contains(v[i]),
{
    assert forall|j: int| 0 <= j < v.len() && j != i implies !clash(v[i], #[trigger] v[j]) by {
        lemma_common(v[i], v[j]);
        assert(!in_common(v[i], v[j]));
    }
    law_lone_findings_survive(v, out, i);
}

/// Where a sentence-aware pass and a lexical pass find one pattern in one place,
/// only the finding of the former is left. A finding of no such pattern is left
/// in any case.
pub proof fn law_one_finding_per_pattern(v: Seq<IssueModel>, i: int, j: int, family: PhaseFamily)
    requires
        0 <= i < v.len(),
        0 <= j < v.len(),
        placed(v[i]),
        placed(v[j]),
        v[i].phase_family == Some((family, PhasePass::Indexed)),
        v[j].phase_family == Some((family, PhasePass::Lexical)),
        in_common(v[i], v[j]),
    ensures
        deduplicated(v).contains(v[i]),
        !deduplicated(v).contains(v[j]),
        forall|k: int|
            0 <= k < v.len() && (#[trigger] v[k]).phase_family is None ==> deduplicated(
                v,
            ).contains(v[k]),
{
    lemma_common(v[i], v[j]);
    let out = deduplicated(v);
    assert(!superseded(v, i)) by {
        if superseded(v, i) {
            let k = choose|k: int| 0 <= k < v.len() && supersedes(#[trigger] v[k], v[i]);
        }
    }
    law_indexed_findings_win(v, i, i);
    assert(out.contains(v[i]));
    if out.contains(v[j]) {
        let a = choose|a: int| 0 <= a < out.len() && out[a] == v[i];
        let b = choose|b: int| 0 <= b < out.len() && out[b] == v[j];
        law_indexed_findings_win(v, a, b);
        assert(supersedes(v[i], v[j]));
    }
    assert forall|k: int|
        0 <= k < v.len() && (#[trigger] v[k]).phase_family is None implies out.contains(v[k]) by {
        if superseded(v, k) {
            let x = choose|x: int| 0 <= x < v.len() && supersedes(#[trigger] v[x], v[k]);
        }
        law_indexed_findings_win(v, k, k);
    }
}

/// A finding that lies in a heading weighs one step more, unless its rule pins it
/// to a remark; one that lies in none weighs what it did.
pub proof fn law_weight_in_headings(m: IssueModel, headings: Seq<ByteRange>, k: int)
    requires
        placed(m),
    ensures
        0 <= k < headings.len() && headings[k].start <= m.offset && m.offset + m.length
            <= headings[k].end && m.configured_severity != Some(Severity::Info) ==> boosted(
            m,
            headings,
        ).severity == (if m.severity == Severity::Info {
            Severity::Warning
        } else {
            Severity::Error
        }),
        m.configured_severity == Some(Severity::Info) ==> boosted(m, headings) == m,
        (forall|n: int|
            0 <= n < headings.len() ==> m.offset < (#[trigger] headings[n]).start || headings[n].end
                < m.offset + m.length) ==> boosted(m, headings) == m,
{
    if 0 <= k < headings.len() && headings[k].start <= m.offset && m.offset + m.length
        <= headings[k].end {
        assert(lies_in(m, headings[k].start as int, headings[k].end as int));
        assert(inside(m, headings));
    }
}

/// A finding learns the row and column of the one cell that it lies in, and a
/// finding in none learns nothing.
pub proof fn law_findings_learn_their_cell(m: IssueModel, cells: Seq<TableCellSpan>, k: int)
    requires
        placed(m),
        0 <= k <= cells.len(),
        forall|n: int|
            0 <= n < cells.len() && n != k ==> m.offset < (#[trigger] cells[n]).start
                || cells[n].end < m.offset + m.length,
    ensures
        k < cells.len() && cells[k].start <= m.offset && m.offset + m.length <= cells[k].end
            ==> annotated(m, cells).table_cell == Some(
            TableCell { row: cells[k].row, col: cells[k].col },
        ),
        k == cells.len() ==> annotated(m, cells) == m,
{
    lemma_cell(m, cells, k, 0);
}

proof fn lemma_cell(m: IssueModel, cells: Seq<TableCellSpan>, k: int, from: int)
    requires
        placed(m),
        0 <= from <= k <= cells.len(),
        forall|n: int|
            0 <= n < cells.len() && n != k ==> m.offset < (#[trigger] cells[n]).start
                || cells[n].end < m.offset + m.length,
    ensures
        k < cells.len() && lies_in(m, cells[k].start as int, cells[k].end as int) ==> cell_from(
            m,
            cells,
            from,
        ) == Some(k),
        k == cells.len() ==> cell_from(m, cells, from) is None,
    decreases k - from,
{
    if from < k {
        assert(!lies_in(m, cells[from].start as int, cells[from].end as int));
        lemma_cell(m, cells, k, from + 1);
    }
}

/// The byte lies in one of the ranges.
pub open spec fn in_some(v: Seq<ByteRange>, b: int) -> bool {
    exists|k: int| 0 <= k < v.len() && (#[trigger] v[k]).start <= b < v[k].end
}

proof fn lemma_in_some(v: Seq<ByteRange>, b: int)
    ensures
        in_some(v, b) == covers(v, b),
{
    if in_some(v, b) {
        let k = choose|k: int| 0 <= k < v.len() && (#[trigger] v[k]).start <= b < v[k].end;
        assert(holds(v[k], b));
    }
    if covers(v, b) {
        let k = choose|k: int| 0 <= k < v.len() && #[trigger] holds(v[k], b);
        assert(v[k].start <= b < v[k].end);
    }
}

/// What a document of each kind leaves alone. Links and the like always; in plain
/// text nothing else but what a comment suppresses; in Markdown its inline markup
/// and its code, but not the code where that is to be scanned, and the quotations
/// where they are exempt; in YAML the keys.
pub proof fn law_each_kind_leaves_its_own_alone(
    found: &DocumentRanges,
    opts: MdScanOptions,
    b: int,
)
    ensures
        excluded_byte(found, ContentType::Plain, opts, b) == (in_some(found.patterns@, b) || in_some(
            found.suppressed_by_hash@,
            b,
        )),
        in_some(found.patterns@, b) ==> forall|ct: ContentType| #[trigger]
            excluded_byte(found, ct, opts, b),
        in_some(found.inline_markup@, b) ==> excluded_byte(found, ContentType::Markdown, opts, b)
            && excluded_byte(found, ContentType::MarkdownScanCode, opts, b),
        in_some(found.code_blocks@, b) && !opts.scan_code_blocks ==> excluded_byte(
            found,
            ContentType::Markdown,
            opts,
            b,
        ),
        in_some(found.blockquotes@, b) && opts.exempt_blockquotes ==> excluded_byte(
            found,
            ContentType::Markdown,
            opts,
            b,
        ),
        in_some(found.yaml_keys@, b) ==> excluded_byte(found, ContentType::Yaml, opts, b),
        !in_some(found.patterns@, b) && !in_some(found.suppressed@, b) && !in_some(
            found.suppressed_by_hash@,
            b,
        ) && !in_some(found.inline_markup@, b) && !in_some(found.blockquotes@, b) ==> !excluded_byte(
            found,
            ContentType::MarkdownScanCode,
            opts,
            b,
        ),
        !in_some(found.patterns@, b) && !in_some(found.suppressed@, b) && !in_some(
            found.suppressed_by_hash@,
            b,
        ) && !in_some(found.yaml_keys@, b) ==> !excluded_byte(found, ContentType::Yaml, opts, b),
{
    lemma_in_some(found.patterns@, b);
    lemma_in_some(found.inline_markup@, b);
    lemma_in_some(found.code_blocks@, b);
    lemma_in_some(found.blockquotes@, b);
    lemma_in_some(found.yaml_keys@, b);
    lemma_in_some(found.suppressed@, b);
    lemma_in_some(found.suppressed_by_hash@, b);
}

/// A finding of a rule shows the text that it stands on and makes the rule's
/// suggestions, where the rule has some that are not empty and none that go by
/// what stands nearby. It says what the rule says of it, but for the explanations
/// where the report is to be brief.
pub proof fn law_findings_say_what_the_rule_says(
    t: Seq<char>,
    ex: Seq<ByteRange>,
    m: RuleModel,
    selecting: bool,
    brief: bool,
    issue: IssueModel,
    s: int,
    e: int,
)
    requires
        0 <= s <= e <= t.len(),
        issue.offset == byte_pos(t, s),
        issue.offset + issue.length == byte_pos(t, e),
        m.to.len() > 0,
        forall|k: int| 0 <= k < m.to.len() ==> (#[trigger] m.to[k]).len() > 0,
        m.context_suggestions is None,
    ensures
        ({
            let r = inflated(t, ex, m, selecting, brief, issue);
            &&& r.found == t.subrange(s, e)
            &&& r.suggestions == m.to
            &&& r.offset == issue.offset
            &&& r.length == issue.length
            &&& r.severity == issue.severity
            &&& r.rule_type == issue.rule_type
            &&& !brief ==> r.context == m.context && r.english == m.english && r.context_clues
                == m.context_clues
            &&& r.spelling_rule_idx is None
        }),
{
    lemma_byte_pos_monotone(t, e, t.len() as int);
    lemma_floor_bounds(t, byte_pos(t, s), s, s);
    lemma_floor_bounds(t, byte_pos(t, e), e, e);
    lemma_all_filled(m.to, m.to.len() as int);
    assert(m.to.take(m.to.len() as int) =~= m.to);
    assert(m.to[0].len() > 0);
    assert(shown_end(t, m, issue) == byte_pos(t, e));
    assert(groups_of(m).len() == 0);
}

proof fn lemma_all_filled(to: Seq<Seq<char>>, n: int)
    requires
        0 <= n <= to.len(),
        forall|k: int| 0 <= k < to.len() ==> (#[trigger] to[k]).len() > 0,
    ensures
        nonempty_of(to, n) == to.take(n),
    decreases n,
{
    if n > 0 {
        lemma_all_filled(to, n - 1);
        assert(to[n - 1].len() > 0);
        assert(to.take(n) =~= to.take(n - 1).push(to[n - 1]));
    } else {
        assert(to.take(0) =~= Seq::empty());
    }
}

/// The last rule in force on a phrase is the one that counts: it is compiled, and
/// no other on the phrase is.
pub proof fn law_the_last_rule_on_a_phrase_counts(
    v: Seq<RuleModel>,
    filter: ProfileFilter,
    i: int,
    j: int,
)
    requires
        0 <= i < j < v.len(),
        v[i].from == v[j].from,
        !v[j].disabled,
        v[j].structural_guard is None,
        !filter.excludes(v[j].rule_type),
        forall|k: int| j < k < v.len() ==> (#[trigger] v[k]).disabled || v[k].from != v[j].from,
    ensures
        exists|k: int|
            0 <= k < prepared(v, filter).len() && (#[trigger] prepared(v, filter)[k]).from
                == v[j].from && prepared(v, filter)[k].to == v[j].to,
        forall|k: int|
            0 <= k < prepared(v, filter).len() && (#[trigger] prepared(v, filter)[k]).from
                == v[j].from ==> prepared(v, filter)[k].to == v[j].to && prepared(
                v,
                filter,
            )[k].rule_type == v[j].rule_type,
{
    law_winning_rules_are_compiled(v, filter, j);
    let p = prepared(v, filter);
    let m = with_unique_clues(v[j]);
    let k = choose|k: int| 0 <= k < p.len() && p[k] == m;
    assert(p[k].from == v[j].from);
    assert forall|n: int| 0 <= n < p.len() && (#[trigger] p[n]).from == v[j].from implies p[n].to
        == v[j].to && p[n].rule_type == v[j].rule_type by {
        if n < k {
            crate::prepare::law_prepared_rules(v, filter, n, k);
        } else if k < n {
            crate::prepare::law_prepared_rules(v, filter, k, n);
        }
    }
}

/// What the profile switches on is found, pass by pass, and what it switches off
/// is not.
pub proof fn law_marks_go_by_the_profile(
    t: Seq<char>,
    ex: Seq<ByteRange>,
    cfg: ProfileConfig,
    ellipsis: Seq<IssueModel>,
)
    ensures
        ({
            let v = mark_findings(t, ex, cfg, ellipsis);
            &&& cfg.basic_punctuation ==> forall|m: IssueModel|
                #[trigger] punctuation_findings(t, ex, cfg).contains(m) ==> v.contains(m)
            &&& cfg.basic_punctuation ==> forall|m: IssueModel|
                #[trigger] curly_findings(t, ex).contains(m) ==> v.contains(m)
            &&& cfg.basic_punctuation ==> forall|m: IssueModel|
                #[trigger] spacing_findings(t, ex).contains(m) ==> v.contains(m)
            &&& cfg.dunhao_detection ==> forall|m: IssueModel|
                #[trigger] dunhao_findings(t, ex).contains(m) ==> v.contains(m)
            &&& cfg.range_normalization ==> forall|m: IssueModel|
                #[trigger] range_findings(t, ex, cfg).contains(m) ==> v.contains(m)
            &&& cfg.ellipsis_normalization ==> forall|m: IssueModel|
                #[trigger] ellipsis.contains(m) ==> v.contains(m)
            &&& !cfg.basic_punctuation && !cfg.dunhao_detection && !cfg.range_normalization
                && !cfg.ellipsis_normalization ==> v.len() == 0
        }),
{
    let a = if_on(cfg.basic_punctuation, punctuation_findings(t, ex, cfg));
    let b = if_on(cfg.dunhao_detection, dunhao_findings(t, ex));
    let c = if_on(cfg.range_normalization, range_findings(t, ex, cfg));
    let d = if_on(cfg.ellipsis_normalization, ellipsis);
    let e = if_on(cfg.basic_punctuation, curly_findings(t, ex));
    let f = if_on(cfg.basic_punctuation, spacing_findings(t, ex));
    lemma_sum_holds(a, b);
    lemma_sum_holds(a + b, c);
    lemma_sum_holds(a + b + c, d);
    lemma_sum_holds(a + b + c + d, e);
    lemma_sum_holds(a + b + c + d + e, f);
}

/// What the rules, the case pass and the marks find is all there, as far as the
/// profile asks for it.
pub proof fn law_the_text_passes_go_by_the_profile(
    t: Seq<char>,
    ex: Seq<ByteRange>,
    cfg: ProfileConfig,
    spelled: Seq<IssueModel>,
    extras: &LexicalExtras,
)
    ensures
        ({
            let v = lexical_findings(t, ex, cfg, spelled, extras);
            &&& cfg.spelling ==> forall|m: IssueModel|
                #[trigger] spelled.contains(m) ==> v.contains(m)
            &&& forall|m: IssueModel|
                #[trigger] mark_findings(
                    t,
                    ex,
                    cfg,
                    crate::issue::models(extras.ellipsis@),
                ).contains(m) ==> v.contains(m)
        }),
{
    let a = if_on(cfg.spelling, spelled);
    let b = if_on(cfg.casing, crate::issue::models(extras.casing@));
    let c = mark_findings(t, ex, cfg, crate::issue::models(extras.ellipsis@));
    let d = crate::issue::models(extras.repetition@);
    let e = crate::issue::models(extras.acronyms@);
    lemma_sum_holds(a, b);
    lemma_sum_holds(a + b, c);
    lemma_sum_holds(a + b + c, d);
    lemma_sum_holds(a + b + c + d, e);
}

/// A text in which the characters of one script stand and none of the other is in
/// that script.
pub proof fn law_a_text_of_one_script(
    t: Seq<char>,
    simplified: Seq<char>,
    traditional: Seq<char>,
    i: int,
)
    requires
        0 <= i < t.len(),
        !crate::chars::whitespace(t[i]),
    ensures
        simplified.contains(t[i]) && (forall|k: int|
            0 <= k < t.len() ==> !traditional.contains(#[trigger] t[k])) ==> chinese_type(
            t,
            simplified,
            traditional,
        ) is Simplified,
        traditional.contains(t[i]) && (forall|k: int|
            0 <= k < t.len() ==> !simplified.contains(#[trigger] t[k])) ==> chinese_type(
            t,
            simplified,
            traditional,
        ) is Traditional,
        (forall|k: int|
            0 <= k < t.len() ==> !simplified.contains(#[trigger] t[k]) && !traditional.contains(t[k]))
            ==> chinese_type(t, simplified, traditional) is Unknown,
{
    let n = t.len() as int;
    let f = one_of(t, simplified);
    let g = only_second(t, simplified, traditional);
    assert(!blank(t));
    if simplified.contains(t[i]) && (forall|k: int|
        0 <= k < n ==> !traditional.contains(#[trigger] t[k])) {
        lemma_count_none(0, n, g);
        lemma_some_counted(0, n, f, i);
    }
    if traditional.contains(t[i]) && (forall|k: int|
        0 <= k < n ==> !simplified.contains(#[trigger] t[k])) {
        lemma_count_none(0, n, f);
        assert(!simplified.contains(t[i]));
        lemma_some_counted(0, n, g, i);
    }
    if forall|k: int|
        0 <= k < n ==> !simplified.contains(#[trigger] t[k]) && !traditional.contains(t[k]) {
        lemma_count_none(0, n, f);
        lemma_count_none(0, n, g);
    }
}

proof fn lemma_some_counted(from: int, to: int, f: spec_fn(int) -> bool, i: int)
    requires
        from <= i < to,
        f(i),
    ensures
        crate::text::count_where(from, to, f) > 0,
    decreases to - from,
{
    if i < to - 1 {
        lemma_some_counted(from, to - 1, f, i);
    }
}

/// The character fills speech by itself.
pub open spec fn filler(c: char) -> bool {
    c == '嗯' || c == '啊' || c == '呢' || c == '吧'
}

/// In a text of twenty or more characters that are all filler, every character is
/// counted as filler, and the density is high.
pub proof fn law_filler_is_counted(t: Seq<char>)
    requires
        20 <= t.len() <= usize::MAX,
        forall|i: int| 0 <= i < t.len() ==> filler(#[trigger] t[i]),
    ensures
        oral_density(t) matches Some(d) && d.marker_chars == t.len() && d.cjk_count == t.len()
            && d.high(),
{
    let n = t.len() as int;
    lemma_count_all(0, n, ideograph_at(t));
    reveal_strlit("嗯");
    reveal_strlit("啊");
    reveal_strlit("呢");
    reveal_strlit("吧");
    assert(ORAL_MARKERS@[0]@ =~= seq!['嗯']);
    assert(ORAL_MARKERS@[1]@ =~= seq!['啊']);
    assert(ORAL_MARKERS@[2]@ =~= seq!['呢']);
    assert(ORAL_MARKERS@[3]@ =~= seq!['吧']);
    assert forall|i: int| 0 <= i < n implies #[trigger] marker_at(t)(i) by {
        let k: int = if t[i] == '嗯' {
            0
        } else if t[i] == '啊' {
            1
        } else if t[i] == '呢' {
            2
        } else {
            3
        };
        lemma_in_word(t, t[i], 0, i);
        assert(ORAL_MARKERS@[k]@ == seq![t[i]]);
        assert(in_word(t, ORAL_MARKERS@[k]@, 0, i));
        assert(in_marker(t, 28, i));
    }
    lemma_count_all(0, n, marker_at(t));
}

proof fn lemma_in_word(t: Seq<char>, c: char, from: int, i: int)
    requires
        0 <= from <= i < t.len(),
        t[i] == c,
    ensures
        in_word(t, seq![c], from, i),
    decreases t.len() - from,
{
    let x = seq![c];
    let n = t.len() as int;
    assert(reads(t, i, x));
    lemma_read_found(t, x, from, n, i);
    lemma_find_in(t, x, from, n);
    let p = find_in(t, x, from, n)->0;
    if p < i {
        lemma_in_word(t, c, p + 1, i);
    }
}

/// In a text without a marker of speech nothing is counted as filler.
pub proof fn law_prose_without_filler(t: Seq<char>)
    requires
        forall|k: int|
            0 <= k < 28 ==> #[trigger] absent(t, ORAL_MARKERS@[k]@, 0, t.len() as int + 1),
    ensures
        oral_density(t) matches Some(d) ==> d.marker_chars == 0,
{
    let n = t.len() as int;
    assert forall|i: int| 0 <= i < n implies !#[trigger] marker_at(t)(i) by {
        if in_marker(t, 28, i) {
            let k = choose|k: int| 0 <= k < 28 && #[trigger] in_word(t, ORAL_MARKERS@[k]@, 0, i);
            assert(absent(t, ORAL_MARKERS@[k]@, 0, n + 1));
            lemma_read_nowhere(t, ORAL_MARKERS@[k]@, 0, n);
        }
    }
    lemma_count_none(0, n, marker_at(t));
}

/// What the profile asks for of machine style is looked for, stage by stage, and what
/// it does not ask for is not.
pub proof fn law_machine_style_goes_by_the_profile(
    t: Seq<char>,
    ex: Seq<ByteRange>,
    cfg: ProfileConfig,
    extras: &StructuralExtras,
)
    ensures
        ({
            let v = ai_findings(t, ex, cfg, extras);
            let percent = cfg.ai_threshold_percent as int;
            &&& cfg.ai_semantic_safety ==> forall|m: IssueModel|
                #[trigger] ai_grammar_findings(t, ex).contains(m) ==> v.contains(m)
            &&& cfg.ai_structural_patterns ==> forall|m: IssueModel|
                #[trigger] structural_findings(t, ex, percent).contains(m) ==> v.contains(m)
            &&& cfg.ai_density_detection ==> forall|m: IssueModel|
                #[trigger] density_findings(t, ex, percent).contains(m) ==> v.contains(m)
            &&& !cfg.ai_filler_detection && !cfg.ai_semantic_safety && !cfg.ai_density_detection
                && !cfg.ai_structural_patterns ==> v.len() == 0
        }),
{
    let percent = cfg.ai_threshold_percent as int;
    let g = ai_grammar_findings(t, ex);
    let h = crate::issue::models(extras.attribution@);
    lemma_sum_holds(g, h);
    let a = if_on(cfg.ai_semantic_safety, g + h);
    let b = if_on(cfg.ai_structural_patterns, structural_findings(t, ex, percent));
    let c = if_on(
        any_ai(cfg),
        each(extras.invisible@.len() as int, invisible_rule(t, ex, extras.invisible@)),
    );
    let d = if_on(cfg.ai_density_detection, density_findings(t, ex, percent));
    lemma_sum_holds(a, b);
    lemma_sum_holds(a + b, c);
    lemma_sum_holds(a + b + c, d);
}

} // verus!
