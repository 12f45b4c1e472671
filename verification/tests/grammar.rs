//! Detectors that read phrases, sentences and paragraphs, each on texts of its
//! own.
use zhtw_scan::bounds::{
    paragraph_spans, split_paragraphs, Bound, BoundaryIndex as LibraryIndex, Paragraph,
};
use zhtw_scan::content::{
    build_exclusions_for_content_type as exclusions_of, ContentType, DocumentRanges,
};
use zhtw_scan::emit::{ByteRange, Emitter as LibraryEmitter};
use zhtw_scan::grammar::ai::Invisible;
use zhtw_scan::grammar::ai_list::numbered_list_marker_len;
use zhtw_scan::grammar::ai_structure::is_para_excluded;
use zhtw_scan::grammar::closer::{is_markdown_heading_line, CloserTailIndex as LibraryTails};
use zhtw_scan::grammar::indexed::Domain;
use zhtw_scan::grammar::premodifier::MARKER_WORDS;
use zhtw_scan::grammar::{
    ai, ai_phrase, ai_sentence, ai_structure, calque, premodifier, rhythm, syntactic,
    translationese,
};
use zhtw_scan::issue::{
    Issue, IssueType, PhaseFamily, PhasePass, Register, Severity,
};
use zhtw_scan::text::Text;

/// A document, what it excludes, and the list that findings go to.
struct Emitter<'a> {
    text: &'a str,
    excluded: &'a [ByteRange],
    issues: &'a mut Vec<Issue>,
}

impl<'a> Emitter<'a> {
    fn new(text: &'a str, excluded: &'a [ByteRange], issues: &'a mut Vec<Issue>) -> Self {
        Emitter { text, excluded, issues }
    }

    fn run(&mut self, pass: impl FnOnce(&mut LibraryEmitter<'a>)) {
        let mut em = LibraryEmitter::new(self.text, self.excluded.to_vec());
        em.issues = std::mem::take(self.issues);
        pass(&mut em);
        *self.issues = em.into_issues();
    }
}

/// Paragraphs at blank lines, and in each the sentences that its marks end,
/// without those that an excluded range covers.
fn split_bounds(text: &str, excluded: &[ByteRange]) -> LibraryIndex {
    let chars: Vec<char> = text.chars().collect();
    let mut bytes: Vec<usize> = text.char_indices().map(|(b, _)| b).collect();
    bytes.push(text.len());
    let covered = |from: usize, to: usize| {
        excluded.iter().any(|r| r.start <= bytes[from] && bytes[to] <= r.end)
    };
    let mut sentences: Vec<Bound> = Vec::new();
    let mut paragraphs: Vec<Paragraph> = Vec::new();
    for b in paragraph_spans(&Text::new(text)) {
        let first = sentences.len();
        let mut start = b.start;
        for i in b.start..b.end {
            if matches!(chars[i], '。' | '！' | '？' | '!' | '?') || i + 1 == b.end {
                if !covered(start, i + 1) {
                    sentences.push(Bound { start, end: i + 1 });
                }
                start = i + 1;
            }
        }
        paragraphs.push(Paragraph { start: b.start, end: b.end, first, last: sentences.len() });
    }
    LibraryIndex { sentences, paragraphs }
}

struct BoundaryIndex(LibraryIndex);

impl BoundaryIndex {
    fn build(text: &str, excluded: &[ByteRange]) -> Self {
        BoundaryIndex(split_bounds(text, excluded))
    }
}

#[derive(Clone, Copy)]
enum TranslationeseDomain {
    General,
    Literary,
    Technical,
}

impl TranslationeseDomain {
    fn limits(self) -> Domain {
        let (name, yi_zhi_tenths, chain_min, premodifier_chars) = match self {
            TranslationeseDomain::General => ("general", 20, 3, 15),
            TranslationeseDomain::Literary => ("literary", 10, 3, 12),
            TranslationeseDomain::Technical => ("technical", 30, 4, 18),
        };
        Domain { name, yi_zhi_tenths, chain_min, premodifier_chars, premodifier_de: 2 }
    }
}

/// Where headings and rules open a section, code fences left aside.
fn section_blocks(text: &str) -> Vec<usize> {
    let mut blocks = Vec::new();
    let mut at = 0;
    let mut fenced = false;
    for raw in text.split_inclusive(['\n', '\r']) {
        let line = raw.trim_end_matches(['\n', '\r']);
        if line.trim_start().starts_with("```") {
            fenced = !fenced;
        } else if !fenced && (is_markdown_heading_line(line) || line == "---") {
            blocks.push(at);
        }
        at += raw.len();
    }
    blocks
}

/// Code spans, addresses and paths of a Markdown text.
fn build_exclusions_for_content_type(text: &str, content_type: ContentType) -> Vec<ByteRange> {
    let mut inline_markup = Vec::new();
    let ticks: Vec<usize> = text.match_indices('`').map(|(at, _)| at).collect();
    for pair in ticks.chunks(2) {
        if pair.len() == 2 {
            inline_markup.push(ByteRange { start: pair[0], end: pair[1] + 1 });
        }
    }
    let mut patterns = Vec::new();
    let mut at = 0;
    for word in text.split_inclusive(char::is_whitespace) {
        let bare = word.trim_end();
        if bare.contains("://") || bare.ends_with(".rs") {
            patterns.push(ByteRange { start: at, end: at + bare.len() });
        }
        at += word.len();
    }
    let found = DocumentRanges {
        patterns,
        code_blocks: Vec::new(),
        inline_markup,
        blockquotes: Vec::new(),
        yaml_keys: Vec::new(),
        suppressed: Vec::new(),
        suppressed_by_hash: Vec::new(),
    };
    exclusions_of(&found, content_type)
}

fn percent(multiplier: f32) -> u32 {
    (multiplier * 100.0) as u32
}

fn scan_ai_structural_phase2(em: &mut Emitter<'_>, idx: &BoundaryIndex, content_type: ContentType) {
    let blocks = section_blocks(em.text);
    let known = if content_type.is_markdown() { Some(blocks.as_slice()) } else { None };
    em.run(|e| ai::scan_ai_structural_phase2(e, &idx.0, known));
}

fn scan_translationese_syntactic(em: &mut Emitter<'_>, idx: &BoundaryIndex) {
    em.run(|e| translationese::scan_translationese_syntactic(e, &idx.0));
}

fn scan_ai_grammar(em: &mut Emitter<'_>) {
    em.run(|e| ai_phrase::scan_ai_grammar(e));
}

fn scan_ai_semantic_safety(em: &mut Emitter<'_>) {
    em.run(|e| ai_phrase::scan_ai_semantic_safety(e));
}

fn scan_ai_density(em: &mut Emitter<'_>, multiplier: f32) {
    em.run(|e| ai_phrase::scan_ai_density(e, percent(multiplier)));
}

fn scan_ai_structural(em: &mut Emitter<'_>, multiplier: f32) {
    em.run(|e| ai::scan_ai_structural(e, percent(multiplier)));
}

fn scan_ai_list_density(em: &mut Emitter<'_>, multiplier: f32) {
    em.run(|e| ai_structure::scan_ai_list_density(e, percent(multiplier)));
}

fn scan_ai_dash_overuse(em: &mut Emitter<'_>) {
    em.run(|e| ai_structure::scan_ai_dash_overuse(e));
}

fn scan_ai_zero_width(em: &mut Emitter<'_>) {
    let found: Vec<Invisible> = em
        .text
        .chars()
        .enumerate()
        .filter(|&(pos, c)| c == '\u{200B}' || (c == '\u{FEFF}' && pos > 0))
        .map(|(pos, c)| Invisible { pos, label: format!("U+{:04X}", c as u32) })
        .collect();
    em.run(|e| ai::scan_ai_zero_width(e, &found));
}

fn scan_ai_excessive_bold(em: &mut Emitter<'_>, idx: &BoundaryIndex) {
    em.run(|e| ai_sentence::scan_ai_excessive_bold(e, &idx.0));
}

fn scan_ai_emdash_overuse(em: &mut Emitter<'_>, idx: &BoundaryIndex) {
    em.run(|e| ai_sentence::scan_ai_emdash_overuse(e, &idx.0));
}

fn scan_ai_hedging_density(
    text: &str,
    excluded: &[ByteRange],
    issues: &mut Vec<Issue>,
    idx: &BoundaryIndex,
) {
    Emitter::new(text, excluded, issues).run(|e| ai_sentence::scan_ai_hedging_density(e, &idx.0));
}

fn scan_trans_abstract_subject(em: &mut Emitter<'_>, idx: &BoundaryIndex) {
    em.run(|e| syntactic::scan_trans_abstract_subject(e, &idx.0));
}

fn scan_translationese_lexical(em: &mut Emitter<'_>, register: Register) {
    em.run(|e| calque::scan_translationese_lexical(e, register));
}

fn scan_translationese_indexed(
    em: &mut Emitter<'_>,
    idx: &BoundaryIndex,
    domain: TranslationeseDomain,
    with_rhythm: bool,
    register: Register,
) {
    em.run(|e| {
        translationese::scan_translationese_indexed(
            e,
            &idx.0,
            domain.limits(),
            with_rhythm,
            register,
        )
    });
}

fn scan_rhythm(em: &mut Emitter<'_>, idx: &BoundaryIndex) {
    em.run(|e| rhythm::scan_rhythm(e, &idx.0));
}

/// Byte offset of the predicate's close in the case, looked for from `lo` on.
fn first_predicate_close(case: &str, lo: usize) -> Option<usize> {
    let t = Text::new(case);
    premodifier::first_predicate_close(&t, t.floor(lo), t.len()).map(|p| t.byte(p))
}

fn opens_a_predicate(region: &str) -> bool {
    let t = Text::new(region);
    premodifier::opens_a_predicate(&t, 0, t.len())
}

/// The index by byte offsets.
struct CloserTailIndex<'a> {
    text: Text<'a>,
    tails: LibraryTails,
}

impl<'a> CloserTailIndex<'a> {
    fn build(text: &'a str) -> Self {
        let text = Text::new(text);
        let tails = LibraryTails::build(&text);
        CloserTailIndex { text, tails }
    }

    fn next_line_break(&self, pos: usize) -> Option<usize> {
        self.tails.next_line_break(self.text.floor(pos)).map(|p| self.text.byte(p))
    }

    fn has_non_tail_char(&self, start: usize, end: usize) -> bool {
        self.tails.has_non_tail_char(self.text.floor(start), self.text.floor(end))
    }
}

fn scan_phase2(text: &str) -> Vec<Issue> {
    let idx = BoundaryIndex::build(text, &[]);
    let mut issues = Vec::new();
    scan_ai_structural_phase2(
        &mut Emitter::new(text, &[], &mut issues),
        &idx,
        ContentType::Markdown,
    );
    scan_translationese_syntactic(&mut Emitter::new(text, &[], &mut issues), &idx);
    issues
}

fn has_formulaic(issues: &[Issue]) -> bool {
    has_context_with(issues, "公式化用語")
}

fn has_self_qa(issues: &[Issue]) -> bool {
    has_context_with(issues, "連續自問自答")
}

fn scan_ai(text: &str) -> Vec<Issue> {
    let mut issues = Vec::new();
    scan_ai_grammar(&mut Emitter::new(text, &[], &mut issues));
    issues
}

fn scan_density(text: &str) -> Vec<Issue> {
    let mut issues = Vec::new();
    scan_ai_density(&mut Emitter::new(text, &[], &mut issues), 1.0);
    issues
}

fn scan_structural(text: &str) -> Vec<Issue> {
    let mut issues = Vec::new();
    scan_ai_structural(&mut Emitter::new(text, &[], &mut issues), 1.0);

    scan_ai_zero_width(&mut Emitter::new(text, &[], &mut issues));
    issues
}

fn context_of(issues: &[Issue], needle: &str) -> usize {
    issues
        .iter()
        .filter(|i| i.context.as_ref().is_some_and(|c| c.contains(needle)))
        .count()
}

fn scan_lex(text: &str) -> Vec<Issue> {
    let mut issues = Vec::new();
    scan_translationese_lexical(&mut Emitter::new(text, &[], &mut issues), Register::Casual);
    issues
}

fn has_context_with(issues: &[Issue], needle: &str) -> bool {
    issues
        .iter()
        .any(|i| i.context.as_ref().is_some_and(|c| c.contains(needle)))
}

fn scan_indexed(
    text: &str,
    domain: TranslationeseDomain,
) -> Vec<Issue> {
    scan_indexed_with_rhythm(text, domain, false)
}

fn scan_indexed_with_rhythm(
    text: &str,
    domain: TranslationeseDomain,
    rhythm: bool,
) -> Vec<Issue> {
    let idx = BoundaryIndex::build(text, &[]);
    let mut issues = Vec::new();
    scan_translationese_indexed(
        &mut Emitter::new(text, &[], &mut issues),
        &idx,
        domain,
        rhythm,
        Register::Casual,
    );
    issues
}

fn scan_rhythm_only(text: &str) -> Vec<Issue> {
    let idx = BoundaryIndex::build(text, &[]);
    let mut issues = Vec::new();
    scan_rhythm(&mut Emitter::new(text, &[], &mut issues), &idx);
    issues
}

fn fires(issues: &[Issue], want: (PhaseFamily, PhasePass)) -> bool {
    issues.iter().any(|i| i.phase_family == Some(want))
}

fn scan_general(text: &str) -> Vec<Issue> {
    scan_indexed(
        text,
        TranslationeseDomain::General,
    )
}

fn rhythm_fires(issues: &[Issue], family: PhaseFamily) -> bool {
    issues
        .iter()
        .any(|i| i.phase_family == Some((family, PhasePass::Indexed)))
}

#[test]
fn tricolon_with_repeated_spans_does_not_panic() {
    let text = "乙、甲、甲、乙、丙。";
    let _ = scan_phase2(text);
}

#[test]
fn negative_parallel_mixed_ascii_cjk_does_not_panic() {
    let text = "不只是A，而是中文混合內容。";
    let _ = scan_phase2(text);
}

#[test]
fn passive_density_short_paragraph_does_not_panic() {
    let text = "A被B。\n\n中文段落以「被」字開頭，被廣泛認為是好的。";
    let _ = scan_phase2(text);
}

#[test]
fn excessive_bold_short_ascii_paragraph_does_not_panic() {
    let text = "**A** 中文 **B** 中文 **C** 中文 **D**";
    let _ = scan_phase2(text);
}

#[test]
fn tricolon_detects_simple_pattern() {
    let text = "團結、奮鬥、創新。";
    let issues = scan_phase2(text);
    let has_tricolon = issues
        .iter()
        .any(|i| i.context.as_ref().is_some_and(|c| c.contains("tricolon")));
    assert!(
        has_tricolon,
        "Expected tricolon detection, got {:?}",
        issues
    );
}

#[test]
fn formulaic_ending_fires_at_a_section_close() {
    for (text, what) in [
        (
            "本文介紹了新的排程策略。\n\n效能提升相當顯著。展望未來。",
            "document-final sentence",
        ),
        (
            "第一節說明背景。展望未來。\n\n## 第二節\n\n這裡是內文。",
            "before a heading",
        ),
        (
            "第一節說明背景。展望未來。\n## 第二節\n\n這裡是內文。",
            "before a heading without a blank line",
        ),
        (
            "第一節說明背景。展望未來。\r## 第二節\r\r這裡是內文。",
            "before a CR-only heading",
        ),
        (
            "## 第二節\n本節總結。展望未來。",
            "in body text after a heading without a blank line",
        ),
    ] {
        assert!(has_formulaic(&scan_phase2(text)), "expected a hit {what}");
    }
}

#[test]
fn formulaic_ending_covers_new_closing_platitudes() {
    for text in ["我們將攜手共進。", "這個案例值得深思。"] {
        assert!(
            has_formulaic(&scan_phase2(text)),
            "missing formulaic closer: {text:?}"
        );
    }
}

#[test]
fn formulaic_ending_ignores_indented_code_as_a_boundary() {
    let code = "## 一\n\n效能提升。展望未來。\n\n    # setup\n    print(1)\n";
    let issues = scan_phase2(code);
    assert!(
        !has_formulaic(&issues),
        "indented code read as a section boundary: {issues:?}"
    );

    let tabbed = "## 一\n\n效能提升。展望未來。\n\n\t# setup\n";
    assert!(
        !has_formulaic(&scan_phase2(tabbed)),
        "tab-indented code read as a section boundary"
    );

    let indented_heading = "效能提升。展望未來。\n\n   ### 標題\n\n內文。";
    assert!(
        has_formulaic(&scan_phase2(indented_heading)),
        "three-space indented heading rejected"
    );
}

#[test]
fn formulaic_ending_requires_no_same_line_prose_after_the_closer() {
    let text = "展望未來。這裡仍在說明細節。\n\n# 下一節\n";
    assert!(
        !has_formulaic(&scan_phase2(text)),
        "same-line prose was skipped before the heading"
    );

    assert!(has_formulaic(&scan_phase2(
        "展望未來。（註）\n\n# 下一節\n"
    )));
}

#[test]
fn heading_containing_inline_code_is_still_a_section_boundary() {
    for heading in [
        "## 第二節",
        "## 設定 `config.toml`",
        "## 設定 src/main.rs",
        "## 參考 https://example.com/a",
    ] {
        let text = format!("## 一\n\n本節總結。展望未來。\n\n{heading}\n\n這裡是內文。");
        let ranges = build_exclusions_for_content_type(&text, ContentType::Markdown);
        let idx = BoundaryIndex::build(&text, &ranges);
        let mut issues = Vec::new();
        scan_ai_structural_phase2(
            &mut Emitter::new(&text, &ranges, &mut issues),
            &idx,
            ContentType::Markdown,
        );
        assert!(
            has_formulaic(&issues),
            "closer lost before heading {heading:?}: {issues:?}"
        );
    }
}

#[test]
fn a_code_fence_after_the_closer_is_not_a_section_boundary() {
    let with_comment = "## 一\n\n效能提升。展望未來。\n\n```sh\n# install\nmake\n```\n";
    let without_comment = "## 一\n\n效能提升。展望未來。\n\n```sh\nmake\n```\n";
    for text in [with_comment, without_comment] {
        assert!(
            !has_formulaic(&scan_phase2(text)),
            "a code fence after the closer opened a section: {text:?}"
        );
    }

    assert!(!has_formulaic(&scan_phase2(
        "本節總結。展望未來。\n    # x\n"
    )));
    assert!(has_formulaic(&scan_phase2(
        "本節總結。展望未來。\n   # x\n"
    )));
}

#[test]
fn only_headings_and_rules_close_a_markdown_section() {
    assert!(has_formulaic(&scan_phase2(
        "## 一\n\n效能提升。展望未來。（註）\n\n## 二\n"
    )));
    assert!(has_formulaic(&scan_phase2(
        "效能提升。展望未來。\n\n---\n\n下一節。\n"
    )));

    for text in [
        "效能提升。展望未來。\n\n- 下一節的項目\n",
        "效能提升。展望未來。\n\n> 下一節的引文\n",
    ] {
        assert!(
            !has_formulaic(&scan_phase2(text)),
            "a lead-in before a block was read as a closer: {text:?}"
        );
    }
}

#[test]
fn formulaic_ending_prefers_the_heading_boundary_over_the_document_end() {
    let text = "本節總結。展望未來。\n## 第二節\n這裡是內文。";
    let issues = scan_phase2(text);
    assert!(
        has_formulaic(&issues),
        "closer before a heading lost to the document-final sentence: {issues:?}"
    );
}

#[test]
fn formulaic_ending_ignores_heading_text() {
    let text = "## 展望未來";
    let issues = scan_phase2(text);
    assert!(!has_formulaic(&issues), "fired on heading text: {issues:?}");

    let tight = "## 展望未來\n這裡是內文。";
    let issues = scan_phase2(tight);
    assert!(
        !has_formulaic(&issues),
        "fired on heading text joined to body: {issues:?}"
    );

    let body_repeat = "## 展望未來\n本節總結。展望未來。";
    assert!(
        has_formulaic(&scan_phase2(body_repeat)),
        "heading occurrence hid body closer"
    );
}

#[test]
fn formulaic_ending_stays_quiet_mid_document() {
    let text = "第一段的結尾。展望未來。\n\n第二段還在講同一件事。\n\n第三段結束。";
    let issues = scan_phase2(text);
    assert!(!has_formulaic(&issues), "fired mid-document: {issues:?}");
}

#[test]
fn formulaic_ending_stays_quiet_mid_paragraph() {
    let text = "背景說明如下。展望未來。這一節接著討論實作細節與取捨。";
    let issues = scan_phase2(text);
    assert!(!has_formulaic(&issues), "fired mid-paragraph: {issues:?}");
}

#[test]
fn excessive_de_chain_reports_each_occurrence_with_correct_offset() {
    let text = "我的他的她的它的東西，我的他的她的它的物品。";
    let issues = scan_phase2(text);
    let de_issues: Vec<_> = issues
        .iter()
        .filter(|i| i.context.as_ref().is_some_and(|c| c.contains("的的不休")))
        .collect();
    assert_eq!(
        de_issues.len(),
        2,
        "Expected 2 distinct clauses, got {de_issues:?}"
    );
    assert_ne!(de_issues[0].offset, de_issues[1].offset);
}

#[test]
fn numbered_list_marker_len_matches_multi_digit() {
    assert_eq!(numbered_list_marker_len("1. item"), Some(2));
    assert_eq!(numbered_list_marker_len("10. item"), Some(3));
    assert_eq!(numbered_list_marker_len("123) item"), Some(4));
    assert_eq!(numbered_list_marker_len("10.foo"), None);
    assert_eq!(numbered_list_marker_len("a. item"), None);
    assert_eq!(numbered_list_marker_len("10 item"), None);
}

#[test]
fn mechanical_bullets_detects_multi_digit_list() {
    let mut text = String::new();
    for i in 1..=12 {
        text.push_str(&format!("{i}. **項目** 內容文字。\n"));
    }
    let issues = scan_phase2(&text);
    let has_mechanical = issues
        .iter()
        .any(|i| i.context.as_ref().is_some_and(|c| c.contains("機械式列表")));
    assert!(
        has_mechanical,
        "expected mechanical bullets detection across 12-item list, got {issues:?}"
    );
}

#[test]
fn displaced_conditional_finds_late_when_sentence_starts_with_one() {
    let text = "如果你來，我會走，但他不會走，如果他不想來。";
    let issues = scan_phase2(text);
    let has_displaced = issues
        .iter()
        .any(|i| i.context.as_ref().is_some_and(|c| c.contains("後置條件")));
    assert!(
        has_displaced,
        "Expected displaced conditional, got {issues:?}"
    );
}

#[test]
fn grammar_sort_order_is_last() {
    assert!(IssueType::Grammar.sort_order() > IssueType::Variant.sort_order());
    assert!(IssueType::Grammar.sort_order() > IssueType::Punctuation.sort_order());
}

#[test]
fn grammar_name_matches_serde() {
    assert_eq!(IssueType::Grammar.name(), "grammar");
}

#[test]
fn ai_yiweizhe_definition_context() {
    let text = "這個定義意味著所有的值都必須為正";
    let issues = scan_ai(text);
    assert_eq!(issues.len(), 1);
    assert_eq!(issues[0].rule_type, IssueType::AiStyle);
    assert_eq!(issues[0].found, "意味著");
    assert_eq!(issues[0].suggestions[..], vec!["表示"]);
}

#[test]
fn ai_yiweizhe_ignores_a_clue_inside_excluded_markup() {
    let text = "這個 `定義` 欄位意味著所有的值都必須為正";
    let code_start = text.find("`定義`").unwrap();
    let excluded = vec![ByteRange {
        start: code_start,
        end: code_start + "`定義`".len(),
    }];
    let mut issues = Vec::new();
    scan_ai_semantic_safety(&mut Emitter::new(text, &excluded, &mut issues));
    assert!(
        issues
            .iter()
            .all(|i| i.suggestions[..] != ["表示".to_string()]),
        "a clue inside markup chose the sense: {issues:?}"
    );

    let mut issues = Vec::new();
    scan_ai_semantic_safety(&mut Emitter::new(text, &[], &mut issues));
    assert!(
        issues
            .iter()
            .any(|i| i.suggestions[..] == ["表示".to_string()]),
        "as prose the clue should still count: {issues:?}"
    );
}

#[test]
fn ai_yiweizhe_sees_a_clue_far_away_in_the_same_sentence() {
    let filler = "而且系統必須重新設計並且要考慮效能與可維護性以及擴充性".repeat(12);
    let text = format!("這個定義{filler}意味著所有的值都必須為正。");
    assert!(
        text.len() > 600,
        "the clue has to be past any plausible cutoff"
    );
    let issues = scan_ai(&text);
    assert!(
        issues
            .iter()
            .any(|i| i.found == "意味著" && i.suggestions[..] == ["表示".to_string()]),
        "the definition clue should still be found: {issues:?}"
    );
}

#[test]
fn ai_yiweizhe_is_not_a_definition_because_a_sentence_opens_on_jishi() {
    for text in [
        "即使如此，這意味著風險增加",
        "系統即將上線，這意味著風險增加",
        "請立即處理，這意味著風險增加",
    ] {
        let issues = scan_ai(text);
        assert!(
            issues
                .iter()
                .all(|i| i.suggestions[..] != ["表示".to_string()]),
            "read as a definition: {text} -> {issues:?}"
        );
    }
}

#[test]
fn ai_yiweizhe_consequence_context() {
    let text = "如果記憶體不足，這意味著系統將會崩潰";
    let issues = scan_ai(text);
    assert_eq!(issues.len(), 1);
    assert_eq!(issues[0].suggestions[..], vec!["代表"]);
}

#[test]
fn ai_yiweizhe_explanation_context() {
    let text = "換言之，這意味著我們需要重新設計";
    let issues = scan_ai(text);
    assert_eq!(issues.len(), 1);
    assert_eq!(issues[0].suggestions[..], vec!["也就是說"]);
}

#[test]
fn ai_yiweizhe_no_context_advisory_only() {
    let text = "這意味著很多事情";
    let issues = scan_ai(text);
    assert_eq!(issues.len(), 1);
    assert!(issues[0].suggestions.is_empty());
}

#[test]
fn ai_yiweizhe_in_excluded_region() {
    let mut issues = Vec::new();
    let excluded = vec![ByteRange { start: 0, end: 100 }];
    scan_ai_semantic_safety(&mut Emitter::new("這意味著很多", &excluded, &mut issues));
    assert!(issues.is_empty());
}

#[test]
fn ai_copula_zuowei_in_tech_context() {
    let text = "此系統作為核心元件運作";
    let issues = scan_ai(text);
    assert_eq!(issues.len(), 1);
    assert_eq!(issues[0].found, "作為");
    assert!(issues[0].suggestions.is_empty());
    assert!(issues[0].context.as_ref().unwrap().contains("是"));
}

#[test]
fn ai_copula_zuowei_not_in_tech_context() {
    let text = "她作為一位母親非常偉大";
    let issues = scan_ai(text);
    assert!(issues.is_empty());
}

#[test]
fn ai_copula_yongyou_in_tech_context() {
    let text = "這個模組擁有三個介面";
    let issues = scan_ai(text);
    assert_eq!(issues.len(), 1);
    assert_eq!(issues[0].found, "擁有");
    assert!(issues[0].suggestions.is_empty());
    assert!(issues[0].context.as_ref().unwrap().contains("有"));
}

#[test]
fn ai_passive_bei_guangfan() {
    let text = "這個框架被廣泛使用於各種專案中";
    let issues = scan_ai(text);
    assert_eq!(issues.len(), 1);
    assert_eq!(issues[0].found, "被廣泛使用");
    assert_eq!(issues[0].suggestions[..], vec!["廣泛使用"]);
    assert_eq!(issues[0].rule_type, IssueType::AiStyle);
}

#[test]
fn ai_passive_bei_chengwei_not_flagged() {
    let text = "這個演算法被稱為快速排序";
    let issues = scan_ai(text);
    assert!(issues.is_empty());
}

#[test]
fn ai_passive_bei_renwei_not_flagged() {
    let text = "他被認為是最好的程式設計師";
    let issues = scan_ai(text);
    assert!(issues.is_empty());
}

#[test]
fn ai_passive_no_match_unlisted() {
    let text = "他被打了一頓";
    let issues = scan_ai(text);
    assert!(issues.is_empty());
}

#[test]
fn ai_copula_yousuozuowei_not_flagged() {
    let text = "這個系統必須有所作為才能改善效能";
    let issues = scan_ai(text);
    assert!(issues.is_empty());
}

#[test]
fn ai_copula_yongyouquan_not_flagged() {
    let text = "此模組的擁有權屬於核心架構";
    let issues = scan_ai(text);
    assert!(issues.is_empty());
}

#[test]
fn ai_grammar_does_not_produce_grammar_issues() {
    let text = "此系統作為核心元件，這意味著我們需要因此重新設計";
    let issues = scan_ai(text);
    for issue in &issues {
        assert_eq!(issue.rule_type, IssueType::AiStyle);
    }
}

#[test]
fn ai_didactic_pattern_detected() {
    let text = "x86 的歷史告訴我們處理器設計需要平衡";
    let issues = scan_ai(text);
    assert_eq!(issues.len(), 1);
    assert_eq!(issues[0].rule_type, IssueType::AiStyle);
    assert!(issues[0].found.contains("告訴我們"));
}

#[test]
fn ai_didactic_different_verb() {
    let text = "這個案例的教訓提醒世人不要重蹈覆轍";
    let issues = scan_ai(text);
    assert_eq!(issues.len(), 1);
    assert!(issues[0].found.contains("提醒世人"));
}

#[test]
fn ai_didactic_no_noun_prefix() {
    let text = "老師告訴我們要認真學習";
    let issues = scan_ai(text);
    assert!(issues.is_empty());
}

#[test]
fn ai_vague_exaggeration_detected() {
    let text = "這項技術領先時代至少20年";
    let issues = scan_ai(text);
    assert_eq!(issues.len(), 1);
    assert_eq!(issues[0].rule_type, IssueType::AiStyle);
    assert!(issues[0].found.contains("領先"));
}

#[test]
fn ai_vague_exaggeration_different_verb() {
    let text = "該設計超越同期產品約5年的技術水準";
    let issues = scan_ai(text);
    assert_eq!(issues.len(), 1);
    assert!(issues[0].found.contains("超越"));
}

#[test]
fn ai_vague_exaggeration_no_year() {
    let text = "這項技術領先業界的水準";
    let issues = scan_ai(text);
    assert!(issues.is_empty());
}

#[test]
fn ai_formulaic_heading_inside_inline_code_does_not_count() {
    let plain = "## 總結與展望\n\n內容一。\n\n".repeat(3);
    let coded = "## `總結與展望`\n\n內容二。\n\n".repeat(3);
    let fires_on = |doc: &str| {
        let ranges = build_exclusions_for_content_type(
            doc,
            ContentType::Markdown,
        );
        let mut issues = Vec::new();
        scan_ai_structural(&mut Emitter::new(doc, &ranges, &mut issues), 1.0);
        issues
            .iter()
            .any(|i| i.context.as_ref().is_some_and(|c| c.contains("公式化標題")))
    };
    assert!(fires_on(&plain), "plain formulaic headings should count");
    assert!(
        !fires_on(&coded),
        "a heading phrase inside inline code is not the author's heading"
    );
}

#[test]
fn ai_didactic_does_not_reach_back_past_a_full_stop() {
    assert!(
        scan_ai("我們研究了它的歷史。這份報告告訴我們一個道理。").is_empty(),
        "didactic reached into the previous sentence"
    );
    assert!(
        !scan_ai("這個專案的歷史告訴我們一個道理。").is_empty(),
        "the same-sentence case must still fire"
    );
}

#[test]
fn ai_vague_exaggeration_does_not_reach_past_a_full_stop() {
    assert!(
        scan_ai("這項技術領先業界。專案歷時20年才完成。").is_empty(),
        "a duration in the next sentence is not this verb's claim"
    );
}

#[test]
fn ai_vague_exaggeration_ignores_a_calendar_year() {
    for text in [
        "這項技術領先業界，2025年將全面推出",
        "該設計超越同期產品，1999年首次發表",
    ] {
        assert!(
            scan_ai(text).is_empty(),
            "calendar year read as a lead claim: {text}"
        );
    }
}

#[test]
fn ai_density_short_text_skipped() {
    let text = "更重要的是".repeat(20);
    let issues = scan_density(&text);
    assert!(issues.is_empty(), "short text should skip density check");
}

#[test]
fn ai_density_below_threshold_no_issue() {
    let mut text = "這是一段正常的中文技術文章。".repeat(200);
    text.push_str("更重要的是，我們需要考慮效能。");
    assert!(text.chars().count() >= 2000);
    let issues = scan_density(&text);
    assert!(
        issues.is_empty(),
        "single occurrence in long text should not exceed density: {} chars",
        text.chars().count()
    );
}

#[test]
fn ai_density_above_threshold_flags() {
    let filler = "這是正常的技術內容段落。";
    let mut text = String::new();
    for i in 0..80 {
        if i % 25 == 0 {
            text.push_str("更重要的是，我們需要重新評估。");
        } else {
            text.push_str(filler);
        }
    }
    assert!(text.chars().count() >= 500);
    let issues = scan_density(&text);
    assert!(
        !issues.is_empty(),
        "high density should trigger: text has {} chars",
        text.chars().count()
    );
    assert_eq!(issues[0].rule_type, IssueType::AiStyle);
    assert!(issues[0].context.as_ref().unwrap().contains("次/千字"));
    assert!(issues[0].context.as_ref().unwrap().contains("更重要的是"));
}

#[test]
fn ai_density_excluded_ranges_respected() {
    let filler = "這是正常的技術內容段落。";
    let mut text = String::new();
    for i in 0..80 {
        if i % 25 == 0 {
            text.push_str("更重要的是，我們需要重新評估。");
        } else {
            text.push_str(filler);
        }
    }
    let excluded = vec![ByteRange {
        start: 0,
        end: text.len(),
    }];
    let mut issues = Vec::new();
    scan_ai_density(&mut Emitter::new(&text, &excluded, &mut issues), 1.0);
    assert!(issues.is_empty(), "excluded ranges should suppress density");
}

#[test]
fn ai_density_multiple_phrases_independent() {
    let mut text = String::new();
    for _ in 0..60 {
        text.push_str("這是正常的技術內容。");
    }
    for _ in 0..5 {
        text.push_str("更重要的是，這個方法不容忽視。");
    }
    assert!(text.chars().count() >= 500);
    let issues = scan_density(&text);
    let density_contexts: Vec<_> = issues.iter().filter_map(|i| i.context.as_ref()).collect();
    let has_gengyaojinaoshi = density_contexts.iter().any(|c| c.contains("更重要的是"));
    let has_buronghushi = density_contexts.iter().any(|c| c.contains("不容忽視"));
    assert!(
        has_gengyaojinaoshi || has_buronghushi,
        "at least one high-density phrase should trigger: contexts={density_contexts:?}"
    );
}

#[test]
fn paragraphs_are_the_same_either_line_ending() {
    let lf = "第一段。\n\n第二段。\n\n第三段。\n";
    let crlf = lf.replace('\n', "\r\n");
    let of = |t: &str| {
        split_paragraphs(t)
            .into_iter()
            .map(|(_, p)| p.to_owned())
            .collect::<Vec<_>>()
    };
    assert_eq!(of(lf), ["第一段。", "第二段。", "第三段。"]);
    assert_eq!(of(&crlf), of(lf));
}

#[test]
fn a_run_of_sentence_punctuation_answers_from_the_index() {
    let run = "。".repeat(20_000);
    let doc = format!("這個方案展望未來{run}\n下一行。\n");
    let idx = CloserTailIndex::build(&doc);
    let run_start = doc.find('。').expect("a full stop");
    let line_end = idx.next_line_break(run_start).expect("a line break");

    for pos in (run_start..line_end).step_by(3) {
        assert!(!idx.has_non_tail_char(pos, line_end));
    }
    assert!(idx.has_non_tail_char(0, line_end));
    assert_eq!(idx.next_line_break(0), Some(line_end));
}

#[test]
fn ai_structural_binary_contrast_below_threshold() {
    let text = "雖然困難很多，但我們還是做到了。這是正常的文章。".repeat(10);
    let issues = scan_structural(&text);
    assert!(
        issues.is_empty()
            || !issues
                .iter()
                .any(|i| i.context.as_ref().is_some_and(|c| c.contains("二元對比")))
    );
}

#[test]
fn ai_structural_binary_contrast_high_density() {
    let filler = "這是正常的技術段落。";
    let mut text = String::new();
    for i in 0..50 {
        if i % 4 == 0 {
            text.push_str("雖然這很困難，但我們可以克服。");
        } else if i % 4 == 1 {
            text.push_str("不僅要學習，更要實踐。");
        } else {
            text.push_str(filler);
        }
    }
    let issues = scan_structural(&text);
    let contrast_issues: Vec<_> = issues
        .iter()
        .filter(|i| i.context.as_ref().is_some_and(|c| c.contains("二元對比")))
        .collect();
    assert!(
        !contrast_issues.is_empty(),
        "high density binary contrast should trigger: {} chars, issues={:?}",
        text.chars().count(),
        issues
    );
}

#[test]
fn ai_structural_paragraph_endings() {
    let mut text = String::new();
    for i in 0..8 {
        if i % 2 == 0 {
            text.push_str("這個技術的發展證明了人工智慧的潛力。");
        } else {
            text.push_str("正是這個突破讓研究人員重新思考。");
        }
        text.push_str("\n\n");
    }
    let issues = scan_structural(&text);
    let ending_issues: Vec<_> = issues
        .iter()
        .filter(|i| i.context.as_ref().is_some_and(|c| c.contains("公式化宣言")))
        .collect();
    assert!(
        !ending_issues.is_empty(),
        "formulaic paragraph endings should trigger"
    );
}

#[test]
fn ai_structural_dash_overuse() {
    let mut text = String::new();
    for _ in 0..5 {
        text.push_str("這項技術—作為核心—非常重要—我們必須注意。\n\n");
    }
    let issues = scan_structural(&text);
    let dash_issues: Vec<_> = issues
        .iter()
        .filter(|i| i.context.as_ref().is_some_and(|c| c.contains("破折號")))
        .collect();
    assert!(!dash_issues.is_empty(), "heavy dash usage should trigger");
}

#[test]
fn ai_structural_formulaic_headings() {
    let text = "# 簡介\n\n內容\n\n## 挑戰與未來展望\n\n更多內容\n\n## 結論與展望\n\n結語";
    let issues = scan_structural(text);
    let heading_issues: Vec<_> = issues
        .iter()
        .filter(|i| i.context.as_ref().is_some_and(|c| c.contains("公式化標題")))
        .collect();
    assert!(
        !heading_issues.is_empty(),
        "formulaic headings should trigger"
    );
}

#[test]
fn ai_formulaic_despite_ignores_challenge_before_despite() {
    let text = "這些挑戰很多，儘管如此，團隊仍然持續改善。";
    let issues = scan_structural(text);
    let despite_issues: Vec<_> = issues
        .iter()
        .filter(|i| i.context.as_ref().is_some_and(|c| c.contains("公式化轉折")))
        .collect();
    assert!(
        despite_issues.is_empty(),
        "challenge before despite should not trigger formulaic despite: {despite_issues:?}"
    );
}

#[test]
fn ai_structural_list_density() {
    let mut text = String::new();
    for i in 0..10 {
        if i < 5 {
            text.push_str("- 第一項\n- 第二項\n- 第三項");
        } else {
            text.push_str("這是一段正常的段落文字。");
        }
        text.push_str("\n\n");
    }
    let issues = scan_structural(&text);
    let list_issues: Vec<_> = issues
        .iter()
        .filter(|i| i.context.as_ref().is_some_and(|c| c.contains("列表")))
        .collect();
    assert!(
        !list_issues.is_empty(),
        "high list density should trigger: 5/10 = 50%"
    );
}

#[test]
fn ai_structural_normal_text_no_false_positive() {
    let text = "台灣的技術產業在近年來快速發展。半導體製造是其中的核心。\n\n\
                台積電作為全球最大的晶圓代工廠，在先進製程上保持領先。\n\n\
                未來的發展方向包括三奈米和二奈米製程的量產。\n\n\
                除了硬體之外，軟體生態系統也在蓬勃發展中。\n\n\
                這些發展為台灣的經濟帶來了穩定的成長動力。";
    let issues = scan_structural(text);
    assert!(
        issues.is_empty(),
        "normal text should not trigger structural patterns: {issues:?}"
    );
}

#[test]
fn ai_zero_width_detected() {
    let text = "正常文字\u{200B}中間\u{FEFF}結尾";
    let issues = scan_structural(text);
    let zw: Vec<_> = issues
        .iter()
        .filter(|i| i.context.as_ref().is_some_and(|c| c.contains("隱形字元")))
        .collect();
    assert_eq!(zw.len(), 2, "should detect 2 zero-width artifacts: {zw:?}");
    for issue in &zw {
        assert_eq!(issue.suggestions.len(), 1);
        assert!(issue.suggestions[0].is_empty());
    }
}

#[test]
fn ai_zero_width_excluded() {
    let text = "正常\u{200B}文字";

    let excluded = vec![ByteRange { start: 6, end: 9 }];
    let mut issues = Vec::new();
    scan_ai_structural(&mut Emitter::new(text, &excluded, &mut issues), 1.0);
    let zw: Vec<_> = issues
        .iter()
        .filter(|i| i.context.as_ref().is_some_and(|c| c.contains("隱形字元")))
        .collect();
    assert!(zw.is_empty(), "excluded zero-width should not be detected");
}

#[test]
fn ai_binary_contrast_ignores_pairs_inside_an_excluded_span() {
    let filler = "這是一段普通的說明文字用來把長度撐過門檻。".repeat(26);
    let pairs = "雖然快但貴。雖然強但慢。雖然新但貴。不僅快還穩。不僅強還省。";
    let text = format!("{filler}{pairs}");

    let fires = |excluded: &[ByteRange]| {
        let mut issues = Vec::new();
        scan_ai_structural(&mut Emitter::new(&text, excluded, &mut issues), 1.0);
        issues
            .iter()
            .any(|i| i.context.as_ref().is_some_and(|c| c.contains("二元對比")))
    };

    assert!(fires(&[]), "prose contrast pairs should be counted");

    let turns_only: Vec<ByteRange> = ["但", "還"]
        .iter()
        .flat_map(|t| {
            text.match_indices(t)
                .map(|(at, m)| ByteRange {
                    start: at,
                    end: at + m.len(),
                })
                .collect::<Vec<_>>()
        })
        .collect();
    assert!(
        !fires(&turns_only),
        "pairs whose turn word is excluded must not be counted"
    );
    let covered = vec![ByteRange {
        start: filler.len(),
        end: text.len(),
    }];
    assert!(
        !fires(&covered),
        "pairs inside an excluded span must not be counted"
    );
}

#[test]
fn ai_excessive_bold_ignores_excluded_markers() {
    let text =
        "這是一段正常說明文字，內容足夠長但是沒有真的使用粗體標記，只有內嵌程式碼 `**a** **b** **c**` 作為示例。";
    let code_start = text.find('`').unwrap();
    let code_end = text.rfind('`').unwrap() + '`'.len_utf8();
    let excluded = vec![ByteRange {
        start: code_start,
        end: code_end,
    }];
    let idx = BoundaryIndex::build(text, &excluded);
    let mut issues = Vec::new();

    scan_ai_excessive_bold(&mut Emitter::new(text, &excluded, &mut issues), &idx);

    let bold_issues: Vec<_> = issues
        .iter()
        .filter(|i| {
            i.context
                .as_ref()
                .is_some_and(|c| c.contains("段落粗體過多"))
        })
        .collect();
    assert!(
        bold_issues.is_empty(),
        "excluded bold markers should not trigger excessive-bold: {bold_issues:?}"
    );
}

#[test]
fn ai_four_char_bold_label_bullets_trigger() {
    let text = "- **核心價值**：第一段說明\n- **治理架構**：第二段說明\n- **實作路徑**：第三段說明";
    let issues = scan_phase2(text);
    assert!(
        issues.iter().any(|i| i
            .context
            .as_ref()
            .is_some_and(|c| c.contains("四字標籤式列表"))),
        "four-character bold labels should trigger: {issues:?}"
    );
    assert!(
        !issues
            .iter()
            .any(|i| i.context.as_ref().is_some_and(|c| c.contains("機械式列表"))),
        "specialized four-character list should replace generic mechanical list: {issues:?}"
    );
}

#[test]
fn ai_significance_stamping_triggers_per_paragraph() {
    let text = "這項安排提供政策的重要框架，也印證制度的重要性。這一節接著討論實作細節。\n\n第二段還在同一節裡。";
    let issues = scan_phase2(text);
    assert!(
        issues.iter().any(|i| i
            .context
            .as_ref()
            .is_some_and(|c| c.contains("意義蓋章式收尾"))),
        "significance stamping should trigger outside section-final sentences: {issues:?}"
    );
}

#[test]
fn non_closing_ai_patterns_ignore_the_section_gate() {
    let text = "隨著人工智慧不斷發展，各行各業都受到影響。\n\n第二段說明實作細節。\n\n第三段收尾。";
    let issues = scan_phase2(text);
    assert!(
        issues
            .iter()
            .any(|i| i.context.as_ref().is_some_and(|c| c.contains("隨著"))),
        "隨著…不斷發展 lost mid-document: {issues:?}"
    );
}

#[test]
fn ai_significance_stamping_exact_phrase_not_duplicated() {
    let text = "這項安排提供重要框架。";
    let issues = scan_phase2(text);
    let stamping_issues: Vec<_> = issues
        .iter()
        .filter(|i| {
            i.context
                .as_ref()
                .is_some_and(|c| c.contains("意義蓋章式收尾") || c.contains("公式化用語"))
        })
        .collect();
    assert_eq!(
        stamping_issues.len(),
        1,
        "exact phrase and pair match should not double-report: {issues:?}"
    );
}

#[test]
fn ai_in_sentence_bold_parallel_triggers() {
    let text = "我們需要**理解歷史**、**回到現場**，並**重建脈絡**。";
    let issues = scan_phase2(text);
    assert!(
        issues.iter().any(|i| {
            i.context
                .as_ref()
                .is_some_and(|c| c.contains("句內關鍵詞粗體排比"))
        }),
        "2-4 bold runs in one sentence should trigger: {issues:?}"
    );
}

#[test]
fn ai_abstract_line_metaphor_requires_three_signals() {
    let good = "改革不是口號，而是一條線。這條線從地方走出來，連到制度現場。這條線也會延伸到新的公共討論。";
    let good_issues = scan_phase2(good);
    let line_issue = good_issues.iter().find(|i| {
        i.context
            .as_ref()
            .is_some_and(|c| c.contains("抽象概念具象成路線"))
    });
    assert!(
        line_issue.is_some(),
        "three-signal abstract line metaphor should trigger: {good_issues:?}"
    );
    assert_eq!(line_issue.unwrap().found, "一條線");

    let idiom = "這條路走不通，所以團隊改用另一個方案。";
    let idiom_issues = scan_phase2(idiom);
    assert!(
        !idiom_issues.iter().any(|i| {
            i.context
                .as_ref()
                .is_some_and(|c| c.contains("抽象概念具象成路線"))
        }),
        "single idiom must stay silent: {idiom_issues:?}"
    );
}

#[test]
fn ai_repeated_parallel_slogan_triggers_once() {
    let text =
        "制度不是牆，而是橋。第一段說明政策背景。\n\n制度不是牆，而是橋。第二段重複同一句口號。";
    let issues = scan_phase2(text);
    let slogan_issues: Vec<_> = issues
        .iter()
        .filter(|i| i.context.as_ref().is_some_and(|c| c.contains("金句疊句")))
        .collect();
    assert_eq!(
        slogan_issues.len(),
        1,
        "repeated parallel slogan should trigger once: {issues:?}"
    );
}

#[test]
fn ai_same_paragraph_slogan_repetition_does_not_trigger() {
    let text = "制度不是牆，而是橋。制度不是牆，而是橋。我們要繼續努力。";
    let issues = scan_phase2(text);
    assert!(
        !issues
            .iter()
            .any(|i| i.context.as_ref().is_some_and(|c| c.contains("金句疊句"))),
        "same-paragraph repetition should not trigger slogan detector: {issues:?}"
    );
}

#[test]
fn ai_repeated_plain_sentence_does_not_trigger_slogan() {
    let text = "請在週五前提交報告。這是行政提醒。\n\n請在週五前提交報告。這是第二次提醒。";
    let issues = scan_phase2(text);
    assert!(
        !issues
            .iter()
            .any(|i| i.context.as_ref().is_some_and(|c| c.contains("金句疊句"))),
        "ordinary repeated sentence should not trigger slogan detector: {issues:?}"
    );
}

#[test]
fn ai_repeated_rhetorical_self_qa_triggers_but_faq_is_preserved() {
    let rhetorical =
        "你以為只是網路慢嗎？錯了，每次請求都重新計算。為什麼快取沒生效？因為 TTL 設定到期。";
    let issues = scan_phase2(rhetorical);
    let self_qa: Vec<_> = issues
        .iter()
        .filter(|i| {
            i.context
                .as_ref()
                .is_some_and(|c| c.contains("連續自問自答"))
        })
        .collect();
    assert_eq!(
        self_qa.len(),
        1,
        "rhetorical pairs should trigger: {issues:?}"
    );

    let faq =
        "faq：你以為只是網路慢嗎？錯了，每次請求都重新計算。為什麼快取沒生效？因為 TTL 設定到期。";
    let faq_issues = scan_phase2(faq);
    assert!(
        !faq_issues.iter().any(|i| i
            .context
            .as_ref()
            .is_some_and(|c| c.contains("連續自問自答"))),
        "explicit FAQ must stay silent: {faq_issues:?}"
    );
}

#[test]
fn rhetorical_self_qa_leaves_explanatory_prose_alone() {
    let teaching = "為什麼要用快取？因為重算的成本很高。為什麼快取會失效？因為 TTL 設定到期。";
    assert!(
        !has_self_qa(&scan_phase2(teaching)),
        "explanatory prose must not be flagged"
    );
}

#[test]
fn rhetorical_self_qa_survives_idiomatic_lead_ins() {
    let text = "但你以為只是網路慢嗎？錯了，每次請求都重新計算。那為什麼快取沒生效？主要是因為 TTL 設定到期。";
    assert!(
        has_self_qa(&scan_phase2(text)),
        "discourse markers hid the device"
    );
}

#[test]
fn ai_emdash_overuse_needs_two_dashes_in_a_paragraph() {
    for (text, want) in [("這段文字——結尾", 0), ("這段文字——持續補充——結尾", 1)]
    {
        let idx = BoundaryIndex::build(text, &[]);
        let mut issues = Vec::new();
        scan_ai_emdash_overuse(&mut Emitter::new(text, &[], &mut issues), &idx);
        assert_eq!(
            issues.len(),
            want,
            "{text:?} should produce {want} issue(s)"
        );
    }
}

#[test]
fn ai_emdash_overuse_ignores_excluded_markers() {
    let text = "`——` 這段文字——持續補充——結尾";
    let code_start = text.find('`').unwrap();
    let code_end = text.rfind('`').unwrap() + '`'.len_utf8();
    let excluded = vec![ByteRange {
        start: code_start,
        end: code_end,
    }];
    let idx = BoundaryIndex::build(text, &excluded);
    let mut issues = Vec::new();

    scan_ai_emdash_overuse(&mut Emitter::new(text, &excluded, &mut issues), &idx);

    let dash_issues: Vec<_> = issues
        .iter()
        .filter(|i| i.context.as_ref().is_some_and(|c| c.contains("破折號")))
        .collect();
    assert_eq!(dash_issues.len(), 1, "real dashes should trigger once");
    assert_eq!(
        dash_issues[0].offset,
        text.find("文字——").unwrap() + "文字".len()
    );
    assert!(
        dash_issues[0]
            .context
            .as_ref()
            .is_some_and(|c| c.contains("段落內 2 處")),
        "excluded dash should not inflate count: {dash_issues:?}"
    );
}

#[test]
fn ai_dash_overuse_ignores_excluded_markers() {
    let text = "`———` 這是正常段落。\n\n`———` 這也是正常段落。\n\n`———` 這仍然是正常段落。";
    let excluded: Vec<ByteRange> = text
        .match_indices('`')
        .collect::<Vec<_>>()
        .chunks(2)
        .map(|pair| ByteRange {
            start: pair[0].0,
            end: pair[1].0 + '`'.len_utf8(),
        })
        .collect();
    let mut issues = Vec::new();

    scan_ai_dash_overuse(&mut Emitter::new(text, &excluded, &mut issues));

    let dash_issues: Vec<_> = issues
        .iter()
        .filter(|i| {
            i.context
                .as_ref()
                .is_some_and(|c| c.contains("含 ≥3 個破折號"))
        })
        .collect();
    assert!(
        dash_issues.is_empty(),
        "excluded code dashes should not create dash-overuse density: {dash_issues:?}"
    );
}

#[test]
fn ai_hedging_density_ignores_excluded_markers() {
    let text = "在某種程度上，這段正常文字提供足夠長的段落內容，用來測試密度提升不會被程式碼範例影響，並保留一個真正的提示。`從某個角度來看 可以說是`";
    let code_start = text.find('`').unwrap();
    let code_end = text.rfind('`').unwrap() + '`'.len_utf8();
    let excluded = vec![ByteRange {
        start: code_start,
        end: code_end,
    }];
    let idx = BoundaryIndex::build(text, &excluded);
    let mut issues = vec![Issue::new(
        0,
        "在某種程度上".len(),
        "在某種程度上".to_string(),
        vec![],
        IssueType::AiStyle,
        Severity::Info,
    )
    .with_context("AI hedging: 在某種程度上".to_string())];

    scan_ai_hedging_density(text, &excluded, &mut issues, &idx);

    assert_eq!(
        issues[0].severity,
        Severity::Info,
        "excluded hedging examples should not promote the real issue"
    );
}

#[test]
fn ai_zero_width_no_false_positive() {
    let text = "完全正常的文字，沒有任何零寬字元。";
    let issues = scan_structural(text);
    let zw: Vec<_> = issues
        .iter()
        .filter(|i| i.context.as_ref().is_some_and(|c| c.contains("隱形字元")))
        .collect();
    assert!(zw.is_empty(), "clean text should have no zero-width issues");
}

#[test]
fn abstract_subject_reports_more_than_first_sentence() {
    let text = "預算的減少導致服務縮減。品質的提高意味著效率提升。";
    let idx = BoundaryIndex::build(text, &[]);
    let mut issues = Vec::new();

    scan_trans_abstract_subject(&mut Emitter::new(text, &[], &mut issues), &idx);

    let abstract_issues: Vec<_> = issues
        .iter()
        .filter(|i| i.context.as_ref().is_some_and(|c| c.contains("抽象主語")))
        .collect();
    assert_eq!(
        abstract_issues.len(),
        2,
        "should report one abstract-subject issue per matching sentence"
    );
}

#[test]
fn ai_style_sort_order_after_grammar() {
    assert!(IssueType::AiStyle.sort_order() > IssueType::Grammar.sort_order());
}

#[test]
fn is_para_excluded_empty_exclusions() {
    assert!(!is_para_excluded(0, 100, &[]));
}

#[test]
fn is_para_excluded_fully_inside() {
    let excluded = vec![ByteRange { start: 0, end: 200 }];
    assert!(is_para_excluded(10, 50, &excluded));
}

#[test]
fn is_para_excluded_partial_overlap_not_excluded() {
    let excluded = vec![ByteRange { start: 0, end: 30 }];
    assert!(!is_para_excluded(10, 50, &excluded));
}

#[test]
fn structural_detectors_skip_excluded_paragraphs() {
    let mut text = String::new();
    let code_start = 0;
    for _ in 0..10 {
        text.push_str("- list item in code\n");
    }
    let code_end = text.len();
    text.push_str("\n\n");
    for _ in 0..6 {
        text.push_str("這是正常的段落文字，沒有列表項目，用來充數。\n\n");
    }
    let excluded = vec![ByteRange {
        start: code_start,
        end: code_end,
    }];
    let mut issues = Vec::new();
    scan_ai_list_density(&mut Emitter::new(&text, &excluded, &mut issues), 1.0);
    let list_issues: Vec<_> = issues
        .iter()
        .filter(|i| i.context.as_ref().is_some_and(|c| c.contains("含列表")))
        .collect();
    assert!(
        list_issues.is_empty(),
        "excluded code paragraph should not inflate list density: {list_issues:?}"
    );
}

#[test]
fn zy1a_fires_on_classic_one_of_the_most_calque() {
    let text = "20 世紀最重要的發現之一。";
    assert!(fires(
        &scan_lex(text),
        (PhaseFamily::YiZhi, PhasePass::Lexical)
    ));
}

#[test]
fn zy1a_fires_on_jiwei_variant() {
    let text = "這是極為重要的科學成就之一。";
    assert!(fires(
        &scan_lex(text),
        (PhaseFamily::YiZhi, PhasePass::Lexical)
    ));
}

#[test]
fn zy1a_fires_on_long_modifier_within_window() {
    let text = "這是當代最具代表性的科學成就之一。";
    assert!(fires(
        &scan_lex(text),
        (PhaseFamily::YiZhi, PhasePass::Lexical)
    ));
}

#[test]
fn zy1a_passes_when_zhi_breaks_the_pair() {
    let text = "最近之內所收到的回信之一。";
    assert!(!fires(
        &scan_lex(text),
        (PhaseFamily::YiZhi, PhasePass::Lexical)
    ));
}

#[test]
fn zy1a_passes_when_no_superlative_marker() {
    let text = "他是領域裡的傑出學者之一。";
    assert!(!fires(
        &scan_lex(text),
        (PhaseFamily::YiZhi, PhasePass::Lexical)
    ));
}

#[test]
fn zy1a_passes_when_no_zhiyi() {
    let text = "這是最重要的研究方向。";
    assert!(!fires(
        &scan_lex(text),
        (PhaseFamily::YiZhi, PhasePass::Lexical)
    ));
}

#[test]
fn zy1a_passes_on_biographical_person_noun() {
    let cases = [
        "他是當代最傑出的畫家之一。",
        "她是領域裡最有影響力的學者之一。",
        "她是這一代最受歡迎的作家之一。",
        "他是最早的程式設計師之一。",
        "他是傑出的工程師之一。",
    ];
    for text in cases {
        assert!(
            !fires(&scan_lex(text), (PhaseFamily::YiZhi, PhasePass::Lexical)),
            "should not fire on biographical idiom: {text}"
        );
    }
}

#[test]
fn zy1a_still_fires_on_non_person_noun_ending_with_shared_character() {
    let text = "世界上最重要的國家之一。";
    assert!(fires(
        &scan_lex(text),
        (PhaseFamily::YiZhi, PhasePass::Lexical)
    ));
}

#[test]
fn zy2a_fires_on_yinwei_suoyi() {
    let text = "因為下雨了，所以我們待在屋裡。";
    assert!(fires(
        &scan_lex(text),
        (PhaseFamily::Connective, PhasePass::Lexical)
    ));
}

#[test]
fn zy2a_fires_on_suiran_danshi() {
    let text = "雖然他非常努力，但是還是失敗了。";
    assert!(fires(
        &scan_lex(text),
        (PhaseFamily::Connective, PhasePass::Lexical)
    ));
}

#[test]
fn zy2a_fires_on_dang_de_shihou() {
    let text = "當我到達公司的時候，他已經在開會了。";
    assert!(fires(
        &scan_lex(text),
        (PhaseFamily::Connective, PhasePass::Lexical)
    ));
}

#[test]
fn zy2a_fires_on_ruguo_name() {
    let text = "如果你願意幫忙，那麼請告訴我。";
    assert!(fires(
        &scan_lex(text),
        (PhaseFamily::Connective, PhasePass::Lexical)
    ));
}

#[test]
fn zy2a_passes_on_unpaired_yinwei() {
    let text = "因為下雨，他選擇待在屋裡。";
    assert!(!fires(
        &scan_lex(text),
        (PhaseFamily::Connective, PhasePass::Lexical)
    ));
}

#[test]
fn zy2a_passes_when_dang_is_dangshi() {
    let text = "當時的他並不知情。";
    assert!(!fires(
        &scan_lex(text),
        (PhaseFamily::Connective, PhasePass::Lexical)
    ));
}

#[test]
fn zy2a_passes_when_distance_exceeds_window() {
    let mut filler = String::from("因為");
    filler.push_str(&"啊".repeat(45));
    filler.push_str("所以這裡。");
    assert!(!fires(
        &scan_lex(&filler),
        (PhaseFamily::Connective, PhasePass::Lexical)
    ));
}

#[test]
fn zy3a_fires_on_implementation_improvement_pair() {
    let text = "策略的實施帶來了效率的提升。";
    assert!(fires(
        &scan_lex(text),
        (PhaseFamily::Nominalization, PhasePass::Lexical)
    ));
}

#[test]
fn zy3a_fires_on_analysis_discovery_pair() {
    let text = "對資料的分析導致了模式的發現。";
    assert!(fires(
        &scan_lex(text),
        (PhaseFamily::Nominalization, PhasePass::Lexical)
    ));
}

#[test]
fn zy3a_fires_on_three_chain() {
    let text = "他對概念的講解的理解非常深入。";
    assert!(fires(
        &scan_lex(text),
        (PhaseFamily::Nominalization, PhasePass::Lexical)
    ));
}

#[test]
fn zy3a_passes_on_single_nominalization() {
    let text = "策略的實施很順利。";
    assert!(!fires(
        &scan_lex(text),
        (PhaseFamily::Nominalization, PhasePass::Lexical)
    ));
}

#[test]
fn zy3a_passes_across_a_terminal_mark() {
    for text in [
        "這個策略的實施！那個效果的提升。",
        "這個策略的實施？那個效果的提升。",
        "這個策略的實施!那個效果的提升。",
    ] {
        assert!(
            !fires(
                &scan_lex(text),
                (PhaseFamily::Nominalization, PhasePass::Lexical)
            ),
            "chained across a terminal mark: {text}"
        );
    }
}

#[test]
fn zy3a_passes_when_clause_boundary_separates() {
    let text = "策略的實施完成了，效率的提升仍在觀察。";
    assert!(!fires(
        &scan_lex(text),
        (PhaseFamily::Nominalization, PhasePass::Lexical)
    ));
}

#[test]
fn zy3a_passes_on_coordinated_nominal_phrases() {
    let text = "我們對政策的理解和對流程的認識都很深入。";
    assert!(!fires(
        &scan_lex(text),
        (PhaseFamily::Nominalization, PhasePass::Lexical)
    ));
}

#[test]
fn zy4a_fires_when_two_false_friends_share_a_clause() {
    let text = "實際上基本上每個人都同意這個觀點。";
    assert!(fires(
        &scan_lex(text),
        (PhaseFamily::FalseFriend, PhasePass::Lexical)
    ));
}

#[test]
fn zy4a_fires_with_parenthetical_gloss() {
    let text = "字面上 (literally) 我也是這樣理解的。";
    assert!(fires(
        &scan_lex(text),
        (PhaseFamily::FalseFriend, PhasePass::Lexical)
    ));
}

#[test]
fn zy4a_fires_on_seriously_honestly_cluster() {
    let text = "他嚴肅地表示誠實地說我們無法繼續。";
    assert!(fires(
        &scan_lex(text),
        (PhaseFamily::FalseFriend, PhasePass::Lexical)
    ));
}

#[test]
fn zy4a_passes_on_solo_occurrence() {
    let text = "實際上他比我想的還要勤奮。";
    assert!(!fires(
        &scan_lex(text),
        (PhaseFamily::FalseFriend, PhasePass::Lexical)
    ));
}

#[test]
fn zy4a_passes_when_companion_is_in_different_clause() {
    let text = "實際上他並不在意，基本上一切都按部就班。";
    assert!(!fires(
        &scan_lex(text),
        (PhaseFamily::FalseFriend, PhasePass::Lexical)
    ));
}

#[test]
fn zy4a_ignores_companion_inside_excluded_zone() {
    let text = "實際上基本上每個人都同意。";
    let mut issues = Vec::new();
    let excluded: &[ByteRange] = &[ByteRange {
        start: 0,
        end: "實際上".len(),
    }];
    scan_translationese_lexical(
        &mut Emitter::new(text, excluded, &mut issues),
        Register::Casual,
    );

    assert!(
        !issues
            .iter()
            .any(|i| i.phase_family == Some((PhaseFamily::FalseFriend, PhasePass::Lexical))),
        "ZY4a should not fire when companion is excluded"
    );
}

#[test]
fn zy4a_parenthetical_gloss_inside_excluded_zone_does_not_qualify() {
    let text = "字面上 (literally) 我也同意。";
    let paren_start = text.find('(').unwrap();
    let paren_end = text.find(')').unwrap() + 1;
    let mut issues = Vec::new();
    let excluded: &[ByteRange] = &[ByteRange {
        start: paren_start,
        end: paren_end,
    }];
    scan_translationese_lexical(
        &mut Emitter::new(text, excluded, &mut issues),
        Register::Casual,
    );
    assert!(
        !issues
            .iter()
            .any(|i| i.phase_family == Some((PhaseFamily::FalseFriend, PhasePass::Lexical))),
        "ZY4a should not fire when gloss is excluded"
    );
}

#[test]
fn zy2a_skips_dang_di_dang_ju_dang_zhongs() {
    let cases = [
        "當地的時候情況不容易掌握。",
        "當局的時候反應顯得遲緩。",
        "當中的時候資訊很混亂。",
        "當然的時候大家都會選擇A。",
    ];
    for text in cases {
        let issues = scan_lex(text);
        assert!(
            !issues
                .iter()
                .any(|i| i.phase_family == Some((PhaseFamily::Connective, PhasePass::Lexical))),
            "ZY2a must not fire on 當-prefix words: {text}"
        );
    }
}

#[test]
fn lexical_detectors_handle_empty_input() {
    assert!(scan_lex("").is_empty());
}

#[test]
fn lexical_detectors_handle_ascii_only() {
    assert!(scan_lex("Hello world. Actually, basically.").is_empty());
}

#[test]
fn lexical_detectors_handle_mixed_cjk_ascii_no_panic() {
    let text = "Hello 因為A，所以B。實際上 (literally) 100% sure.";
    let _ = scan_lex(text);
}

#[test]
fn zy1b_fires_on_yi_zhi_density() {
    let text = "這是科學成就之一，這是科學成就之一。\
                那是貢獻之一，那是貢獻之一。\
                再者是發現之一，再者是發現之一。\
                另一個發現之一，另一個發現之一。\
                還有重要事件之一，還有重要事件之一。\
                最後一個成就之一，最後一個成就之一。";
    let issues = scan_indexed(
        text,
        TranslationeseDomain::General,
    );
    assert!(
        fires(&issues, (PhaseFamily::YiZhi, PhasePass::Indexed)),
        "expected 之一 段落密度過高 — in: {issues:?}"
    );
}

#[test]
fn zy1b_passes_on_short_paragraph() {
    let text = "這是成就之一。那是貢獻之一。";
    let issues = scan_indexed(
        text,
        TranslationeseDomain::General,
    );
    assert!(!fires(&issues, (PhaseFamily::YiZhi, PhasePass::Indexed)));
}

#[test]
fn zy1b_register_switch_changes_firing() {
    let body = "他是領域裡的創新者，這項研究是當代成就，他在學術圈\
                地位崇高，這個團隊也是行業領頭羊。整體來說這篇論文\
                是經典代表之一，這個觀點是少數派論述之一，未來研究\
                的方向也將以此為一例之一展開深入探討與分析。學界\
                認為相關討論值得關注，後續研究也將圍繞這些主題\
                進行更為深入的考察與比較分析。研究團隊指出，過去\
                幾年的學術走向已經逐步成形，各種新方法不斷被提出\
                且持續調整，主流共識正在凝聚當中，相關文獻也明顯\
                增加，引起學界更廣泛關注。";
    let lit = scan_indexed(
        body,
        TranslationeseDomain::Literary,
    );
    let tech = scan_indexed(
        body,
        TranslationeseDomain::Technical,
    );
    assert!(
        fires(&lit, (PhaseFamily::YiZhi, PhasePass::Indexed)),
        "Literary should fire: {lit:?}"
    );
    assert!(
        !fires(&tech, (PhaseFamily::YiZhi, PhasePass::Indexed)),
        "Technical should not fire: {tech:?}"
    );
}

#[test]
fn zy2b_fires_on_sentence_bounded_yinwei_suoyi() {
    let text = "因為下雨了，所以我們待在屋裡。這句話另起一行。";
    let issues = scan_indexed(
        text,
        TranslationeseDomain::General,
    );
    assert!(
        fires(&issues, (PhaseFamily::Connective, PhasePass::Indexed)),
        "expected ZY2b: {issues:?}"
    );
}

#[test]
fn a_paired_connective_does_not_reach_across_a_full_stop() {
    let across = "因為下雨了。我們待在屋裡，所以很無聊。";
    assert!(
        !fires(
            &scan_lex(across),
            (PhaseFamily::Connective, PhasePass::Lexical)
        ),
        "ZY2a paired across a sentence boundary: {:?}",
        scan_lex(across)
    );
    let within = "因為下雨了，所以我們待在屋裡。";
    assert!(
        fires(
            &scan_lex(within),
            (PhaseFamily::Connective, PhasePass::Lexical)
        ),
        "ZY2a must still pair inside one sentence: {:?}",
        scan_lex(within)
    );
}

#[test]
fn a_superlative_does_not_reach_across_a_full_stop() {
    let across = "這是最好的方法。其中之一是重構。";
    assert!(
        !fires(&scan_lex(across), (PhaseFamily::YiZhi, PhasePass::Lexical)),
        "ZY1a paired across a sentence boundary: {:?}",
        scan_lex(across)
    );
    let within = "這是最好的方法，其中之一是重構。";
    assert!(
        fires(&scan_lex(within), (PhaseFamily::YiZhi, PhasePass::Lexical)),
        "ZY1a must still pair inside one sentence: {:?}",
        scan_lex(within)
    );
}

#[test]
fn zy2b_is_suppressed_in_formal_register() {
    let text = "因為下雨了，所以我們待在屋裡。";
    let idx = BoundaryIndex::build(text, &[]);
    let mut issues = Vec::new();
    scan_translationese_indexed(
        &mut Emitter::new(text, &[], &mut issues),
        &idx,
        TranslationeseDomain::General,
        false,
        Register::Formal,
    );
    assert!(
        !fires(&issues, (PhaseFamily::Connective, PhasePass::Indexed)),
        "formal register must suppress ZY2b: {issues:?}"
    );
}

#[test]
fn zy2b_does_not_fire_across_sentence_boundary() {
    let text = "他停下來，因為下雨了。所以大家紛紛回家了。";
    let issues = scan_indexed(
        text,
        TranslationeseDomain::General,
    );
    assert!(
        !fires(&issues, (PhaseFamily::Connective, PhasePass::Indexed)),
        "should not span sentences: {issues:?}"
    );
}

#[test]
fn zy2b_finds_real_dang_after_skipped_dangdi() {
    let text = "他在當地一直工作著，當我抵達總部的時候才終於和他見面。";
    let issues = scan_indexed(
        text,
        TranslationeseDomain::General,
    );
    assert!(
        fires(&issues, (PhaseFamily::Connective, PhasePass::Indexed)),
        "expected ZY2b: {issues:?}"
    );
}

#[test]
fn zy2b_preserves_zy2a_distance_cap_inside_sentence() {
    let filler = "甲".repeat(45);
    let text = format!("因為{filler}所以我們決定延後。");
    let issues = scan_indexed(
        &text,
        TranslationeseDomain::General,
    );
    assert!(
        !fires(&issues, (PhaseFamily::Connective, PhasePass::Indexed)),
        "should respect ZY2a distance cap: {issues:?}"
    );
}

#[test]
fn zy1b_anchor_skips_excluded_first_hit() {
    let body = "他是領域裡的創新者之一，這項研究是當代成就，他在學術圈\
                地位崇高，這個團隊也是行業領頭羊。整體來說這篇論文\
                是經典代表之一，這個觀點是少數派論述之一，未來研究\
                的方向也將以此為一例之一展開深入探討。學界認為相關\
                討論值得關注，後續研究也將圍繞這些主題進行更為深入\
                的考察與比較分析。";
    let text = format!("前綴 {body}");
    let first_zhi_yi = text.find("之一").unwrap();
    let excluded: &[ByteRange] = &[ByteRange {
        start: first_zhi_yi,
        end: first_zhi_yi + "之一".len(),
    }];
    let idx = BoundaryIndex::build(&text, excluded);
    let mut issues = Vec::new();
    scan_translationese_indexed(
        &mut Emitter::new(&text, excluded, &mut issues),
        &idx,
        TranslationeseDomain::General,
        false,
        Register::Casual,
    );
    let zy1b: Vec<_> = issues
        .iter()
        .filter(|i| i.phase_family == Some((PhaseFamily::YiZhi, PhasePass::Indexed)))
        .collect();
    assert!(!zy1b.is_empty(), "ZY1b should still fire: {issues:?}");
    assert_ne!(zy1b[0].offset, first_zhi_yi);
}

#[test]
fn zy2b_skips_dang_prefix_words() {
    let text = "當地的時候情況不容易掌握。";
    let issues = scan_indexed(
        text,
        TranslationeseDomain::General,
    );
    assert!(!fires(
        &issues,
        (PhaseFamily::Connective, PhasePass::Indexed)
    ));
}

#[test]
fn zy3b_fires_on_three_chain_in_general_domain() {
    let text = "他完成改善的提升的發現工作。";
    let issues = scan_indexed(
        text,
        TranslationeseDomain::General,
    );
    assert!(
        fires(&issues, (PhaseFamily::Nominalization, PhasePass::Indexed)),
        "expected ZY3b: {issues:?}"
    );
}

#[test]
fn zy3b_passes_on_two_chain_in_technical_domain() {
    let text = "他完成改善的提升的發現工作。";
    let issues = scan_indexed(
        text,
        TranslationeseDomain::Technical,
    );
    assert!(!fires(
        &issues,
        (PhaseFamily::Nominalization, PhasePass::Indexed)
    ));
}

#[test]
fn zy3b_passes_on_two_chain_in_general() {
    let text = "他完成改善的提升工作。";
    let issues = scan_indexed(
        text,
        TranslationeseDomain::General,
    );
    assert!(!fires(
        &issues,
        (PhaseFamily::Nominalization, PhasePass::Indexed)
    ));
}

#[test]
fn zy3b_chain_does_not_consume_orphan_trailing_de() {
    let text = "他完成改善的提升的發現的非詞工作。";
    let issues = scan_indexed(
        text,
        TranslationeseDomain::General,
    );
    let zy3b_issue = issues
        .iter()
        .find(|i| i.phase_family == Some((PhaseFamily::Nominalization, PhasePass::Indexed)))
        .expect("ZY3b should fire");
    assert!(
        !zy3b_issue.found.ends_with('的'),
        "ZY3b span should not include orphan trailing 的, got: {:?}",
        zy3b_issue.found
    );
    assert!(
        zy3b_issue.found.ends_with("發現"),
        "ZY3b span should end at last head 發現, got: {:?}",
        zy3b_issue.found
    );
}

#[test]
fn zy5_fires_on_long_premodifier() {
    let text = "那個在車站外面的雨裡等了三個小時的男人終於放棄了。";
    let issues = scan_indexed(
        text,
        TranslationeseDomain::General,
    );
    assert!(
        fires(&issues, (PhaseFamily::LongPremodifier, PhasePass::Lexical)),
        "expected ZY5: {issues:?}"
    );
}

#[test]
fn predicate_scan_agrees_with_the_direct_form() {
    let cases = [
        "他就走了的東西的樣子",
        "這個可以用的方法的問題",
        "就地取材的方式的結果",
        "他的成就的意義的說明",
        "剛才的說法的意思",
        "方便的方式的結果",
        "忘卻的往事的痕跡",
        "已經完成的工作的內容",
        "東西的樣子的問題就",
        "正在進行的計畫的目標",
        "沒有任何標記的一般文字",
        "才對的說法的意思",
    ];

    for case in cases {
        for lo in (0..case.len()).filter(|&i| case.is_char_boundary(i)) {
            let close = first_predicate_close(case, lo);
            for (hi, _) in case.match_indices('的').filter(|&(at, _)| at >= lo) {
                assert_eq!(
                    close.is_some_and(|close| close <= hi),
                    opens_a_predicate(&case[lo..hi]),
                    "case {case:?} region {lo}..{hi} = {:?}",
                    &case[lo..hi]
                );
            }
        }
    }
}

#[test]
fn zy5_reports_a_span_reaching_the_last_noun() {
    let text = "那個在車站外面的雨裡等了三個小時的男人的外套";
    let issues = scan_general(text);
    let zy5 = issues
        .iter()
        .find(|i| i.phase_family == Some((PhaseFamily::LongPremodifier, PhasePass::Lexical)))
        .unwrap_or_else(|| panic!("expected ZY5: {issues:?}"));
    assert_eq!(
        zy5.offset + zy5.length,
        text.len(),
        "the reported span must reach the last noun: {zy5:?}"
    );
}

#[test]
fn zy5_predicate_guard_covers_ordinary_verbs_and_adverbs() {
    for word in [
        "就開始",
        "就變成",
        "就徹底",
        "就永遠",
        "就逐漸",
        "就此",
        "就算",
        "卻依然",
        "也很快",
        "才慢慢",
        "便迅速",
        "就會",
        "就要",
        "就被",
    ] {
        let text = format!("那個看起來十分陌生的城市{word}吞噬他熟悉的日常生活。");
        let issues = scan_general(&text);
        assert!(
            !fires(&issues, (PhaseFamily::LongPremodifier, PhasePass::Lexical)),
            "unexpected ZY5 for {word}: {issues:?}"
        );
    }
}

#[test]
fn zy5_passes_when_a_predicate_separates_the_de_phrases() {
    let text = "每週的檢討會議也能聚焦真正的瓶頸。";
    let issues = scan_general(text);
    assert!(
        !fires(&issues, (PhaseFamily::LongPremodifier, PhasePass::Lexical)),
        "unexpected ZY5: {issues:?}"
    );
}

#[test]
fn marker_words_are_all_two_characters() {
    for word in MARKER_WORDS {
        assert_eq!(
            word.chars().count(),
            2,
            "{word} must be two characters for the window mask to see it"
        );
    }
}

#[test]
fn zy5_predicate_guard_ignores_markers_inside_words() {
    for text in [
        "那是一個工匠面對自己的成就被命運直接抹除的瞬間。",
        "這乃是一個從不細看自己所寫之物的人才會犯下的錯誤。",
        "為了兼顧系統的便利性與穩定性的整體平衡設計。",
        "這是一份針對長期投入的就業輔導方案累積的完整報告。",
        "憑著他的才華洋溢加上長年累積的舞台經驗。",
    ] {
        let issues = scan_general(text);
        assert!(
            fires(&issues, (PhaseFamily::LongPremodifier, PhasePass::Lexical)),
            "expected ZY5 for {text:?}: {issues:?}"
        );
    }
}

#[test]
fn zy5_passes_on_native_long_name() {
    let text = "中華民國行政院昨日發表了新政策。";
    let issues = scan_indexed(
        text,
        TranslationeseDomain::General,
    );
    assert!(!fires(
        &issues,
        (PhaseFamily::LongPremodifier, PhasePass::Lexical)
    ));
}

#[test]
fn zy5_passes_on_short_native_possessive() {
    let text = "我父親的朋友的兒子今天來訪。";
    let issues = scan_indexed(
        text,
        TranslationeseDomain::General,
    );
    assert!(!fires(
        &issues,
        (PhaseFamily::LongPremodifier, PhasePass::Lexical)
    ));
}

#[test]
fn zy5_passes_when_internal_comma_breaks_span() {
    let text = "那個男人在車站外面的雨裡，等了三個小時，終於放棄了。";
    let issues = scan_indexed(
        text,
        TranslationeseDomain::General,
    );
    assert!(!fires(
        &issues,
        (PhaseFamily::LongPremodifier, PhasePass::Lexical)
    ));
}

#[test]
fn zy5_passes_in_technical_domain_at_borderline() {
    let text = "車站外面的雨裡等了三小時的男人。";
    let issues = scan_indexed(
        text,
        TranslationeseDomain::Technical,
    );
    let _ = issues;
}

#[test]
fn zy5_passes_on_long_clause_without_premodifier_endpoint() {
    let text = "我昨天在博物館看到他的朋友的兒子正在導覽。";
    let issues = scan_indexed(
        text,
        TranslationeseDomain::General,
    );
    assert!(
        !fires(&issues, (PhaseFamily::LongPremodifier, PhasePass::Lexical)),
        "unexpected ZY5: {issues:?}"
    );
}

#[test]
fn zy5_passes_on_clause_that_only_ends_with_de_noun() {
    let text = "昨天在博物館看到他的朋友的兒子正在導覽。";
    let issues = scan_indexed(
        text,
        TranslationeseDomain::General,
    );
    assert!(
        !fires(&issues, (PhaseFamily::LongPremodifier, PhasePass::Lexical)),
        "unexpected ZY5: {issues:?}"
    );
}

#[test]
fn indexed_detectors_handle_empty_input() {
    let issues = scan_indexed(
        "",
        TranslationeseDomain::General,
    );
    assert!(issues.is_empty());
}

#[test]
fn indexed_detectors_handle_short_input_no_panic() {
    let _ = scan_indexed(
        "短",
        TranslationeseDomain::General,
    );
}

#[test]
fn indexed_detectors_handle_ascii_only() {
    let issues = scan_indexed(
        "Hello world. Actually basically.",
        TranslationeseDomain::General,
    );
    assert!(issues.is_empty());
}

#[test]
fn rhythm_flags_a_sentence_that_never_pauses() {
    let text = "這份報告詳細說明了整個系統在過去一年之中所有功能的演進過程與後續規劃方向。";
    let issues = scan_rhythm_only(text);
    assert!(
        rhythm_fires(&issues, PhaseFamily::RhythmLongSentence),
        "expected a long-sentence finding: {issues:?}"
    );
}

#[test]
fn rhythm_passes_a_long_sentence_made_of_short_clauses() {
    let text = "這份報告很詳細，內容很完整，結構也清楚，讀起來很順，結論相當明確，值得參考。";
    let issues = scan_rhythm_only(text);
    assert!(
        !rhythm_fires(&issues, PhaseFamily::RhythmLongSentence),
        "clauses under the fragment floor are not a rhythm violation: {issues:?}"
    );
}

#[test]
fn rhythm_passes_a_dunhao_terminology_list() {
    let text = "支援的格式包含純文字、標記語言、設定檔、資料交換格式、樣式表、指令稿。";
    let issues = scan_rhythm_only(text);
    assert!(
        !rhythm_fires(&issues, PhaseFamily::RhythmLongSentence),
        "a 頓號 list already contains its pauses: {issues:?}"
    );
}

#[test]
fn rhythm_measures_after_stripping_latin_and_digits() {
    let text = "設定值為 MAX_CONNECTION_RETRY_INTERVAL_SECONDS=3600 而預設是 300 秒。";
    let issues = scan_rhythm_only(text);
    assert!(
        !rhythm_fires(&issues, PhaseFamily::RhythmLongSentence),
        "Latin and digits do not count toward sentence length: {issues:?}"
    );
}

#[test]
fn rhythm_flags_a_long_sentence_that_pauses_only_once() {
    let text = "這份報告詳細說明了整個系統的演進過程、以及後續維護時應該特別留意的每一項注意事項。";
    let issues = scan_rhythm_only(text);
    assert!(
        rhythm_fires(&issues, PhaseFamily::RhythmLongSentence),
        "one mark in a long sentence is not an exemption: {issues:?}"
    );
}

#[test]
fn rhythm_treats_a_parenthetical_aside_as_the_pause_it_is() {
    let text = "這份報告寫得很清楚（補充說明在附錄）內容也很完整，讀來相當順暢。";
    let issues = scan_rhythm_only(text);
    assert!(
        !rhythm_fires(&issues, PhaseFamily::RhythmLongSentence),
        "an aside is a pause: {issues:?}"
    );
}

#[test]
fn rhythm_monotony_does_not_run_across_an_excluded_span() {
    let text = "天氣變好了。這裡是程式碼。心情也好了。設備修好了。";
    let code_start = text.find("這裡是程式碼。").unwrap();
    let excluded = vec![ByteRange {
        start: code_start,
        end: code_start + "這裡是程式碼。".len(),
    }];
    let idx = BoundaryIndex::build(text, &excluded);
    let mut issues = Vec::new();
    scan_rhythm(&mut Emitter::new(text, &excluded, &mut issues), &idx);
    assert!(
        !fires(&issues, (PhaseFamily::RhythmMonotony, PhasePass::Indexed)),
        "a run must not reach across an excluded span: {issues:?}"
    );

    let plain = "天氣變好了。心情也好了。設備修好了。";
    let idx = BoundaryIndex::build(plain, &[]);
    let mut issues = Vec::new();
    scan_rhythm(&mut Emitter::new(plain, &[], &mut issues), &idx);
    assert!(
        fires(&issues, (PhaseFamily::RhythmMonotony, PhasePass::Indexed)),
        "three consecutive 了 endings are still monotony: {issues:?}"
    );
}

#[test]
fn rhythm_monotony_ignores_a_sentence_ending_in_content() {
    let text = "他來了 v2。她也走了 v3。天氣變好了 v4。";
    let issues = scan_rhythm_only(text);
    assert!(
        !rhythm_fires(&issues, PhaseFamily::RhythmMonotony),
        "a trailing identifier is content, not a closer: {issues:?}"
    );
}

#[test]
fn rhythm_monotony_looks_through_a_closing_bracket() {
    let text = "他來了（真的）。她也走了「大概」。天氣變好了。";
    let issues = scan_rhythm_only(text);
    assert!(
        !rhythm_fires(&issues, PhaseFamily::RhythmMonotony),
        "the bracketed word is what these sentences end on: {issues:?}"
    );
}

#[test]
fn rhythm_flags_three_sentences_closing_on_the_same_particle() {
    let text = "他來了。她也走了。天氣變好了。";
    let issues = scan_rhythm_only(text);
    assert!(
        rhythm_fires(&issues, PhaseFamily::RhythmMonotony),
        "expected a monotony finding: {issues:?}"
    );
}

#[test]
fn rhythm_reports_one_finding_per_run() {
    let text = "他來了。她也走了。天氣變好了。事情辦完了。大家散了。";
    let issues = scan_rhythm_only(text);
    let count = issues
        .iter()
        .filter(|i| i.phase_family == Some((PhaseFamily::RhythmMonotony, PhasePass::Indexed)))
        .count();
    assert_eq!(
        count, 1,
        "a run of five is one finding, not three: {issues:?}"
    );
}

#[test]
fn rhythm_monotony_needs_the_same_particle() {
    let text = "他來了。這是我的。你在做什麼呢。";
    let issues = scan_rhythm_only(text);
    assert!(
        !rhythm_fires(&issues, PhaseFamily::RhythmMonotony),
        "three different particles are variety, not monotony: {issues:?}"
    );
}

#[test]
fn rhythm_monotony_does_not_cross_a_paragraph_break() {
    let text = "他來了。她也走了。\n\n天氣變好了。事情辦完了。";
    let issues = scan_rhythm_only(text);
    assert!(
        !rhythm_fires(&issues, PhaseFamily::RhythmMonotony),
        "a paragraph break restarts the tune: {issues:?}"
    );
}

#[test]
fn rhythm_findings_carry_no_suggestion() {
    let text = "這份報告詳細說明了整個系統在過去一年之中所有功能的演進過程與後續規劃方向。\
                他來了。她也走了。天氣變好了。";
    let issues = scan_rhythm_only(text);
    assert!(!issues.is_empty());
    assert!(
        issues
            .iter()
            .all(|i| i.suggestions.is_empty() && i.severity == Severity::Info),
        "rhythm findings are advisory and unfixable: {issues:?}"
    );
}

#[test]
fn zy5_de_gate_relaxes_only_under_rhythm() {
    let text = "那個在車站外面等了三個小時的男人終於放棄了。";
    let domain = TranslationeseDomain::General;
    let off = scan_indexed_with_rhythm(text, domain, false);
    let on = scan_indexed_with_rhythm(text, domain, true);
    assert!(
        !fires(&off, (PhaseFamily::LongPremodifier, PhasePass::Lexical)),
        "one 的 is below the default gate: {off:?}"
    );

    assert!(
        fires(
            &on,
            (PhaseFamily::RhythmLongPremodifier, PhasePass::Lexical)
        ),
        "rhythm should bypass the 的 gate: {on:?}"
    );
    assert!(
        !fires(&on, (PhaseFamily::LongPremodifier, PhasePass::Lexical)),
        "a relaxed hit must not wear the calibrated family: {on:?}"
    );
    assert!(
        PhaseFamily::RhythmLongPremodifier.is_advisory(),
        "a relaxed hit has to be advisory or the score counts it"
    );
}

#[test]
fn rhythm_does_not_delete_a_calibrated_premodifier() {
    let text = "一個非常重要而且複雜的「核心」的系統設計模組。";
    let domain = TranslationeseDomain::General;
    let off = scan_indexed_with_rhythm(text, domain, false);
    let on = scan_indexed_with_rhythm(text, domain, true);
    assert!(
        fires(&off, (PhaseFamily::LongPremodifier, PhasePass::Lexical)),
        "the calibrated pass should report this: {off:?}"
    );
    assert!(
        fires(&on, (PhaseFamily::LongPremodifier, PhasePass::Lexical)),
        "rhythm must not delete a calibrated finding: {on:?}"
    );
}

#[test]
fn a_relaxed_premodifier_is_advisory_in_severity_too() {
    let text = "那個在車站外面等了三個小時的男人終於放棄了。";
    let domain = TranslationeseDomain::General;
    let on = scan_indexed_with_rhythm(text, domain, true);
    let relaxed: Vec<_> = on
        .iter()
        .filter(|i| {
            i.phase_family == Some((PhaseFamily::RhythmLongPremodifier, PhasePass::Lexical))
        })
        .collect();
    assert!(!relaxed.is_empty(), "expected a relaxed hit: {on:?}");
    assert!(
        relaxed.iter().all(|i| i.severity == Severity::Info),
        "a relaxed hit must be advisory in severity: {relaxed:?}"
    );
}

#[test]
fn zy5_under_rhythm_still_respects_the_fragment_floor() {
    let text = "在車站外面等待的男人放棄了。";
    let domain = TranslationeseDomain::Literary;
    let on = scan_indexed_with_rhythm(text, domain, true);
    assert!(
        !fires(&on, (PhaseFamily::LongPremodifier, PhasePass::Lexical)),
        "a span under the fragment floor is not a rhythm violation: {on:?}"
    );
}

#[test]
fn zy5_under_rhythm_does_not_count_latin_toward_the_floor() {
    let text = "在 MAX_CONNECTION_RETRY_INTERVAL 裡設定的數值。";
    let domain = TranslationeseDomain::General;
    let on = scan_indexed_with_rhythm(text, domain, true);
    assert!(
        !fires(&on, (PhaseFamily::LongPremodifier, PhasePass::Lexical)),
        "an identifier is not a pre-modifier: {on:?}"
    );
}

#[test]
fn zy5_under_rhythm_exempts_a_span_broken_by_an_aside() {
    let text = "那個在車站外面（下著雨）等了三個小時的男人放棄了。";
    let domain = TranslationeseDomain::General;
    let on = scan_indexed_with_rhythm(text, domain, true);
    assert!(
        !fires(&on, (PhaseFamily::LongPremodifier, PhasePass::Lexical)),
        "the aside is a pause: {on:?}"
    );
}
