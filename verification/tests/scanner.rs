//! Whole scans.
use zhtw_scan::bounds::{paragraph_spans, split_paragraphs, Bound, BoundaryIndex, Paragraph};
use zhtw_scan::casing::CaseRule;
use zhtw_scan::content::{ContentType, DocumentRanges};
use zhtw_scan::emit::ByteRange;
use zhtw_scan::grammar::ai::Invisible;
use zhtw_scan::grammar::indexed::Domain;
use zhtw_scan::issue::{Issue, IssueType, PhaseFamily, PhasePass};
use zhtw_scan::output::{ScanOutput, ScratchSpace};
use zhtw_scan::profile::{ProfileConfig, RegisterMode};
use zhtw_scan::rules::{
    ChineseType, ContextSuggestion, PoliticalStance, RuleType, SpellingRule,
};
use zhtw_scan::scanner::{DocumentFacts, MarkdownRegions, Scanner as LibraryScanner};
use zhtw_scan::text::Text;

/// The limits of ordinary prose.
fn general() -> Domain {
    Domain {
        name: "general",
        yi_zhi_tenths: 20,
        chain_min: 3,
        premodifier_chars: 15,
        premodifier_de: 2,
    }
}

/// The checks that are on by default.
fn base() -> ProfileConfig {
    ProfileConfig {
        spelling: true,
        casing: true,
        basic_punctuation: true,
        colon_enforcement: true,
        dunhao_detection: false,
        range_normalization: false,
        range_en_dash: false,
        ellipsis_normalization: true,
        variant_normalization: false,
        grammar_checks: true,
        ai_filler_detection: false,
        ai_semantic_safety: false,
        ai_density_detection: false,
        ai_structural_patterns: false,
        ai_threshold_percent: 100,
        translationese_detection: true,
        translationese_domain: general(),
        rhythm: false,
        register: RegisterMode::Auto,
        exempt_blockquotes: false,
        heading_severity_boost: true,
        offset_only: false,
    }
}

fn no_stance() -> PoliticalStance {
    PoliticalStance { silenced: Vec::new() }
}

/// Code spans and addresses of a text.
fn ranges_of(text: &str) -> DocumentRanges {
    let ticks: Vec<usize> = text.match_indices('`').map(|(at, _)| at).collect();
    let inline_markup = ticks
        .chunks(2)
        .filter(|pair| pair.len() == 2)
        .map(|pair| ByteRange { start: pair[0], end: pair[1] + 1 })
        .collect();
    let mut patterns = Vec::new();
    let mut at = 0;
    for word in text.split_inclusive(char::is_whitespace) {
        let bare = word.trim_end();
        if bare.contains("://") {
            patterns.push(ByteRange { start: at, end: at + bare.len() });
        }
        at += word.len();
    }
    DocumentRanges {
        patterns,
        code_blocks: Vec::new(),
        inline_markup,
        blockquotes: Vec::new(),
        yaml_keys: Vec::new(),
        suppressed: Vec::new(),
        suppressed_by_hash: Vec::new(),
    }
}

/// Paragraphs at blank lines, and in each the sentences that its marks end,
/// without those that an excluded range covers.
fn split_bounds(text: &str, excluded: &[ByteRange]) -> BoundaryIndex {
    let chars: Vec<char> = text.chars().collect();
    let mut bytes: Vec<usize> = text.char_indices().map(|(b, _)| b).collect();
    bytes.push(text.len());
    let covered = |from: usize, to: usize| {
        excluded.iter().any(|r| r.start <= bytes[from] && bytes[to] <= r.end)
    };
    let mut sentences: Vec<Bound> = Vec::new();
    let mut paragraphs: Vec<Paragraph> = Vec::new();
    for b in paragraph_spans(&Text::new(text)) {
        let first = sentences.len();
        let mut start = b.start;
        for i in b.start..b.end {
            if matches!(chars[i], '。' | '！' | '？' | '!' | '?') || i + 1 == b.end {
                if !covered(start, i + 1) {
                    sentences.push(Bound { start, end: i + 1 });
                }
                start = i + 1;
            }
        }
        paragraphs.push(Paragraph { start: b.start, end: b.end, first, last: sentences.len() });
    }
    BoundaryIndex { sentences, paragraphs }
}

/// What is known of a text: the script, its zero-width spaces, and its
/// sentences and paragraphs.
fn facts_of(text: &str) -> DocumentFacts {
    let mut facts = DocumentFacts::of_script(ChineseType::Traditional);
    facts.structural.invisible = text
        .chars()
        .enumerate()
        .filter(|&(_, c)| c == '\u{200B}')
        .map(|(pos, _)| Invisible { pos, label: "U+200B".to_string() })
        .collect();
    facts.structural.invisible_chars = vec!['\u{200B}'];
    facts.bounds = split_bounds(text, &[]);
    facts
}

#[derive(Clone, Copy)]
enum Profile {
    Base,
    Strict,
}

impl Profile {
    fn config(self) -> ProfileConfig {
        match self {
            Profile::Base => base(),
            Profile::Strict => ProfileConfig { variant_normalization: true, ..base() },
        }
    }
}

struct Scanner {
    inner: LibraryScanner,
}

impl Scanner {
    fn new(rules: Vec<SpellingRule>, case_rules: Vec<CaseRule>) -> Self {
        Scanner { inner: LibraryScanner::new(rules, case_rules) }
    }

    fn has_charwise(&self) -> bool {
        self.inner.ac_charwise().is_some()
    }

    fn force_bytewise(&mut self) {
        self.inner.force_bytewise();
        assert!(!self.has_charwise());
    }

    fn scan(&self, text: &str) -> ScanOutput {
        self.scan_profiled(text, Profile::Base)
    }

    fn scan_profiled(&self, text: &str, profile: Profile) -> ScanOutput {
        self.scan_for_content_type(text, ContentType::Markdown, profile)
    }

    fn scan_for_content_type(
        &self,
        text: &str,
        content_type: ContentType,
        profile: Profile,
    ) -> ScanOutput {
        self.scan_for_content_type_with_config(text, content_type, profile.config())
    }

    fn scan_for_content_type_with_config(
        &self,
        text: &str,
        content_type: ContentType,
        cfg: ProfileConfig,
    ) -> ScanOutput {
        self.inner.scan_for_content_type_with_config(
            text,
            &ranges_of(text),
            content_type,
            &cfg,
            &no_stance(),
            facts_of(text),
            &MarkdownRegions::none(),
        )
    }
}

#[test]
fn a_blank_line_splits_whatever_terminators_it_uses() {
    for sep in ["\n\n", "\r\n\r\n", "\n\r\n", "\r\n\n"] {
        let doc = format!("第一段。{sep}第二段。{sep}第三段。");
        let paras = split_paragraphs(&doc);
        assert_eq!(
            paras.iter().map(|(_, p)| p.as_str()).collect::<Vec<_>>(),
            ["第一段。", "第二段。", "第三段。"],
            "separator {sep:?}"
        );
    }
}

fn sample_spelling_rules() -> Vec<SpellingRule> {
    vec![
        SpellingRule::new("軟件", vec!["軟體".into()], RuleType::CrossStrait),
        SpellingRule::new("內存", vec!["記憶體".into()], RuleType::CrossStrait),
        SpellingRule::new("服務器", vec!["伺服器".into()], RuleType::CrossStrait),
    ]
}

fn translationese_issues(issues: &[Issue], family: PhaseFamily) -> Vec<&Issue> {
    issues
        .iter()
        .filter(|issue| issue.phase_family.is_some_and(|(f, _)| f == family))
        .collect()
}

#[test]
fn basic_spelling_detection() {
    let scanner = Scanner::new(sample_spelling_rules(), vec![]);
    let issues = scanner.scan("這個軟件很好用").issues;
    assert_eq!(issues.len(), 1);
    assert_eq!(issues[0].found, "軟件");
    assert_eq!(issues[0].suggestions[..], vec!["軟體"]);
    assert_eq!(issues[0].rule_type, IssueType::CrossStrait);
}

#[test]
fn reusable_scratch_plain_api_remains_available() {
    let scanner = Scanner::new(sample_spelling_rules(), vec![]);
    let cfg = Profile::Base.config();
    let mut scratch = ScratchSpace::new();

    let plain = scanner.inner.scan_with_config_into(
        "這個軟件很好用",
        Vec::new(),
        &cfg,
        &no_stance(),
        facts_of("這個軟件很好用"),
        &mut scratch,
    );
    let mut content_scratch = ScratchSpace::new();
    let content_aware = scanner.inner.scan_with_config_into_content_type(
        "這個軟件很好用",
        Vec::new(),
        &cfg,
        &no_stance(),
        ContentType::Plain,
        facts_of("這個軟件很好用"),
        &mut content_scratch,
    );

    assert_eq!(plain.issues.len(), 1);
    assert_eq!(plain.issues[0].found, "軟件");
    assert_eq!(
        plain
            .issues
            .iter()
            .map(|issue| (&issue.offset, &issue.found))
            .collect::<Vec<_>>(),
        content_aware
            .issues
            .iter()
            .map(|issue| (&issue.offset, &issue.found))
            .collect::<Vec<_>>()
    );
}

#[test]
fn quoting_does_not_hide_an_invisible_character() {
    let scanner = Scanner::new(vec![], vec![]);
    let mut cfg = Profile::Base.config();
    cfg.ai_structural_patterns = true;
    let text = "注意「零寬\u{200B}空格」。\n- [ ] 檢查\u{200B}殘留\n零寬\u{200B}空格在外面。\n";
    let issues = scanner
        .scan_for_content_type_with_config(text, ContentType::Plain, cfg)
        .issues;
    assert_eq!(
        issues
            .iter()
            .filter(|issue| issue.found == "\u{200B}")
            .count(),
        3,
        "every zero-width space must be reported: {issues:?}"
    );
}

#[test]
fn multiple_spelling_issues() {
    let scanner = Scanner::new(sample_spelling_rules(), vec![]);
    let issues = scanner.scan("這個軟件的服務器內存不夠").issues;
    assert_eq!(issues.len(), 3);
    assert_eq!(issues[0].found, "軟件");
    assert_eq!(issues[1].found, "服務器");
    assert_eq!(issues[2].found, "內存");
}

#[test]
fn spelling_in_code_fence_excluded() {
    let scanner = Scanner::new(sample_spelling_rules(), vec![]);
    let issues = scanner.scan("請看 `軟件` 的說明").issues;
    assert_eq!(issues.len(), 0);
}

#[test]
fn spelling_in_url_excluded() {
    let scanner = Scanner::new(sample_spelling_rules(), vec![]);
    let issues = scanner
        .scan("https://example.com/軟件/download 是連結")
        .issues;
    assert_eq!(
        issues.len(),
        0,
        "CJK inside URL path should be excluded: {issues:?}"
    );
}

#[test]
fn mod_empty_text() {
    let scanner = Scanner::new(sample_spelling_rules(), vec![]);
    let issues = scanner.scan("").issues;
    assert!(issues.is_empty());
}

fn sample_case_rules() -> Vec<CaseRule> {
    vec![
        CaseRule {
            term: "JavaScript".into(),
            alternatives: Some(vec!["javascript".into(), "JAVASCRIPT".into()]),
            disabled: false,
        },
        CaseRule { term: "TypeScript".into(), alternatives: None, disabled: false },
        CaseRule {
            term: "API".into(),
            alternatives: Some(vec!["Api".into(), "api".into(), "APIs".into()]),
            disabled: false,
        },
    ]
}

#[test]
fn clean_text_no_issues() {
    let scanner = Scanner::new(sample_spelling_rules(), sample_case_rules());
    let issues = scanner.scan("這個軟體用 TypeScript 寫的").issues;
    assert!(issues.is_empty());
}

#[test]
fn charwise_ac_is_built_for_cjk_patterns() {
    let scanner = Scanner::new(sample_spelling_rules(), vec![]);
    assert!(
        scanner.has_charwise(),
        "charwise AC should be built for CJK-only patterns"
    );
}

#[test]
fn charwise_and_bytewise_produce_identical_results() {
    let rules = sample_spelling_rules();
    let text = "這個軟件的服務器內存不夠，需要升級軟件的記憶體";
    let scanner = Scanner::new(rules.clone(), vec![]);

    let charwise_issues = scanner.scan(text).issues;

    let mut bytewise_scanner = Scanner::new(rules, vec![]);
    bytewise_scanner.force_bytewise();
    let bytewise_issues = bytewise_scanner.scan(text).issues;

    assert_eq!(
        charwise_issues.len(),
        bytewise_issues.len(),
        "charwise and bytewise should find the same number of issues"
    );
    for (cw, bw) in charwise_issues.iter().zip(bytewise_issues.iter()) {
        assert_eq!(cw.offset, bw.offset, "offsets must match");
        assert_eq!(cw.length, bw.length, "lengths must match");
        assert_eq!(cw.found, bw.found, "found text must match");
        assert_eq!(cw.suggestions, bw.suggestions, "suggestions must match");
    }
}

#[test]
fn clean_high_oral_density_text_keeps_document_flag() {
    let scanner = Scanner::new(vec![], vec![]);
    let output = scanner.scan("這個那個這個那個這個那個這個那個這個那個");
    assert!(output.issues.is_empty());
    let density = output.oral_density.map(|d| d.marker_chars as f32 / d.cjk_count as f32);
    assert_eq!(density, Some(1.0));
    assert!(output
        .quality_flags
        .iter()
        .any(|f| f == "high_oral_density"));
}

#[test]
fn charwise_leftmost_longest_on_overlapping_patterns() {
    let rules = vec![
        SpellingRule::new("數據", vec!["資料".into()], RuleType::CrossStrait),
        SpellingRule::new("數據庫", vec!["資料庫".into()], RuleType::CrossStrait),
    ];
    let scanner = Scanner::new(rules, vec![]);
    assert!(scanner.has_charwise());

    let issues = scanner.scan("這個數據庫很大").issues;
    assert_eq!(issues.len(), 1);
    assert_eq!(issues[0].found, "數據庫");
    assert_eq!(issues[0].suggestions[..], vec!["資料庫"]);
}

#[test]
fn charwise_single_char_cjk_pattern() {
    let rules = vec![SpellingRule::new(
        "裏",
        vec!["裡".into()],
        RuleType::Variant,
    )];
    let scanner = Scanner::new(rules, vec![]);
    assert!(scanner.has_charwise());

    let issues = scanner.scan_profiled("裏面有東西", Profile::Strict).issues;
    assert_eq!(issues.len(), 1);
    assert_eq!(issues[0].found, "裏");
    assert_eq!(issues[0].suggestions[..], vec!["裡"]);
}

#[test]
fn charwise_mixed_cjk_ascii_patterns() {
    let rules = vec![
        SpellingRule::new("IP地址", vec!["IP 位址".into()], RuleType::CrossStrait),
        SpellingRule::new(
            "CPU使用率",
            vec!["CPU 使用率".into()],
            RuleType::CrossStrait,
        ),
    ];
    let scanner = Scanner::new(rules, vec![]);
    assert!(scanner.has_charwise());

    let issues = scanner.scan("查看IP地址和CPU使用率").issues;
    let spelling: Vec<_> = issues
        .iter()
        .filter(|i| i.rule_type == RuleType::CrossStrait.issue_type())
        .collect();
    assert_eq!(spelling.len(), 2);
    assert_eq!(spelling[0].found, "IP地址");
    assert_eq!(spelling[1].found, "CPU使用率");
}

fn context_suggestion_scanner(
    groups: Option<Vec<ContextSuggestion>>,
) -> Scanner {
    let rules = vec![SpellingRule {
        context_suggestions: groups,
        ..SpellingRule::new("優化", vec!["最佳化".into()], RuleType::CrossStrait)
    }];
    Scanner::new(rules, vec![])
}

fn only_suggestions(scanner: &Scanner, text: &str) -> Vec<String> {
    let issues = scanner.scan_profiled(text, Profile::Base).issues;
    assert_eq!(issues.len(), 1, "expected exactly one issue for {text:?}");
    issues[0].suggestions.to_vec()
}

#[test]
fn context_suggestions_select_by_window() {
        let scanner = context_suggestion_scanner(Some(vec![ContextSuggestion {
        clues: vec!["流程".into(), "服務".into()],
        to: vec!["改善".into(), "提升".into()],
    }]));

    assert_eq!(only_suggestions(&scanner, "優化流程"), ["改善", "提升"]);
    assert_eq!(only_suggestions(&scanner, "服務要優化"), ["改善", "提升"]);
    assert_eq!(only_suggestions(&scanner, "優化演算法"), ["最佳化"]);
}

#[test]
fn context_suggestions_first_matching_group_wins() {
    let scanner = context_suggestion_scanner(Some(vec![
        ContextSuggestion {
            clues: vec!["流程".into()],
            to: vec!["改善".into()],
        },
        ContextSuggestion {
            clues: vec!["效能".into()],
            to: vec!["最佳化".into()],
        },
    ]));
    assert_eq!(only_suggestions(&scanner, "優化流程效能"), ["改善"]);
}

#[test]
fn context_suggestions_drop_unusable_groups() {
    
    let scanner = context_suggestion_scanner(Some(vec![
        ContextSuggestion {
            clues: vec![],
            to: vec!["改善".into()],
        },
        ContextSuggestion {
            clues: vec!["流程".into()],
            to: vec![],
        },
        ContextSuggestion {
            clues: vec!["服務".into()],
            to: vec![String::new()],
        },
        ContextSuggestion {
            clues: vec!["品質".into()],
            to: vec!["改善".into(), String::new()],
        },
        ContextSuggestion {
            clues: vec![String::new()],
            to: vec!["永遠".into()],
        },
    ]));
    assert_eq!(only_suggestions(&scanner, "優化流程"), ["最佳化"]);
    assert_eq!(only_suggestions(&scanner, "優化服務"), ["最佳化"]);
    assert_eq!(only_suggestions(&scanner, "優化品質"), ["最佳化"]);
    assert_eq!(
        only_suggestions(&scanner, "完全無關的內容優化在這裡"),
        ["最佳化"]
    );
    assert!(scanner
        .inner
        .spelling_db
        .spelling_context_suggestions
        .iter()
        .all(Option::is_none));
}

#[test]
fn context_suggestions_dropped_on_deletion_rules() {
    
    let rules = vec![SpellingRule {
        context_suggestions: Some(vec![ContextSuggestion {
            clues: vec!["流程".into()],
            to: vec!["請注意".into()],
        }]),
        ..SpellingRule::new("值得注意的是", vec![String::new()], RuleType::AiFiller)
    }];
    let scanner = Scanner::new(rules, vec![]);
    assert!(scanner
        .inner
        .spelling_db
        .spelling_context_suggestions
        .iter()
        .all(Option::is_none));
}

#[test]
fn context_suggestions_stop_at_paragraph_breaks() {
    
    let scanner = context_suggestion_scanner(Some(vec![ContextSuggestion {
        clues: vec!["流程".into()],
        to: vec!["改善".into(), "提升".into()],
    }]));

    assert_eq!(
        only_suggestions(&scanner, "我們要優化演算法。\n\n流程改造報告"),
        ["最佳化"]
    );
    assert_eq!(
        only_suggestions(&scanner, "我們要優化演算法。流程改造報告"),
        ["改善", "提升"]
    );
}

#[test]
fn charwise_exception_phrase_respected() {
    let rules = vec![SpellingRule {
        exceptions: Some(vec!["下著".into()]),
        ..SpellingRule::new("著", vec!["著".into()], RuleType::Variant)
    }];
    let scanner = Scanner::new(rules, vec![]);
    assert!(scanner.has_charwise());

    let issues = scanner.scan_profiled("下著棋", Profile::Strict).issues;
    assert!(
        issues.is_empty(),
        "exception phrase '下著' should suppress the match: {issues:?}"
    );
}

#[test]
fn charwise_context_clues_gate() {
    let rules = vec![SpellingRule {
        context_clues: Some(vec!["程式".into(), "軟體".into()]),
        ..SpellingRule::new("支持", vec!["支援".into()], RuleType::CrossStrait)
    }];
    let scanner = Scanner::new(rules, vec![]);
    assert!(scanner.has_charwise());

    let issues = scanner.scan("我支持你的決定").issues;
    assert!(
        issues.is_empty(),
        "should not fire without context clues: {issues:?}"
    );

    let issues = scanner.scan("這個程式支持多種格式").issues;
    assert_eq!(issues.len(), 1);
    assert_eq!(issues[0].found, "支持");
}

#[test]
fn charwise_negative_clues_veto() {
    let rules = vec![SpellingRule {
        negative_context_clues: Some(vec!["掛載".into(), "mount".into()]),
        ..SpellingRule::new("卸載", vec!["解除安裝".into()], RuleType::CrossStrait)
    }];
    let scanner = Scanner::new(rules, vec![]);
    assert!(scanner.has_charwise());

    let issues = scanner.scan("請卸載這個應用程式").issues;
    assert_eq!(issues.len(), 1);
    assert_eq!(issues[0].found, "卸載");

    let issues = scanner.scan("掛載和卸載檔案系統").issues;
    assert!(
        issues.is_empty(),
        "negative clue '掛載' should veto: {issues:?}"
    );
}

#[test]
fn bytewise_fallback_when_charwise_unavailable() {
    let rules = sample_spelling_rules();
    let mut scanner = Scanner::new(rules, vec![]);
    scanner.force_bytewise();

    let issues = scanner.scan("這個軟件的服務器內存不夠").issues;
    assert_eq!(issues.len(), 3);
    assert_eq!(issues[0].found, "軟件");
    assert_eq!(issues[1].found, "服務器");
    assert_eq!(issues[2].found, "內存");
}

#[test]
fn charwise_many_patterns_same_prefix() {
    let rules = vec![
        {
            let mut r = SpellingRule::new("數", vec!["數".into()], RuleType::CrossStrait);
            r.context_clues = Some(vec!["不存在的線索".into()]);
            r
        },
        SpellingRule::new("數據", vec!["資料".into()], RuleType::CrossStrait),
        SpellingRule::new("數據庫", vec!["資料庫".into()], RuleType::CrossStrait),
        SpellingRule::new("數據結構", vec!["資料結構".into()], RuleType::CrossStrait),
    ];
    let scanner = Scanner::new(rules, vec![]);
    assert!(scanner.has_charwise());

    let issues = scanner.scan("學習數據結構").issues;
    assert_eq!(issues.len(), 1);
    assert_eq!(issues[0].found, "數據結構");
    assert_eq!(issues[0].suggestions[..], vec!["資料結構"]);

    let issues = scanner.scan("處理數據").issues;
    assert_eq!(issues.len(), 1);
    assert_eq!(issues[0].found, "數據");

    let issues = scanner.scan("數字很大").issues;
    assert!(issues.is_empty());
}

#[test]
fn charwise_adjacent_non_overlapping_matches() {
    let rules = vec![
        SpellingRule::new("軟件", vec!["軟體".into()], RuleType::CrossStrait),
        SpellingRule::new("開發", vec!["研發".into()], RuleType::CrossStrait),
    ];
    let scanner = Scanner::new(rules, vec![]);
    assert!(scanner.has_charwise());

    let issues = scanner.scan("軟件開發很重要").issues;
    assert_eq!(issues.len(), 2);
    assert_eq!(issues[0].found, "軟件");
    assert_eq!(issues[1].found, "開發");
}

#[test]
fn positional_before_fires_when_term_follows() {
    let rules = vec![SpellingRule {
        positional_clues: Some(vec!["before:函式".into()]),
        ..SpellingRule::new("調用", vec!["呼叫".into()], RuleType::CrossStrait)
    }];
    let scanner = Scanner::new(rules, vec![]);

    let issues = scanner.scan("請調用函式來處理").issues;
    assert_eq!(issues.len(), 1, "should fire when 函式 follows: {issues:?}");
    assert_eq!(issues[0].found, "調用");

    let issues = scanner.scan("請調用這個方法").issues;
    assert!(
        issues.is_empty(),
        "should not fire without 函式 after match: {issues:?}"
    );
}

#[test]
fn positional_after_fires_when_term_precedes() {
    let rules = vec![SpellingRule {
        positional_clues: Some(vec!["after:請".into()]),
        ..SpellingRule::new("調用", vec!["呼叫".into()], RuleType::CrossStrait)
    }];
    let scanner = Scanner::new(rules, vec![]);

    let issues = scanner.scan("請調用函式").issues;
    assert_eq!(issues.len(), 1, "should fire when 請 precedes: {issues:?}");

    let issues = scanner.scan("直接調用函式").issues;
    assert!(
        issues.is_empty(),
        "should not fire without 請 before match: {issues:?}"
    );
}

#[test]
fn positional_adjacent_fires_when_immediately_next() {
    let rules = vec![SpellingRule {
        positional_clues: Some(vec!["adjacent:函式".into()]),
        ..SpellingRule::new("調用", vec!["呼叫".into()], RuleType::CrossStrait)
    }];
    let scanner = Scanner::new(rules, vec![]);

    let issues = scanner.scan("調用函式").issues;
    assert_eq!(
        issues.len(),
        1,
        "should fire when 函式 is adjacent: {issues:?}"
    );

    let issues = scanner.scan("調用某個函式").issues;
    assert!(
        issues.is_empty(),
        "should not fire with gap between match and term: {issues:?}"
    );

    let issues = scanner.scan("函式調用方式").issues;
    assert_eq!(
        issues.len(),
        1,
        "should fire when 函式 is adjacent before: {issues:?}"
    );
}

#[test]
fn positional_not_before_vetoes() {
    let rules = vec![SpellingRule {
        positional_clues: Some(vec!["not_before:的".into()]),
        ..SpellingRule::new("項目", vec!["專案".into()], RuleType::CrossStrait)
    }];
    let scanner = Scanner::new(rules, vec![]);

    let issues = scanner.scan("這個項目進度超前").issues;
    assert_eq!(issues.len(), 1, "should fire without veto term: {issues:?}");

    let issues = scanner.scan("項目的名稱").issues;
    assert!(
        issues.is_empty(),
        "should be vetoed by 的 after match: {issues:?}"
    );
}

#[test]
fn positional_not_after_vetoes() {
    let rules = vec![SpellingRule {
        positional_clues: Some(vec!["not_after:清單".into()]),
        ..SpellingRule::new("項目", vec!["專案".into()], RuleType::CrossStrait)
    }];
    let scanner = Scanner::new(rules, vec![]);

    let issues = scanner.scan("這個項目進度超前").issues;
    assert_eq!(issues.len(), 1, "should fire without veto term: {issues:?}");

    let issues = scanner.scan("清單項目需要確認").issues;
    assert!(
        issues.is_empty(),
        "should be vetoed by 清單 before match: {issues:?}"
    );
}

#[test]
fn positional_and_context_clues_both_required() {
    let rules = vec![SpellingRule {
        context_clues: Some(vec!["程式".into()]),
        positional_clues: Some(vec!["before:函式".into()]),
        ..SpellingRule::new("調用", vec!["呼叫".into()], RuleType::CrossStrait)
    }];
    let scanner = Scanner::new(rules, vec![]);

    let issues = scanner.scan("這個程式調用函式").issues;
    assert_eq!(
        issues.len(),
        1,
        "should fire when both context and positional match: {issues:?}"
    );

    let issues = scanner.scan("這個程式調用方法").issues;
    assert!(
        issues.is_empty(),
        "positional fails, should not fire: {issues:?}"
    );

    let issues = scanner.scan("直接調用函式").issues;
    assert!(
        issues.is_empty(),
        "context_clues fails, should not fire: {issues:?}"
    );
}

#[test]
fn positional_multiple_conditions_all_must_pass() {
    let rules = vec![SpellingRule {
        positional_clues: Some(vec!["after:請".into(), "before:函式".into()]),
        ..SpellingRule::new("調用", vec!["呼叫".into()], RuleType::CrossStrait)
    }];
    let scanner = Scanner::new(rules, vec![]);

    let issues = scanner.scan("請調用函式").issues;
    assert_eq!(
        issues.len(),
        1,
        "both positional conditions met: {issues:?}"
    );

    let issues = scanner.scan("請調用方法").issues;
    assert!(
        issues.is_empty(),
        "only after: met, before: not — should not fire: {issues:?}"
    );

    let issues = scanner.scan("直接調用函式").issues;
    assert!(
        issues.is_empty(),
        "only before: met, after: not — should not fire: {issues:?}"
    );
}

#[test]
fn positional_no_regression_without_positional_clues() {
    let rules = vec![SpellingRule::new(
        "軟件",
        vec!["軟體".into()],
        RuleType::CrossStrait,
    )];
    let scanner = Scanner::new(rules, vec![]);
    let issues = scanner.scan("這個軟件很好用").issues;
    assert_eq!(issues.len(), 1);
    assert_eq!(issues[0].found, "軟件");
}

#[test]
fn positional_before_stops_at_paragraph_break() {
    let rules = vec![SpellingRule {
        positional_clues: Some(vec!["before:函式".into()]),
        ..SpellingRule::new("調用", vec!["呼叫".into()], RuleType::CrossStrait)
    }];
    let scanner = Scanner::new(rules, vec![]);

    let issues = scanner.scan("請調用方法\n\n函式定義在此").issues;
    assert!(
        issues.is_empty(),
        "before: must not match across paragraph break: {issues:?}"
    );

    let issues = scanner.scan("請調用函式").issues;
    assert_eq!(issues.len(), 1);
}

#[test]
fn positional_after_stops_at_paragraph_break() {
    let rules = vec![SpellingRule {
        positional_clues: Some(vec!["after:請".into()]),
        ..SpellingRule::new("調用", vec!["呼叫".into()], RuleType::CrossStrait)
    }];
    let scanner = Scanner::new(rules, vec![]);

    let issues = scanner.scan("請看這裡\n\n調用方法").issues;
    assert!(
        issues.is_empty(),
        "after: must not match across paragraph break: {issues:?}"
    );
}

#[test]
fn positional_before_stops_at_code_span() {
    let rules = vec![SpellingRule {
        positional_clues: Some(vec!["before:函式".into()]),
        ..SpellingRule::new("調用", vec!["呼叫".into()], RuleType::CrossStrait)
    }];
    let scanner = Scanner::new(rules, vec![]);

    let md_text = "調用`函式`來處理";
    let issues = scanner
        .scan_for_content_type(md_text, ContentType::Markdown, Profile::Base)
        .issues;
    assert!(
        issues.is_empty(),
        "before: must not see text inside code spans: {issues:?}"
    );

    let plain_text = "調用函式來處理";
    let issues = scanner
        .scan_for_content_type(plain_text, ContentType::Markdown, Profile::Base)
        .issues;
    assert_eq!(
        issues.len(),
        1,
        "should fire when 函式 is not in code span: {issues:?}"
    );
}

#[test]
fn positional_adjacent_excluded_region() {
    let rules = vec![SpellingRule {
        positional_clues: Some(vec!["adjacent:函式".into()]),
        ..SpellingRule::new("調用", vec!["呼叫".into()], RuleType::CrossStrait)
    }];
    let scanner = Scanner::new(rules, vec![]);

    let md_text = "調用`函式`";
    let issues = scanner
        .scan_for_content_type(md_text, ContentType::Markdown, Profile::Base)
        .issues;
    assert!(
        issues.is_empty(),
        "adjacent: must not match term inside excluded region: {issues:?}"
    );
}

#[test]
fn lian_xi_contact_copy_uses_phrase_rules_without_general_prose_fp() {
    let rules = vec![
        SpellingRule::new("聯繫我們", vec!["聯絡我們".into()], RuleType::CrossStrait),
        SpellingRule::new("聯繫方式", vec!["聯絡方式".into()], RuleType::CrossStrait),
        SpellingRule::new("聯繫資訊", vec!["聯絡資訊".into()], RuleType::CrossStrait),
        SpellingRule::new("聯繫管道", vec!["聯絡管道".into()], RuleType::CrossStrait),
        SpellingRule::new("聯繫電話", vec!["聯絡電話".into()], RuleType::CrossStrait),
        SpellingRule::new("聯繫客服", vec!["聯絡客服".into()], RuleType::CrossStrait),
        SpellingRule::new(
            "如需協助請聯繫",
            vec!["如需協助請聯絡".into()],
            RuleType::CrossStrait,
        ),
    ];
    let scanner = Scanner::new(rules, vec![]);

    let issues = scanner.scan("歡迎聯繫我們").issues;
    assert_eq!(issues.len(), 1, "should flag contact CTA: {issues:?}");

    let issues = scanner.scan("請查看聯繫方式").issues;
    assert_eq!(issues.len(), 1, "should flag contact label: {issues:?}");

    let issues = scanner.scan("最新聯繫資訊如下").issues;
    assert_eq!(
        issues.len(),
        1,
        "should flag contact info label: {issues:?}"
    );

    let issues = scanner.scan("若需協助可參考聯繫管道").issues;
    assert_eq!(
        issues.len(),
        1,
        "should flag contact channel label: {issues:?}"
    );

    let issues = scanner.scan("聯繫電話：02-1234-5678").issues;
    assert_eq!(
        issues.len(),
        1,
        "should flag contact phone label: {issues:?}"
    );

    let issues = scanner.scan("請聯繫客服取得協助").issues;
    assert_eq!(issues.len(), 1, "should flag support CTA: {issues:?}");

    let issues = scanner.scan("如需協助請聯繫").issues;
    assert_eq!(
        issues.len(),
        1,
        "should flag imperative support CTA: {issues:?}"
    );

    let issues = scanner.scan("我們與學界保持密切聯繫").issues;
    assert!(
        issues.is_empty(),
        "should not flag ordinary prose: {issues:?}"
    );

    let issues = scanner.scan("請加強國際聯繫").issues;
    assert!(
        issues.is_empty(),
        "should not flag ordinary prose: {issues:?}"
    );

    let issues = scanner.scan("我們透過電話聯繫對方").issues;
    assert!(
        issues.is_empty(),
        "should not flag ordinary prose: {issues:?}"
    );
}

#[test]
fn translationese_pipeline_keeps_only_indexed_zy2_issue() {
    let scanner = Scanner::new(vec![], vec![]);
    let issues = scanner.scan("因為下雨了，所以我們待在屋裡。").issues;
    let zy2 = translationese_issues(&issues, PhaseFamily::Connective);
    assert_eq!(zy2.len(), 1, "expected one surviving ZY2 issue: {issues:?}");
    assert!(
        zy2[0]
            .phase_family
            .is_some_and(|(_, pass)| pass == PhasePass::Indexed),
        "the boundary-aware half should win: {issues:?}"
    );
}

#[test]
fn translationese_pipeline_keeps_only_indexed_zy3_issue() {
    let scanner = Scanner::new(vec![], vec![]);
    let issues = scanner.scan("他完成改善的提升的發現工作。").issues;
    let zy3 = translationese_issues(&issues, PhaseFamily::Nominalization);
    assert_eq!(zy3.len(), 1, "expected one surviving ZY3 issue: {issues:?}");
    assert!(
        zy3[0]
            .phase_family
            .is_some_and(|(_, pass)| pass == PhasePass::Indexed),
        "the boundary-aware half should win: {issues:?}"
    );
}
