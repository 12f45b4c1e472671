//! Rules: which are compiled, what they see, and what they say.
use zhtw_scan::casing::{case_patterns, CaseRule};
use zhtw_scan::clues::{lookup_clues_in_window, PositionalClue};
use zhtw_scan::content::{ContentType, DocumentRanges};
use zhtw_scan::emit::ByteRange;
use zhtw_scan::grammar::indexed::Domain;
use zhtw_scan::guard::{guard_phrases, GuardPhrase, StructuralGuard};
use zhtw_scan::issue::{Issue, IssueType, Severity};
use zhtw_scan::normalize::Normalized;
use zhtw_scan::output::CoverageReport;
use zhtw_scan::passes::LexicalExtras;
use zhtw_scan::predicates::{
    compile_rule_predicates, MatchPredicate, FILTER_HAS_EXCEPTIONS, FILTER_HAS_NEG_CLUES,
    FILTER_HAS_POS_CLUES, FILTER_HAS_SUPERSTRING, FILTER_IS_DELETION,
};
use zhtw_scan::prepare::{prepare_rules, ProfileFilter};
use zhtw_scan::profile::{ProfileConfig, RegisterMode};
use zhtw_scan::rules::{
    effective_suggestions, ChineseType, ContextSuggestion, PoliticalStance, RuleType, SpellingRule,
};
use zhtw_scan::scanner::{DocumentFacts, MarkdownRegions, Scanner};
use zhtw_scan::text::Text;
use zhtw_scan::window::{surrounding_window, surrounding_window_bounded};

fn everything() -> ProfileConfig {
    ProfileConfig {
        spelling: true,
        casing: false,
        basic_punctuation: false,
        colon_enforcement: false,
        dunhao_detection: false,
        range_normalization: false,
        range_en_dash: false,
        ellipsis_normalization: false,
        variant_normalization: true,
        grammar_checks: false,
        ai_filler_detection: true,
        ai_semantic_safety: false,
        ai_density_detection: false,
        ai_structural_patterns: false,
        ai_threshold_percent: 100,
        translationese_detection: true,
        translationese_domain: Domain {
            name: "general",
            yi_zhi_tenths: 20,
            chain_min: 3,
            premodifier_chars: 15,
            premodifier_de: 2,
        },
        rhythm: false,
        register: RegisterMode::Casual,
        exempt_blockquotes: false,
        heading_severity_boost: true,
        offset_only: false,
    }
}

fn nobody() -> PoliticalStance {
    PoliticalStance { silenced: Vec::new() }
}

fn rule(from: &str, to: &str, rule_type: RuleType) -> SpellingRule {
    SpellingRule::new(from, vec![to.to_string()], rule_type)
}

fn scan_with(
    rules: Vec<SpellingRule>,
    text: &str,
    excluded: Vec<ByteRange>,
    cfg: &ProfileConfig,
    script: ChineseType,
) -> Vec<Issue> {
    Scanner::new(rules, vec![])
        .scan_with_config(text, excluded, cfg, &nobody(), DocumentFacts::of_script(script))
        .issues
}

fn scan(rules: Vec<SpellingRule>, text: &str) -> Vec<Issue> {
    scan_with(rules, text, Vec::new(), &everything(), ChineseType::Traditional)
}

fn no_ranges() -> DocumentRanges {
    DocumentRanges {
        patterns: Vec::new(),
        code_blocks: Vec::new(),
        inline_markup: Vec::new(),
        blockquotes: Vec::new(),
        yaml_keys: Vec::new(),
        suppressed: Vec::new(),
        suppressed_by_hash: Vec::new(),
    }
}

#[test]
fn the_last_rule_on_a_phrase_wins() {
    let rules = vec![
        rule("軟件", "甲", RuleType::CrossStrait),
        rule("內存", "記憶體", RuleType::CrossStrait),
        rule("軟件", "軟體", RuleType::CrossStrait),
    ];
    let left = prepare_rules(rules, &ProfileFilter::none());
    let seen: Vec<(&str, &str)> =
        left.iter().map(|r| (r.from.as_str(), r.to[0].as_str())).collect();
    assert_eq!(seen, [("內存", "記憶體"), ("軟件", "軟體")]);
}

#[test]
fn a_disabled_rule_does_not_hide_an_earlier_one() {
    let mut off = rule("軟件", "甲", RuleType::CrossStrait);
    off.disabled = true;
    let left = prepare_rules(
        vec![rule("軟件", "軟體", RuleType::CrossStrait), off],
        &ProfileFilter::none(),
    );
    assert_eq!(left.len(), 1);
    assert_eq!(left[0].to, ["軟體"]);
}

#[test]
fn clues_are_listed_once() {
    let mut r = rule("支持", "支援", RuleType::CrossStrait);
    r.context_clues = Some(vec!["程式".into(), "軟體".into(), "程式".into()]);
    let left = prepare_rules(vec![r], &ProfileFilter::none());
    assert_eq!(left[0].context_clues, Some(vec!["程式".to_string(), "軟體".to_string()]));
}

#[test]
fn a_filter_leaves_out_what_the_profile_switches_off() {
    let mut cfg = everything();
    assert!(!ProfileFilter::from_config(&cfg).excludes_anything());
    cfg.variant_normalization = false;
    let filter = ProfileFilter::from_config(&cfg);
    assert!(filter.excludes_anything());
    let rules = || {
        vec![
            rule("裏", "裡", RuleType::Variant),
            rule("軟件", "軟體", RuleType::CrossStrait),
        ]
    };
    let scanner = Scanner::new_filtered(rules(), vec![], &filter);
    assert_eq!(scanner.spelling_rules().len(), 1);
    assert!(scanner.config_within_build(&cfg));
    assert!(!scanner.config_within_build(&everything()));
    assert_eq!(Scanner::new(rules(), vec![]).spelling_rules().len(), 2);
}

#[test]
fn coverage_counts_rules_and_not_findings() {
    let scanner = Scanner::new(
        vec![
            rule("軟件", "軟體", RuleType::CrossStrait),
            rule("內存", "記憶體", RuleType::CrossStrait),
            rule("裏", "裡", RuleType::Variant),
        ],
        vec![],
    );
    let mut cfg = everything();
    cfg.variant_normalization = false;
    let report = |text: &str, cfg: &ProfileConfig| {
        let facts = DocumentFacts::of_script(ChineseType::Traditional);
        scanner.scan_with_config(text, Vec::new(), cfg, &nobody(), facts).coverage
    };
    assert_eq!(
        report("軟件軟件", &cfg),
        Some(CoverageReport { rules_checked: 2, rules_matched: 1 })
    );
    assert_eq!(
        report("軟件在內存裏", &everything()),
        Some(CoverageReport { rules_checked: 3, rules_matched: 3 })
    );
    assert_eq!(report("", &cfg), Some(CoverageReport { rules_checked: 2, rules_matched: 0 }));
    cfg.spelling = false;
    assert_eq!(report("軟件", &cfg), Some(CoverageReport { rules_checked: 0, rules_matched: 0 }));
}

#[test]
fn variants_are_not_sought_in_simplified_text() {
    let rules = || vec![rule("裏", "裡", RuleType::Variant)];
    assert_eq!(scan(rules(), "裏面").len(), 1);
    let simplified =
        scan_with(rules(), "裏面", Vec::new(), &everything(), ChineseType::Simplified);
    assert!(simplified.is_empty());
}

#[test]
fn a_stance_silences_its_own_phrases() {
    let scanner = Scanner::new(vec![rule("祖國", "中國", RuleType::PoliticalColoring)], vec![]);
    let stance = PoliticalStance { silenced: vec!["祖國".to_string()] };
    let count = |stance: &PoliticalStance| {
        let facts = DocumentFacts::of_script(ChineseType::Traditional);
        scanner.scan_with_config("祖國", Vec::new(), &everything(), stance, facts).issues.len()
    };
    assert_eq!(count(&nobody()), 1);
    assert_eq!(count(&stance), 0);
    assert!(!stance.allows_rule("祖國"));
    assert!(stance.allows_rule("大陸"));
}

#[test]
fn a_match_in_an_excluded_range_is_left_alone() {
    let rules = || vec![rule("軟件", "軟體", RuleType::CrossStrait)];
    let found = scan_with(
        rules(),
        "軟件軟件",
        vec![ByteRange { start: 2, end: 3 }],
        &everything(),
        ChineseType::Traditional,
    );
    assert_eq!(found.len(), 1);
    assert_eq!(found[0].offset, 6);
}

#[test]
fn a_replacement_that_holds_the_phrase_absorbs_it() {
    let rules = || vec![rule("地址", "位地址", RuleType::CrossStrait)];
    assert!(scan(rules(), "位地址").is_empty());
    let found = scan(rules(), "新地址");
    assert_eq!(found.len(), 1);
    assert_eq!(found[0].offset, 3);
}

#[test]
fn a_deletion_takes_in_the_comma_behind_the_phrase() {
    let rules = || vec![rule("值得注意的是", "", RuleType::AiFiller)];
    let found = scan(rules(), "值得注意的是，這很好");
    assert_eq!(found.len(), 1);
    assert_eq!((found[0].offset, found[0].length), (0, 21));
    assert_eq!(found[0].found, "值得注意的是");
    assert_eq!(found[0].suggestions, [""]);
    assert_eq!(found[0].rule_type, IssueType::AiStyle);
    let bare = scan(rules(), "值得注意的是這很好");
    assert_eq!(bare[0].length, 18);
}

#[test]
fn a_match_that_cuts_a_word_is_dropped() {
    let scanner = Scanner::new(vec![rule("軟件", "軟體", RuleType::CrossStrait)], vec![]);
    let mut facts = DocumentFacts::of_script(ChineseType::Traditional);
    facts.straddles = vec![true, false];
    let found =
        scanner.scan_with_config("軟件軟件", Vec::new(), &everything(), &nobody(), facts).issues;
    assert_eq!(found.len(), 1);
    assert_eq!(found[0].offset, 6);
}

#[test]
fn clues_beyond_the_window_do_not_count() {
    let rules = || {
        let mut r = rule("支持", "支援", RuleType::CrossStrait);
        r.context_clues = Some(vec!["程式".into()]);
        vec![r]
    };
    let near = format!("支持{}程式", "文".repeat(38));
    let far = format!("支持{}程式", "文".repeat(60));
    assert_eq!(scan(rules(), &near).len(), 1);
    assert!(scan(rules(), &far).is_empty());
    assert!(scan(rules(), "支持\n\n程式").is_empty());
}

#[test]
fn an_empty_clue_stands_everywhere() {
    let mut r = rule("支持", "支援", RuleType::CrossStrait);
    r.context_clues = Some(vec![String::new()]);
    assert_eq!(scan(vec![r], "我支持你").len(), 1);
    let mut r = rule("支持", "支援", RuleType::CrossStrait);
    r.negative_context_clues = Some(vec![String::new()]);
    assert!(scan(vec![r], "我支持你").is_empty());
}

#[test]
fn the_rule_fills_in_what_a_finding_says() {
    let mut r = rule("軟件", "軟體", RuleType::Confusable);
    r.context = Some("說明".to_string());
    r.english = Some("software".to_string());
    r.severity = Some(Severity::Error);
    let found = scan(vec![r.clone()], "軟件");
    assert_eq!(found[0].context.as_deref(), Some("說明"));
    assert_eq!(found[0].english.as_deref(), Some("software"));
    assert_eq!(found[0].severity, Severity::Error);
    assert_eq!(found[0].configured_severity, Some(Severity::Error));
    assert_eq!(found[0].spelling_rule_idx, None);
    let mut cfg = everything();
    cfg.offset_only = true;
    let brief = scan_with(vec![r], "軟件", Vec::new(), &cfg, ChineseType::Traditional);
    assert_eq!(brief[0].context, None);
    assert_eq!(brief[0].suggestions, ["軟體"]);
}

#[test]
fn suggestions_fall_back_to_english() {
    let mut r = SpellingRule::new("甲", vec![String::new(), "乙".into()], RuleType::CrossStrait);
    assert_eq!(effective_suggestions(&r), ["乙"]);
    r.to = vec![String::new()];
    r.english = Some("alpha".to_string());
    assert_eq!(effective_suggestions(&r), ["alpha"]);
    r.english = None;
    assert!(effective_suggestions(&r).is_empty());
    r.rule_type = RuleType::AiFiller;
    assert_eq!(effective_suggestions(&r), [""]);
    assert!(r.is_deletion_rule());
}

#[test]
fn rules_weigh_what_their_type_weighs() {
    assert_eq!(RuleType::AiFiller.default_severity(), Severity::Info);
    assert_eq!(rule("甲", "乙", RuleType::CrossStrait).effective_severity(), Severity::Warning);
    assert!(RuleType::CrossStrait.in_spelling_family());
    assert!(!RuleType::Variant.in_spelling_family());
    assert!(rule("甲", "乙", RuleType::Variant).is_sound());
    assert!(!rule("", "乙", RuleType::Variant).is_sound());
}

#[test]
fn groups_are_chosen_by_clues_nearby() {
    let mut r = rule("優化", "最佳化", RuleType::CrossStrait);
    r.context_suggestions = Some(vec![
        ContextSuggestion { clues: vec!["流程".into()], to: vec!["改善".into()] },
        ContextSuggestion { clues: vec!["查詢".into()], to: vec!["調校".into()] },
    ]);
    assert_eq!(scan(vec![r.clone()], "優化查詢")[0].suggestions, ["調校"]);
    assert_eq!(scan(vec![r.clone()], "查詢與流程優化")[0].suggestions, ["改善"]);
    assert_eq!(scan(vec![r], "優化")[0].suggestions, ["最佳化"]);
}

#[test]
fn clues_tied_to_a_side_are_read() {
    assert!(matches!(PositionalClue::parse("before:函式"), Some(PositionalClue::Before(t)) if t == "函式"));
    assert!(matches!(PositionalClue::parse("not_after:清單"), Some(PositionalClue::NotAfter(t)) if t == "清單"));
    assert!(PositionalClue::parse("before:").is_none());
    assert!(PositionalClue::parse("near:函式").is_none());
    assert!(PositionalClue::parse("函式").is_none());
}

#[test]
fn a_window_of_the_index_counts_each_clue_once() {
    let index = [(0, 1), (3, 2), (3, 1), (9, 4)];
    assert_eq!(lookup_clues_in_window(&index, 0, 9, Some(&[1, 2, 4]), None), (2, false));
    assert_eq!(lookup_clues_in_window(&index, 0, 10, Some(&[1]), Some(&[4])).1, true);
    assert_eq!(lookup_clues_in_window(&index, 4, 9, Some(&[1, 2, 4]), Some(&[1])), (0, false));
    assert_eq!(lookup_clues_in_window(&[], 0, 9, Some(&[1]), None), (0, false));
}

#[test]
fn a_chain_checks_what_the_flags_say() {
    let mut r = rule("地址", "位地址", RuleType::CrossStrait);
    r.exceptions = Some(vec!["新地址".into()]);
    let flags =
        FILTER_HAS_SUPERSTRING | FILTER_HAS_EXCEPTIONS | FILTER_HAS_POS_CLUES | FILTER_HAS_NEG_CLUES;
    let chain = compile_rule_predicates(&r, flags, Some(&[3]), Some(&[5]), None);
    assert_eq!(chain.len(), 5);
    assert!(matches!(chain[0], MatchPredicate::RejectIfExcluded));
    assert!(matches!(&chain[1], MatchPredicate::RejectIfSuperstring { forms } if forms.len() == 1));
    assert!(matches!(
        &chain[2],
        MatchPredicate::CheckClues { pos_ids, neg_ids, min_pos_matches: 1 }
            if pos_ids == &[3] && neg_ids == &[5]
    ));
    assert!(matches!(chain[3], MatchPredicate::RejectIfWordBoundaryStraddles));
    assert!(matches!(
        &chain[4],
        MatchPredicate::RejectIfInExceptionPhrase { exceptions } if exceptions.len() == 1
    ));
    let filler = rule("其實", "", RuleType::AiFiller);
    let chain = compile_rule_predicates(&filler, FILTER_IS_DELETION, None, None, None);
    assert!(matches!(chain[0], MatchPredicate::RequireAiFillerDetection));
    assert!(matches!(chain[chain.len() - 1], MatchPredicate::MayExtendDeletionSpan));
}

#[test]
fn phrases_of_a_detector_are_kept_from_the_lexical_pass() {
    let mut guarded = rule("研究顯示", "", RuleType::AiFiller);
    guarded.structural_guard = Some("uncited_attribution".to_string());
    guarded.severity = Some(Severity::Info);
    let mut other = rule("專家指出", "", RuleType::AiFiller);
    other.structural_guard = Some("unheard_of".to_string());
    let rules = vec![guarded, other, rule("軟件", "軟體", RuleType::CrossStrait)];
    let said = guard_phrases(&rules, "uncited_attribution");
    assert_eq!(said.len(), 1);
    assert_eq!(said[0].text, "研究顯示");
    assert_eq!(said[0].configured_severity, Some(Severity::Info));
    let filter = ProfileFilter { exclude_ai_filler: true, ..ProfileFilter::none() };
    let scanner = Scanner::new_filtered(rules, vec![], &filter);
    assert_eq!(scanner.spelling_rules().len(), 1);
    let guard = scanner.guard("uncited_attribution").expect("the guard has a phrase");
    assert!(!guard.is_empty());
    let hits = guard.find_iter("近期研究顯示如此");
    assert_eq!(hits.len(), 1);
    assert_eq!((hits[0].start, hits[0].end), (6, 18));
    assert_eq!(guard.matched_rule(hits[0].pattern).text, "研究顯示");
    assert!(scanner.guard("unheard_of").is_none());
}

#[test]
fn the_longest_of_the_phrases_of_a_detector_is_found() {
    let phrase = |text: &str| GuardPhrase {
        text: text.to_string(),
        severity: Severity::Warning,
        configured_severity: None,
    };
    let guard =
        StructuralGuard::from_guard_phrases(vec![phrase("研究"), phrase("研究顯示")]).unwrap();
    let hits = guard.find_iter("研究顯示研究");
    let spans: Vec<(usize, usize, usize)> =
        hits.iter().map(|h| (h.pattern, h.start, h.end)).collect();
    assert_eq!(spans, [(1, 0, 12), (0, 12, 18)]);
}

#[test]
fn the_phrases_of_a_detector_stand_in_the_order_of_their_texts() {
    let phrase = |text: &str, severity: Severity| GuardPhrase {
        text: text.to_string(),
        severity,
        configured_severity: None,
    };
    let guard = StructuralGuard::from_guard_phrases(vec![
        phrase("調查顯示", Severity::Info),
        phrase("研究顯示", Severity::Error),
        phrase("研究", Severity::Warning),
    ])
    .unwrap();
    let said: Vec<(&str, Severity)> =
        (0..3).map(|i| guard.matched_rule(i)).map(|p| (p.text.as_str(), p.severity)).collect();
    assert_eq!(
        said,
        [
            ("研究", Severity::Warning),
            ("研究顯示", Severity::Error),
            ("調查顯示", Severity::Info),
        ]
    );
    let hits = guard.find_iter("調查顯示研究");
    let found: Vec<&str> =
        hits.iter().map(|h| guard.matched_rule(h.pattern).text.as_str()).collect();
    assert_eq!(found, ["調查顯示", "研究"]);
}

#[test]
fn case_rules_that_are_on_are_found_in_any_case() {
    let term = |term: &str, disabled: bool| CaseRule {
        term: term.to_string(),
        alternatives: Some(vec![term.to_uppercase()]),
        disabled,
    };
    let rules = || vec![term("JavaScript", false), term("Rust", true), term("École", false)];
    let scanner = Scanner::new(vec![], rules());
    let kept: Vec<&str> = scanner.case_rules.iter().map(|r| r.term.as_str()).collect();
    assert_eq!(kept, ["JavaScript", "École"]);
    assert_eq!(scanner.case_rules[0].alternatives.as_deref().unwrap(), ["JAVASCRIPT"]);
    assert_eq!(case_patterns(&scanner.case_rules), ["javascript", "école"]);
    let ac = scanner.case_ac.as_ref().unwrap();
    let seen: Vec<(usize, usize)> = ac
        .find_iter("Rust, JAVAscript, école")
        .map(|m| (m.pattern().as_usize(), m.start()))
        .collect();
    assert_eq!(seen, [(0, 6), (1, 18)]);
    let filter = ProfileFilter { exclude_variant: true, ..ProfileFilter::none() };
    assert_eq!(Scanner::new_filtered(vec![], rules(), &filter).case_rules.len(), 2);
}

#[test]
fn windows_stop_at_blank_lines_and_excluded_ranges() {
    let text = Text::new("前文\n\n甲乙丙\n\n後文");
    assert_eq!(surrounding_window(&text, 5, 6).trim(), "甲乙丙");
    let text = Text::new("甲`乙`丙丁");
    let excluded = [ByteRange { start: 3, end: 8 }];
    assert_eq!(surrounding_window_bounded(&text, 4, 5, &excluded), "丙丁");
}

#[test]
fn both_automata_find_the_same() {
    let rules = || {
        vec![
            rule("數據", "資料", RuleType::CrossStrait),
            rule("數據庫", "資料庫", RuleType::CrossStrait),
            rule("據點", "據地", RuleType::CrossStrait),
        ]
    };
    let text = "數據庫與數據據點";
    let chars = Scanner::new(rules(), vec![]);
    let mut bytes = Scanner::new(rules(), vec![]);
    bytes.force_bytewise();
    assert!(chars.ac_charwise().is_some());
    assert!(bytes.ac_charwise().is_none());
    let spans = |s: &Scanner| -> Vec<(usize, usize, String)> {
        let facts = DocumentFacts::of_script(ChineseType::Traditional);
        s.scan_with_config(text, Vec::new(), &everything(), &nobody(), facts)
            .issues
            .iter()
            .map(|i| (i.offset, i.length, i.found.clone()))
            .collect()
    };
    assert_eq!(spans(&chars), spans(&bytes));
    assert_eq!(
        spans(&chars),
        [
            (0, 9, "數據庫".to_string()),
            (12, 6, "數據".to_string()),
            (18, 6, "據點".to_string()),
        ]
    );
}

#[test]
fn raw_findings_are_neither_ordered_nor_filled_in() {
    let scanner = Scanner::new(
        vec![
            rule("軟件", "軟體", RuleType::CrossStrait),
            rule("內存", "記憶體", RuleType::CrossStrait),
        ],
        vec![],
    );
    let cfg = everything();
    let count = scanner.bench_spelling_only_raw(
        "軟件內存",
        Vec::new(),
        &cfg,
        &nobody(),
        ChineseType::Traditional,
    );
    assert_eq!(count, 2);
    let mut raw = scanner.bench_collect_raw_issues(
        "軟件內存",
        Vec::new(),
        &cfg,
        &nobody(),
        ChineseType::Traditional,
        LexicalExtras::none(),
    );
    assert_eq!(raw.len(), 2);
    assert!(raw.iter().all(|i| i.spelling_rule_idx.is_some() && i.found.is_empty()));
    raw.reverse();
    Scanner::bench_sort_and_overlap(&mut raw);
    scanner.bench_inflate(&Text::new("軟件內存"), &mut raw);
    let found: Vec<&str> = raw.iter().map(|i| i.found.as_str()).collect();
    assert_eq!(found, ["軟件", "內存"]);
}

#[test]
fn a_composed_scan_reports_on_the_original() {
    let scanner = Scanner::new(vec![rule("軟件", "軟體", RuleType::CrossStrait)], vec![]);
    let original = "e\u{301}軟件";
    let norm = Normalized {
        text: "\u{e9}軟件".to_string(),
        positions: vec![0, 0, 3, 4, 5, 6, 7, 8, 9],
    };
    let run = |caller: &[ByteRange], prebuilt: Option<Vec<ByteRange>>| {
        scanner
            .scan_nfc_with_content_type(
                original,
                &norm,
                prebuilt,
                caller,
                &no_ranges(),
                ContentType::Plain,
                &everything(),
                &nobody(),
                DocumentFacts::of_script(ChineseType::Traditional),
                &MarkdownRegions::none(),
            )
            .issues
    };
    let found = run(&[], None);
    assert_eq!(found.len(), 1);
    assert_eq!((found[0].offset, found[0].length, found[0].found.as_str()), (3, 6, "軟件"));
    assert!(run(&[ByteRange { start: 3, end: 9 }], None).is_empty());
    let stale = Some(vec![ByteRange { start: 0, end: 9 }]);
    assert_eq!(run(&[], stale).len(), 1);
}

#[test]
fn prebuilt_ranges_hold_for_an_unchanged_text() {
    let scanner = Scanner::new(vec![rule("軟件", "軟體", RuleType::CrossStrait)], vec![]);
    let norm = Normalized::unchanged("軟件");
    let found = scanner
        .scan_nfc_with_content_type(
            "軟件",
            &norm,
            Some(vec![ByteRange { start: 0, end: 6 }]),
            &[],
            &no_ranges(),
            ContentType::Plain,
            &everything(),
            &nobody(),
            DocumentFacts::of_script(ChineseType::Traditional),
            &MarkdownRegions::none(),
        )
        .issues;
    assert!(found.is_empty());
}

#[test]
fn headings_weigh_more_in_markdown_alone() {
    let scanner = Scanner::new(vec![rule("軟件", "軟體", RuleType::CrossStrait)], vec![]);
    let severity = |content_type: ContentType, cfg: &ProfileConfig| {
        let regions = MarkdownRegions {
            headings: vec![ByteRange { start: 0, end: 100 }],
            cells: Vec::new(),
        };
        scanner
            .scan_for_content_type_with_config(
                "# 軟件",
                &no_ranges(),
                content_type,
                cfg,
                &nobody(),
                DocumentFacts::of_script(ChineseType::Traditional),
                &regions,
            )
            .issues[0]
            .severity
    };
    let mut cfg = everything();
    assert_eq!(severity(ContentType::Markdown, &cfg), Severity::Error);
    assert_eq!(severity(ContentType::Plain, &cfg), Severity::Warning);
    cfg.heading_severity_boost = false;
    assert_eq!(severity(ContentType::Markdown, &cfg), Severity::Warning);
}

#[test]
fn ranges_of_the_caller_are_left_alone() {
    let scanner = Scanner::new(vec![rule("軟件", "軟體", RuleType::CrossStrait)], vec![]);
    let found = scanner
        .scan_for_content_type_with_extra_excluded(
            "軟件軟件",
            &no_ranges(),
            &[ByteRange { start: 6, end: 900 }, ByteRange { start: 4, end: 2 }],
            ContentType::Plain,
            &everything(),
            &nobody(),
            DocumentFacts::of_script(ChineseType::Traditional),
            &MarkdownRegions::none(),
        )
        .issues;
    assert_eq!(found.len(), 1);
    assert_eq!(found[0].offset, 0);
}

#[test]
fn rules_without_a_phrase_are_compiled_but_not_searched_with() {
    let scanner = Scanner::new(
        vec![
            rule("", "空", RuleType::CrossStrait),
            rule("軟件", "軟體", RuleType::CrossStrait),
        ],
        vec![],
    );
    assert_eq!(scanner.spelling_rules().len(), 2);
    assert!(!scanner.is_searchable());
    assert!(scanner.spelling_db.automata.absorber_strings.is_empty());
    let scanner = Scanner::new(vec![rule("", "空", RuleType::CrossStrait)], vec![]);
    assert_eq!(scanner.spelling_rules().len(), 1);
    assert!(!scanner.is_searchable());
    let scanner = Scanner::new(vec![rule("軟件", "軟體", RuleType::CrossStrait)], vec![]);
    assert!(scanner.is_searchable());
}
