//! Kinds of documents, ranges, places, and what a document gives away.
use zhtw_scan::bounds::{Bound, BoundaryIndex, Paragraph};
use zhtw_scan::content::{
    build_exclusions_for_content_type, build_exclusions_for_content_type_with_config,
    build_exclusions_for_content_type_with_options, md_scan_options, with_caller_ranges,
    ContentType, DocumentRanges, MdScanOptions,
};
use zhtw_scan::emit::{ByteRange, Emitter};
use zhtw_scan::grammar::ai_phrase::{scan_ai_density, scan_ai_vague_exaggeration};
use zhtw_scan::grammar::ai_structure::scan_ai_list_density;
use zhtw_scan::grammar::calque::{scan_zy1a_superlative_yi_zhi, scan_zy2a_connective_calques};
use zhtw_scan::grammar::indexed::Domain;
use zhtw_scan::grammar::rhythm::scan_rhythm_ending_monotony;
use zhtw_scan::issue::{
    Issue, IssueType, PhaseFamily, PhasePass, Register, Severity, StructuralFamily, TableCell,
};
use zhtw_scan::listing::{sort_by_span, sort_for_report};
use zhtw_scan::mentions::{
    drop_mentioned_style_findings, is_mention_candidate, is_mention_marker_line,
};
use zhtw_scan::normalize::{forward_ranges, map_offset, map_range_forward, trace_back, Normalized};
use zhtw_scan::order::{sorted, Rank};
use zhtw_scan::output::ScratchSpace;
use zhtw_scan::overlap::resolve_overlaps;
use zhtw_scan::phases::dedup_translationese_phase_duplicates;
use zhtw_scan::profile::{ProfileConfig, RegisterMode};
use zhtw_scan::ranges::merge_ranges;
use zhtw_scan::regions::{
    annotate_table_cells, boost_heading_severity, remap_issues_to_original, TableCellSpan,
};
use zhtw_scan::register::{register_prose, resolve_register, visible_text};
use zhtw_scan::rules::ChineseType;
use zhtw_scan::script::detect_type_and_lines;
use zhtw_scan::signals::{build_quality_flags, compute_oral_density, is_spaced_acronym_issue};
use zhtw_scan::text::Text;

fn range(start: usize, end: usize) -> ByteRange {
    ByteRange { start, end }
}

fn issue(offset: usize, found: &str, rule_type: IssueType, severity: Severity) -> Issue {
    Issue::new(offset, found.len(), found.to_string(), Vec::new(), rule_type, severity)
}

fn profile() -> ProfileConfig {
    ProfileConfig {
        spelling: true,
        casing: true,
        basic_punctuation: true,
        colon_enforcement: true,
        dunhao_detection: false,
        range_normalization: false,
        range_en_dash: false,
        ellipsis_normalization: true,
        variant_normalization: false,
        grammar_checks: true,
        ai_filler_detection: false,
        ai_semantic_safety: false,
        ai_density_detection: false,
        ai_structural_patterns: false,
        ai_threshold_percent: 100,
        translationese_detection: false,
        translationese_domain: Domain {
            name: "general",
            yi_zhi_tenths: 20,
            chain_min: 3,
            premodifier_chars: 15,
            premodifier_de: 2,
        },
        rhythm: false,
        register: RegisterMode::Auto,
        exempt_blockquotes: false,
        heading_severity_boost: true,
        offset_only: false,
    }
}

fn document() -> DocumentRanges {
    DocumentRanges {
        patterns: vec![range(0, 5)],
        code_blocks: vec![range(10, 20)],
        inline_markup: vec![range(30, 35)],
        blockquotes: vec![range(40, 50)],
        yaml_keys: vec![range(60, 63)],
        suppressed: vec![range(70, 75)],
        suppressed_by_hash: vec![range(80, 85)],
    }
}

#[test]
fn every_kind_is_found_by_its_name() {
    for kind in [
        ContentType::Plain,
        ContentType::Markdown,
        ContentType::MarkdownScanCode,
        ContentType::Yaml,
    ] {
        assert_eq!(ContentType::from_name(kind.name()), Some(kind));
    }
    assert_eq!(ContentType::MarkdownScanCode.name(), "markdown-scan-code");
    assert_eq!(ContentType::from_name("Markdown"), None);
    assert_eq!(ContentType::from_name(""), None);
}

#[test]
fn file_names_are_read_without_regard_to_case() {
    assert_eq!(ContentType::from_file_name("README.MD"), ContentType::Markdown);
    assert_eq!(ContentType::from_file_name("a.Markdown"), ContentType::Markdown);
    assert_eq!(ContentType::from_file_name("config.yml"), ContentType::Yaml);
    assert_eq!(ContentType::from_file_name("config.YAML"), ContentType::Yaml);
    assert_eq!(ContentType::from_file_name("notes.txt"), ContentType::Plain);
    assert_eq!(ContentType::from_file_name("md"), ContentType::Plain);
    assert_eq!(ContentType::from_file_name(""), ContentType::Plain);
}

#[test]
fn a_hash_begins_a_comment_outside_markdown() {
    assert!(ContentType::Plain.hash_comments());
    assert!(ContentType::Yaml.hash_comments());
    assert!(!ContentType::Markdown.hash_comments());
    assert!(!ContentType::MarkdownScanCode.hash_comments());
}

#[test]
fn each_kind_excludes_its_own_structure() {
    let found = document();
    assert_eq!(
        build_exclusions_for_content_type(&found, ContentType::Plain),
        [range(0, 5), range(80, 85)]
    );
    assert_eq!(
        build_exclusions_for_content_type(&found, ContentType::Markdown),
        [range(0, 5), range(10, 20), range(30, 35), range(70, 75)]
    );
    assert_eq!(
        build_exclusions_for_content_type(&found, ContentType::MarkdownScanCode),
        [range(0, 5), range(30, 35), range(70, 75)]
    );
    assert_eq!(
        build_exclusions_for_content_type(&found, ContentType::Yaml),
        [range(0, 5), range(60, 63), range(80, 85)]
    );
}

#[test]
fn markdown_options_widen_and_narrow_what_is_excluded() {
    let found = document();
    let opts = MdScanOptions::new(true, true);
    assert_eq!(
        build_exclusions_for_content_type_with_options(&found, ContentType::Markdown, opts),
        [range(0, 5), range(30, 35), range(40, 50), range(70, 75)]
    );
    let opts = MdScanOptions::new(false, true);
    assert_eq!(
        build_exclusions_for_content_type_with_options(&found, ContentType::MarkdownScanCode, opts),
        [range(0, 5), range(30, 35), range(40, 50), range(70, 75)]
    );
    assert_eq!(MdScanOptions::default(), MdScanOptions::new(false, false));
}

#[test]
fn the_profile_sets_the_markdown_options() {
    let mut cfg = profile();
    cfg.exempt_blockquotes = true;
    assert_eq!(
        md_scan_options(ContentType::MarkdownScanCode, &cfg),
        MdScanOptions::new(true, true)
    );
    assert_eq!(md_scan_options(ContentType::Markdown, &cfg), MdScanOptions::new(false, true));
    assert_eq!(
        build_exclusions_for_content_type_with_config(&document(), ContentType::Markdown, &cfg),
        [range(0, 5), range(10, 20), range(30, 35), range(40, 50), range(70, 75)]
    );
}

#[test]
fn ranges_are_merged_whatever_their_order() {
    let merged = merge_ranges(&vec![
        range(8, 9),
        range(0, 3),
        range(3, 5),
        range(20, 20),
        range(2, 4),
        range(30, 10),
        range(8, 8),
    ]);
    assert_eq!(merged, [range(0, 5), range(8, 9)]);
    assert_eq!(merge_ranges(&merged), merged);
    assert!(merge_ranges(&Vec::new()).is_empty());
}

#[test]
fn ranges_of_the_caller_are_cut_off_at_the_end() {
    let own = vec![range(0, 2)];
    let caller = [range(8, 100), range(5, 3), range(50, 60), range(4, 4)];
    assert_eq!(with_caller_ranges(own, &caller, 10), [range(0, 2), range(8, 10)]);
}

#[test]
fn scratch_space_is_emptied() {
    let mut scratch = ScratchSpace::new();
    scratch.issues.push(issue(0, "x", IssueType::Case, Severity::Info));
    scratch.clue_index.push((3, 1));
    scratch.clear();
    assert!(scratch.issues.is_empty());
    assert!(scratch.clue_index.is_empty());
    assert!(ScratchSpace::default().issues.is_empty());
}

#[test]
fn an_order_keeps_equals_where_they_are() {
    let rank = |first, second, third| Rank { first, second, third };
    let order = sorted(&vec![rank(2, 0, 0), rank(1, 5, 0), rank(2, 0, 0), rank(1, 5, 1)]);
    assert_eq!(order, [1, 3, 0, 2]);
}

#[test]
fn a_report_stands_by_offset_gravity_and_family() {
    let mut issues = vec![
        issue(9, "x", IssueType::Case, Severity::Error),
        issue(3, "a", IssueType::Variant, Severity::Info),
        issue(3, "b", IssueType::Punctuation, Severity::Warning),
        issue(3, "c", IssueType::CrossStrait, Severity::Warning),
    ];
    sort_for_report(&mut issues);
    let found: Vec<&str> = issues.iter().map(|i| i.found.as_str()).collect();
    assert_eq!(found, ["c", "b", "a", "x"]);
}

#[test]
fn spans_stand_by_offset_the_longer_first() {
    let mut issues = vec![
        issue(3, "ab", IssueType::Case, Severity::Info),
        issue(0, "z", IssueType::Case, Severity::Info),
        issue(3, "abc", IssueType::Case, Severity::Info),
    ];
    sort_by_span(&mut issues);
    let found: Vec<&str> = issues.iter().map(|i| i.found.as_str()).collect();
    assert_eq!(found, ["z", "abc", "ab"]);
}

#[test]
fn the_longer_of_two_clashing_findings_survives() {
    let mut issues = vec![
        issue(0, "abcd", IssueType::CrossStrait, Severity::Info),
        issue(2, "cdefgh", IssueType::CrossStrait, Severity::Info),
        issue(7, "hi", IssueType::CrossStrait, Severity::Error),
        issue(9, "j", IssueType::CrossStrait, Severity::Info),
    ];
    resolve_overlaps(&mut issues);
    let found: Vec<&str> = issues.iter().map(|i| i.found.as_str()).collect();
    assert_eq!(found, ["cdefgh", "j"]);
}

#[test]
fn the_graver_of_two_equal_spans_survives() {
    let mut issues = vec![
        issue(0, "ab", IssueType::CrossStrait, Severity::Info),
        issue(0, "ab", IssueType::Confusable, Severity::Error),
    ];
    resolve_overlaps(&mut issues);
    assert_eq!(issues.len(), 1);
    assert_eq!(issues[0].severity, Severity::Error);
}

fn of_phase(offset: usize, family: PhaseFamily, pass: PhasePass) -> Issue {
    issue(offset, "因為", IssueType::Translationese, Severity::Info)
        .with_phase_family(family, pass)
}

#[test]
fn an_indexed_finding_displaces_the_lexical_one_of_its_family() {
    let mut issues = vec![
        of_phase(0, PhaseFamily::Connective, PhasePass::Lexical),
        of_phase(3, PhaseFamily::Connective, PhasePass::Indexed),
        of_phase(3, PhaseFamily::YiZhi, PhasePass::Lexical),
        of_phase(9, PhaseFamily::Connective, PhasePass::Lexical),
    ];
    dedup_translationese_phase_duplicates(&mut issues);
    let left: Vec<usize> = issues.iter().map(|i| i.offset).collect();
    assert_eq!(left, [3, 3, 9]);
    dedup_translationese_phase_duplicates(&mut issues);
    assert_eq!(issues.len(), 3);
}

#[test]
fn headings_weigh_findings_by_one_step() {
    let headings = [range(0, 10)];
    let mut issues = vec![
        issue(0, "ab", IssueType::Case, Severity::Info),
        issue(2, "ab", IssueType::Case, Severity::Warning),
        issue(4, "ab", IssueType::Case, Severity::Error),
        issue(9, "ab", IssueType::Case, Severity::Info),
    ];
    assert!(boost_heading_severity(&mut issues, &headings));
    let now: Vec<Severity> = issues.iter().map(|i| i.severity).collect();
    assert_eq!(now, [Severity::Warning, Severity::Error, Severity::Error, Severity::Info]);
    let mut graves = vec![issue(4, "ab", IssueType::Case, Severity::Error)];
    assert!(!boost_heading_severity(&mut graves, &headings));
    assert!(!boost_heading_severity(&mut issues, &[]));
}

#[test]
fn a_pinned_remark_stays_a_remark_in_a_heading() {
    let mut issues = vec![issue(0, "ab", IssueType::AiStyle, Severity::Info)];
    issues[0].configured_severity = Some(Severity::Info);
    assert!(!boost_heading_severity(&mut issues, &[range(0, 10)]));
    assert_eq!(issues[0].severity, Severity::Info);
}

#[test]
fn findings_learn_the_cell_that_they_lie_in() {
    let cells = [
        TableCellSpan { start: 0, end: 4, row: 1, col: 1 },
        TableCellSpan { start: 0, end: 9, row: 1, col: 2 },
    ];
    let mut issues = vec![
        issue(0, "abcd", IssueType::Case, Severity::Info),
        issue(3, "ab", IssueType::Case, Severity::Info),
        issue(8, "ab", IssueType::Case, Severity::Info),
    ];
    annotate_table_cells(&mut issues, &cells);
    assert_eq!(issues[0].table_cell, Some(TableCell { row: 1, col: 1 }));
    assert_eq!(issues[1].table_cell, Some(TableCell { row: 1, col: 2 }));
    assert_eq!(issues[2].table_cell, None);
}

#[test]
fn findings_move_to_where_they_stand_in_the_original() {
    let original = Text::new("軟件好");
    let mut issues = vec![
        issue(0, "xy", IssueType::Case, Severity::Info),
        issue(1, "kept", IssueType::Case, Severity::Info),
        issue(2, "z", IssueType::Case, Severity::Info),
    ];
    remap_issues_to_original(&mut issues, &original, &vec![(3, 9), (1, 4), (6, 2)]);
    assert_eq!((issues[0].offset, issues[0].length, issues[0].found.as_str()), (3, 6, "件好"));
    assert_eq!((issues[1].offset, issues[1].length, issues[1].found.as_str()), (1, 3, "kept"));
    assert_eq!((issues[2].offset, issues[2].length, issues[2].found.as_str()), (6, 0, ""));
}

#[test]
fn offsets_are_traced_through_a_composed_text() {
    let positions = vec![0, 1, 4, 5];
    assert_eq!(map_offset(&positions, 2), 4);
    assert_eq!(map_offset(&positions, 9), 5);
    assert_eq!(map_offset(&Vec::new(), 9), 9);
    assert_eq!(map_range_forward(&positions, 3, 1, 5), Some((1, 3)));
    assert_eq!(map_range_forward(&positions, 3, 2, 4), None);
    assert_eq!(map_range_forward(&Vec::new(), 3, 1, 9), Some((1, 3)));
    assert_eq!(map_range_forward(&Vec::new(), 3, 2, 2), None);
    assert_eq!(
        forward_ranges(&positions, 3, &[range(0, 1), range(4, 100), range(9, 3)], 5),
        [range(0, 1), range(2, 3)]
    );
}

#[test]
fn tracing_back_leaves_an_unchanged_text_alone() {
    let norm = Normalized::unchanged("軟件");
    let original = Text::new("軟件");
    let mut issues = vec![issue(3, "件", IssueType::Case, Severity::Info)];
    trace_back(&norm, &original, &mut issues);
    assert_eq!((issues[0].offset, issues[0].length), (3, 3));
}

#[test]
fn tracing_back_shows_what_stands_in_the_original() {
    // An e with a combining acute becomes one character of two bytes.
    let original = Text::new("e\u{301}x");
    let norm = Normalized { text: "\u{e9}x".to_string(), positions: vec![0, 0, 3, 4] };
    let mut issues = vec![
        issue(0, "\u{e9}", IssueType::Case, Severity::Info),
        issue(2, "x", IssueType::Case, Severity::Info),
    ];
    trace_back(&norm, &original, &mut issues);
    assert_eq!((issues[0].offset, issues[0].length, issues[0].found.as_str()), (0, 3, "e\u{301}"));
    assert_eq!((issues[1].offset, issues[1].length, issues[1].found.as_str()), (3, 1, "x"));
}

fn marker_line(line: &str) -> bool {
    let t = Text::new(line);
    is_mention_marker_line(&t, 0, t.len())
}

#[test]
fn boxes_and_specimens_label_a_phrase() {
    for line in [
        "- [ ] 檢查有沒有「值得注意的是」",
        "* [x] 完成",
        "[X] 完成",
        "> - ❌ 值得注意的是",
        "  1. ✅ 改寫",
        "> > 12) ✗ 錯誤",
        "✓ 正確",
    ] {
        assert!(marker_line(line), "{line}");
    }
    for line in ["- 一般項目", "這裡有 ❌ 記號", "[y] 不是", "", "1.❌ 沒有空格"] {
        assert!(!marker_line(line), "{line}");
    }
}

fn style(text: &str, found: &str) -> Issue {
    issue(text.find(found).unwrap(), found, IssueType::AiStyle, Severity::Info)
}

fn mentions(text: &str, found: &str) -> bool {
    let mut issues = vec![style(text, found)];
    let t = Text::new(text);
    let ranges = drop_mentioned_style_findings(&t, &mut issues, &[]);
    assert_eq!(issues.is_empty(), !ranges.is_empty());
    issues.is_empty()
}

#[test]
fn a_quoted_phrase_is_named_rather_than_used() {
    assert!(mentions("避免「值得注意的是」這個詞", "值得注意的是"));
    assert!(mentions("避免「寫『值得注意的是』吧」", "值得注意的是"));
    assert!(mentions("避免\"值得注意的是\"這個詞", "值得注意的是"));
    assert!(mentions("- [ ] 值得注意的是", "值得注意的是"));
    assert!(!mentions("值得注意的是，這很好", "值得注意的是"));
    assert!(!mentions("這裡」值得注意的是「這裡", "值得注意的是"));
}

#[test]
fn an_unclosed_quote_silences_nothing() {
    assert!(!mentions("他說「值得注意的是，這很好", "值得注意的是"));
    assert!(!mentions("他說「\n值得注意的是」", "值得注意的是"));
    assert!(!mentions("他說「值得注意的是\n」", "值得注意的是"));
    assert!(!mentions("\"值得注意的是", "值得注意的是"));
}

#[test]
fn mentions_are_told_by_their_bytes() {
    let text = "「值得注意的是」與值得注意的是";
    let second = text.rfind("值得").unwrap();
    let mut issues = vec![
        issue(second, "值得注意的是", IssueType::AiStyle, Severity::Info),
        issue(3, "值得注意的是", IssueType::AiStyle, Severity::Info),
        issue(3, "值得", IssueType::AiStyle, Severity::Info),
        issue(3, "值得注意的是", IssueType::CrossStrait, Severity::Info),
    ];
    let ranges = drop_mentioned_style_findings(&Text::new(text), &mut issues, &[]);
    assert_eq!(ranges, [range(3, 21)]);
    let left: Vec<(usize, IssueType)> = issues.iter().map(|i| (i.offset, i.rule_type)).collect();
    assert_eq!(left, [(second, IssueType::AiStyle), (3, IssueType::CrossStrait)]);
}

#[test]
fn only_a_phrase_with_a_shape_can_be_a_mention() {
    let phrase = issue(0, "你", IssueType::AiStyle, Severity::Info);
    assert!(is_mention_candidate(&phrase, &['\u{200B}']));
    let whole = phrase.clone().with_structural_family(StructuralFamily::ListDensity);
    assert!(!is_mention_candidate(&whole, &['\u{200B}']));
    let invisible = issue(0, "\u{200B}", IssueType::AiStyle, Severity::Info);
    assert!(!is_mention_candidate(&invisible, &['\u{200B}']));
    let empty = issue(0, "", IssueType::AiStyle, Severity::Info);
    assert!(!is_mention_candidate(&empty, &[]));
    let grammar = issue(0, "你", IssueType::Grammar, Severity::Info);
    assert!(!is_mention_candidate(&grammar, &[]));
}

#[test]
fn filler_is_counted_once_where_markers_overlap() {
    let text = "就是說今天的天氣真的非常的好所以我們出門去散步";
    let density = compute_oral_density(&Text::new(text)).unwrap();
    assert_eq!(density.cjk_count, 23);
    assert_eq!(density.marker_chars, 3);
    assert!(density.is_high());
    assert_eq!(compute_oral_density(&Text::new("就是說")), None);
}

#[test]
fn occurrences_of_one_marker_do_not_share_characters() {
    let text = "對不對不對".to_string() + &"文".repeat(95);
    let density = compute_oral_density(&Text::new(&text)).unwrap();
    assert_eq!((density.marker_chars, density.cjk_count), (3, 100));
    assert!(!density.is_high());
}

#[test]
fn one_in_twenty_is_not_yet_high() {
    let text = "啊".to_string() + &"文".repeat(19);
    let density = compute_oral_density(&Text::new(&text)).unwrap();
    assert_eq!((density.marker_chars, density.cjk_count), (1, 20));
    assert!(!density.is_high());
}

fn acronym(found: &str, joined: &str) -> Issue {
    let mut i = issue(0, found, IssueType::Repetition, Severity::Info);
    i.suggestions = vec![joined.to_string()];
    i
}

#[test]
fn spaced_acronyms_are_told_from_stutter() {
    assert!(is_spaced_acronym_issue(&acronym("C P U", "CPU")));
    assert!(!is_spaced_acronym_issue(&acronym("C P U", "CPP")));
    assert!(!is_spaced_acronym_issue(&acronym("C  P", "CP")));
    assert!(!is_spaced_acronym_issue(&acronym("c p u", "cpu")));
    assert!(!is_spaced_acronym_issue(&acronym("C", "C")));
    assert!(!is_spaced_acronym_issue(&acronym("", "")));
    assert!(!is_spaced_acronym_issue(&acronym("去去", "去")));
}

#[test]
fn quality_flags_follow_the_findings() {
    let asr = issue(0, "在", IssueType::Confusable, Severity::Info)
        .with_context("常見 ASR 錯字".to_string());
    let plain = issue(0, "在", IssueType::Confusable, Severity::Info);
    assert_eq!(
        build_quality_flags(&vec![acronym("C P U", "CPU"), acronym("去去", "去"), asr]),
        ["asr_artifacts", "stutter_detected", "spaced_acronyms"]
    );
    assert!(build_quality_flags(&vec![plain]).is_empty());
    assert_eq!(build_quality_flags(&vec![acronym("C P U", "CPU")]), ["spaced_acronyms"]);
}

#[test]
fn excluded_prose_is_blanked_in_place() {
    let text = Text::new("甲`乙\n丙`丁");
    assert_eq!(visible_text(&text, &[range(3, 12)]), "甲  \n  丁");
    assert_eq!(visible_text(&text, &[]), "甲`乙\n丙`丁");
}

#[test]
fn the_register_is_read_only_where_it_is_left_open() {
    let text = Text::new("甲乙");
    assert_eq!(register_prose(&text, &[range(0, 3)], RegisterMode::Auto), Some(" 乙".to_string()));
    assert_eq!(register_prose(&text, &[], RegisterMode::Formal), None);
    assert_eq!(resolve_register(RegisterMode::Auto, Register::Formal), Register::Formal);
    assert_eq!(resolve_register(RegisterMode::Casual, Register::Formal), Register::Casual);
    assert_eq!(resolve_register(RegisterMode::Formal, Register::Casual), Register::Formal);
}

#[test]
fn the_script_is_that_of_more_characters() {
    let simplified = ['软', '体'];
    let traditional = ['軟', '體'];
    let kind = |t: &str| detect_type_and_lines(&Text::new(t), &simplified, &traditional).0;
    assert_eq!(kind("软体軟"), ChineseType::Simplified);
    assert_eq!(kind("軟體"), ChineseType::Traditional);
    assert_eq!(kind("软軟"), ChineseType::Unknown);
    assert_eq!(kind("  \n"), ChineseType::Unknown);
    assert_eq!(kind(""), ChineseType::Unknown);
    let lines = detect_type_and_lines(&Text::new("甲\n\n乙"), &simplified, &traditional).1;
    assert_eq!(lines, [0, 4, 5]);
}

#[test]
fn lower_limits_report_more() {
    let text = "文".repeat(994) + "更重要的是";
    let dense = |percent: u32| {
        let mut em = Emitter::new(&text, Vec::new());
        scan_ai_density(&mut em, percent);
        em.into_issues().len()
    };
    assert_eq!((dense(100), dense(201)), (1, 0));
    let lists = "- 甲\n\n".repeat(3) + &"一般段落。\n\n".repeat(3);
    let listed = |percent: u32| {
        let mut em = Emitter::new(&lists, Vec::new());
        scan_ai_list_density(&mut em, percent);
        em.into_issues().len()
    };
    assert_eq!((listed(100), listed(125)), (1, 0));
}

fn count_of(text: &str, pass: impl FnOnce(&mut Emitter<'_>)) -> usize {
    let mut em = Emitter::new(text, Vec::new());
    pass(&mut em);
    em.into_issues().len()
}

#[test]
fn a_superlative_closes_after_one_to_twenty_characters() {
    let found = |n: usize| {
        count_of(&format!("最{}之一。", "甲".repeat(n)), |em| scan_zy1a_superlative_yi_zhi(em))
    };
    assert_eq!([found(0), found(1), found(19), found(20), found(21)], [0, 1, 1, 1, 0]);
}

#[test]
fn connectives_may_stand_their_whole_gap_apart() {
    let found = |opener: &str, n: usize, closer: &str| {
        count_of(&format!("{opener}{}{closer}乙。", "甲".repeat(n)), |em| {
            scan_zy2a_connective_calques(em, Register::Casual)
        })
    };
    assert_eq!([found("因為", 40, "所以"), found("因為", 41, "所以")], [1, 0]);
    assert_eq!([found("當", 30, "的時候"), found("當", 31, "的時候")], [1, 0]);
}

#[test]
fn a_claimed_lead_is_read_for_thirty_characters() {
    let found =
        |n: usize| count_of(&format!("領先{}業界20年。", "甲".repeat(n)), scan_ai_vague_exaggeration);
    assert_eq!([found(0), found(24), found(25), found(26)], [1, 1, 1, 0]);
}

#[test]
fn a_density_between_two_tenths_takes_the_even_one() {
    let text = "更重要的是".to_string() + &"文".repeat(795);
    let mut em = Emitter::new(&text, Vec::new());
    scan_ai_density(&mut em, 50);
    let issues = em.into_issues();
    let context = issues[0].context.as_deref().unwrap();
    assert!(context.contains("1.2次/千字，閾值 0.2"), "{context}");
}

#[test]
fn a_run_of_endings_stops_at_an_excluded_range() {
    let text = "天氣變好了。這裡是程式碼。心情也好了。設備修好了。他也來了。";
    let found = |excluded: Vec<ByteRange>, listed: &[(usize, usize)]| {
        let sentences = listed.iter().map(|&(start, end)| Bound { start, end }).collect();
        let paragraphs = vec![Paragraph { start: 0, end: 30, first: 0, last: listed.len() }];
        let mut em = Emitter::new(text, excluded);
        scan_rhythm_ending_monotony(&mut em, &BoundaryIndex { sentences, paragraphs });
        em.into_issues()
    };
    let code = || vec![range(18, 39)];
    assert!(found(code(), &[(0, 6), (13, 19), (19, 25)]).is_empty());
    assert_eq!(found(Vec::new(), &[(0, 6), (13, 19), (19, 25)])[0].offset, 0);
    let apart = found(code(), &[(0, 6), (13, 19), (19, 25), (25, 30)]);
    assert_eq!((apart.len(), apart[0].offset), (1, 39));
    assert!(apart[0].context.as_deref().unwrap().contains("連續 3 句以「了」結尾"));
    let listed = found(code(), &[(0, 6), (6, 13), (13, 19), (19, 25), (25, 30)]);
    assert_eq!((listed.len(), listed[0].offset), (1, 39));
}
