//! Punctuation, quotation marks and brackets.
use zhtw_scan::brackets::{fix_quote_pairing, has_paragraph_break, validate_quote_hierarchy};
use zhtw_scan::emit::{ByteRange, Emitter};
use zhtw_scan::grammar::indexed::Domain;
use zhtw_scan::issue::{Issue, IssueType, Severity};
use zhtw_scan::marks::{scan_cn_curly_quotes, scan_dunhao, scan_range_indicators};
use zhtw_scan::profile::{ProfileConfig, RegisterMode};
use zhtw_scan::punctuation::scan_punctuation;
use zhtw_scan::quotes::{direction_is_usable, plan_quote_conversions, QuoteKind};
use zhtw_scan::spacing::scan_spacing;
use zhtw_scan::text::Text;

fn profile() -> ProfileConfig {
    ProfileConfig {
        spelling: true,
        casing: true,
        basic_punctuation: true,
        colon_enforcement: true,
        dunhao_detection: true,
        range_normalization: true,
        range_en_dash: false,
        ellipsis_normalization: true,
        variant_normalization: false,
        grammar_checks: true,
        ai_filler_detection: false,
        ai_semantic_safety: false,
        ai_density_detection: false,
        ai_structural_patterns: false,
        ai_threshold_percent: 100,
        translationese_detection: false,
        translationese_domain: Domain {
            name: "general",
            yi_zhi_tenths: 20,
            chain_min: 3,
            premodifier_chars: 15,
            premodifier_de: 2,
        },
        rhythm: false,
        register: RegisterMode::Auto,
        exempt_blockquotes: false,
        heading_severity_boost: true,
        offset_only: false,
    }
}

fn punctuation(text: &str) -> Vec<(usize, String)> {
    let mut em = Emitter::new(text, Vec::new());
    scan_punctuation(&mut em, &profile());
    told(em.into_issues())
}

fn told(issues: Vec<Issue>) -> Vec<(usize, String)> {
    issues.into_iter().map(|i| (i.offset, i.suggestions[0].clone())).collect()
}

fn tell(offset: usize, suggestion: &str) -> (usize, String) {
    (offset, suggestion.to_string())
}

#[test]
fn half_width_marks_beside_chinese_become_full_width() {
    assert_eq!(punctuation("你好,世界"), [tell(6, "，")]);
    assert_eq!(punctuation("你好."), [tell(6, "。")]);
    assert_eq!(punctuation("你好!"), [tell(6, "！")]);
    assert_eq!(punctuation("你好?"), [tell(6, "？")]);
    assert_eq!(punctuation("你好;世界"), [tell(6, "；")]);
    assert_eq!(punctuation("說明:內容"), [tell(6, "：")]);
    assert_eq!(punctuation("甲(乙)丙"), [tell(3, "（"), tell(7, "）")]);
}

#[test]
fn marks_of_numbers_code_and_links_stay() {
    assert!(punctuation("1,000 元").is_empty());
    assert!(punctuation("版本 1.2 版").is_empty());
    assert!(punctuation("文字![圖](a)").iter().all(|(_, s)| s != "！"));
    assert!(punctuation("hello, world").is_empty());
}

#[test]
fn excluded_marks_stay() {
    let mut em = Emitter::new("你好,世界", vec![ByteRange { start: 6, end: 7 }]);
    scan_punctuation(&mut em, &profile());
    assert!(em.into_issues().is_empty());
}

#[test]
fn colons_are_left_alone_where_the_profile_says_so() {
    let mut cfg = profile();
    cfg.colon_enforcement = false;
    let mut em = Emitter::new("說明:內容", Vec::new());
    scan_punctuation(&mut em, &cfg);
    assert!(em.into_issues().is_empty());
}

#[test]
fn straight_quotes_around_chinese_become_brackets_in_pairs() {
    assert_eq!(punctuation("他說\"你好\"了"), [tell(6, "「"), tell(13, "」")]);
    assert!(punctuation("say \"hello\" now").is_empty());
}

#[test]
fn curly_quotes_are_reported_in_the_order_of_the_text() {
    let mut em = Emitter::new("他說“你‘好’嗎”了", Vec::new());
    scan_cn_curly_quotes(&mut em);
    let found: Vec<String> = em.into_issues().into_iter().map(|i| i.found).collect();
    assert_eq!(found, ["“", "‘", "’", "”"]);
}

#[test]
fn a_plan_pairs_the_marks_of_a_paragraph() {
    let text = Text::new("“甲”與“乙”");
    let plan = plan_quote_conversions(&text, &[], QuoteKind::CurlyDouble);
    let marks: Vec<(usize, bool)> = plan.iter().map(|m| (m.pos, m.opening)).collect();
    assert_eq!(marks, [(0, true), (2, false), (4, true), (6, false)]);
}

#[test]
fn directions_are_usable_where_they_nest() {
    assert!(direction_is_usable(&vec![true, false]));
    assert!(direction_is_usable(&vec![true, true, false, false]));
    assert!(!direction_is_usable(&vec![false, true]));
    assert!(!direction_is_usable(&vec![true, true]));
}

fn curly(offset: usize, found: &str) -> Issue {
    Issue::new(
        offset,
        found.len(),
        found.to_string(),
        vec!["「".to_string()],
        IssueType::Punctuation,
        Severity::Warning,
    )
}

#[test]
fn nested_quotes_alternate_their_brackets() {
    let text = Text::new("“甲“乙”丙”");
    let mut issues =
        vec![curly(0, "“"), curly(6, "“"), curly(12, "”"), curly(18, "”")];
    fix_quote_pairing(&text, &mut issues);
    let now: Vec<&str> = issues.iter().map(|i| i.suggestions[0].as_str()).collect();
    assert_eq!(now, ["「", "『", "』", "」"]);
}

#[test]
fn marks_of_one_kind_alternate_by_position() {
    let text = Text::new("”甲”");
    let mut issues = vec![curly(0, "”"), curly(6, "”")];
    fix_quote_pairing(&text, &mut issues);
    let now: Vec<&str> = issues.iter().map(|i| i.suggestions[0].as_str()).collect();
    assert_eq!(now, ["「", "」"]);
}

#[test]
fn a_blank_line_parts_paragraphs() {
    let text = Text::new("甲\n\n乙");
    assert!(has_paragraph_break(&text, 0, 8));
    assert!(!has_paragraph_break(&text, 3, 4));
    let text = Text::new("甲\n乙");
    assert!(!has_paragraph_break(&text, 0, 7));
}

fn hierarchy(text: &str) -> Vec<(usize, String)> {
    let mut em = Emitter::new(text, Vec::new());
    validate_quote_hierarchy(&mut em);
    em.into_issues().into_iter().map(|i| (i.offset, i.context.unwrap())).collect()
}

#[test]
fn brackets_that_nest_are_in_order() {
    assert!(hierarchy("他說「你看『紅樓夢』了嗎」，《書》").is_empty());
}

#[test]
fn brackets_out_of_order_are_reported() {
    let one = |text: &str| hierarchy(text).into_iter().next().unwrap();
    assert_eq!(one("甲」"), (3, "多餘的關閉引號「」」，找不到對應的開啟引號「「」".to_string()));
    assert_eq!(one("「甲"), (0, "段落結束時「」未關閉".to_string()));
    assert_eq!(one("「甲\n\n乙」").0, 0);
    assert_eq!(one("『甲』"), (6, "『』應嵌套在「」內使用，不應出現在最外層".to_string()));
    assert_eq!(one("「甲《乙」丙》"), (12, "引號層級錯誤：「」與『』交錯嵌套".to_string()));
}

#[test]
fn commas_between_short_items_become_enumeration_commas() {
    let mut em = Emitter::new("有蘋果，香蕉，橘子，葡萄等", Vec::new());
    scan_dunhao(&mut em);
    let issues = em.into_issues();
    assert!(!issues.is_empty());
    assert!(issues.iter().all(|i| i.suggestions == ["、"] && i.severity == Severity::Info));
    let mut em = Emitter::new("今天天氣很好，我們一起出門去公園散步", Vec::new());
    scan_dunhao(&mut em);
    assert!(em.into_issues().is_empty());
}

#[test]
fn marks_of_ranges_take_the_wave_dash_or_the_en_dash() {
    let found = |text: &str, en_dash: bool| {
        let mut cfg = profile();
        cfg.range_en_dash = en_dash;
        let mut em = Emitter::new(text, Vec::new());
        scan_range_indicators(&mut em, &cfg);
        told(em.into_issues())
    };
    assert_eq!(found("台北~高雄", false), [tell(6, "\u{FF5E}")]);
    assert_eq!(found("台北-高雄", true), [tell(6, "\u{2013}")]);
    assert!(found("台北--高雄", false).is_empty());
    assert!(found("~5 人", false).is_empty());
    assert!(found("a-b", false).is_empty());
}

#[test]
fn spacing_tells_where_a_space_is_missing() {
    let mut em = Emitter::new("在A上３", Vec::new());
    scan_spacing(&mut em);
    let issues = em.into_issues();
    let seen: Vec<(usize, usize, String)> =
        issues.iter().map(|i| (i.offset, i.length, i.suggestions[0].clone())).collect();
    assert_eq!(
        seen,
        [
            (3, 0, " ".to_string()),
            (4, 0, " ".to_string()),
            (7, 3, "3".to_string()),
        ]
    );
}

#[test]
fn brackets_convert_together_up_to_the_reach_of_the_search() {
    let text = |latin: &str| format!("甲({}{latin}{})丙", "乙".repeat(85), "乙".repeat(84));
    assert_eq!(punctuation(&text("abcd")), [tell(3, "（"), tell(515, "）")]);
    assert!(punctuation(&text("abcde")).is_empty());
}

#[test]
fn a_text_with_the_suggested_spaces_asks_for_no_more() {
    let missing = |text: &str| -> Vec<(usize, String)> {
        let mut em = Emitter::new(text, Vec::new());
        scan_spacing(&mut em);
        told(em.into_issues().into_iter().filter(|i| i.length == 0).collect())
    };
    let text = "在A上有3個B級5的。";
    let found = missing(text);
    assert_eq!(
        found,
        [
            tell(3, " "),
            tell(4, " "),
            tell(10, " "),
            tell(11, " "),
            tell(14, " "),
            tell(15, " "),
            tell(18, " "),
            tell(19, " "),
        ]
    );
    let mut spaced = text.to_string();
    for (offset, suggestion) in found.iter().rev() {
        spaced.insert_str(*offset, suggestion);
    }
    assert_eq!(spaced, "在 A 上有 3 個 B 級 5 的。");
    assert!(missing(&spaced).is_empty());
}
