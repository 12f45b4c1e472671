//! Lists in which every item opens on a bold label.
use vstd::prelude::*;

use crate::bounds::spans;
use crate::chars::{ascii_digit, is_ascii_digit};
use crate::emit::{ai_issue, message, message_of, span_excluded, ByteRange, Emitter};
use crate::issue::{IssueModel, Severity, StructuralFamily};
use crate::lines::{line_spans, lines_from, past_white, skip_white};
use crate::text::{find_in, occurs_at, Text};

verus! {

/// End of the digits that begin at `i`.
pub open spec fn digits_end(t: Seq<char>, i: int, to: int) -> int
    decreases to - i,
{
    if i < to && ascii_digit(t[i]) {
        digits_end(t, i + 1, to)
    } else {
        i
    }
}

/// Length of the ordered-list marker at the beginning of `a..to`: digits, then
/// a full stop or a bracket, then a blank or the end.
pub open spec fn marker_len(t: Seq<char>, a: int, to: int) -> Option<int> {
    let d = digits_end(t, a, to);
    if d > a && d < to && (t[d] == '.' || t[d] == ')') && (d + 1 >= to || t[d + 1] == ' ' || t[d
        + 1] == '\t') {
        Some(d + 1 - a)
    } else {
        None
    }
}

pub fn list_marker(text: &Text<'_>, a: usize, to: usize) -> (r: Option<usize>)
    requires
        text.wf(),
        a <= to <= text@.len(),
    ensures
        match (r, marker_len(text@, a as int, to as int)) {
            (Some(x), Some(y)) => x == y && a + x <= to,
            (None, None) => true,
            _ => false,
        },
{
    let _len: usize = text.len();
    let mut d: usize = a;
    while d < to && is_ascii_digit(text.ch(d))
        invariant
            text.wf(),
            a <= d <= to <= text@.len(),
            digits_end(text@, d as int, to as int) == digits_end(text@, a as int, to as int),
        decreases to - d,
    {
        d = d + 1;
    }
    if d > a && d < to && (text.ch(d) == '.' || text.ch(d) == ')') && (d + 1 >= to || text.ch(d + 1)
        == ' ' || text.ch(d + 1) == '\t') {
        Some(d + 1 - a)
    } else {
        None
    }
}

/// Byte length of the ordered-list marker at the beginning of `s`, where one
/// stands there with white space or nothing after it.
pub fn numbered_list_marker_len(s: &str) -> (r: Option<usize>)
    ensures
        match (r, marker_len(s@, 0, s@.len() as int)) {
            (Some(x), Some(y)) => x == y,
            (None, None) => true,
            _ => false,
        },
{
    let text = Text::new(s);
    let n: usize = text.len();
    list_marker(&text, 0, n)
}

/// The item at `a` opens on a dash or an asterisk.
pub open spec fn bullet(t: Seq<char>, a: int, to: int) -> bool {
    a + 2 <= to && (occurs_at(t, "- "@, a) || occurs_at(t, "* "@, a))
}

/// The text at `a..to` is an item of a list.
pub open spec fn list_item(t: Seq<char>, a: int, to: int) -> bool {
    bullet(t, a, to) || marker_len(t, a, to) is Some
}

/// Where the content of the item begins.
pub open spec fn item_content(t: Seq<char>, a: int, to: int) -> int {
    if bullet(t, a, to) {
        a + 2
    } else {
        skip_white(t, a + marker_len(t, a, to)->0, to)
    }
}

/// The content at `c..to` opens on a bold run.
pub open spec fn opens_bold(t: Seq<char>, c: int, to: int) -> bool {
    c + 2 <= to && occurs_at(t, "**"@, c)
}

/// The bold run at `c` holds four characters, and a colon follows it.
pub open spec fn four_char_label(t: Seq<char>, c: int, to: int) -> bool {
    match find_in(t, "**"@, c + 2, to) {
        Some(q) => {
            let d = skip_white(t, q + 2, to);
            q - (c + 2) == 4 && d < to && (t[d] == '：' || t[d] == ':')
        },
        None => false,
    }
}

/// A list that is being read: where its first item stands, how many items it
/// has, how many of them open on bold, and how many on a label of four
/// characters.
pub ghost struct ListRun {
    pub first: int,
    pub items: nat,
    pub bold: nat,
    pub four: nat,
}

/// What a finished list yields.
pub open spec fn list_finding(t: Seq<char>, ex: Seq<ByteRange>, r: ListRun) -> Seq<IssueModel> {
    if r.items < 3 || span_excluded(t, ex, r.first, r.first + 1) {
        Seq::empty()
    } else if r.four == r.items {
        seq![
            ai_issue(
                t,
                r.first,
                r.first + 1,
                Seq::empty(),
                Severity::Info,
                Some(StructuralFamily::FourCharBulletLabels),
                message(
                    "AI structural: 四字標籤式列表 — "@,
                    r.items,
                    " 項全部以四字粗體標籤加冒號開頭"@,
                ),
            ),
        ]
    } else if r.bold == r.items {
        seq![
            ai_issue(
                t,
                r.first,
                r.first + 1,
                Seq::empty(),
                Severity::Info,
                Some(StructuralFamily::MechanicalBullets),
                message(
                    "AI structural: 機械式列表 — "@,
                    r.items,
                    " 項全部以粗體關鍵字開頭"@,
                ),
            ),
        ]
    } else {
        Seq::empty()
    }
}

/// The list with the item at `a..to` added.
pub open spec fn with_item(t: Seq<char>, r: Option<ListRun>, a: int, to: int) -> ListRun {
    let c = item_content(t, a, to);
    let base = match r {
        Some(x) => x,
        None => ListRun { first: a, items: 0, bold: 0, four: 0 },
    };
    ListRun {
        first: base.first,
        items: base.items + 1,
        bold: base.bold + (if opens_bold(t, c, to) {
            1nat
        } else {
            0
        }),
        four: base.four + (if opens_bold(t, c, to) && four_char_label(t, c, to) {
            1nat
        } else {
            0
        }),
    }
}

/// The lists among the lines from the `i`-th on, `r` being the list that is
/// being read.
pub open spec fn lists_from(
    t: Seq<char>,
    ex: Seq<ByteRange>,
    lines: Seq<(int, int)>,
    i: int,
    r: Option<ListRun>,
) -> Seq<IssueModel>
    decreases lines.len() - i,
{
    if i >= lines.len() {
        match r {
            Some(x) => list_finding(t, ex, x),
            None => Seq::empty(),
        }
    } else {
        let a = skip_white(t, lines[i].0, lines[i].1);
        if list_item(t, a, lines[i].1) {
            lists_from(t, ex, lines, i + 1, Some(with_item(t, r, a, lines[i].1)))
        } else {
            match r {
                Some(x) => list_finding(t, ex, x) + lists_from(t, ex, lines, i + 1, None),
                None => lists_from(t, ex, lines, i + 1, None),
            }
        }
    }
}

/// What the list detector reports.
pub open spec fn mechanical_lists(t: Seq<char>, ex: Seq<ByteRange>) -> Seq<IssueModel> {
    lists_from(t, ex, lines_from(t, 0, t.len() as int), 0, None)
}

fn emit_ai_mechanical_bullet_issue(
    em: &mut Emitter<'_>,
    first: usize,
    items: usize,
    bold: usize,
    four: usize,
)
    requires
        old(em).wf(),
        first < old(em).chars().len(),
    ensures
        final(em).wf(),
        final(em).extends(
            old(em),
            list_finding(
                old(em).chars(),
                old(em).ex(),
                ListRun {
                    first: first as int,
                    items: items as nat,
                    bold: bold as nat,
                    four: four as nat,
                },
            ),
        ),
{
    let ghost start = *em;
    let _len: usize = em.text.len();
    if items >= 3 && !em.excluded_span(first, first + 1) {
        if four == items {
            em.advise_ai(
                first,
                first + 1,
                Severity::Info,
                Some(StructuralFamily::FourCharBulletLabels),
                message_of(
                    "AI structural: 四字標籤式列表 — ",
                    items,
                    " 項全部以四字粗體標籤加冒號開頭",
                ),
            );
        } else if bold == items {
            em.advise_ai(
                first,
                first + 1,
                Severity::Info,
                Some(StructuralFamily::MechanicalBullets),
                message_of(
                    "AI structural: 機械式列表 — ",
                    items,
                    " 項全部以粗體關鍵字開頭",
                ),
            );
        }
    }
    assert(em.out() =~= start.out() + list_finding(
        start.chars(),
        start.ex(),
        ListRun { first: first as int, items: items as nat, bold: bold as nat, four: four as nat },
    ));
}

pub fn bold_label_is_four_chars_before_colon(text: &Text<'_>, c: usize, to: usize) -> (r: bool)
    requires
        text.wf(),
        c + 2 <= to <= text@.len(),
    ensures
        r == four_char_label(text@, c as int, to as int),
{
    proof {
        reveal_strlit("**");
    }
    match text.find("**", c + 2, to) {
        Some(q) => {
            let d: usize = past_white(text, q + 2, to);
            q - (c + 2) == 4 && d < to && (text.ch(d) == '：' || text.ch(d) == ':')
        },
        None => false,
    }
}

/// Where the content of the item at `a..to` begins, if it is one.
fn find_item(text: &Text<'_>, a: usize, to: usize) -> (r: Option<usize>)
    requires
        text.wf(),
        a <= to <= text@.len(),
    ensures
        match r {
            Some(c) => list_item(text@, a as int, to as int) && c == item_content(
                text@,
                a as int,
                to as int,
            ) && c <= to && a < to,
            None => !list_item(text@, a as int, to as int),
        },
{
    proof {
        reveal_strlit("- ");
        reveal_strlit("* ");
    }
    if to - a >= 2 && (text.at("- ", a) || text.at("* ", a)) {
        return Some(a + 2);
    }
    match list_marker(text, a, to) {
        Some(n) => Some(past_white(text, a + n, to)),
        None => None,
    }
}

/// Lists of three items or more that all open on bold.
pub fn scan_ai_mechanical_bullets(em: &mut Emitter<'_>)
    requires
        old(em).wf(),
    ensures
        final(em).wf(),
        final(em).extends(old(em), mechanical_lists(old(em).chars(), old(em).ex())),
{
    let ghost start = *em;
    let len: usize = em.text.len();
    let lines = line_spans(&em.text, 0, len);
    let ghost all = lines_from(em.chars(), 0, len as int);
    assert(spans(lines@).len() == lines@.len());
    let mut open: bool = false;
    let mut first: usize = 0;
    let mut items: usize = 0;
    let mut bold: usize = 0;
    let mut four: usize = 0;
    let mut i: usize = 0;
    proof {
        reveal_strlit("**");
    }
    while i < lines.len()
        invariant
            em.wf(),
            em.text == start.text,
            em.excluded == start.excluded,
            spans(lines@) == all,
            lines@.len() == all.len(),
            i <= lines@.len(),
            "**"@.len() == 2,
            forall|j: int|
                0 <= j < lines@.len() ==> 0 <= (#[trigger] lines@[j]).start <= lines@[j].end
                    <= em.chars().len(),
            open ==> first < em.chars().len(),
            bold <= items,
            four <= items,
            items <= i,
            em.out() + lists_from(
                em.chars(),
                em.ex(),
                all,
                i as int,
                if open {
                    Some(
                        ListRun {
                            first: first as int,
                            items: items as nat,
                            bold: bold as nat,
                            four: four as nat,
                        },
                    )
                } else {
                    None
                },
            ) =~= start.out() + lists_from(em.chars(), em.ex(), all, 0, None),
        decreases lines@.len() - i,
    {
        let line = lines[i];
        assert(all[i as int] == (line.start as int, line.end as int));
        let a: usize = past_white(&em.text, line.start, line.end);
        match find_item(&em.text, a, line.end) {
            Some(c) => {
                if !open {
                    open = true;
                    first = a;
                    items = 0;
                    bold = 0;
                    four = 0;
                }
                items = items + 1;
                if line.end - c >= 2 && em.text.at("**", c) {
                    bold = bold + 1;
                    if bold_label_is_four_chars_before_colon(&em.text, c, line.end) {
                        four = four + 1;
                    }
                }
            },
            None => {
                if open {
                    emit_ai_mechanical_bullet_issue(em, first, items, bold, four);
                    open = false;
                }
            },
        }
        i = i + 1;
    }
    if open {
        emit_ai_mechanical_bullet_issue(em, first, items, bold, four);
    }
}

} // verus!
