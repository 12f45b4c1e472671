//! The document under scan, its excluded ranges, and what was found so far.
use vstd::prelude::*;
use vstd::string::*;

use crate::issue::{
    models, plain_issue, strings, Issue, IssueModel, IssueType, PhaseFamily, PhasePass, Severity,
    StructuralFamily,
};
use crate::text::{byte_pos, find_in, lemma_byte_pos_monotone, Text};

verus! {

/// A half-open range of byte offsets.
#[derive(Clone, Copy, Debug, PartialEq, Eq, Structural)]
pub struct ByteRange {
    pub start: usize,
    pub end: usize,
}

/// The span `start..end` and the range `r` share a byte.
pub open spec fn overlaps(r: ByteRange, start: int, end: int) -> bool {
    r.start < end && start < r.end
}

/// Some excluded range overlaps the bytes `start..end`.
pub open spec fn excluded_in(ranges: Seq<ByteRange>, start: int, end: int) -> bool {
    exists|k: int| 0 <= k < ranges.len() && #[trigger] overlaps(ranges[k], start, end)
}

/// Whether an excluded range overlaps the bytes `start..end`.
pub fn is_excluded(start: usize, end: usize, ranges: &[ByteRange]) -> (r: bool)
    ensures
        r == excluded_in(ranges@, start as int, end as int),
{
    let mut k: usize = 0;
    while k < ranges.len()
        invariant
            k <= ranges@.len(),
            forall|j: int|
                0 <= j < k ==> !#[trigger] overlaps(ranges@[j], start as int, end as int),
        decreases ranges@.len() - k,
    {
        if ranges[k].start < end && start < ranges[k].end {
            assert(overlaps(ranges@[k as int], start as int, end as int));
            return true;
        }
        k = k + 1;
    }
    false
}

/// Decimal numeral of `n`.
pub open spec fn decimal(n: nat) -> Seq<char>
    decreases n,
{
    if n < 10 {
        seq![(('0' as u32) + n) as char]
    } else {
        decimal(n / 10).push((('0' as u32) + n % 10) as char)
    }
}

fn digit(d: usize) -> (r: &'static str)
    requires
        d < 10,
    ensures
        r@ =~= seq![(('0' as u32) + d) as char],
{
    proof {
        reveal_strlit("0");
        reveal_strlit("1");
        reveal_strlit("2");
        reveal_strlit("3");
        reveal_strlit("4");
        reveal_strlit("5");
        reveal_strlit("6");
        reveal_strlit("7");
        reveal_strlit("8");
        reveal_strlit("9");
    }
    if d == 0 {
        "0"
    } else if d == 1 {
        "1"
    } else if d == 2 {
        "2"
    } else if d == 3 {
        "3"
    } else if d == 4 {
        "4"
    } else if d == 5 {
        "5"
    } else if d == 6 {
        "6"
    } else if d == 7 {
        "7"
    } else if d == 8 {
        "8"
    } else {
        "9"
    }
}

/// `n` in decimal.
pub fn numeral(n: usize) -> (r: String)
    ensures
        r@ == decimal(n as nat),
    decreases n,
{
    if n < 10 {
        digit(n).to_owned()
    } else {
        let head: String = numeral(n / 10);
        let r: String = head.concat(digit(n % 10));
        assert(r@ =~= decimal(n as nat));
        r
    }
}

/// A message with one number in it.
pub open spec fn message(before: Seq<char>, n: nat, after: Seq<char>) -> Seq<char> {
    before + decimal(n) + after
}

pub fn message_of(before: &str, n: usize, after: &str) -> (r: String)
    ensures
        r@ == message(before@, n as nat, after@),
{
    before.to_owned().concat(numeral(n).as_str()).concat(after)
}

/// Joins three pieces of a message.
pub fn joined(a: &str, b: &str, c: &str) -> (r: String)
    ensures
        r@ == a@ + b@ + c@,
{
    a.to_owned().concat(b).concat(c)
}

/// What a detector works on: the text, the ranges that it must leave alone,
/// and the findings so far.
pub struct Emitter<'a> {
    pub text: Text<'a>,
    pub excluded: Vec<ByteRange>,
    pub issues: Vec<Issue>,
}

/// The finding on the characters `from..to` of `t`.
pub open spec fn span_issue(
    t: Seq<char>,
    from: int,
    to: int,
    suggestions: Seq<Seq<char>>,
    rule_type: IssueType,
    severity: Severity,
) -> IssueModel {
    plain_issue(
        byte_pos(t, from),
        byte_pos(t, to) - byte_pos(t, from),
        t.subrange(from, to),
        suggestions,
        rule_type,
        severity,
    )
}

/// Some excluded range overlaps the characters `from..to` of `t`.
pub open spec fn span_excluded(t: Seq<char>, ex: Seq<ByteRange>, from: int, to: int) -> bool {
    excluded_in(ex, byte_pos(t, from), byte_pos(t, to))
}

/// Occurrences of the needle within `from..to`, one after another, that are
/// not excluded.
pub open spec fn hits(
    t: Seq<char>,
    ex: Seq<ByteRange>,
    needle: Seq<char>,
    from: int,
    to: int,
) -> Seq<int>
    decreases to - from,
{
    match find_in(t, needle, from, to) {
        None => Seq::empty(),
        Some(p) => {
            let end = p + needle.len();
            let here: Seq<int> = if span_excluded(t, ex, p, end) {
                Seq::empty()
            } else {
                seq![p]
            };
            if from < end <= to {
                here + hits(t, ex, needle, end, to)
            } else {
                here
            }
        },
    }
}

/// Some entry of the table occurs within `from..to` outside the excluded
/// ranges.
pub open spec fn any_hit(
    t: Seq<char>,
    ex: Seq<ByteRange>,
    table: Seq<&'static str>,
    from: int,
    to: int,
) -> bool {
    exists|k: int| 0 <= k < table.len() && (#[trigger] hits(t, ex, table[k]@, from, to)).len() > 0
}

pub open spec fn translationese_issue(
    t: Seq<char>,
    from: int,
    to: int,
    suggestions: Seq<Seq<char>>,
    severity: Severity,
    family: Option<(PhaseFamily, PhasePass)>,
    context: Seq<char>,
) -> IssueModel {
    IssueModel {
        phase_family: family,
        context: Some(context),
        ..span_issue(t, from, to, suggestions, IssueType::Translationese, severity)
    }
}

pub open spec fn ai_issue(
    t: Seq<char>,
    from: int,
    to: int,
    suggestions: Seq<Seq<char>>,
    severity: Severity,
    family: Option<StructuralFamily>,
    context: Seq<char>,
) -> IssueModel {
    IssueModel {
        structural_family: family,
        context: Some(context),
        ..span_issue(t, from, to, suggestions, IssueType::AiStyle, severity)
    }
}

/// A punctuation finding: one suggestion, and why.
pub open spec fn punct_issue(
    t: Seq<char>,
    from: int,
    to: int,
    suggestion: Seq<char>,
    severity: Severity,
    context: Seq<char>,
) -> IssueModel {
    IssueModel {
        context: Some(context),
        ..span_issue(t, from, to, seq![suggestion], IssueType::Punctuation, severity)
    }
}

impl<'a> Emitter<'a> {
    pub open spec fn wf(&self) -> bool {
        self.text.wf()
    }

    /// The characters of the document.
    pub open spec fn chars(&self) -> Seq<char> {
        self.text@
    }

    /// The excluded ranges.
    pub open spec fn ex(&self) -> Seq<ByteRange> {
        self.excluded@
    }

    /// What was found so far.
    pub open spec fn out(&self) -> Seq<IssueModel> {
        models(self.issues@)
    }

    /// `self` is `before` with `more` found besides.
    pub open spec fn extends(&self, before: &Self, more: Seq<IssueModel>) -> bool {
        &&& self.text == before.text
        &&& self.excluded == before.excluded
        &&& self.out() == before.out() + more
    }

    pub fn new(text: &'a str, excluded: Vec<ByteRange>) -> (r: Self)
        ensures
            r.wf(),
            r.chars() == text@,
            r.ex() == excluded@,
            r.out() == Seq::<IssueModel>::empty(),
    {
        let r = Emitter { text: Text::new(text), excluded, issues: Vec::new() };
        assert(r.out() =~= Seq::<IssueModel>::empty());
        r
    }

    /// Whether an excluded range overlaps the characters `from..to`.
    pub fn excluded_span(&self, from: usize, to: usize) -> (r: bool)
        requires
            self.wf(),
            from <= self.chars().len(),
            to <= self.chars().len(),
        ensures
            r == span_excluded(self.chars(), self.ex(), from as int, to as int),
    {
        is_excluded(self.text.byte(from), self.text.byte(to), self.excluded.as_slice())
    }

    pub fn push(&mut self, issue: Issue)
        ensures
            final(self).extends(old(self), seq![issue@]),
    {
        let ghost before = self.out();
        self.issues.push(issue);
        assert(self.out() =~= before + seq![issue@]);
    }

    /// Takes over findings that were made elsewhere.
    pub fn take_over(&mut self, found: Vec<Issue>)
        ensures
            final(self).extends(old(self), models(found@)),
    {
        let ghost before = self.out();
        let mut found = found;
        let ghost more = models(found@);
        self.issues.append(&mut found);
        assert(self.out() =~= before + more);
    }

    /// A finding on the characters `from..to`.
    pub fn span(
        &self,
        from: usize,
        to: usize,
        suggestions: Vec<String>,
        rule_type: IssueType,
        severity: Severity,
    ) -> (r: Issue)
        requires
            self.wf(),
            from <= to <= self.chars().len(),
        ensures
            r@ == span_issue(
                self.chars(),
                from as int,
                to as int,
                strings(suggestions@),
                rule_type,
                severity,
            ),
    {
        proof {
            lemma_byte_pos_monotone(self.chars(), from as int, to as int);
        }
        let start: usize = self.text.byte(from);
        let end: usize = self.text.byte(to);
        Issue::new(start, end - start, self.text.slice(from, to), suggestions, rule_type, severity)
    }

    /// Reports a translationese finding on the characters `from..to`.
    pub fn report_translationese(
        &mut self,
        from: usize,
        to: usize,
        suggestions: Vec<String>,
        severity: Severity,
        family: Option<(PhaseFamily, PhasePass)>,
        context: String,
    )
        requires
            old(self).wf(),
            from <= to <= old(self).chars().len(),
        ensures
            final(self).wf(),
            final(self).extends(
                old(self),
                seq![
                    translationese_issue(
                        old(self).chars(),
                        from as int,
                        to as int,
                        strings(suggestions@),
                        severity,
                        family,
                        context@,
                    ),
                ],
            ),
    {
        let mut issue = self.span(from, to, suggestions, IssueType::Translationese, severity);
        issue.phase_family = family;
        issue.context = Some(context);
        self.push(issue);
    }

    /// Reports a machine-style finding on the characters `from..to`.
    pub fn report_ai(
        &mut self,
        from: usize,
        to: usize,
        suggestions: Vec<String>,
        severity: Severity,
        family: Option<StructuralFamily>,
        context: String,
    )
        requires
            old(self).wf(),
            from <= to <= old(self).chars().len(),
        ensures
            final(self).wf(),
            final(self).extends(
                old(self),
                seq![
                    ai_issue(
                        old(self).chars(),
                        from as int,
                        to as int,
                        strings(suggestions@),
                        severity,
                        family,
                        context@,
                    ),
                ],
            ),
    {
        let mut issue = self.span(from, to, suggestions, IssueType::AiStyle, severity);
        issue.structural_family = family;
        issue.context = Some(context);
        self.push(issue);
    }

    /// Reports a punctuation finding on the characters `from..to`.
    pub fn report_punctuation(
        &mut self,
        from: usize,
        to: usize,
        suggestion: String,
        severity: Severity,
        context: &str,
    )
        requires
            old(self).wf(),
            from <= to <= old(self).chars().len(),
        ensures
            final(self).wf(),
            final(self).extends(
                old(self),
                seq![
                    punct_issue(
                        old(self).chars(),
                        from as int,
                        to as int,
                        suggestion@,
                        severity,
                        context@,
                    ),
                ],
            ),
    {
        let ghost said = suggestion@;
        let one: Vec<String> = vec![suggestion];
        assert(strings(one@) =~= seq![said]);
        let issue = self.span(from, to, one, IssueType::Punctuation, severity);
        self.push(issue.with_context(context.to_owned()));
    }

    /// Reports a translationese finding without a suggestion.
    pub fn advise_translationese(
        &mut self,
        from: usize,
        to: usize,
        severity: Severity,
        family: Option<(PhaseFamily, PhasePass)>,
        context: String,
    )
        requires
            old(self).wf(),
            from <= to <= old(self).chars().len(),
        ensures
            final(self).wf(),
            final(self).extends(
                old(self),
                seq![
                    translationese_issue(
                        old(self).chars(),
                        from as int,
                        to as int,
                        Seq::empty(),
                        severity,
                        family,
                        context@,
                    ),
                ],
            ),
    {
        let none: Vec<String> = Vec::new();
        assert(strings(none@) =~= Seq::empty());
        self.report_translationese(from, to, none, severity, family, context);
    }

    /// Reports a machine-style finding without a suggestion.
    pub fn advise_ai(
        &mut self,
        from: usize,
        to: usize,
        severity: Severity,
        family: Option<StructuralFamily>,
        context: String,
    )
        requires
            old(self).wf(),
            from <= to <= old(self).chars().len(),
        ensures
            final(self).wf(),
            final(self).extends(
                old(self),
                seq![
                    ai_issue(
                        old(self).chars(),
                        from as int,
                        to as int,
                        Seq::empty(),
                        severity,
                        family,
                        context@,
                    ),
                ],
            ),
    {
        let none: Vec<String> = Vec::new();
        assert(strings(none@) =~= Seq::empty());
        self.report_ai(from, to, none, severity, family, context);
    }

    /// Whether the byte at position `p` is excluded.
    pub fn excluded_byte(&self, p: usize) -> (r: bool)
        requires
            self.wf(),
            p <= self.chars().len(),
        ensures
            r == excluded_in(
                self.ex(),
                byte_pos(self.chars(), p as int),
                byte_pos(self.chars(), p as int) + 1,
            ),
    {
        let b: usize = self.text.byte(p);
        if b < usize::MAX {
            is_excluded(b, b + 1, self.excluded.as_slice())
        } else {
            proof {
                assert forall|k: int| 0 <= k < self.ex().len() implies !#[trigger] overlaps(
                    self.ex()[k],
                    b as int,
                    b + 1,
                ) by {}
            }
            false
        }
    }

    /// How many occurrences of the needle within `from..to` are not excluded,
    /// and where the first of them stands.
    pub fn count_hits(&self, needle: &str, from: usize, to: usize) -> (r: (usize, usize))
        requires
            self.wf(),
            from <= to <= self.chars().len(),
            needle@.len() >= 1,
        ensures
            r.0 == hits(self.chars(), self.ex(), needle@, from as int, to as int).len(),
            r.0 > 0 ==> r.1 == hits(self.chars(), self.ex(), needle@, from as int, to as int)[0],
            r.0 > 0 ==> from <= r.1 && r.1 + needle@.len() <= to,
            r.0 <= to - from,
    {
        let ghost all = hits(self.chars(), self.ex(), needle@, from as int, to as int);
        let ghost mut done: Seq<int> = Seq::empty();
        let width: usize = needle.unicode_len();
        let mut n: usize = 0;
        let mut first: usize = 0;
        let mut at: usize = from;
        let mut more: bool = true;
        assert(done + all =~= all);
        while more
            invariant
                self.wf(),
                from <= at <= to <= self.chars().len(),
                width == needle@.len(),
                width >= 1,
                n == done.len(),
                n <= at - from,
                n > 0 ==> first == done[0] && from <= first && first + width <= to,
                all == hits(self.chars(), self.ex(), needle@, from as int, to as int),
                done + (if more {
                    hits(self.chars(), self.ex(), needle@, at as int, to as int)
                } else {
                    Seq::empty()
                }) =~= all,
            decreases
                    to - at + (if more {
                        1int
                    } else {
                        0int
                    }),
        {
            match self.text.find(needle, at, to) {
                Some(p) => {
                    if !self.excluded_span(p, p + width) {
                        if n == 0 {
                            first = p;
                        }
                        n = n + 1;
                        proof {
                            done = done.push(p as int);
                        }
                    }
                    at = p + width;
                },
                None => {
                    more = false;
                },
            }
        }
        assert(done =~= all);
        (n, first)
    }

    /// Whether some entry of the table occurs within `from..to` outside the
    /// excluded ranges.
    pub fn any_hit(&self, table: &[&'static str], from: usize, to: usize) -> (r: bool)
        requires
            self.wf(),
            from <= to <= self.chars().len(),
            forall|k: int| 0 <= k < table@.len() ==> (#[trigger] table@[k])@.len() >= 1,
        ensures
            r == any_hit(self.chars(), self.ex(), table@, from as int, to as int),
    {
        let mut k: usize = 0;
        while k < table.len()
            invariant
                self.wf(),
                k <= table@.len(),
                from <= to <= self.chars().len(),
                forall|j: int| 0 <= j < table@.len() ==> (#[trigger] table@[j])@.len() >= 1,
                forall|j: int|
                    0 <= j < k ==> (#[trigger] hits(
                        self.chars(),
                        self.ex(),
                        table@[j]@,
                        from as int,
                        to as int,
                    )).len() == 0,
            decreases table@.len() - k,
        {
            if self.count_hits(table[k], from, to).0 > 0 {
                assert(hits(
                    self.chars(),
                    self.ex(),
                    table@[k as int]@,
                    from as int,
                    to as int,
                ).len() > 0);
                return true;
            }
            k = k + 1;
        }
        false
    }

    /// Hands the findings out.
    pub fn into_issues(self) -> (r: Vec<Issue>)
        ensures
            models(r@) == self.out(),
    {
        self.issues
    }
}

} // verus!
