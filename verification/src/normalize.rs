//! A text in its composed form, and the way back to the text that it was made
//! of.
use vstd::prelude::*;

use crate::emit::ByteRange;
use crate::issue::{models, Issue, IssueModel};
use crate::overlap::span_end;
use crate::ranges::{covers, holds};
use crate::regions::{moved, remap_issues_to_original};
use crate::text::{byte_len, Text};

verus! {

/// A composed text. `positions` gives for each of its bytes, and for its end,
/// the offset in the text that it was made of; it is empty where composing
/// changed nothing.
pub struct Normalized {
    pub text: String,
    pub positions: Vec<usize>,
}

/// Offsets rise.
pub open spec fn ascending_offsets(p: Seq<usize>) -> bool {
    forall|i: int, j: int| 0 <= i <= j < p.len() ==> (#[trigger] p[i]) <= (#[trigger] p[j])
}

/// Where byte `b` of the composed text comes from. What lies behind its end
/// comes from the end.
pub open spec fn origin_of(p: Seq<usize>, b: int) -> int {
    if p.len() == 0 {
        b
    } else if b < p.len() {
        p[b] as int
    } else {
        p[p.len() - 1] as int
    }
}

impl Normalized {
    pub open spec fn changed(&self) -> bool {
        self.positions@.len() > 0
    }

    /// The composed text is that of `original`.
    pub open spec fn wf(&self, original: Seq<char>) -> bool {
        if self.changed() {
            &&& self.positions@.len() == byte_len(self.text@) + 1
            &&& ascending_offsets(self.positions@)
            &&& self.positions@[self.positions@.len() - 1] == byte_len(original)
        } else {
            self.text@ == original
        }
    }

    /// A text that is composed as it stands.
    pub fn unchanged(text: &str) -> (r: Self)
        ensures
            !r.changed(),
            r.wf(text@),
    {
        Normalized { text: text.to_owned(), positions: Vec::new() }
    }
}

/// The offset in the original text of a byte of the composed one.
pub fn map_offset(positions: &Vec<usize>, b: usize) -> (r: usize)
    ensures
        r == origin_of(positions@, b as int),
{
    let n: usize = positions.len();
    if n == 0 {
        b
    } else if b < n {
        positions[b]
    } else {
        positions[n - 1]
    }
}

/// First of the bytes `0..n` that comes from offset `at` or from behind it.
fn first_from_offset(positions: &Vec<usize>, at: usize, n: usize) -> (r: usize)
    requires
        ascending_offsets(positions@),
        n <= positions@.len(),
    ensures
        r <= n,
        forall|i: int| 0 <= i < r ==> (#[trigger] positions@[i]) < at,
        forall|i: int| r <= i < n ==> (#[trigger] positions@[i]) >= at,
{
    let mut lo: usize = 0;
    let mut hi: usize = n;
    while lo < hi
        invariant
            ascending_offsets(positions@),
            lo <= hi <= n <= positions@.len(),
            forall|i: int| 0 <= i < lo ==> (#[trigger] positions@[i]) < at,
            forall|i: int| hi <= i < n ==> (#[trigger] positions@[i]) >= at,
        decreases hi - lo,
    {
        let mid: usize = lo + (hi - lo) / 2;
        if positions[mid] < at {
            lo = mid + 1;
        } else {
            hi = mid;
        }
    }
    lo
}

/// The byte `b` of the composed text, one of `n`, comes from the range
/// `start..end` of the original.
pub open spec fn comes_from(p: Seq<usize>, n: int, start: int, end: int, b: int) -> bool {
    0 <= b < n && start <= origin_of(p, b) < end
}

/// The bytes of a composed text of `n` bytes that come from a range of the
/// original, where there are any.
pub fn map_range_forward(positions: &Vec<usize>, n: usize, start: usize, end: usize) -> (r: Option<
    (usize, usize),
>)
    requires
        positions@.len() > 0 ==> positions@.len() == n + 1 && ascending_offsets(positions@),
    ensures
        match r {
            Some((a, b)) => a < b && forall|x: int|
                (a <= x < b) == #[trigger] comes_from(
                    positions@,
                    n as int,
                    start as int,
                    end as int,
                    x,
                ),
            None => forall|x: int|
                !#[trigger] comes_from(positions@, n as int, start as int, end as int, x),
        },
{
    let (a, b): (usize, usize) = if positions.len() == 0 {
        (
            if start < n {
                start
            } else {
                n
            },
            if end < n {
                end
            } else {
                n
            },
        )
    } else {
        (first_from_offset(positions, start, n), first_from_offset(positions, end, n))
    };
    proof {
        assert forall|x: int|
            (a <= x < b) == #[trigger] comes_from(
                positions@,
                n as int,
                start as int,
                end as int,
                x,
            ) by {
            if 0 <= x < n && positions@.len() > 0 {
                assert(positions@[x] == origin_of(positions@, x));
            }
        }
    }
    if a < b {
        Some((a, b))
    } else {
        None
    }
}

/// The byte `b` of the composed text, one of `n`, comes from one of the
/// ranges, cut off at `len`.
pub open spec fn carried(p: Seq<usize>, n: int, ranges: Seq<ByteRange>, len: int, b: int) -> bool {
    0 <= b < n && origin_of(p, b) < len && covers(ranges, origin_of(p, b))
}

fn least_of(a: usize, b: usize) -> (r: usize)
    ensures
        r == (if a <= b {
            a
        } else {
            b
        }),
{
    if a <= b {
        a
    } else {
        b
    }
}

/// The bytes of a composed text of `n` bytes that come from the ranges, which
/// are cut off at `len`.
pub fn forward_ranges(positions: &Vec<usize>, n: usize, ranges: &[ByteRange], len: usize) -> (r: Vec<
    ByteRange,
>)
    requires
        positions@.len() > 0 ==> positions@.len() == n + 1 && ascending_offsets(positions@),
    ensures
        forall|b: int| #[trigger]
            covers(r@, b) == carried(positions@, n as int, ranges@, len as int, b),
{
    let ghost p = positions@;
    let mut out: Vec<ByteRange> = Vec::new();
    let mut k: usize = 0;
    while k < ranges.len()
        invariant
            k <= ranges@.len(),
            p == positions@,
            p.len() > 0 ==> p.len() == n + 1 && ascending_offsets(p),
            forall|b: int| #[trigger]
                covers(out@, b) == carried(
                    p,
                    n as int,
                    ranges@.subrange(0, k as int),
                    len as int,
                    b,
                ),
        decreases ranges@.len() - k,
    {
        let ghost before = out@;
        let range = ranges[k];
        let end: usize = least_of(range.end, len);
        let mapped = map_range_forward(positions, n, range.start, end);
        if let Some((a, b)) = mapped {
            out.push(ByteRange { start: a, end: b });
        }
        proof {
            let earlier = ranges@.subrange(0, k as int);
            let now = ranges@.subrange(0, k + 1);
            assert forall|b: int| #[trigger]
                covers(out@, b) == carried(p, n as int, now, len as int, b) by {
                let from_here = comes_from(p, n as int, range.start as int, end as int, b);
                assert(covers(before, b) == carried(p, n as int, earlier, len as int, b));
                if covers(out@, b) {
                    let j = choose|j: int| 0 <= j < out@.len() && #[trigger] holds(out@[j], b);
                    if j < before.len() {
                        assert(holds(before[j], b));
                    } else {
                        assert(from_here);
                    }
                }
                if covers(before, b) {
                    let j = choose|j: int| 0 <= j < before.len() && #[trigger] holds(before[j], b);
                    assert(holds(out@[j], b));
                }
                if from_here {
                    assert(holds(out@[before.len() as int], b));
                    assert(holds(now[k as int], origin_of(p, b)));
                }
                if covers(earlier, origin_of(p, b)) {
                    let j = choose|j: int|
                        0 <= j < earlier.len() && #[trigger] holds(earlier[j], origin_of(p, b));
                    assert(holds(now[j], origin_of(p, b)));
                }
                if covers(now, origin_of(p, b)) {
                    let j = choose|j: int|
                        0 <= j < now.len() && #[trigger] holds(now[j], origin_of(p, b));
                    if j < k {
                        assert(holds(earlier[j], origin_of(p, b)));
                    } else {
                        assert(now[j] == range);
                    }
                }
            }
        }
        k = k + 1;
    }
    assert(ranges@.subrange(0, ranges@.len() as int) =~= ranges@);
    out
}

/// The finding in its place in the original text.
pub open spec fn traced(p: Seq<usize>, original: Seq<char>, m: IssueModel) -> IssueModel {
    moved(
        original,
        m,
        (origin_of(p, m.offset) as usize, origin_of(p, span_end(m)) as usize),
    )
}

/// The findings in their places in the original text.
pub open spec fn traced_back(norm: &Normalized, original: Seq<char>, v: Seq<IssueModel>) -> Seq<
    IssueModel,
> {
    if norm.changed() {
        Seq::new(v.len(), |i: int| traced(norm.positions@, original, v[i]))
    } else {
        v
    }
}

/// Moves the findings on a composed text to their places in the original.
pub fn trace_back(norm: &Normalized, original: &Text<'_>, issues: &mut Vec<Issue>)
    requires
        original.wf(),
    ensures
        models(final(issues)@) == traced_back(norm, original@, models(old(issues)@)),
{
    if norm.positions.len() == 0 {
        return ;
    }
    let ghost v = models(issues@);
    let ghost before = issues@;
    let mut mapped: Vec<(usize, usize)> = Vec::new();
    let mut i: usize = 0;
    while i < issues.len()
        invariant
            i <= issues@.len(),
            before == issues@,
            mapped@.len() == i,
            forall|k: int|
                0 <= k < i ==> #[trigger] mapped@[k] == (
                    origin_of(norm.positions@, before[k]@.offset) as usize,
                    origin_of(norm.positions@, span_end(before[k]@)) as usize,
                ),
        decreases issues@.len() - i,
    {
        let start: usize = issues[i].offset;
        let end: usize = if issues[i].length > usize::MAX - start {
            usize::MAX
        } else {
            start + issues[i].length
        };
        mapped.push((map_offset(&norm.positions, start), map_offset(&norm.positions, end)));
        i = i + 1;
    }
    remap_issues_to_original(issues, original, &mapped);
    assert forall|k: int| 0 <= k < v.len() implies (#[trigger] models(issues@)[k]) == traced(
        norm.positions@,
        original@,
        v[k],
    ) by {
        assert(issues@[k]@ == moved(original@, before[k]@, mapped@[k]));
        assert(v[k] == before[k]@);
    }
    assert(models(issues@) =~= traced_back(norm, original@, v));
}

/// Findings that stood in order still do in the original text.
pub proof fn law_tracing_keeps_the_order(
    norm: &Normalized,
    original: Seq<char>,
    v: Seq<IssueModel>,
    i: int,
    j: int,
)
    requires
        norm.wf(original),
        0 <= i < v.len(),
        0 <= j < v.len(),
        0 <= v[i].offset <= v[j].offset,
    ensures
        traced_back(norm, original, v)[i].offset <= traced_back(norm, original, v)[j].offset,
{
    let p = norm.positions@;
    if norm.changed() {
        let last = p.len() - 1;
        let a = if v[i].offset < p.len() {
            v[i].offset
        } else {
            last
        };
        let b = if v[j].offset < p.len() {
            v[j].offset
        } else {
            last
        };
        assert(p[a] <= p[b]);
    }
}

/// What lies within the composed text comes from within the original.
pub proof fn law_origins_lie_in_the_text(norm: &Normalized, original: Seq<char>, b: int)
    requires
        norm.wf(original),
        0 <= b <= byte_len(norm.text@),
    ensures
        0 <= origin_of(norm.positions@, b) <= byte_len(original),
{
    let p = norm.positions@;
    if norm.changed() {
        assert(p[b] <= p[p.len() - 1]);
    }
}

} // verus!
