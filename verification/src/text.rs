//! Text as a sequence of characters, addressed by character position and
//! carrying the byte offset of each position.
use vstd::prelude::*;
use vstd::string::*;
use vstd::utf8::*;

verus! {

/// Number of bytes that the UTF-8 encoding of `c` takes.
pub open spec fn char_width(c: char) -> int {
    if (c as u32) < 0x80 {
        1
    } else if (c as u32) < 0x800 {
        2
    } else if (c as u32) < 0x1_0000 {
        3
    } else {
        4
    }
}

/// Byte offset of character position `i` in `s`.
pub open spec fn byte_pos(s: Seq<char>, i: int) -> int
    decreases i,
{
    if i <= 0 {
        0
    } else {
        byte_pos(s, i - 1) + char_width(s[i - 1])
    }
}

/// Byte length of `s`.
pub open spec fn byte_len(s: Seq<char>) -> int {
    byte_pos(s, s.len() as int)
}

pub proof fn lemma_byte_pos_monotone(s: Seq<char>, i: int, j: int)
    requires
        0 <= i <= j <= s.len(),
    ensures
        byte_pos(s, i) + (j - i) <= byte_pos(s, j),
        byte_pos(s, j) <= byte_pos(s, i) + 4 * (j - i),
    decreases j - i,
{
    if i < j {
        lemma_byte_pos_monotone(s, i, j - 1);
    }
}

/// Positions are read off the characters before them alone.
pub proof fn lemma_byte_pos_prefix(s: Seq<char>, t: Seq<char>, i: int)
    requires
        0 <= i <= s.len(),
        i <= t.len(),
        forall|k: int| 0 <= k < i ==> s[k] == t[k],
    ensures
        byte_pos(s, i) == byte_pos(t, i),
    decreases i,
{
    if i > 0 {
        lemma_byte_pos_prefix(s, t, i - 1);
    }
}

proof fn lemma_byte_pos_drop_first(s: Seq<char>, i: int)
    requires
        1 <= i <= s.len(),
    ensures
        byte_pos(s, i) == char_width(s[0]) + byte_pos(s.drop_first(), i - 1),
    decreases i,
{
    if i > 1 {
        lemma_byte_pos_drop_first(s, i - 1);
        assert(s.drop_first()[i - 2] == s[i - 1]);
    } else {
        assert(byte_pos(s, 1) == byte_pos(s, 0) + char_width(s[0]));
    }
}

/// The byte length of a text is the length of its encoding.
pub proof fn lemma_byte_len_is_encoded_len(s: Seq<char>)
    ensures
        encode_utf8(s).len() == byte_len(s),
    decreases s.len(),
{
    if s.len() > 0 {
        lemma_byte_len_is_encoded_len(s.drop_first());
        lemma_byte_pos_drop_first(s, s.len() as int);
        char_is_scalar(s[0]);
    }
}

/// The needle stands in `h` at position `i`.
pub open spec fn occurs_at(h: Seq<char>, needle: Seq<char>, i: int) -> bool {
    0 <= i && i + needle.len() <= h.len() && h.subrange(i, i + needle.len()) == needle
}

/// First position at which the needle stands within `h[from..to]`.
pub open spec fn find_in(h: Seq<char>, needle: Seq<char>, from: int, to: int) -> Option<int>
    decreases to - from,
{
    if from < 0 || from + needle.len() > to || to > h.len() {
        None
    } else if occurs_at(h, needle, from) {
        Some(from)
    } else if from >= to {
        None
    } else {
        find_in(h, needle, from + 1, to)
    }
}

/// The needle stands somewhere within `h[from..to]`.
pub open spec fn contains_in(h: Seq<char>, needle: Seq<char>, from: int, to: int) -> bool {
    find_in(h, needle, from, to) is Some
}

/// What `find_in` returns is the least position at which the needle stands.
pub proof fn lemma_find_in(h: Seq<char>, needle: Seq<char>, from: int, to: int)
    requires
        0 <= from,
        to <= h.len(),
    ensures
        match find_in(h, needle, from, to) {
            Some(p) => {
                &&& from <= p
                &&& p + needle.len() <= to
                &&& occurs_at(h, needle, p)
                &&& forall|k: int| from <= k < p ==> !#[trigger] occurs_at(h, needle, k)
            },
            None => forall|k: int|
                from <= k && k + needle.len() <= to ==> !#[trigger] occurs_at(h, needle, k),
        },
    decreases to - from,
{
    if from + needle.len() <= to && !occurs_at(h, needle, from) && from < to {
        lemma_find_in(h, needle, from + 1, to);
    }
}

/// A text with the byte offset of each of its positions.
pub struct Text<'a> {
    src: &'a str,
    chars: Vec<char>,
    at: Vec<usize>,
}

impl<'a> View for Text<'a> {
    type V = Seq<char>;

    closed spec fn view(&self) -> Seq<char> {
        self.chars@
    }
}

/// Whether two strings hold the same characters.
pub fn same(a: &str, b: &str) -> (r: bool)
    ensures
        r == (a@ == b@),
{
    proof {
        encode_utf8_decode_utf8(a@);
        encode_utf8_decode_utf8(b@);
    }
    let x = a.as_bytes();
    let y = b.as_bytes();
    if x.len() != y.len() {
        return false;
    }
    let mut i: usize = 0;
    while i < x.len()
        invariant
            x@ == encode_utf8(a@),
            y@ == encode_utf8(b@),
            x@.len() == y@.len(),
            i <= x@.len(),
            forall|k: int| 0 <= k < i ==> #[trigger] x@[k] == y@[k],
        decreases x@.len() - i,
    {
        if x[i] != y[i] {
            return false;
        }
        i = i + 1;
    }
    assert(x@ =~= y@);
    true
}

pub fn width_of(c: char) -> (w: usize)
    ensures
        w == char_width(c),
        1 <= w <= 4,
{
    let u = c as u32;
    if u < 0x80 {
        1
    } else if u < 0x800 {
        2
    } else if u < 0x1_0000 {
        3
    } else {
        4
    }
}

impl<'a> Text<'a> {
    /// Each position's offset is the byte length of what stands before it.
    pub closed spec fn wf(&self) -> bool {
        &&& self.src@ == self.chars@
        &&& self.at@.len() == self.chars@.len() + 1
        &&& forall|i: int|
            0 <= i <= self.chars@.len() ==> #[trigger] self.at@[i] == byte_pos(self.chars@, i)
        &&& self.at@.len() <= usize::MAX
    }

    pub fn new(src: &'a str) -> (r: Self)
        ensures
            r.wf(),
            r@ == src@,
    {
        let bytes: usize = src.as_bytes().len();
        proof {
            lemma_byte_len_is_encoded_len(src@);
        }
        let mut chars: Vec<char> = Vec::new();
        let mut at: Vec<usize> = Vec::new();
        let mut here: usize = 0;
        at.push(0);
        for c in it: src.chars()
            invariant
                it.seq() == src@,
                byte_len(src@) <= usize::MAX,
                chars@ =~= src@.take(it.index()),
                at@.len() == chars@.len() + 1,
                here == byte_pos(src@, it.index()),
                forall|i: int| 0 <= i <= chars@.len() ==> #[trigger] at@[i] == byte_pos(src@, i),
        {
            let w: usize = width_of(c);
            proof {
                lemma_byte_pos_monotone(src@, it.index() + 1, src@.len() as int);
            }
            chars.push(c);
            here = here + w;
            at.push(here);
        }
        let _n: usize = at.len();
        assert(chars@ =~= src@);
        Text { src, chars, at }
    }

    /// The text itself.
    pub fn source(&self) -> (r: &'a str)
        requires
            self.wf(),
        ensures
            r@ == self@,
    {
        self.src
    }

    /// Number of characters.
    pub fn len(&self) -> (n: usize)
        requires
            self.wf(),
        ensures
            n == self@.len(),
            n < usize::MAX,
    {
        self.chars.len()
    }

    /// The character at position `i`.
    pub fn ch(&self, i: usize) -> (c: char)
        requires
            self.wf(),
            i < self@.len(),
        ensures
            c == self@[i as int],
    {
        self.chars[i]
    }

    /// Byte offset of position `i`.
    pub fn byte(&self, i: usize) -> (b: usize)
        requires
            self.wf(),
            i <= self@.len(),
        ensures
            b == byte_pos(self@, i as int),
    {
        self.at[i]
    }

    /// The characters from position `from` up to `to`, as a string of their own.
    pub fn slice(&self, from: usize, to: usize) -> (r: String)
        requires
            self.wf(),
            from <= to <= self@.len(),
        ensures
            r@ == self@.subrange(from as int, to as int),
    {
        self.src.substring_char(from, to).to_owned()
    }

    /// Whether `needle` stands at position `i`.
    pub fn at(&self, needle: &str, i: usize) -> (r: bool)
        requires
            self.wf(),
            i <= self@.len(),
        ensures
            r == occurs_at(self@, needle@, i as int),
    {
        let mut k: usize = i;
        for c in it: needle.chars()
            invariant
                it.seq() == needle@,
                self.wf(),
                i <= self@.len(),
                k == i + it.index(),
                k <= self@.len(),
                forall|j: int| 0 <= j < it.index() ==> needle@[j] == self@[i + j],
        {
            if k >= self.chars.len() || self.chars[k] != c {
                proof {
                    if occurs_at(self@, needle@, i as int) {
                        assert(self@.subrange(i as int, i + needle@.len())[it.index()]
                            == needle@[it.index()]);
                    }
                }
                return false;
            }
            k = k + 1;
        }
        assert(self@.subrange(i as int, i + needle@.len()) =~= needle@);
        true
    }

    /// First position at which `needle` stands within the positions
    /// `from..to`.
    pub fn find(&self, needle: &str, from: usize, to: usize) -> (r: Option<usize>)
        requires
            self.wf(),
            from <= to <= self@.len(),
        ensures
            match (r, find_in(self@, needle@, from as int, to as int)) {
                (Some(p), Some(q)) => p == q && from <= p && p + needle@.len() <= to && occurs_at(
                    self@,
                    needle@,
                    q,
                ),
                (None, None) => true,
                _ => false,
            },
    {
        let n: usize = needle.unicode_len();
        let mut i: usize = from;
        while n <= to - i
            invariant
                self.wf(),
                n == needle@.len(),
                from <= i <= to <= self@.len(),
                find_in(self@, needle@, i as int, to as int) == find_in(
                    self@,
                    needle@,
                    from as int,
                    to as int,
                ),
            decreases to - i,
        {
            if self.at(needle, i) {
                return Some(i);
            }
            if i >= to {
                return None;
            }
            i = i + 1;
        }
        None
    }
}


/// Some entry of the table stands at `i` and ends no later than `to`.
pub open spec fn any_at(t: Seq<char>, table: Seq<&'static str>, i: int, to: int) -> bool {
    exists|k: int|
        0 <= k < table.len() && #[trigger] occurs_at(t, table[k]@, i) && i + table[k]@.len() <= to
}

/// Some entry of the table stands within `from..to`.
pub open spec fn any_in(t: Seq<char>, table: Seq<&'static str>, from: int, to: int) -> bool {
    exists|k: int| 0 <= k < table.len() && #[trigger] contains_in(t, table[k]@, from, to)
}

/// Some entry of the table ends at `to`, having begun no earlier than `from`.
pub open spec fn any_ending(t: Seq<char>, table: Seq<&'static str>, from: int, to: int) -> bool {
    exists|k: int|
        0 <= k < table.len() && from <= to - table[k]@.len() && #[trigger] occurs_at(
            t,
            table[k]@,
            to - table[k]@.len(),
        )
}

/// First entry of the table, from entry `k` on, that stands within `from..to`,
/// and the first place where it does.
pub open spec fn first_entry_in(
    t: Seq<char>,
    table: Seq<&'static str>,
    k: int,
    from: int,
    to: int,
) -> Option<(int, int)>
    decreases table.len() - k,
{
    if k < 0 || k >= table.len() {
        None
    } else {
        match find_in(t, table[k]@, from, to) {
            Some(p) => Some((k, p)),
            None => first_entry_in(t, table, k + 1, from, to),
        }
    }
}

/// How many `i` of `from..to` satisfy `f`.
pub open spec fn count_where(from: int, to: int, f: spec_fn(int) -> bool) -> nat
    decreases to - from,
{
    if to <= from {
        0
    } else {
        count_where(from, to - 1, f) + (if f(to - 1) {
            1nat
        } else {
            0nat
        })
    }
}

pub proof fn lemma_count_where_bound(from: int, to: int, f: spec_fn(int) -> bool)
    requires
        from <= to,
    ensures
        count_where(from, to, f) <= to - from,
    decreases to - from,
{
    if from < to {
        lemma_count_where_bound(from, to - 1, f);
    }
}

/// The character `c` stands at the position.
pub open spec fn is_char(t: Seq<char>, c: char) -> spec_fn(int) -> bool {
    |i: int| t[i] == c
}

/// How often `c` stands within `from..to`.
pub open spec fn count_char(t: Seq<char>, c: char, from: int, to: int) -> nat {
    count_where(from, to, is_char(t, c))
}

/// Some of the characters `from..to` is in the list.
pub open spec fn has_char_in(t: Seq<char>, list: Seq<char>, from: int, to: int) -> bool {
    exists|i: int| from <= i < to && list.contains(#[trigger] t[i])
}

/// First position of `from..to` whose character is in the list, else `to`.
pub open spec fn next_of(t: Seq<char>, list: Seq<char>, from: int, to: int) -> int
    decreases to - from,
{
    if from >= to {
        to
    } else if list.contains(t[from]) {
        from
    } else {
        next_of(t, list, from + 1, to)
    }
}

/// Whether the list holds `c`.
pub fn listed(list: &[char], c: char) -> (r: bool)
    ensures
        r == list@.contains(c),
{
    let mut k: usize = 0;
    while k < list.len()
        invariant
            k <= list@.len(),
            forall|j: int| 0 <= j < k ==> list@[j] != c,
        decreases list@.len() - k,
    {
        if list[k] == c {
            assert(list@[k as int] == c);
            return true;
        }
        k = k + 1;
    }
    false
}

impl<'a> Text<'a> {
    pub fn any_at(&self, table: &[&'static str], i: usize, to: usize) -> (r: bool)
        requires
            self.wf(),
            i <= to <= self@.len(),
        ensures
            r == any_at(self@, table@, i as int, to as int),
    {
        let mut k: usize = 0;
        while k < table.len()
            invariant
                self.wf(),
                k <= table@.len(),
                i <= to <= self@.len(),
                forall|j: int|
                    0 <= j < k ==> !(#[trigger] occurs_at(self@, table@[j]@, i as int) && i
                        + table@[j]@.len() <= to),
            decreases table@.len() - k,
        {
            if self.at(table[k], i) && table[k].unicode_len() <= to - i {
                assert(occurs_at(self@, table@[k as int]@, i as int));
                return true;
            }
            k = k + 1;
        }
        false
    }

    pub fn any_ending(&self, table: &[&'static str], from: usize, to: usize) -> (r: bool)
        requires
            self.wf(),
            from <= to <= self@.len(),
        ensures
            r == any_ending(self@, table@, from as int, to as int),
    {
        let mut k: usize = 0;
        while k < table.len()
            invariant
                self.wf(),
                k <= table@.len(),
                from <= to <= self@.len(),
                forall|j: int|
                    0 <= j < k ==> !(from <= to - table@[j]@.len() && #[trigger] occurs_at(
                        self@,
                        table@[j]@,
                        to - table@[j]@.len(),
                    )),
            decreases table@.len() - k,
        {
            let n: usize = table[k].unicode_len();
            if n <= to - from && self.at(table[k], to - n) {
                assert(occurs_at(self@, table@[k as int]@, to - table@[k as int]@.len()));
                return true;
            }
            k = k + 1;
        }
        false
    }

    pub fn any_in(&self, table: &[&'static str], from: usize, to: usize) -> (r: bool)
        requires
            self.wf(),
            from <= to <= self@.len(),
        ensures
            r == any_in(self@, table@, from as int, to as int),
    {
        let mut k: usize = 0;
        while k < table.len()
            invariant
                self.wf(),
                k <= table@.len(),
                from <= to <= self@.len(),
                forall|j: int|
                    0 <= j < k ==> !#[trigger] contains_in(
                        self@,
                        table@[j]@,
                        from as int,
                        to as int,
                    ),
            decreases table@.len() - k,
        {
            if self.find(table[k], from, to).is_some() {
                assert(contains_in(self@, table@[k as int]@, from as int, to as int));
                return true;
            }
            k = k + 1;
        }
        false
    }

    pub fn first_entry(&self, table: &[&'static str], from: usize, to: usize) -> (r: Option<
        (usize, usize),
    >)
        requires
            self.wf(),
            from <= to <= self@.len(),
        ensures
            match (r, first_entry_in(self@, table@, 0, from as int, to as int)) {
                (Some(a), Some(b)) => {
                    &&& a.0 == b.0
                    &&& a.1 == b.1
                    &&& a.0 < table@.len()
                    &&& from <= a.1
                    &&& a.1 + table@[a.0 as int]@.len() <= to
                },
                (None, None) => true,
                _ => false,
            },
    {
        let mut k: usize = 0;
        while k < table.len()
            invariant
                self.wf(),
                k <= table@.len(),
                from <= to <= self@.len(),
                first_entry_in(self@, table@, k as int, from as int, to as int) == first_entry_in(
                    self@,
                    table@,
                    0,
                    from as int,
                    to as int,
                ),
            decreases table@.len() - k,
        {
            if let Some(p) = self.find(table[k], from, to) {
                return Some((k, p));
            }
            k = k + 1;
        }
        None
    }

    /// How often `c` stands within `from..to`.
    pub fn count(&self, c: char, from: usize, to: usize) -> (n: usize)
        requires
            self.wf(),
            from <= to <= self@.len(),
        ensures
            n == count_char(self@, c, from as int, to as int),
            n <= to - from,
    {
        let mut i: usize = from;
        let mut n: usize = 0;
        while i < to
            invariant
                self.wf(),
                from <= i <= to <= self@.len(),
                n == count_char(self@, c, from as int, i as int),
                n <= i - from,
            decreases to - i,
        {
            if self.ch(i) == c {
                n = n + 1;
            }
            i = i + 1;
        }
        n
    }

    pub fn has_char(&self, list: &[char], from: usize, to: usize) -> (r: bool)
        requires
            self.wf(),
            from <= to <= self@.len(),
        ensures
            r == has_char_in(self@, list@, from as int, to as int),
    {
        let mut i: usize = from;
        while i < to
            invariant
                self.wf(),
                from <= i <= to <= self@.len(),
                forall|j: int| from <= j < i ==> !list@.contains(#[trigger] self@[j]),
            decreases to - i,
        {
            if listed(list, self.ch(i)) {
                return true;
            }
            i = i + 1;
        }
        false
    }

    /// First position of `from..to` whose character is listed, else `to`.
    pub fn next(&self, list: &[char], from: usize, to: usize) -> (r: usize)
        requires
            self.wf(),
            from <= to <= self@.len(),
        ensures
            r == next_of(self@, list@, from as int, to as int),
            from <= r <= to,
            r < to ==> list@.contains(self@[r as int]),
            forall|j: int| from <= j < r ==> !list@.contains(#[trigger] self@[j]),
    {
        let mut i: usize = from;
        while i < to
            invariant
                self.wf(),
                from <= i <= to <= self@.len(),
                next_of(self@, list@, i as int, to as int) == next_of(
                    self@,
                    list@,
                    from as int,
                    to as int,
                ),
                forall|j: int| from <= j < i ==> !list@.contains(#[trigger] self@[j]),
            decreases to - i,
        {
            if listed(list, self.ch(i)) {
                return i;
            }
            i = i + 1;
        }
        to
    }
}

/// `a`, or `b` where that is less.
pub open spec fn least(a: int, b: int) -> int {
    if a <= b {
        a
    } else {
        b
    }
}

/// `n` positions after `from`, but no further than `to`.
pub fn bounded(from: usize, n: usize, to: usize) -> (r: usize)
    requires
        from <= to,
    ensures
        r == least(from + n, to as int),
        from <= r <= to,
{
    if n <= to - from {
        from + n
    } else {
        to
    }
}

/// Greatest position up to `i` that lies at byte `b` or before it.
pub open spec fn floor_from(t: Seq<char>, b: int, i: int) -> int
    decreases i,
{
    if i <= 0 {
        0
    } else if byte_pos(t, i) <= b {
        i
    } else {
        floor_from(t, b, i - 1)
    }
}

/// Greatest position that lies at byte `b` or before it.
pub open spec fn floor_pos(t: Seq<char>, b: int) -> int {
    floor_from(t, b, t.len() as int)
}

/// Least position from `i` on that lies at byte `b` or after it, else the end.
pub open spec fn ceil_from(t: Seq<char>, b: int, i: int) -> int
    decreases t.len() - i,
{
    if i >= t.len() {
        t.len() as int
    } else if byte_pos(t, i) >= b {
        i
    } else {
        ceil_from(t, b, i + 1)
    }
}

/// Least position that lies at byte `b` or after it, else the end.
pub open spec fn ceil_pos(t: Seq<char>, b: int) -> int {
    ceil_from(t, b, 0)
}

proof fn lemma_ceil_from(t: Seq<char>, b: int, i: int, hi: int)
    requires
        0 <= i <= hi <= t.len(),
        b <= byte_pos(t, hi),
    ensures
        i <= ceil_from(t, b, i) <= hi,
        byte_pos(t, ceil_from(t, b, i)) >= b,
        ceil_from(t, b, i) > i ==> byte_pos(t, ceil_from(t, b, i) - 1) < b,
    decreases t.len() - i,
{
    if i < t.len() && byte_pos(t, i) < b {
        lemma_ceil_from(t, b, i + 1, hi);
    }
}

/// A byte between two positions is rounded up to a position between them.
pub proof fn lemma_ceil_bounds(t: Seq<char>, b: int, lo: int, hi: int)
    requires
        0 <= lo <= hi <= t.len(),
        byte_pos(t, lo) <= b <= byte_pos(t, hi),
    ensures
        lo <= ceil_pos(t, b) <= hi,
        byte_pos(t, ceil_pos(t, b)) >= b,
        ceil_pos(t, b) > 0 ==> byte_pos(t, ceil_pos(t, b) - 1) < b,
{
    lemma_ceil_from(t, b, 0, hi);
    if ceil_pos(t, b) < lo {
        lemma_byte_pos_monotone(t, ceil_pos(t, b), lo);
    }
}

proof fn lemma_floor_from(t: Seq<char>, b: int, i: int, lo: int)
    requires
        0 <= lo <= i <= t.len(),
        byte_pos(t, lo) <= b,
    ensures
        lo <= floor_from(t, b, i) <= i,
        byte_pos(t, floor_from(t, b, i)) <= b,
        floor_from(t, b, i) < i ==> byte_pos(t, floor_from(t, b, i) + 1) > b,
    decreases i,
{
    if i > 0 && byte_pos(t, i) > b {
        lemma_floor_from(t, b, i - 1, lo);
    }
}

/// A byte between two positions is rounded down to a position between them.
pub proof fn lemma_floor_bounds(t: Seq<char>, b: int, lo: int, hi: int)
    requires
        0 <= lo <= hi <= t.len(),
        byte_pos(t, lo) <= b <= byte_pos(t, hi),
    ensures
        lo <= floor_pos(t, b) <= hi,
        byte_pos(t, floor_pos(t, b)) <= b,
        floor_pos(t, b) < t.len() ==> byte_pos(t, floor_pos(t, b) + 1) > b,
{
    lemma_floor_from(t, b, t.len() as int, lo);
    if hi < floor_pos(t, b) {
        lemma_byte_pos_monotone(t, hi, floor_pos(t, b));
    }
}

proof fn lemma_floor_is(t: Seq<char>, b: int, i: int, j: int)
    requires
        0 <= j <= i <= t.len(),
        byte_pos(t, j) <= b || j == 0,
        j < i ==> byte_pos(t, j + 1) > b,
    ensures
        floor_from(t, b, i) == j,
    decreases i - j,
{
    if j < i {
        lemma_byte_pos_monotone(t, j + 1, i);
        lemma_floor_is(t, b, i - 1, j);
    }
}

proof fn lemma_ceil_is(t: Seq<char>, b: int, i: int, j: int)
    requires
        0 <= i <= j <= t.len(),
        byte_pos(t, j) >= b || j == t.len(),
        i < j ==> byte_pos(t, j - 1) < b,
    ensures
        ceil_from(t, b, i) == j,
    decreases j - i,
{
    if i < j {
        lemma_byte_pos_monotone(t, i, j - 1);
        lemma_ceil_is(t, b, i + 1, j);
    }
}

/// Last position at which the needle stands within `h[from..to]`.
pub open spec fn rfind_in(h: Seq<char>, needle: Seq<char>, from: int, to: int) -> Option<int>
    decreases to - from,
{
    if from < 0 || from + needle.len() > to || to > h.len() {
        None
    } else if occurs_at(h, needle, to - needle.len()) {
        Some(to - needle.len())
    } else if from >= to {
        None
    } else {
        rfind_in(h, needle, from, to - 1)
    }
}

/// Position after the last listed character before `i`, else the beginning.
pub open spec fn after_last(t: Seq<char>, list: Seq<char>, i: int) -> int
    decreases i,
{
    if i <= 0 {
        0
    } else if list.contains(t[i - 1]) {
        i
    } else {
        after_last(t, list, i - 1)
    }
}

impl<'a> Text<'a> {
    /// Greatest position that lies at byte `b` or before it.
    pub fn floor(&self, b: usize) -> (r: usize)
        requires
            self.wf(),
        ensures
            r == floor_pos(self@, b as int),
            r <= self@.len(),
            byte_pos(self@, r as int) <= b,
    {
        let n: usize = self.chars.len();
        let mut lo: usize = 0;
        let mut hi: usize = n;
        while lo < hi
            invariant
                self.wf(),
                n == self@.len(),
                lo <= hi <= n,
                byte_pos(self@, lo as int) <= b,
                hi < n ==> byte_pos(self@, hi + 1) > b,
            decreases hi - lo,
        {
            let mid: usize = lo + (hi - lo) / 2 + (hi - lo) % 2;
            if self.at[mid] <= b {
                lo = mid;
            } else {
                hi = mid - 1;
            }
        }
        proof {
            lemma_floor_is(self@, b as int, n as int, lo as int);
        }
        lo
    }

    /// Least position that lies at byte `b` or after it, else the end.
    pub fn ceil(&self, b: usize) -> (r: usize)
        requires
            self.wf(),
        ensures
            r == ceil_pos(self@, b as int),
            r <= self@.len(),
    {
        let n: usize = self.chars.len();
        let mut lo: usize = 0;
        let mut hi: usize = n;
        while lo < hi
            invariant
                self.wf(),
                n == self@.len(),
                lo <= hi <= n,
                hi < n ==> byte_pos(self@, hi as int) >= b,
                lo > 0 ==> byte_pos(self@, lo - 1) < b,
            decreases hi - lo,
        {
            let mid: usize = lo + (hi - lo) / 2;
            if self.at[mid] >= b {
                hi = mid;
            } else {
                lo = mid + 1;
            }
        }
        proof {
            lemma_ceil_is(self@, b as int, 0, lo as int);
        }
        lo
    }

    /// Last position at which `needle` stands within `from..to`.
    pub fn rfind(&self, needle: &str, from: usize, to: usize) -> (r: Option<usize>)
        requires
            self.wf(),
            from <= to <= self@.len(),
        ensures
            match (r, rfind_in(self@, needle@, from as int, to as int)) {
                (Some(p), Some(q)) => p == q && from <= p && p + needle@.len() <= to,
                (None, None) => true,
                _ => false,
            },
    {
        let n: usize = needle.unicode_len();
        let mut e: usize = to;
        while n <= e - from
            invariant
                self.wf(),
                n == needle@.len(),
                from <= e <= to <= self@.len(),
                rfind_in(self@, needle@, from as int, e as int) == rfind_in(
                    self@,
                    needle@,
                    from as int,
                    to as int,
                ),
            decreases e,
        {
            if self.at(needle, e - n) {
                return Some(e - n);
            }
            if from >= e {
                return None;
            }
            e = e - 1;
        }
        None
    }

    /// Position after the last listed character before `i`, else the beginning.
    pub fn past_last(&self, list: &[char], i: usize) -> (r: usize)
        requires
            self.wf(),
            i <= self@.len(),
        ensures
            r == after_last(self@, list@, i as int),
            r <= i,
    {
        let mut k: usize = i;
        while k > 0 && !listed(list, self.ch(k - 1))
            invariant
                self.wf(),
                k <= i <= self@.len(),
                after_last(self@, list@, k as int) == after_last(self@, list@, i as int),
            decreases k,
        {
            k = k - 1;
        }
        k
    }
}

} // verus!
