//! What kind of document is scanned, and which of its bytes are left alone.
use vstd::prelude::*;
use vstd::string::*;

use crate::emit::ByteRange;
use crate::profile::ProfileConfig;
use crate::ranges::{covers, holds, merge_ranges, separate};
use crate::text::{same, Text};

verus! {

/// The kinds of document.
#[derive(Clone, Copy, Debug, PartialEq, Eq, Structural)]
pub enum ContentType {
    Plain,
    Markdown,
    /// Markdown whose code blocks are scanned too. Inline code and HTML blocks
    /// stay excluded.
    MarkdownScanCode,
    Yaml,
}

pub open spec fn ascii_lower(c: char) -> char {
    if 'A' <= c <= 'Z' {
        ((c as u32) + 32) as char
    } else {
        c
    }
}

/// The name ends in the extension, whatever the case of its Latin letters.
pub open spec fn ends_fold(name: Seq<char>, ext: Seq<char>) -> bool {
    &&& name.len() >= ext.len()
    &&& forall|k: int|
        0 <= k < ext.len() ==> ascii_lower(#[trigger] name[name.len() - ext.len() + k]) == ext[k]
}

/// The kind whose name is `s`.
pub open spec fn named(s: Seq<char>) -> Option<ContentType> {
    if s == "plain"@ {
        Some(ContentType::Plain)
    } else if s == "markdown"@ {
        Some(ContentType::Markdown)
    } else if s == "markdown-scan-code"@ {
        Some(ContentType::MarkdownScanCode)
    } else if s == "yaml"@ {
        Some(ContentType::Yaml)
    } else {
        None
    }
}

fn lower(c: char) -> (r: char)
    ensures
        r == ascii_lower(c),
{
    if 'A' <= c && c <= 'Z' {
        ((c as u8) + 32) as char
    } else {
        c
    }
}

fn ends_with_fold(name: &Text<'_>, ext: &Text<'_>) -> (r: bool)
    requires
        name.wf(),
        ext.wf(),
    ensures
        r == ends_fold(name@, ext@),
{
    let n: usize = name.len();
    let m: usize = ext.len();
    if n < m {
        return false;
    }
    let mut k: usize = 0;
    while k < m
        invariant
            name.wf(),
            ext.wf(),
            n == name@.len(),
            m == ext@.len(),
            m <= n,
            k <= m,
            forall|j: int|
                0 <= j < k ==> ascii_lower(#[trigger] name@[n - m + j]) == ext@[j],
        decreases m - k,
    {
        if lower(name.ch(n - m + k)) != ext.ch(k) {
            assert(ascii_lower(name@[n - m + k]) != ext@[k as int]);
            return false;
        }
        k = k + 1;
    }
    true
}

impl ContentType {
    pub open spec fn label(self) -> Seq<char> {
        match self {
            ContentType::Plain => "plain"@,
            ContentType::Markdown => "markdown"@,
            ContentType::MarkdownScanCode => "markdown-scan-code"@,
            ContentType::Yaml => "yaml"@,
        }
    }

    /// The kind's name.
    pub fn name(self) -> (r: &'static str)
        ensures
            r@ == self.label(),
    {
        match self {
            ContentType::Plain => "plain",
            ContentType::Markdown => "markdown",
            ContentType::MarkdownScanCode => "markdown-scan-code",
            ContentType::Yaml => "yaml",
        }
    }

    /// The kind with a name.
    pub fn from_name(name: &str) -> (r: Option<Self>)
        ensures
            r == named(name@),
    {
        if same(name, "plain") {
            Some(ContentType::Plain)
        } else if same(name, "markdown") {
            Some(ContentType::Markdown)
        } else if same(name, "markdown-scan-code") {
            Some(ContentType::MarkdownScanCode)
        } else if same(name, "yaml") {
            Some(ContentType::Yaml)
        } else {
            None
        }
    }

    /// The kind that a file's name suggests.
    pub fn from_file_name(name: &str) -> (r: Self)
        ensures
            r == (if ends_fold(name@, ".md"@) || ends_fold(name@, ".markdown"@) {
                ContentType::Markdown
            } else if ends_fold(name@, ".yml"@) || ends_fold(name@, ".yaml"@) {
                ContentType::Yaml
            } else {
                ContentType::Plain
            }),
    {
        let t = Text::new(name);
        if ends_with_fold(&t, &Text::new(".md")) || ends_with_fold(&t, &Text::new(".markdown")) {
            ContentType::Markdown
        } else if ends_with_fold(&t, &Text::new(".yml")) || ends_with_fold(&t, &Text::new(".yaml")) {
            ContentType::Yaml
        } else {
            ContentType::Plain
        }
    }

    pub open spec fn hashes(self) -> bool {
        self is Plain || self is Yaml
    }

    /// Whether `#` begins a comment in such a document. In Markdown it begins
    /// a heading.
    pub fn hash_comments(self) -> (r: bool)
        ensures
            r == self.hashes(),
    {
        match self {
            ContentType::Markdown => false,
            ContentType::MarkdownScanCode => false,
            _ => true,
        }
    }

    pub open spec fn markdown(self) -> bool {
        self is Markdown || self is MarkdownScanCode
    }

    /// Whether the document is Markdown, with or without its code blocks.
    pub fn is_markdown(self) -> (r: bool)
        ensures
            r == self.markdown(),
    {
        match self {
            ContentType::Markdown => true,
            ContentType::MarkdownScanCode => true,
            _ => false,
        }
    }
}

/// A kind's name names that kind, and no other word does.
pub proof fn law_names_are_inverse(ct: ContentType, s: Seq<char>)
    ensures
        named(ct.label()) == Some(ct),
        named(s) == Some(ct) ==> s == ct.label(),
{
    reveal_strlit("plain");
    reveal_strlit("markdown");
    reveal_strlit("markdown-scan-code");
    reveal_strlit("yaml");
    assert("plain"@.len() == 5);
    assert("markdown"@.len() == 8);
    assert("markdown-scan-code"@.len() == 18);
    assert("yaml"@.len() == 4);
}

/// What Markdown structure is scanned.
#[derive(Clone, Copy, Debug, PartialEq, Eq, Structural)]
pub struct MdScanOptions {
    pub scan_code_blocks: bool,
    pub exempt_blockquotes: bool,
}

impl MdScanOptions {
    pub fn new(scan_code_blocks: bool, exempt_blockquotes: bool) -> (r: Self)
        ensures
            r.scan_code_blocks == scan_code_blocks,
            r.exempt_blockquotes == exempt_blockquotes,
    {
        MdScanOptions { scan_code_blocks, exempt_blockquotes }
    }
}

impl Default for MdScanOptions {
    fn default() -> (r: Self)
        ensures
            !r.scan_code_blocks,
            !r.exempt_blockquotes,
    {
        MdScanOptions::new(false, false)
    }
}

/// The ranges of a document that a scan may have to leave alone, by kind.
pub struct DocumentRanges {
    /// Addresses, paths and mentions.
    pub patterns: Vec<ByteRange>,
    /// Fenced and indented code of a Markdown document.
    pub code_blocks: Vec<ByteRange>,
    /// Inline code and HTML of a Markdown document.
    pub inline_markup: Vec<ByteRange>,
    /// Blockquotes of a Markdown document.
    pub blockquotes: Vec<ByteRange>,
    /// Keys of a YAML document.
    pub yaml_keys: Vec<ByteRange>,
    /// What suppression markers hide where `#` begins no comment.
    pub suppressed: Vec<ByteRange>,
    /// What suppression markers hide where `#` begins a comment.
    pub suppressed_by_hash: Vec<ByteRange>,
}

/// The byte belongs to structure that a scan of such a document leaves alone.
pub open spec fn structural_byte(
    found: &DocumentRanges,
    ct: ContentType,
    opts: MdScanOptions,
    b: int,
) -> bool {
    match ct {
        ContentType::Plain => false,
        ContentType::Yaml => covers(found.yaml_keys@, b),
        _ => {
            ||| covers(found.inline_markup@, b)
            ||| (ct is Markdown && !opts.scan_code_blocks && covers(found.code_blocks@, b))
            ||| (opts.exempt_blockquotes && covers(found.blockquotes@, b))
        },
    }
}

/// The byte is left alone by a scan of such a document.
pub open spec fn excluded_byte(
    found: &DocumentRanges,
    ct: ContentType,
    opts: MdScanOptions,
    b: int,
) -> bool {
    ||| covers(found.patterns@, b)
    ||| structural_byte(found, ct, opts, b)
    ||| covers(
        if ct.hashes() {
            found.suppressed_by_hash@
        } else {
            found.suppressed@
        },
        b,
    )
}

/// Adds the ranges of a list to another.
fn add_all(to: &mut Vec<ByteRange>, from: &[ByteRange])
    ensures
        forall|b: int| #[trigger]
            covers(final(to)@, b) == (covers(old(to)@, b) || covers(from@, b)),
{
    let ghost before = to@;
    let mut k: usize = 0;
    while k < from.len()
        invariant
            k <= from@.len(),
            to@ == before + from@.subrange(0, k as int),
        decreases from@.len() - k,
    {
        to.push(from[k]);
        k = k + 1;
        assert(to@ =~= before + from@.subrange(0, k as int));
    }
    assert(to@ =~= before + from@);
    proof {
        lemma_cover_sum(before, from@);
    }
}

proof fn lemma_cover_sum(x: Seq<ByteRange>, y: Seq<ByteRange>)
    ensures
        forall|b: int| #[trigger] covers(x + y, b) == (covers(x, b) || covers(y, b)),
{
    assert forall|b: int| #[trigger] covers(x + y, b) == (covers(x, b) || covers(y, b)) by {
        if covers(x + y, b) {
            let k = choose|k: int| 0 <= k < (x + y).len() && #[trigger] holds((x + y)[k], b);
            if k < x.len() {
                assert(holds(x[k], b));
            } else {
                assert(holds(y[k - x.len()], b));
            }
        }
        if covers(x, b) {
            let k = choose|k: int| 0 <= k < x.len() && #[trigger] holds(x[k], b);
            assert(holds((x + y)[k], b));
        }
        if covers(y, b) {
            let k = choose|k: int| 0 <= k < y.len() && #[trigger] holds(y[k], b);
            assert(holds((x + y)[x.len() + k], b));
        }
    }
}

/// The ranges that a scan leaves alone in a document of the kind.
pub fn build_exclusions_for_content_type(found: &DocumentRanges, content_type: ContentType) -> (r:
    Vec<ByteRange>)
    ensures
        separate(r@),
        forall|b: int| #[trigger]
            covers(r@, b) == excluded_byte(
                found,
                content_type,
                MdScanOptions { scan_code_blocks: false, exempt_blockquotes: false },
                b,
            ),
{
    build_exclusions_for_content_type_with_options(found, content_type, MdScanOptions::default())
}

/// As [`build_exclusions_for_content_type`], with options for Markdown. A
/// document whose code blocks are scanned by its kind has them scanned
/// whatever the options say.
pub fn build_exclusions_for_content_type_with_options(
    found: &DocumentRanges,
    content_type: ContentType,
    md_opts: MdScanOptions,
) -> (r: Vec<ByteRange>)
    ensures
        separate(r@),
        forall|b: int| #[trigger]
            covers(r@, b) == excluded_byte(found, content_type, md_opts, b),
{
    let mut all: Vec<ByteRange> = Vec::new();
    proof {
        assert forall|b: int| !#[trigger] covers(all@, b) by {}
    }
    add_all(&mut all, found.patterns.as_slice());
    match content_type {
        ContentType::Plain => {},
        ContentType::Yaml => {
            add_all(&mut all, found.yaml_keys.as_slice());
        },
        ContentType::Markdown => {
            add_all(&mut all, found.inline_markup.as_slice());
            if !md_opts.scan_code_blocks {
                add_all(&mut all, found.code_blocks.as_slice());
            }
            if md_opts.exempt_blockquotes {
                add_all(&mut all, found.blockquotes.as_slice());
            }
        },
        ContentType::MarkdownScanCode => {
            add_all(&mut all, found.inline_markup.as_slice());
            if md_opts.exempt_blockquotes {
                add_all(&mut all, found.blockquotes.as_slice());
            }
        },
    }
    if content_type.hash_comments() {
        add_all(&mut all, found.suppressed_by_hash.as_slice());
    } else {
        add_all(&mut all, found.suppressed.as_slice());
    }
    let r = merge_ranges(&all);
    proof {
        assert forall|b: int| #[trigger]
            covers(r@, b) == excluded_byte(found, content_type, md_opts, b) by {
            assert(covers(r@, b) == covers(all@, b));
        }
    }
    r
}

/// The options that a kind of document and a profile imply.
pub open spec fn options_for(ct: ContentType, cfg: ProfileConfig) -> MdScanOptions {
    MdScanOptions {
        scan_code_blocks: ct is MarkdownScanCode,
        exempt_blockquotes: cfg.exempt_blockquotes,
    }
}

pub fn md_scan_options(content_type: ContentType, cfg: &ProfileConfig) -> (r: MdScanOptions)
    ensures
        r == options_for(content_type, *cfg),
{
    let scan_code: bool = match content_type {
        ContentType::MarkdownScanCode => true,
        _ => false,
    };
    MdScanOptions::new(scan_code, cfg.exempt_blockquotes)
}

/// As [`build_exclusions_for_content_type`], with the options that the profile
/// implies.
pub fn build_exclusions_for_content_type_with_config(
    found: &DocumentRanges,
    content_type: ContentType,
    cfg: &ProfileConfig,
) -> (r: Vec<ByteRange>)
    ensures
        separate(r@),
        forall|b: int| #[trigger]
            covers(r@, b) == excluded_byte(
                found,
                content_type,
                options_for(content_type, *cfg),
                b,
            ),
{
    build_exclusions_for_content_type_with_options(
        found,
        content_type,
        md_scan_options(content_type, cfg),
    )
}

/// Scanning the code blocks of a Markdown document leaves nothing alone that
/// would be scanned otherwise.
pub proof fn law_scanning_code_excludes_no_more(
    found: &DocumentRanges,
    opts: MdScanOptions,
    b: int,
)
    requires
        excluded_byte(found, ContentType::MarkdownScanCode, opts, b),
    ensures
        excluded_byte(found, ContentType::Markdown, opts, b),
{
}

/// Exempting the blockquotes leaves at least as much alone.
pub proof fn law_exempting_quotes_excludes_no_less(
    found: &DocumentRanges,
    ct: ContentType,
    scan_code_blocks: bool,
    b: int,
)
    requires
        excluded_byte(
            found,
            ct,
            MdScanOptions { scan_code_blocks, exempt_blockquotes: false },
            b,
        ),
    ensures
        excluded_byte(
            found,
            ct,
            MdScanOptions { scan_code_blocks, exempt_blockquotes: true },
            b,
        ),
{
}

/// Adds the ranges that the caller knows of, cut off at the end of the text.
/// One that is empty, the wrong way round or behind the end adds nothing.
pub fn with_caller_ranges(excluded: Vec<ByteRange>, caller: &[ByteRange], len: usize) -> (r: Vec<
    ByteRange,
>)
    ensures
        separate(r@),
        forall|b: int| #[trigger]
            covers(r@, b) == (covers(excluded@, b) || (b < len && covers(caller@, b))),
{
    let mut cut: Vec<ByteRange> = Vec::new();
    let mut k: usize = 0;
    while k < caller.len()
        invariant
            k <= caller@.len(),
            cut@.len() == k,
            forall|j: int|
                0 <= j < k ==> (#[trigger] cut@[j]).start == caller@[j].start && cut@[j].end == (
                if caller@[j].end <= len {
                    caller@[j].end
                } else {
                    len
                }),
        decreases caller@.len() - k,
    {
        let end: usize = if caller[k].end <= len {
            caller[k].end
        } else {
            len
        };
        cut.push(ByteRange { start: caller[k].start, end });
        k = k + 1;
    }
    let mut all = excluded;
    add_all(&mut all, cut.as_slice());
    let r = merge_ranges(&all);
    proof {
        assert forall|b: int| #[trigger]
            covers(r@, b) == (covers(excluded@, b) || (b < len && covers(caller@, b))) by {
            assert(covers(r@, b) == covers(all@, b));
            if covers(cut@, b) {
                let j = choose|j: int| 0 <= j < cut@.len() && #[trigger] holds(cut@[j], b);
                assert(holds(caller@[j], b));
            }
            if b < len && covers(caller@, b) {
                let j = choose|j: int| 0 <= j < caller@.len() && #[trigger] holds(caller@[j], b);
                assert(holds(cut@[j], b));
            }
        }
    }
    r
}

} // verus!
