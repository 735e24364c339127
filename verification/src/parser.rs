//! Parsing of embedded metadata (dependencies, features, edition) from script files.
//!
//! Five metadata formats are recognised, tried in this order:
//! 1. a cargo-script code block (`//! ```cargo ... ````),
//! 2. a block comment (`/* ... */`) right after the shebang,
//! 3. a cargo-script short comment (`// cargo-deps: name="version", ...`),
//! 4. cargo-play lines (`//# crate = "version"`),
//! 5. consecutive `//!` line comments.
//!
//! Each yields a TOML fragment with sections `[dependencies]`, `[features]` and
//! an `edition` key.  The raw text of the dependencies is kept exactly as written.
use crate::text::{
    all_ws, chars_of, find, find_exec, find_from, has_char, join, join_exec, lines,
    lines_exec, next_char, next_char_exec, push_all, push_str, seqs_of, slice_exec, split,
    split_exec, split_once, starts_with, starts_with_exec, ends_with, ends_with_exec, string_of,
    trim, trim_exec, trim_start, trim_start_exec,
};
use crate::text::opt_string_view;
use crate::toml_doc::{
    features_view, read_toml_fields, toml_entry_rendering, toml_parse_error, toml_string_entry,
    FeaturesField, TomlFields,
};
use vstd::prelude::*;

verus! {

// ───────────────────────────── result types ─────────────────────────────

/// Metadata extracted from a script's embedded TOML block.
#[derive(Debug, Clone, PartialEq, Eq)]
pub struct ScriptMeta {
    /// Raw text of the `[dependencies]` section (including header and any subtables).
    pub dependencies: String,
    /// The `[features]` section, serialised back to TOML.
    pub features: String,
    /// Rust edition (e.g. `"2024"`).
    pub edition: String,
}

/// The mathematical value of a [`ScriptMeta`].
pub struct MetaModel {
    pub dependencies: Seq<char>,
    pub features: Seq<char>,
    pub edition: Seq<char>,
}

impl View for ScriptMeta {
    type V = MetaModel;

    open spec fn view(&self) -> MetaModel {
        MetaModel {
            dependencies: self.dependencies@,
            features: self.features@,
            edition: self.edition@,
        }
    }
}

impl Default for ScriptMeta {
    fn default() -> (m: Self)
        ensures
            m.dependencies@ == Seq::<char>::empty(),
            m.features@ == Seq::<char>::empty(),
            m.edition@ == Seq::<char>::empty(),
    {
        ScriptMeta { dependencies: String::new(), features: String::new(), edition: String::new() }
    }
}

/// Why a script's metadata was refused.
#[derive(Debug, Clone, PartialEq, Eq)]
pub enum MetaError {
    /// A `/*` metadata block without a closing `*/`.
    UnclosedBlock,
    /// The fragment is not valid TOML; the parser's message and the fragment.
    InvalidToml { detail: String, fragment: String },
    /// An `edition` other than 2015, 2018, 2021 or 2024.
    UnsupportedEdition(String),
    /// The `features` value could not be serialised back; the serialiser's message.
    FeaturesNotSerializable(String),
}

/// The mathematical value of a [`MetaError`].
pub enum MetaFailure {
    UnclosedBlock,
    InvalidToml { detail: Seq<char>, fragment: Seq<char> },
    UnsupportedEdition(Seq<char>),
    FeaturesNotSerializable(Seq<char>),
}

impl View for MetaError {
    type V = MetaFailure;

    open spec fn view(&self) -> MetaFailure {
        match self {
            MetaError::UnclosedBlock => MetaFailure::UnclosedBlock,
            MetaError::InvalidToml { detail, fragment } => MetaFailure::InvalidToml {
                detail: detail@,
                fragment: fragment@,
            },
            MetaError::UnsupportedEdition(e) => MetaFailure::UnsupportedEdition(e@),
            MetaError::FeaturesNotSerializable(m) => MetaFailure::FeaturesNotSerializable(m@),
        }
    }
}

pub open spec fn result_view(r: Result<ScriptMeta, MetaError>) -> Result<MetaModel, MetaFailure> {
    match r {
        Ok(m) => Ok(m@),
        Err(e) => Err(e@),
    }
}

/// The metadata of a script that declares none: edition 2024, nothing else.
pub open spec fn default_meta() -> MetaModel {
    MetaModel { dependencies: seq![], features: seq![], edition: "2024"@ }
}

pub open spec fn valid_edition(e: Seq<char>) -> bool {
    e == "2015"@ || e == "2018"@ || e == "2021"@ || e == "2024"@
}

// ───────────────────────────── shebang ─────────────────────────────

/// A script whose first line is a shebang line: it starts with `#!` but not
/// with `#![`, which opens an inner attribute.
pub open spec fn has_shebang_line(s: Seq<char>) -> bool {
    starts_with(s, "#!"@) && !starts_with(s, "#!["@)
}

/// The text without a leading shebang line (the whole text is dropped when
/// the shebang line has no newline).
pub open spec fn spec_strip_shebang(s: Seq<char>) -> Seq<char> {
    if has_shebang_line(s) {
        let p = next_char(s, '\n', 0);
        if p < s.len() {
            s.skip(p + 1)
        } else {
            seq![]
        }
    } else {
        s
    }
}

/// Whether the text starts with a shebang line (see [`has_shebang_line`]).
pub fn has_shebang_line_exec(s: &Vec<char>) -> (b: bool)
    ensures
        b == has_shebang_line(s@),
{
    let bang = chars_of("#!");
    let attr = chars_of("#![");
    starts_with_exec(s, &bang) && !starts_with_exec(s, &attr)
}

fn strip_shebang_chars(s: &Vec<char>) -> (r: Vec<char>)
    ensures
        r@ == spec_strip_shebang(s@),
{
    if has_shebang_line_exec(s) {
        let p = next_char_exec(s, '\n', 0);
        if p < s.len() {
            let r = slice_exec(s, p + 1, s.len());
            assert(r@ =~= s@.skip(p + 1));
            r
        } else {
            Vec::new()
        }
    } else {
        slice_exec(s, 0, s.len())
    }
}

/// Removes a shebang (`#!`) line from the beginning of a script, if present;
/// an inner attribute (`#![...]`) on the first line is kept.
pub fn strip_shebang(s: &str) -> (r: String)
    ensures
        r@ == spec_strip_shebang(s@),
{
    let v = chars_of(s);
    let r = strip_shebang_chars(&v);
    assert(v@.subrange(0, v@.len() as int) =~= v@);
    string_of(&r)
}

// ───────────────────────────── TOML comments ─────────────────────────────

/// `//` comments of `s[i..]` turned into `#` comments, outside string
/// literals; `in_str` tells whether `s[i]` lies inside a string literal.
pub open spec fn comments_replaced_from(s: Seq<char>, i: int, in_str: bool) -> Seq<char>
    decreases s.len() - i,
{
    if i < 0 || i >= s.len() {
        seq![]
    } else if s[i] == '"' {
        seq!['"'] + comments_replaced_from(s, i + 1, !in_str)
    } else if !in_str && s[i] == '/' && i + 1 < s.len() && s[i + 1] == '/' {
        seq!['#'] + comments_replaced_from(s, i + 2, in_str)
    } else {
        seq![s[i]] + comments_replaced_from(s, i + 1, in_str)
    }
}

/// Replaces `//` comments with `#` for TOML parsing (only outside string literals).
pub open spec fn spec_replace_comments(s: Seq<char>) -> Seq<char> {
    comments_replaced_from(s, 0, false)
}

fn replace_comments_chars(s: &Vec<char>) -> (r: Vec<char>)
    ensures
        r@ == spec_replace_comments(s@),
{
    let mut out: Vec<char> = Vec::new();
    let mut in_str = false;
    let mut i: usize = 0;
    while i < s.len()
        invariant
            i <= s.len(),
            spec_replace_comments(s@) == out@ + comments_replaced_from(s@, i as int, in_str),
        decreases s.len() - i,
    {
        let c = s[i];
        let ghost prev = out@;
        let ghost old_i = i as int;
        let ghost old_in = in_str;
        if c == '"' {
            in_str = !in_str;
            out.push(c);
            i = i + 1;
        } else if !in_str && c == '/' && i + 1 < s.len() && s[i + 1] == '/' {
            out.push('#');
            i = i + 2;
        } else {
            out.push(c);
            i = i + 1;
        }
        assert(comments_replaced_from(s@, old_i, old_in) == seq![out@.last()]
            + comments_replaced_from(s@, i as int, in_str));
        assert(out@ =~= prev + seq![out@.last()]);
        assert(prev + (seq![out@.last()] + comments_replaced_from(s@, i as int, in_str)) =~= out@
            + comments_replaced_from(s@, i as int, in_str));
    }
    out
}

/// Replaces `//` comments with `#` for TOML parsing (only outside string literals).
pub fn replace_comments(s: &str) -> (r: String)
    ensures
        r@ == spec_replace_comments(s@),
{
    let v = chars_of(s);
    let r = replace_comments_chars(&v);
    string_of(&r)
}


// ───────────────────────────── dependencies text ─────────────────────────────

/// A `[dependencies]` or `[dependencies.*]` header line (already trimmed).
pub open spec fn is_deps_header(t: Seq<char>) -> bool {
    starts_with(t, "[dependencies"@) && ends_with(t, "]"@)
}

/// A header of another top-level section (already trimmed).
pub open spec fn ends_deps_section(t: Seq<char>) -> bool {
    starts_with(t, "["@) && !starts_with(t, "[dependencies"@)
}

/// The lines of `ls[i..]` that belong to the `[dependencies]` tree: from the
/// first dependencies header up to the next other top-level section.
pub open spec fn deps_lines_from(ls: Seq<Seq<char>>, i: int, in_deps: bool) -> Seq<Seq<char>>
    decreases ls.len() - i,
{
    if i < 0 || i >= ls.len() {
        seq![]
    } else {
        let t = trim(ls[i]);
        if is_deps_header(t) {
            seq![ls[i]] + deps_lines_from(ls, i + 1, true)
        } else if in_deps {
            if ends_deps_section(t) {
                seq![]
            } else {
                seq![ls[i]] + deps_lines_from(ls, i + 1, true)
            }
        } else {
            deps_lines_from(ls, i + 1, false)
        }
    }
}

/// The raw text of the `[dependencies]` section of a TOML fragment (including
/// any subtables), lines joined with `\n`, as written.
pub open spec fn spec_dependencies_text(fragment: Seq<char>) -> Seq<char> {
    join(deps_lines_from(lines(fragment), 0, false), "\n"@)
}

fn dependencies_text_chars(fragment: &Vec<char>) -> (r: Vec<char>)
    ensures
        r@ == spec_dependencies_text(fragment@),
{
    let ls = lines_exec(fragment);
    let header = chars_of("[dependencies");
    let close = chars_of("]");
    let open = chars_of("[");
    let mut kept: Vec<Vec<char>> = Vec::new();
    let mut in_deps = false;
    let mut i: usize = 0;
    let ghost all = seqs_of(ls@);
    while i < ls.len()
        invariant
            i <= ls.len(),
            all == seqs_of(ls@),
            all.len() == ls.len(),
            header@ == "[dependencies"@,
            close@ == "]"@,
            open@ == "["@,
            deps_lines_from(all, 0, false) == seqs_of(kept@) + deps_lines_from(all, i as int, in_deps),
        ensures
            deps_lines_from(all, 0, false) == seqs_of(kept@),
        decreases ls.len() - i,
    {
        let t = trim_exec(&ls[i]);
        assert(all[i as int] == ls@[i as int]@);
        let ghost prev = seqs_of(kept@);
        if starts_with_exec(&t, &header) && ends_with_exec(&t, &close) {
            kept.push(slice_exec(&ls[i], 0, ls[i].len()));
            assert(ls@[i as int]@.subrange(0, ls@[i as int]@.len() as int) =~= ls@[i as int]@);
            assert(seqs_of(kept@) =~= prev.push(all[i as int]));
            in_deps = true;
        } else if in_deps {
            if starts_with_exec(&t, &open) && !starts_with_exec(&t, &header) {
                assert(deps_lines_from(all, 0, false) =~= seqs_of(kept@));
                break;
            }
            kept.push(slice_exec(&ls[i], 0, ls[i].len()));
            assert(ls@[i as int]@.subrange(0, ls@[i as int]@.len() as int) =~= ls@[i as int]@);
            assert(seqs_of(kept@) =~= prev.push(all[i as int]));
        }
        i = i + 1;
        assert(deps_lines_from(all, 0, false) =~= seqs_of(kept@) + deps_lines_from(
            all,
            i as int,
            in_deps,
        ));
        if i == ls.len() {
            assert(deps_lines_from(all, 0, false) =~= seqs_of(kept@));
        }
    }
    let nl = chars_of("\n");
    join_exec(&kept, &nl)
}

/// Extracts the raw text of the `[dependencies]` section (including any subtables).
///
/// Lines are collected from the first `[dependencies]` or `[dependencies.*]`
/// header until the next top-level section; indentation and line breaks are kept.
pub fn extract_dependencies_text(fragment: &str) -> (r: String)
    ensures
        r@ == spec_dependencies_text(fragment@),
{
    let v = chars_of(fragment);
    let r = dependencies_text_chars(&v);
    string_of(&r)
}

// ───────────────────────────── TOML fragments ─────────────────────────────

/// The metadata described by a (trimmed, non-empty) fragment, given what the
/// TOML reader made of it: its parse error, if any, its `edition` string and
/// its rendered `features`.
pub open spec fn meta_from_fields(
    fragment: Seq<char>,
    parse_error: Option<Seq<char>>,
    edition: Option<Seq<char>>,
    features: Option<Result<Seq<char>, Seq<char>>>,
) -> Result<MetaModel, MetaFailure> {
    if parse_error is Some {
        Err(MetaFailure::InvalidToml { detail: parse_error->0, fragment })
    } else if edition is Some && !valid_edition(edition->0) {
        Err(MetaFailure::UnsupportedEdition(edition->0))
    } else if features is Some && features->0 is Err {
        Err(MetaFailure::FeaturesNotSerializable(features->0->Err_0))
    } else {
        Ok(
            MetaModel {
                dependencies: spec_dependencies_text(fragment),
                features: match features {
                    Some(Ok(t)) => t,
                    _ => seq![],
                },
                edition: match edition {
                    Some(e) => e,
                    None => "2024"@,
                },
            },
        )
    }
}

/// The metadata described by a TOML fragment.
pub open spec fn fragment_meta(fragment: Seq<char>) -> Result<MetaModel, MetaFailure> {
    let f = trim(fragment);
    if f.len() == 0 {
        Ok(default_meta())
    } else {
        let cleaned = spec_replace_comments(f);
        meta_from_fields(
            f,
            toml_parse_error(cleaned),
            toml_string_entry(cleaned, "edition"@),
            toml_entry_rendering(cleaned, "features"@),
        )
    }
}

fn default_script_meta() -> (m: ScriptMeta)
    ensures
        m@ == default_meta(),
{
    ScriptMeta { dependencies: String::new(), features: String::new(), edition: "2024".to_string() }
}

fn is_valid_edition(e: &str) -> (b: bool)
    ensures
        b == valid_edition(e@),
{
    let v = chars_of(e);
    let a = chars_of("2015");
    let b = chars_of("2018");
    let c = chars_of("2021");
    let d = chars_of("2024");
    let r = (starts_with_exec(&v, &a) && v.len() == a.len()) || (starts_with_exec(&v, &b) && v.len()
        == b.len()) || (starts_with_exec(&v, &c) && v.len() == c.len()) || (starts_with_exec(&v, &d)
        && v.len() == d.len());
    proof {
        assert(v@.take(v@.len() as int) =~= v@);
    }
    r
}

/// Builds the metadata of a trimmed, non-empty TOML `fragment` from what the
/// TOML reader returned for it (see [`fragment_meta`]).
pub fn meta_from_toml(fragment: &str, fields: Result<TomlFields, String>) -> (r: Result<
    ScriptMeta,
    MetaError,
>)
    ensures
        result_view(r) == meta_from_fields(
            fragment@,
            match fields {
                Ok(_) => None,
                Err(d) => Some(d@),
            },
            match fields {
                Ok(f) => opt_string_view(f.edition),
                Err(_) => None,
            },
            match fields {
                Ok(f) => features_view(f.features),
                Err(_) => None,
            },
        ),
{
    match fields {
        Err(detail) => Err(MetaError::InvalidToml { detail, fragment: fragment.to_string() }),
        Ok(f) => {
            let edition = match f.edition {
                Some(e) => {
                    if !is_valid_edition(e.as_str()) {
                        return Err(MetaError::UnsupportedEdition(e));
                    }
                    e
                },
                None => "2024".to_string(),
            };
            let features = match f.features {
                FeaturesField::Absent => String::new(),
                FeaturesField::Rendered(t) => t,
                FeaturesField::Unrenderable(msg) => {
                    return Err(MetaError::FeaturesNotSerializable(msg));
                },
            };
            let dependencies = extract_dependencies_text(fragment);
            Ok(ScriptMeta { dependencies, features, edition })
        },
    }
}

/// Parses a TOML fragment and extracts edition, features and the raw dependencies text.
fn parse_toml_fragment(fragment: &Vec<char>) -> (r: Result<ScriptMeta, MetaError>)
    ensures
        result_view(r) == fragment_meta(fragment@),
{
    let f = trim_exec(fragment);
    if f.len() == 0 {
        return Ok(default_script_meta());
    }
    let cleaned = replace_comments_chars(&f);
    let cleaned_text = string_of(&cleaned);
    let fields = read_toml_fields(cleaned_text.as_str(), "edition", "features");
    let f_text = string_of(&f);
    meta_from_toml(f_text.as_str(), fields)
}


// ───────────────────────────── format 1: cargo-script code block ─────────────────────────────

/// A line of a `//!` doc block without its indentation and `//!` marker.
pub open spec fn doc_line_body(l: Seq<char>) -> Seq<char> {
    let t = trim_start(l);
    if starts_with(t, "//!"@) {
        trim_start(t.skip("//!"@.len() as int))
    } else {
        t
    }
}

/// The fragment of a cargo-script code block (`//! ```cargo` ... ```` ``` ````):
/// the text between the opening marker and the next fence, line by line
/// without the `//!` markers.
pub open spec fn cargo_block_fragment(src: Seq<char>) -> Option<Seq<char>> {
    match find(src, "//! ```cargo"@) {
        None => None,
        Some(start) => {
            let a = start + "//! ```cargo"@.len();
            match find_from(src, "```"@, a) {
                None => None,
                Some(e) => Some(
                    join(lines(src.subrange(a, e)).map_values(|l: Seq<char>| doc_line_body(l)), "\n"@),
                ),
            }
        }
    }
}

fn doc_line_body_exec(l: &Vec<char>) -> (r: Vec<char>)
    ensures
        r@ == doc_line_body(l@),
{
    let t = trim_start_exec(l);
    let marker = chars_of("//!");
    if starts_with_exec(&t, &marker) {
        let rest = slice_exec(&t, marker.len(), t.len());
        assert(rest@ =~= t@.skip(marker@.len() as int));
        trim_start_exec(&rest)
    } else {
        t
    }
}

fn cargo_block_fragment_exec(src: &Vec<char>) -> (r: Option<Vec<char>>)
    ensures
        match r {
            Some(f) => cargo_block_fragment(src@) == Some(f@),
            None => cargo_block_fragment(src@) is None,
        },
{
    let open = chars_of("//! ```cargo");
    let fence = chars_of("```");
    match find_exec(src, &open, 0) {
        None => None,
        Some(start) => {
            proof {
                crate::text::lemma_find_from(src@, open@, 0);
            }
            assert(crate::text::occurs_at(src@, open@, start as int));
            let src_len = src.len();
            assert(start + open@.len() <= src_len);
            let a = start + open.len();
            match find_exec(src, &fence, a) {
                None => None,
                Some(e) => {
                    proof {
                        crate::text::lemma_find_from(src@, fence@, a as int);
                    }
                    let block = slice_exec(src, a, e);
                    let ls = lines_exec(&block);
                    let mut bodies: Vec<Vec<char>> = Vec::new();
                    let mut i: usize = 0;
                    let ghost all = seqs_of(ls@);
                    while i < ls.len()
                        invariant
                            i <= ls.len(),
                            all == seqs_of(ls@),
                            seqs_of(bodies@) == all.take(i as int).map_values(
                                |l: Seq<char>| doc_line_body(l),
                            ),
                        decreases ls.len() - i,
                    {
                        assert(all[i as int] == ls@[i as int]@);
                        let body = doc_line_body_exec(&ls[i]);
                        let ghost prev = seqs_of(bodies@);
                        bodies.push(body);
                        assert(seqs_of(bodies@) =~= prev.push(doc_line_body(all[i as int])));
                        assert(all.take(i + 1) =~= all.take(i as int).push(all[i as int]));
                        i = i + 1;
                        assert(seqs_of(bodies@) =~= all.take(i as int).map_values(
                            |l: Seq<char>| doc_line_body(l),
                        ));
                    }
                    assert(all.take(ls.len() as int) =~= all);
                    let nl = chars_of("\n");
                    Some(join_exec(&bodies, &nl))
                },
            }
        },
    }
}

// ───────────────────────────── format 2: block comment ─────────────────────────────

/// What the block-comment reader finds in a script (shebang removed).
pub enum BlockScan {
    /// No `/*` block right at the start.
    Absent,
    /// A `/*` block without `*/`.
    Unclosed,
    /// The text between `/*` (or `/*!`, `/**`) and `*/`.
    Inner(Seq<char>),
    /// A block that closes inside its own opening (`/*/`, `/**/`): the reader
    /// panics.
    Malformed,
}

/// The block comment at the start of `src`: the text between `/*` and the
/// first `*/` after it, without a third character `!` or `*` that marks a
/// documentation block.
pub open spec fn block_comment_scan(src: Seq<char>) -> BlockScan {
    match find(src, "/*"@) {
        None => BlockScan::Absent,
        Some(start) => if !all_ws(src.take(start)) {
            BlockScan::Absent
        } else {
            match find_from(src, "*/"@, start) {
                None => BlockScan::Unclosed,
                Some(end) => {
                    let third = if start + 2 < src.len() {
                        src[start + 2]
                    } else {
                        ' '
                    };
                    if third == '!' || third == '*' {
                        if end >= start + 3 {
                            BlockScan::Inner(src.subrange(start + 3, end))
                        } else {
                            BlockScan::Malformed
                        }
                    } else {
                        if end >= start + 2 {
                            BlockScan::Inner(src.subrange(start + 2, end))
                        } else {
                            BlockScan::Malformed
                        }
                    }
                },
            }
        },
    }
}

enum BlockFound {
    Absent,
    Unclosed,
    Inner(Vec<char>),
    Malformed,
}

fn block_comment_exec(src: &Vec<char>) -> (r: BlockFound)
    ensures
        match (r, block_comment_scan(src@)) {
            (BlockFound::Absent, BlockScan::Absent) => true,
            (BlockFound::Unclosed, BlockScan::Unclosed) => true,
            (BlockFound::Inner(v), BlockScan::Inner(t)) => v@ == t,
            (BlockFound::Malformed, BlockScan::Malformed) => true,
            _ => false,
        },
{
    let open = chars_of("/*");
    let close = chars_of("*/");
    proof {
        reveal_strlit("/*");
        reveal_strlit("*/");
    }
    let start = match find_exec(src, &open, 0) {
        None => return BlockFound::Absent,
        Some(p) => p,
    };
    proof {
        crate::text::lemma_find_from(src@, open@, 0);
    }
    if !crate::text::all_ws_prefix_exec(src, start) {
        return BlockFound::Absent;
    }
    let end = match find_exec(src, &close, start) {
        None => return BlockFound::Unclosed,
        Some(p) => p,
    };
    proof {
        crate::text::lemma_find_from(src@, close@, start as int);
    }
    assert(crate::text::occurs_at(src@, open@, start as int));
    let third = if src.len() - start > 2 {
        src[start + 2]
    } else {
        ' '
    };
    if third == '!' || third == '*' {
        if end - start >= 3 {
            BlockFound::Inner(slice_exec(src, start + 3, end))
        } else {
            BlockFound::Malformed
        }
    } else {
        if end >= start + 2 {
            BlockFound::Inner(slice_exec(src, start + 2, end))
        } else {
            BlockFound::Malformed
        }
    }
}


// ───────────────────────────── format 3: cargo-script short comment ─────────────────────────────

/// A `// cargo-deps:` (or `//cargo-deps:`) line.
pub open spec fn is_deps_comment(l: Seq<char>) -> bool {
    let t = trim_start(l);
    starts_with(t, "// cargo-deps:"@) || starts_with(t, "//cargo-deps:"@)
}

/// Index of the first `cargo-deps` line in `ls[i..]`.
pub open spec fn first_deps_comment(ls: Seq<Seq<char>>, i: int) -> Option<int>
    decreases ls.len() - i,
{
    if i < 0 || i >= ls.len() {
        None
    } else if is_deps_comment(ls[i]) {
        Some(i)
    } else {
        first_deps_comment(ls, i + 1)
    }
}

/// `l.split(':').nth(1).unwrap_or("")`: the text between the first and the
/// second colon (or the end of the line).
pub open spec fn second_colon_field(l: Seq<char>) -> Seq<char> {
    let a = next_char(l, ':', 0);
    if a < l.len() {
        l.subrange(a + 1, next_char(l, ':', a + 1))
    } else {
        seq![]
    }
}

/// A version without one pair of surrounding double quotes.
pub open spec fn unquote(v: Seq<char>) -> Seq<char> {
    if v.len() >= 2 && v[0] == '"' && v.last() == '"' {
        v.subrange(1, v.len() - 1)
    } else {
        v
    }
}

/// The dependency line for one comma-separated item of a `cargo-deps` list.
pub open spec fn short_dep_entry(item: Seq<char>) -> Seq<char> {
    let p = trim(item);
    if p.len() == 0 {
        seq![]
    } else {
        match split_once(p, '=') {
            Some((name, version)) => trim(name) + " = \""@ + unquote(trim(version)) + "\"\n"@,
            None => p + " = \"*\"\n"@,
        }
    }
}

pub open spec fn short_dep_entries(items: Seq<Seq<char>>) -> Seq<char>
    decreases items.len(),
{
    if items.len() == 0 {
        seq![]
    } else {
        short_dep_entries(items.drop_last()) + short_dep_entry(items.last())
    }
}

/// The fragment of a `// cargo-deps: a="1", b` comment: one dependency line per item.
pub open spec fn short_comment_fragment(src: Seq<char>) -> Option<Seq<char>> {
    let ls = lines(src);
    match first_deps_comment(ls, 0) {
        None => None,
        Some(k) => Some(
            "[dependencies]\n"@ + short_dep_entries(split(trim(second_colon_field(ls[k])), ',')),
        ),
    }
}

fn second_colon_field_exec(l: &Vec<char>) -> (r: Vec<char>)
    ensures
        r@ == second_colon_field(l@),
{
    let a = next_char_exec(l, ':', 0);
    if a < l.len() {
        let b = next_char_exec(l, ':', a + 1);
        slice_exec(l, a + 1, b)
    } else {
        Vec::new()
    }
}

fn unquote_exec(v: Vec<char>) -> (r: Vec<char>)
    ensures
        r@ == unquote(v@),
{
    if v.len() >= 2 && v[0] == '"' && v[v.len() - 1] == '"' {
        slice_exec(&v, 1, v.len() - 1)
    } else {
        v
    }
}

fn short_dep_entry_exec(item: &Vec<char>) -> (r: Vec<char>)
    ensures
        r@ == short_dep_entry(item@),
{
    let p = trim_exec(item);
    if p.len() == 0 {
        return Vec::new();
    }
    let k = next_char_exec(&p, '=', 0);
    if k < p.len() {
        let name = trim_exec(&slice_exec(&p, 0, k));
        let version = unquote_exec(trim_exec(&slice_exec(&p, k + 1, p.len())));
        assert(p@.subrange(0, k as int) =~= p@.take(k as int));
        assert(p@.subrange(k + 1, p@.len() as int) =~= p@.skip(k + 1));
        let mut out = name;
        push_str(&mut out, " = \"");
        push_all(&mut out, &version);
        push_str(&mut out, "\"\n");
        out
    } else {
        let mut out = p;
        push_str(&mut out, " = \"*\"\n");
        out
    }
}

fn short_comment_fragment_exec(src: &Vec<char>) -> (r: Option<Vec<char>>)
    ensures
        match r {
            Some(f) => short_comment_fragment(src@) == Some(f@),
            None => short_comment_fragment(src@) is None,
        },
{
    let ls = lines_exec(src);
    let ghost all = seqs_of(ls@);
    let mut i: usize = 0;
    while i < ls.len()
        invariant
            i <= ls.len(),
            all == seqs_of(ls@),
            all == lines(src@),
            first_deps_comment(all, 0) == first_deps_comment(all, i as int),
        decreases ls.len() - i,
    {
        assert(all[i as int] == ls@[i as int]@);
        let t = trim_start_exec(&ls[i]);
        let m1 = chars_of("// cargo-deps:");
        let m2 = chars_of("//cargo-deps:");
        if starts_with_exec(&t, &m1) || starts_with_exec(&t, &m2) {
            let field = second_colon_field_exec(&ls[i]);
            let list = trim_exec(&field);
            let items = split_exec(&list, ',');
            let ghost items_v = seqs_of(items@);
            let mut out = chars_of("[dependencies]\n");
            let ghost head = out@;
            let mut j: usize = 0;
            while j < items.len()
                invariant
                    j <= items.len(),
                    items_v == seqs_of(items@),
                    out@ == head + short_dep_entries(items_v.take(j as int)),
                decreases items.len() - j,
            {
                assert(items_v[j as int] == items@[j as int]@);
                let e = short_dep_entry_exec(&items[j]);
                push_all(&mut out, &e);
                assert(items_v.take(j + 1).drop_last() =~= items_v.take(j as int));
                j = j + 1;
            }
            assert(items_v.take(items.len() as int) =~= items_v);
            assert(is_deps_comment(all[i as int]));
            assert(first_deps_comment(all, 0) == Some(i as int));
            assert(items_v == split(trim(second_colon_field(all[i as int])), ','));
            assert(head == "[dependencies]\n"@);
            return Some(out);
        }
        i = i + 1;
    }
    None
}

// ───────────────────────────── format 4: cargo-play lines ─────────────────────────────

/// The dependency line for a `//# spec` line (`t` starts with `//#`).
pub open spec fn play_entry(t: Seq<char>) -> Seq<char> {
    let spec = trim(t.skip("//#"@.len() as int));
    if has_char(spec, '=') {
        spec + "\n"@
    } else {
        spec + " = \"*\"\n"@
    }
}

/// Scans `ls[i..]` for `//#` lines: whether one was seen (given `found` so
/// far) and their dependency lines.  The scan stops at the first line after
/// them that is neither empty nor a comment.
pub open spec fn play_scan(ls: Seq<Seq<char>>, i: int, found: bool) -> (bool, Seq<char>)
    decreases ls.len() - i,
{
    if i < 0 || i >= ls.len() {
        (found, seq![])
    } else {
        let t = trim_start(ls[i]);
        if starts_with(t, "//#"@) {
            let rest = play_scan(ls, i + 1, true);
            (true, play_entry(t) + rest.1)
        } else if found && t.len() > 0 && !starts_with(t, "//"@) {
            (found, seq![])
        } else {
            play_scan(ls, i + 1, found)
        }
    }
}

/// The fragment of cargo-play dependency lines (`//# serde = "1"`, `//# regex`).
pub open spec fn play_fragment(src: Seq<char>) -> Option<Seq<char>> {
    let r = play_scan(lines(src), 0, false);
    if r.0 {
        Some("[dependencies]\n"@ + r.1)
    } else {
        None
    }
}

proof fn lemma_play_scan_found(ls: Seq<Seq<char>>, i: int)
    ensures
        play_scan(ls, i, true).0,
    decreases ls.len() - i,
{
    if 0 <= i < ls.len() {
        lemma_play_scan_found(ls, i + 1);
    }
}

fn play_entry_exec(t: &Vec<char>, marker_len: usize) -> (r: Vec<char>)
    requires
        marker_len == "//#"@.len(),
        marker_len <= t@.len(),
    ensures
        r@ == play_entry(t@),
{
    let rest = slice_exec(t, marker_len, t.len());
    assert(rest@ =~= t@.skip(marker_len as int));
    let mut spec = trim_exec(&rest);
    let k = next_char_exec(&spec, '=', 0);
    if k < spec.len() {
        push_str(&mut spec, "\n");
    } else {
        push_str(&mut spec, " = \"*\"\n");
    }
    spec
}

fn play_fragment_exec(src: &Vec<char>) -> (r: Option<Vec<char>>)
    ensures
        match r {
            Some(f) => play_fragment(src@) == Some(f@),
            None => play_fragment(src@) is None,
        },
{
    let ls = lines_exec(src);
    let ghost all = seqs_of(ls@);
    let marker = chars_of("//#");
    let comment = chars_of("//");
    let mut deps: Vec<char> = Vec::new();
    let mut found = false;
    let mut i: usize = 0;
    while i < ls.len()
        invariant
            i <= ls.len(),
            all == seqs_of(ls@),
            marker@ == "//#"@,
            comment@ == "//"@,
            play_scan(all, 0, false).0 == play_scan(all, i as int, found).0,
            play_scan(all, 0, false).1 == deps@ + play_scan(all, i as int, found).1,
        ensures
            play_scan(all, 0, false).0 == found,
            play_scan(all, 0, false).1 == deps@,
        decreases ls.len() - i,
    {
        assert(all[i as int] == ls@[i as int]@);
        let t = trim_start_exec(&ls[i]);
        if starts_with_exec(&t, &marker) {
            let e = play_entry_exec(&t, marker.len());
            proof {
                lemma_play_scan_found(all, i + 1);
            }
            let ghost prev = deps@;
            push_all(&mut deps, &e);
            assert(prev + (e@ + play_scan(all, i + 1, true).1) =~= deps@ + play_scan(
                all,
                i + 1,
                true,
            ).1);
            found = true;
        } else if found && t.len() > 0 && !starts_with_exec(&t, &comment) {
            assert(deps@ + Seq::<char>::empty() =~= deps@);
            break;
        }
        i = i + 1;
        if i == ls.len() {
            assert(deps@ + Seq::<char>::empty() =~= deps@);
        }
    }
    if found {
        let mut out = chars_of("[dependencies]\n");
        push_all(&mut out, &deps);
        Some(out)
    } else {
        None
    }
}

// ───────────────────────────── format 5: `//!` line comments ─────────────────────────────

/// Index of the first character of `s[i..]` that is not a space.
pub open spec fn space_run_end(s: Seq<char>, i: int) -> int
    decreases s.len() - i,
{
    if 0 <= i < s.len() && s[i] == ' ' {
        space_run_end(s, i + 1)
    } else {
        i
    }
}

/// `s.trim_start_matches(' ')`.
pub open spec fn trim_start_spaces(s: Seq<char>) -> Seq<char> {
    s.skip(space_run_end(s, 0))
}

/// The bodies of the first run of consecutive `//!` lines in `ls[i..]`.
pub open spec fn doc_lines_scan(ls: Seq<Seq<char>>, i: int, started: bool) -> Seq<Seq<char>>
    decreases ls.len() - i,
{
    if i < 0 || i >= ls.len() {
        seq![]
    } else {
        let t = trim(ls[i]);
        if starts_with(t, "//!"@) {
            seq![trim_start_spaces(t.skip("//!"@.len() as int))] + doc_lines_scan(ls, i + 1, true)
        } else if started {
            seq![]
        } else {
            doc_lines_scan(ls, i + 1, false)
        }
    }
}

/// The fragment of consecutive `//!` line comments, markers removed.
pub open spec fn line_comments_fragment(src: Seq<char>) -> Option<Seq<char>> {
    let r = doc_lines_scan(lines(src), 0, false);
    if r.len() == 0 {
        None
    } else {
        Some(join(r, "\n"@))
    }
}

fn trim_start_spaces_exec(s: &Vec<char>) -> (r: Vec<char>)
    ensures
        r@ == trim_start_spaces(s@),
{
    let mut j: usize = 0;
    while j < s.len() && s[j] == ' '
        invariant
            j <= s.len(),
            space_run_end(s@, 0) == space_run_end(s@, j as int),
        decreases s.len() - j,
    {
        j = j + 1;
    }
    let r = slice_exec(s, j, s.len());
    assert(r@ =~= s@.skip(j as int));
    r
}

fn line_comments_fragment_exec(src: &Vec<char>) -> (r: Option<Vec<char>>)
    ensures
        match r {
            Some(f) => line_comments_fragment(src@) == Some(f@),
            None => line_comments_fragment(src@) is None,
        },
{
    let ls = lines_exec(src);
    let ghost all = seqs_of(ls@);
    let marker = chars_of("//!");
    let mut kept: Vec<Vec<char>> = Vec::new();
    let mut started = false;
    let mut i: usize = 0;
    while i < ls.len()
        invariant
            i <= ls.len(),
            all == seqs_of(ls@),
            marker@ == "//!"@,
            started == (kept@.len() > 0),
            doc_lines_scan(all, 0, false) == seqs_of(kept@) + doc_lines_scan(all, i as int, started),
        ensures
            doc_lines_scan(all, 0, false) == seqs_of(kept@),
        decreases ls.len() - i,
    {
        assert(all[i as int] == ls@[i as int]@);
        let t = trim_exec(&ls[i]);
        let ghost prev = seqs_of(kept@);
        if starts_with_exec(&t, &marker) {
            let rest = slice_exec(&t, marker.len(), t.len());
            assert(rest@ =~= t@.skip(marker@.len() as int));
            let body = trim_start_spaces_exec(&rest);
            kept.push(body);
            assert(seqs_of(kept@) =~= prev.push(body@));
            started = true;
        } else if started {
            assert(seqs_of(kept@) + Seq::<Seq<char>>::empty() =~= seqs_of(kept@));
            break;
        }
        i = i + 1;
        assert(doc_lines_scan(all, 0, false) =~= seqs_of(kept@) + doc_lines_scan(
            all,
            i as int,
            started,
        ));
        if i == ls.len() {
            assert(seqs_of(kept@) + Seq::<Seq<char>>::empty() =~= seqs_of(kept@));
        }
    }
    if kept.len() == 0 {
        None
    } else {
        let nl = chars_of("\n");
        Some(join_exec(&kept, &nl))
    }
}


// ───────────────────────────── the whole script ─────────────────────────────

/// The metadata of a script: the first format present, in the order
/// cargo-script code block, block comment, `cargo-deps` comment, cargo-play
/// lines, `//!` line comments; the default metadata when there is none.
pub open spec fn spec_parse_meta(source: Seq<char>) -> Result<MetaModel, MetaFailure> {
    let src = spec_strip_shebang(source);
    match cargo_block_fragment(src) {
        Some(f) => fragment_meta(f),
        None => match block_comment_scan(src) {
            BlockScan::Unclosed => Err(MetaFailure::UnclosedBlock),
            BlockScan::Inner(f) => fragment_meta(f),
            _ => match short_comment_fragment(src) {
                Some(f) => fragment_meta(f),
                None => match play_fragment(src) {
                    Some(f) => fragment_meta(f),
                    None => match line_comments_fragment(src) {
                        Some(f) => fragment_meta(f),
                        None => Ok(default_meta()),
                    },
                },
            },
        },
    }
}

/// The inputs on which reading the metadata does not panic: the block-comment
/// reader is reached only when there is no cargo-script code block, and then
/// its block must not be malformed.
pub open spec fn parse_meta_defined(source: Seq<char>) -> bool {
    let src = spec_strip_shebang(source);
    cargo_block_fragment(src) is Some || !(block_comment_scan(src) is Malformed)
}

/// Whether [`parse_meta`] can read `source` (see [`parse_meta_defined`]).
pub fn metadata_readable(source: &str) -> (b: bool)
    ensures
        b == parse_meta_defined(source@),
{
    let v = chars_of(source);
    let src = strip_shebang_chars(&v);
    match cargo_block_fragment_exec(&src) {
        Some(_) => true,
        None => match block_comment_exec(&src) {
            BlockFound::Malformed => false,
            _ => true,
        },
    }
}

/// Parses metadata from a script source file.
///
/// Tries all supported comment styles in order of priority:
/// 1. cargo-script code block (`//! ```cargo ... ````)
/// 2. block comment (`/* ... */`)
/// 3. cargo-script short comment (`// cargo-deps: ...`)
/// 4. cargo-play dependencies (`//# ...`)
/// 5. `//!` line comments
///
/// If no metadata is found, returns a default instance with edition `"2024"`.
pub fn parse_meta(source: &str) -> (r: Result<ScriptMeta, MetaError>)
    requires
        parse_meta_defined(source@),
    ensures
        result_view(r) == spec_parse_meta(source@),
{
    let v = chars_of(source);
    let src = strip_shebang_chars(&v);
    if let Some(f) = cargo_block_fragment_exec(&src) {
        return parse_toml_fragment(&f);
    }
    match block_comment_exec(&src) {
        BlockFound::Unclosed => {
            return Err(MetaError::UnclosedBlock);
        },
        BlockFound::Inner(f) => {
            return parse_toml_fragment(&f);
        },
        _ => {},
    }
    if let Some(f) = short_comment_fragment_exec(&src) {
        return parse_toml_fragment(&f);
    }
    if let Some(f) = play_fragment_exec(&src) {
        return parse_toml_fragment(&f);
    }
    if let Some(f) = line_comments_fragment_exec(&src) {
        return parse_toml_fragment(&f);
    }
    Ok(default_script_meta())
}


// ───────────────────────────── laws ─────────────────────────────

proof fn lemma_fragment_meta_edition(f: Seq<char>)
    ensures
        fragment_meta(f) matches Ok(m) ==> valid_edition(m.edition) && (m.edition == "2024"@
            || toml_string_entry(spec_replace_comments(trim(f)), "edition"@) == Some(m.edition)),
{
    reveal_strlit("2024");
}

/// The TOML fragment from which a script's metadata is read, in the order of
/// priority of the formats; `None` where the script declares none (or where
/// its block comment is unclosed).
pub open spec fn chosen_fragment(source: Seq<char>) -> Option<Seq<char>> {
    let src = spec_strip_shebang(source);
    match cargo_block_fragment(src) {
        Some(f) => Some(f),
        None => match block_comment_scan(src) {
            BlockScan::Inner(f) => Some(f),
            BlockScan::Unclosed => None,
            _ => match short_comment_fragment(src) {
                Some(f) => Some(f),
                None => match play_fragment(src) {
                    Some(f) => Some(f),
                    None => line_comments_fragment(src),
                },
            },
        },
    }
}

/// Whatever the script, metadata that is read successfully names one of the
/// editions 2015, 2018, 2021 or 2024; it is 2024 unless the chosen metadata
/// fragment has a top-level `edition` string, and then it is that string.
pub proof fn law_edition_is_supported(source: Seq<char>)
    ensures
        spec_parse_meta(source) matches Ok(m) ==> valid_edition(m.edition) && (m.edition
            == "2024"@ || (chosen_fragment(source) matches Some(f) && toml_string_entry(
            spec_replace_comments(trim(f)),
            "edition"@,
        ) == Some(m.edition))),
{
    match chosen_fragment(source) {
        Some(f) => lemma_fragment_meta_edition(f),
        None => {
            lemma_fragment_meta_edition(seq![]);
        },
    }
}

proof fn lemma_deps_run_in(ls: Seq<Seq<char>>, i: int)
    requires
        0 <= i <= ls.len(),
    ensures
        exists|j: int| i <= j <= ls.len() && deps_lines_from(ls, i, true) == #[trigger] ls.subrange(i, j),
    decreases ls.len() - i,
{
    if i == ls.len() {
        assert(deps_lines_from(ls, i, true) =~= ls.subrange(i, i));
    } else {
        let t = trim(ls[i]);
        if !is_deps_header(t) && ends_deps_section(t) {
            assert(deps_lines_from(ls, i, true) =~= ls.subrange(i, i));
        } else {
            lemma_deps_run_in(ls, i + 1);
            let j = choose|j: int| i + 1 <= j <= ls.len() && deps_lines_from(ls, i + 1, true) == #[trigger] ls.subrange(i + 1, j);
            assert(deps_lines_from(ls, i, true) =~= ls.subrange(i, j));
        }
    }
}

proof fn lemma_deps_run_out(ls: Seq<Seq<char>>, i: int)
    requires
        0 <= i <= ls.len(),
    ensures
        deps_lines_from(ls, i, false).len() == 0 || exists|k: int, j: int|
            i <= k < j <= ls.len() && is_deps_header(trim(ls[k])) && deps_lines_from(ls, i, false)
                == #[trigger] ls.subrange(k, j),
    decreases ls.len() - i,
{
    if i < ls.len() {
        if is_deps_header(trim(ls[i])) {
            lemma_deps_run_in(ls, i + 1);
            let j = choose|j: int| i + 1 <= j <= ls.len() && deps_lines_from(ls, i + 1, true) == #[trigger] ls.subrange(i + 1, j);
            assert(deps_lines_from(ls, i, false) =~= ls.subrange(i, j));
        } else {
            lemma_deps_run_out(ls, i + 1);
        }
    }
}

/// The dependencies are kept exactly as written: the dependencies text of a
/// fragment is a run of consecutive lines of the fragment, joined with `\n`,
/// and the run starts with a `[dependencies...]` header; it is empty when the
/// fragment has no such header.
pub proof fn law_dependencies_text_is_verbatim(fragment: Seq<char>)
    ensures
        spec_dependencies_text(fragment).len() == 0 || exists|k: int, j: int|
            0 <= k < j <= lines(fragment).len() && is_deps_header(trim(lines(fragment)[k]))
                && spec_dependencies_text(fragment) == join(
                #[trigger] lines(fragment).subrange(k, j),
                "\n"@,
            ),
        (forall|k: int|
            0 <= k < lines(fragment).len() ==> !is_deps_header(trim(#[trigger] lines(fragment)[k])))
            ==> spec_dependencies_text(fragment).len() == 0,
{
    let ls = lines(fragment);
    lemma_deps_run_out(ls, 0);
    if deps_lines_from(ls, 0, false).len() == 0 {
        assert(spec_dependencies_text(fragment) =~= Seq::<char>::empty());
    } else {
        let (k, j) = choose|k: int, j: int|
            0 <= k < j <= ls.len() && is_deps_header(trim(ls[k])) && deps_lines_from(ls, 0, false)
                == #[trigger] ls.subrange(k, j);
        assert(is_deps_header(trim(ls[k])));
    }
}


/// A block comment `/*` ... `*/` placed after white space only, whose inside
/// holds no `*/` and does not start with `/`, is read back by the
/// block-comment reader (without a leading `!` or `*` documentation marker).
pub proof fn lemma_block_scan_of(pre: Seq<char>, inner: Seq<char>, post: Seq<char>)
    requires
        all_ws(pre),
        crate::text::free_of(inner, "*/"@),
        inner.len() > 0,
        inner[0] != '/',
    ensures
        block_comment_scan(pre + "/*"@ + inner + "*/"@ + post) == BlockScan::Inner(
            if inner[0] == '!' || inner[0] == '*' {
                inner.skip(1)
            } else {
                inner
            },
        ),
{
    reveal_strlit("/*");
    reveal_strlit("*/");
    let body = pre + "/*"@ + inner + "*/"@ + post;
    let b = pre.len() as int;
    let c = b + 2 + inner.len();
    assert forall|j: int| 0 <= j < b implies !crate::text::occurs_at(body, "/*"@, j) by {
        if crate::text::occurs_at(body, "/*"@, j) {
            assert(body.subrange(j, j + 2)[0] == '/');
            assert(body[j] == pre[j]);
            assert(crate::text::is_ws(pre[j]));
        }
    }
    crate::text::lemma_find_from_skip(body, "/*"@, 0, b);
    assert(body.subrange(b, b + 2) =~= "/*"@);
    assert(find(body, "/*"@) == Some(b));
    assert(body.take(b) =~= pre);
    let star = seq!['*'];
    let seg = star + inner + star;
    assert(body.subrange(b + 1, c + 1) =~= seg);
    crate::text::lemma_free_of_short(star, "*/"@);
    crate::text::lemma_free_of_concat2(star, inner, "*/"@);
    crate::text::lemma_free_of_concat2(star + inner, star, "*/"@);
    assert forall|j: int| b <= j < c implies !crate::text::occurs_at(body, "*/"@, j) by {
        if j == b {
            if crate::text::occurs_at(body, "*/"@, j) {
                assert(body.subrange(j, j + 2)[0] == '*');
                assert(body[j] == '/');
            }
        } else {
            crate::text::lemma_free_window(body, "*/"@, b + 1, c + 1, j);
        }
    }
    crate::text::lemma_find_from_skip(body, "*/"@, b, c);
    assert(body.subrange(c, c + 2) =~= "*/"@);
    assert(find_from(body, "*/"@, b) == Some(c));
    assert(body[b + 2] == inner[0]);
    if inner[0] == '!' || inner[0] == '*' {
        assert(body.subrange(b + 3, c) =~= inner.skip(1));
    } else {
        assert(body.subrange(b + 2, c) =~= inner);
    }
}


/// A text without `/` does not start with a marker that starts with `/`.
proof fn lemma_no_slash_prefix(t: Seq<char>, marker: Seq<char>)
    requires
        forall|m: int| 0 <= m < t.len() ==> t[m] != '/',
        marker.len() > 0,
        marker[0] == '/',
    ensures
        !starts_with(t, marker),
        !starts_with(trim_start(t), marker),
        !starts_with(trim(t), marker),
{
    if starts_with(t, marker) {
        assert(t.take(marker.len() as int)[0] == t[0]);
    }
    crate::text::lemma_ws_run_end(t, 0);
    let u = trim_start(t);
    if starts_with(u, marker) {
        assert(u.take(marker.len() as int)[0] == u[0]);
        assert(u[0] == t[crate::text::ws_run_end(t, 0)]);
    }
    crate::text::lemma_ws_run_start(u, u.len() as int);
    let v = trim(t);
    if starts_with(v, marker) {
        assert(v.take(marker.len() as int)[0] == v[0]);
        assert(v[0] == u[0]);
    }
}

proof fn lemma_scans_without_slash(ls: Seq<Seq<char>>, i: int)
    requires
        forall|k: int, m: int| 0 <= k < ls.len() && 0 <= m < ls[k].len() ==> #[trigger] ls[k][m] != '/',
    ensures
        first_deps_comment(ls, i) is None,
        !play_scan(ls, i, false).0,
        doc_lines_scan(ls, i, false).len() == 0,
    decreases ls.len() - i,
{
    reveal_strlit("// cargo-deps:");
    reveal_strlit("//cargo-deps:");
    reveal_strlit("//#");
    reveal_strlit("//!");
    if 0 <= i < ls.len() {
        assert forall|m: int| 0 <= m < ls[i].len() implies ls[i][m] != '/' by {
            assert(ls[i][m] != '/');
        }
        lemma_no_slash_prefix(ls[i], "// cargo-deps:"@);
        lemma_no_slash_prefix(ls[i], "//cargo-deps:"@);
        lemma_no_slash_prefix(ls[i], "//#"@);
        lemma_no_slash_prefix(ls[i], "//!"@);
        lemma_scans_without_slash(ls, i + 1);
    }
}

/// A script that holds no `/` after its shebang line declares no metadata:
/// it gets edition 2024 and nothing else.
pub proof fn law_script_without_comments_gets_defaults(source: Seq<char>)
    requires
        !has_char(spec_strip_shebang(source), '/'),
    ensures
        spec_parse_meta(source) == Ok::<MetaModel, MetaFailure>(default_meta()),
{
    reveal_strlit("//! ```cargo");
    reveal_strlit("/*");
    let src = spec_strip_shebang(source);
    crate::text::lemma_next_char(src, '/', 0);
    assert forall|k: int| 0 <= k < src.len() implies src[k] != '/' by {}
    crate::text::lemma_free_of_missing_char(src, "//! ```cargo"@);
    crate::text::lemma_find_from(src, "//! ```cargo"@, 0);
    crate::text::lemma_free_of_missing_char(src, "/*"@);
    crate::text::lemma_find_from(src, "/*"@, 0);
    crate::text::lemma_lines_without_char(src, 0, '/');
    lemma_scans_without_slash(lines(src), 0);
}


/// A shebang line never changes the metadata: a script read after a `#!`
/// line gives what the script gives alone (for a script that does not itself
/// start with a shebang line).
pub proof fn law_shebang_does_not_change_metadata(line: Seq<char>, script: Seq<char>)
    requires
        !has_char(line, '\n'),
        !(line.len() > 0 && line[0] == '['),
        !has_shebang_line(script),
    ensures
        spec_parse_meta("#!"@ + line + "\n"@ + script) == spec_parse_meta(script),
        parse_meta_defined("#!"@ + line + "\n"@ + script) == parse_meta_defined(script),
{
    reveal_strlit("#!");
    reveal_strlit("#![");
    reveal_strlit("\n");
    let head = "#!"@ + line;
    let full = head + "\n"@ + script;
    assert(full.take(2) =~= "#!"@);
    crate::text::lemma_next_char(line, '\n', 0);
    assert forall|j: int| 0 <= j < head.len() implies full[j] != '\n' by {
        if j >= 2 {
            assert(full[j] == line[j - 2]);
        }
    }
    crate::text::lemma_next_char_at(full, '\n', 0, head.len() as int);
    assert(full[2] != '[') by {
        if line.len() > 0 {
            assert(full[2] == line[0]);
        }
    }
    assert(!starts_with(full, "#!["@)) by {
        if starts_with(full, "#!["@) {
            assert(full.take(3)[2] == full[2]);
        }
    }
    assert(spec_strip_shebang(full) =~= script);
}


/// A `cargo-deps` item `name = "version"` gives the dependency line
/// `name = "version"` whatever white space stands around its `=`: the version
/// is trimmed before its quotes are removed, so it is never quoted twice.
pub proof fn law_deps_item_ignores_spaces_around_equals(
    n: Seq<char>,
    ws1: Seq<char>,
    ws2: Seq<char>,
    v: Seq<char>,
)
    requires
        n.len() > 0,
        !crate::text::is_ws(n[0]),
        !crate::text::is_ws(n.last()),
        !has_char(n, '='),
        all_ws(ws1),
        all_ws(ws2),
    ensures
        short_dep_entry(n + ws1 + "="@ + ws2 + "\""@ + v + "\""@) == n + " = \""@ + v + "\"\n"@,
{
    reveal_strlit("=");
    reveal_strlit("\"");
    let q = "\""@ + v + "\""@;
    let item = n + ws1 + "="@ + ws2 + q;
    assert(item[0] == n[0]);
    assert(item.last() == '"');
    crate::text::lemma_trim_kept(item);
    // the first `=`
    let k = (n.len() + ws1.len()) as int;
    crate::text::lemma_next_char(n, '=', 0);
    assert forall|j: int| 0 <= j < k implies item[j] != '=' by {
        if j < n.len() {
            assert(item[j] == n[j]);
        } else {
            assert(item[j] == ws1[j - n.len()]);
            assert(crate::text::is_ws(ws1[j - n.len()]));
        }
    }
    assert(item[k] == '=');
    crate::text::lemma_next_char_at(item, '=', 0, k);
    let name = item.take(k);
    let version = item.skip(k + 1);
    assert(name =~= n + ws1);
    assert(version =~= ws2 + q);
    // trim(n + ws1) == n
    let nw = n + ws1;
    crate::text::lemma_ws_run_end_at(nw, 0);
    assert(crate::text::trim_start(nw) =~= nw);
    assert forall|j: int| n.len() <= j < nw.len() implies crate::text::is_ws(#[trigger] nw[j]) by {
        assert(nw[j] == ws1[j - n.len()]);
    }
    assert(nw[n.len() - 1] == n.last());
    crate::text::lemma_ws_run_start_at(nw, n.len() as int);
    assert(trim(nw) =~= n);
    // trim(ws2 + q) == q
    let wq = ws2 + q;
    assert forall|j: int| 0 <= j < ws2.len() implies crate::text::is_ws(#[trigger] wq[j]) by {
        assert(wq[j] == ws2[j]);
    }
    assert(wq[ws2.len() as int] == '"');
    crate::text::lemma_ws_run_end_at(wq, ws2.len() as int);
    assert(crate::text::trim_start(wq) =~= q);
    crate::text::lemma_ws_run_start_at(q, q.len() as int);
    assert(q.take(q.len() as int) =~= q);
    assert(trim(wq) == q);
    assert(unquote(q) =~= v);
    assert(item =~= n + ws1 + "="@ + ws2 + "\""@ + v + "\""@);
    assert(split_once(item, '=') == Some((name, version)));
}

} // verus!
