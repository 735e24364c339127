//! What the tool does with a script: the generated Cargo project, the cache
//! decisions of `run` and `eval`, the sources it writes and the edits of `add`.
use crate::cache::{
    path_join, path_join_exec, spec_binary_path, spec_project_dir, spec_release_binary_path,
    CacheLayout,
};
use crate::parser::{
    block_comment_scan, cargo_block_fragment, doc_lines_scan, play_fragment, play_scan, first_deps_comment, fragment_meta,
    has_shebang_line, has_shebang_line_exec, line_comments_fragment, trim_start_spaces, lemma_block_scan_of, parse_meta, parse_meta_defined,
    spec_parse_meta, spec_strip_shebang, BlockScan, MetaError, MetaModel, ScriptMeta,
};
use crate::text::{
    all_ws, byte_prefix, byte_prefix_exec, chars_of, find, find_exec, find_from, join, join_exec,
    lines, lines_exec, next_char, push_all, push_str, seqs_of, slice_exec, split, split_exec,
    split_once, starts_with, starts_with_exec, string_of, trim, trim_exec, trim_start,
};
use vstd::prelude::*;

verus! {

// ───────────────────────────── dependency specifications ─────────────────────────────

/// Specification for a dependency: name, version, and optional features.
#[derive(Debug, Clone, PartialEq, Eq)]
pub struct DepSpec {
    pub name: String,
    pub version: String,
    pub features: Vec<String>,
}

/// The mathematical value of a [`DepSpec`].
pub struct DepModel {
    pub name: Seq<char>,
    pub version: Seq<char>,
    pub features: Seq<Seq<char>>,
}

pub open spec fn strings_view(v: Seq<String>) -> Seq<Seq<char>> {
    Seq::new(v.len(), |i: int| v[i]@)
}

impl View for DepSpec {
    type V = DepModel;

    open spec fn view(&self) -> DepModel {
        DepModel {
            name: self.name@,
            version: self.version@,
            features: strings_view(self.features@),
        }
    }
}

/// A `-d` argument: `crate`, `crate=version` or `crate=version,feat1,feat2`,
/// each part trimmed; the version defaults to `*`.
pub open spec fn spec_parse_dep_spec(s: Seq<char>) -> DepModel {
    match split_once(s, '=') {
        Some((name, rest)) => match split_once(rest, ',') {
            Some((version, feats)) => DepModel {
                name: trim(name),
                version: trim(version),
                features: split(feats, ',').map_values(|f: Seq<char>| trim(f)),
            },
            None => DepModel { name: trim(name), version: trim(rest), features: seq![] },
        },
        None => DepModel { name: trim(s), version: "*"@, features: seq![] },
    }
}

fn trimmed_strings(items: &Vec<Vec<char>>) -> (r: Vec<String>)
    ensures
        strings_view(r@) == seqs_of(items@).map_values(|f: Seq<char>| trim(f)),
{
    let mut out: Vec<String> = Vec::new();
    let mut i: usize = 0;
    while i < items.len()
        invariant
            i <= items.len(),
            strings_view(out@) == seqs_of(items@).take(i as int).map_values(
                |f: Seq<char>| trim(f),
            ),
        decreases items.len() - i,
    {
        assert(seqs_of(items@)[i as int] == items@[i as int]@);
        let t = trim_exec(&items[i]);
        let ghost prev = strings_view(out@);
        out.push(string_of(&t));
        assert(strings_view(out@) =~= prev.push(t@));
        assert(seqs_of(items@).take(i + 1) =~= seqs_of(items@).take(i as int).push(
            seqs_of(items@)[i as int],
        ));
        i = i + 1;
        assert(strings_view(out@) =~= seqs_of(items@).take(i as int).map_values(
            |f: Seq<char>| trim(f),
        ));
    }
    assert(seqs_of(items@).take(items.len() as int) =~= seqs_of(items@));
    out
}

/// Expands a `-d` argument into a dependency specification.
pub fn parse_dep_spec(spec: &str) -> (r: DepSpec)
    ensures
        r@ == spec_parse_dep_spec(spec@),
{
    let s = chars_of(spec);
    let k = crate::text::next_char_exec(&s, '=', 0);
    if k < s.len() {
        let name = trim_exec(&slice_exec(&s, 0, k));
        let rest = slice_exec(&s, k + 1, s.len());
        assert(s@.subrange(0, k as int) =~= s@.take(k as int));
        assert(rest@ =~= s@.skip(k + 1));
        let c = crate::text::next_char_exec(&rest, ',', 0);
        if c < rest.len() {
            let version = trim_exec(&slice_exec(&rest, 0, c));
            let feats = slice_exec(&rest, c + 1, rest.len());
            assert(rest@.subrange(0, c as int) =~= rest@.take(c as int));
            assert(feats@ =~= rest@.skip(c + 1));
            let pieces = split_exec(&feats, ',');
            let features = trimmed_strings(&pieces);
            DepSpec { name: string_of(&name), version: string_of(&version), features }
        } else {
            let version = trim_exec(&rest);
            let r = DepSpec { name: string_of(&name), version: string_of(&version), features: Vec::new() };
            assert(r@.features =~= Seq::<Seq<char>>::empty());
            r
        }
    } else {
        let name = trim_exec(&s);
        let r = DepSpec { name: string_of(&name), version: "*".to_string(), features: Vec::new() };
        assert(r@.features =~= Seq::<Seq<char>>::empty());
        r
    }
}

// ───────────────────────────── the generated Cargo project ─────────────────────────────

/// The position of the first `//` of `l[i..]` that lies outside string
/// literals; `in_str` tells whether `l[i]` lies inside a string literal.
pub open spec fn comment_start_from(l: Seq<char>, i: int, in_str: bool) -> Option<int>
    decreases l.len() - i,
{
    if i < 0 || i >= l.len() {
        None
    } else if l[i] == '"' {
        comment_start_from(l, i + 1, !in_str)
    } else if !in_str && l[i] == '/' && i + 1 < l.len() && l[i + 1] == '/' {
        Some(i)
    } else {
        comment_start_from(l, i + 1, in_str)
    }
}

/// The position of the `//` comment of a line (outside string literals).
pub open spec fn comment_start(l: Seq<char>) -> Option<int> {
    comment_start_from(l, 0, false)
}

/// A dependency line without its trailing `//` comment; a `//` inside a
/// string literal (such as a URL) is kept.
pub open spec fn cut_line_comment(l: Seq<char>) -> Seq<char> {
    match comment_start(l) {
        Some(p) => l.take(p),
        None => l,
    }
}

proof fn lemma_comment_start_bounds(l: Seq<char>, i: int, in_str: bool)
    ensures
        comment_start_from(l, i, in_str) matches Some(p) ==> 0 <= i <= p < l.len(),
    decreases l.len() - i,
{
    if 0 <= i < l.len() {
        lemma_comment_start_bounds(l, i + 1, !in_str);
        lemma_comment_start_bounds(l, i + 1, in_str);
    }
}

fn comment_start_exec(l: &Vec<char>) -> (r: Option<usize>)
    ensures
        match r {
            Some(p) => comment_start(l@) == Some(p as int) && p < l.len(),
            None => comment_start(l@) is None,
        },
{
    let mut in_str = false;
    let mut i: usize = 0;
    while i < l.len()
        invariant
            i <= l.len(),
            comment_start(l@) == comment_start_from(l@, i as int, in_str),
        decreases l.len() - i,
    {
        if l[i] == '"' {
            in_str = !in_str;
        } else if !in_str && l[i] == '/' && i + 1 < l.len() && l[i + 1] == '/' {
            return Some(i);
        }
        i = i + 1;
    }
    None
}

/// The dependency lines that remain after cutting comments and dropping the
/// blank ones.
pub open spec fn kept_dep_lines(ls: Seq<Seq<char>>) -> Seq<Seq<char>>
    decreases ls.len(),
{
    if ls.len() == 0 {
        seq![]
    } else {
        let c = cut_line_comment(ls.last());
        let rest = kept_dep_lines(ls.drop_last());
        if trim(c).len() > 0 {
            rest.push(c)
        } else {
            rest
        }
    }
}

/// The `Cargo.toml` of the project generated for a script.
pub open spec fn spec_cargo_toml(meta: MetaModel, cranelift: bool) -> Seq<char> {
    let profile = if cranelift {
        "\n[profile.dev]\nopt-level = 0\ndebug = false\n"@
    } else {
        seq![]
    };
    let features = if meta.features.len() > 0 {
        "\n[features]\n"@ + meta.features
    } else {
        seq![]
    };
    let deps = join(kept_dep_lines(lines(meta.dependencies)), "\n"@);
    let deps_section = if deps.len() == 0 {
        seq![]
    } else {
        "\n"@ + deps
    };
    "[package]\nname = \"script\"\nversion = \"0.1.0\"\nedition = \""@ + meta.edition + "\"\n"@
        + deps_section + features + profile + "\n"@
}

/// Generates the `Cargo.toml` for a script's project from its metadata.
pub fn generate_cargo_toml(meta: &ScriptMeta, cranelift: bool) -> (r: String)
    ensures
        r@ == spec_cargo_toml(meta@, cranelift),
{
    let deps = chars_of(meta.dependencies.as_str());
    let ls = lines_exec(&deps);
    let ghost all = seqs_of(ls@);
    let mut kept: Vec<Vec<char>> = Vec::new();
    let mut i: usize = 0;
    while i < ls.len()
        invariant
            i <= ls.len(),
            all == seqs_of(ls@),
            seqs_of(kept@) == kept_dep_lines(all.take(i as int)),
        decreases ls.len() - i,
    {
        assert(all[i as int] == ls@[i as int]@);
        let line = match comment_start_exec(&ls[i]) {
            Some(p) => {
                let c = slice_exec(&ls[i], 0, p);
                assert(c@ =~= ls@[i as int]@.take(p as int));
                c
            },
            None => slice_exec(&ls[i], 0, ls[i].len()),
        };
        assert(ls@[i as int]@.subrange(0, ls@[i as int]@.len() as int) =~= ls@[i as int]@);
        let t = trim_exec(&line);
        let ghost prev = seqs_of(kept@);
        assert(all.take(i + 1).drop_last() =~= all.take(i as int));
        if t.len() > 0 {
            kept.push(line);
            assert(seqs_of(kept@) =~= prev.push(cut_line_comment(all[i as int])));
        }
        i = i + 1;
    }
    assert(all.take(ls.len() as int) =~= all);
    let nl = chars_of("\n");
    let joined = join_exec(&kept, &nl);
    let mut out = chars_of("[package]\nname = \"script\"\nversion = \"0.1.0\"\nedition = \"");
    push_str(&mut out, meta.edition.as_str());
    push_str(&mut out, "\"\n");
    if joined.len() > 0 {
        push_str(&mut out, "\n");
        push_all(&mut out, &joined);
    }
    if !meta.features.as_str().is_empty() {
        push_str(&mut out, "\n[features]\n");
        push_str(&mut out, meta.features.as_str());
    }
    if cranelift {
        push_str(&mut out, "\n[profile.dev]\nopt-level = 0\ndebug = false\n");
    }
    push_str(&mut out, "\n");
    string_of(&out)
}

/// The `.cargo/config.toml` that selects the Cranelift backend.
pub open spec fn spec_cranelift_config() -> Seq<char> {
    "[unstable]\ncodegen-backend = true\n\n[profile.dev]\ncodegen-backend = \"cranelift\"\n"@
}

/// Everything `compile` writes and runs for a script.
pub struct CompilePlan {
    /// The project directory, created with its `src` directory.
    pub project_dir: String,
    pub src_dir: String,
    /// `Cargo.toml` and its contents.
    pub manifest_path: String,
    pub manifest: String,
    /// `src/main.rs` and its contents: the script without its shebang.
    pub main_path: String,
    pub main_source: String,
    /// For the Cranelift backend: the `.cargo` directory, its `config.toml`
    /// and that file's contents.
    pub cranelift: Option<(String, String, String)>,
    /// The arguments of `cargo`.
    pub cargo_args: Vec<String>,
}

/// The arguments of `cargo build`.
pub open spec fn spec_build_args(release: bool) -> Seq<Seq<char>> {
    if release {
        seq!["build"@, "--release"@]
    } else {
        seq!["build"@]
    }
}

/// `compile`'s plan is right for a script whose metadata is `meta`.
pub open spec fn compile_plan_matches(
    p: CompilePlan,
    root: Seq<char>,
    hash: Seq<char>,
    source: Seq<char>,
    meta: MetaModel,
    cranelift: bool,
    release: bool,
) -> bool {
    let project = spec_project_dir(root, hash);
    let src_dir = path_join(project, "src"@);
    &&& p.project_dir@ == project
    &&& p.src_dir@ == src_dir
    &&& p.manifest_path@ == path_join(project, "Cargo.toml"@)
    &&& p.manifest@ == spec_cargo_toml(meta, cranelift)
    &&& p.main_path@ == path_join(src_dir, "main.rs"@)
    &&& p.main_source@ == spec_strip_shebang(source)
    &&& (cranelift <==> p.cranelift is Some)
    &&& p.cranelift matches Some((dir, file, text)) ==> {
        &&& dir@ == path_join(project, ".cargo"@)
        &&& file@ == path_join(path_join(project, ".cargo"@), "config.toml"@)
        &&& text@ == spec_cranelift_config()
    }
    &&& strings_view(p.cargo_args@) == spec_build_args(release)
}

/// Plans the compilation of a script into its cache entry: reads its metadata
/// and produces the project files and the `cargo` invocation.
pub fn plan_compile(
    layout: &CacheLayout,
    hash: &str,
    source: &str,
    cranelift: bool,
    release: bool,
) -> (r: Result<CompilePlan, MetaError>)
    requires
        parse_meta_defined(source@),
    ensures
        match (r, spec_parse_meta(source@)) {
            (Ok(p), Ok(meta)) => compile_plan_matches(
                p,
                layout.root@,
                hash@,
                source@,
                meta,
                cranelift,
                release,
            ),
            (Err(e), Err(f)) => e@ == f,
            _ => false,
        },
{
    let meta = match parse_meta(source) {
        Ok(m) => m,
        Err(e) => return Err(e),
    };
    let project_dir = layout.project_dir(hash);
    let src_dir = path_join_exec(project_dir.as_str(), "src");
    let manifest_path = path_join_exec(project_dir.as_str(), "Cargo.toml");
    let manifest = generate_cargo_toml(&meta, cranelift);
    let main_path = path_join_exec(src_dir.as_str(), "main.rs");
    let main_source = crate::parser::strip_shebang(source);
    let cranelift_files = if cranelift {
        let dir = path_join_exec(project_dir.as_str(), ".cargo");
        let file = path_join_exec(dir.as_str(), "config.toml");
        let text =
            "[unstable]\ncodegen-backend = true\n\n[profile.dev]\ncodegen-backend = \"cranelift\"\n".to_string();
        Some((dir, file, text))
    } else {
        None
    };
    let mut cargo_args: Vec<String> = Vec::new();
    cargo_args.push("build".to_string());
    if release {
        cargo_args.push("--release".to_string());
    }
    assert(strings_view(cargo_args@) =~= spec_build_args(release));
    Ok(
        CompilePlan {
            project_dir,
            src_dir,
            manifest_path,
            manifest,
            main_path,
            main_source,
            cranelift: cranelift_files,
            cargo_args,
        },
    )
}

// ───────────────────────────── run and build ─────────────────────────────

/// What `run` does before executing the cached binary.
pub struct RunPlan {
    /// Whether the script must be (re)compiled.
    pub compile: bool,
    /// The cache-hit line shown in verbose mode.
    pub cache_hit_note: Option<String>,
}

/// `run` compiles when forced or when the cache is not valid; otherwise, in
/// verbose mode, it reports the cache hit with the first 12 bytes of the hash.
pub open spec fn run_plan_matches(
    p: RunPlan,
    force: bool,
    cache_valid: bool,
    verbose: bool,
    hash: Seq<char>,
) -> bool {
    &&& p.compile == (force || !cache_valid)
    &&& match p.cache_hit_note {
        Some(n) => !p.compile && verbose && n@ == "cache hit · "@ + byte_prefix(hash, 12)->0,
        None => p.compile || !verbose,
    }
}

/// Decides what `run` does with a script whose cache key is `hash`: compile
/// (when forced or the cache is stale), or report a cache hit.  The binary is
/// executed afterwards in every case.
pub fn run(force: bool, cache_valid: bool, verbose: bool, hash: &str) -> (r: RunPlan)
    requires
        !force && cache_valid && verbose ==> byte_prefix(hash@, 12) is Some,
    ensures
        run_plan_matches(r, force, cache_valid, verbose, hash@),
{
    if force || !cache_valid {
        RunPlan { compile: true, cache_hit_note: None }
    } else if verbose {
        let h = chars_of(hash);
        let p = match byte_prefix_exec(&h, 12) {
            Some(p) => p,
            None => Vec::new(),
        };
        let mut note = chars_of("cache hit · ");
        push_all(&mut note, &p);
        RunPlan { compile: false, cache_hit_note: Some(string_of(&note)) }
    } else {
        RunPlan { compile: false, cache_hit_note: None }
    }
}

/// The binary that `build` copies out of the cache: the release binary for a
/// release build, the debug binary otherwise.
pub fn built_binary_path(layout: &CacheLayout, hash: &str, release: bool) -> (r: String)
    ensures
        r@ == if release {
            spec_release_binary_path(layout.root@, hash@)
        } else {
            spec_binary_path(layout.root@, hash@)
        },
{
    if release {
        layout.release_binary_path(hash)
    } else {
        layout.binary_path(hash)
    }
}


// ───────────────────────────── new scripts ─────────────────────────────

/// The script written by `rfast new` for a script named `name`.
pub open spec fn spec_new_script_template(name: Seq<char>) -> Seq<char> {
    "#!/usr/bin/env rfast\n/*\n[dependencies]\n# add crates here, e.g.:\n# colored = \"2.0\"\n*/\n\nfn main() {\n    println!(\"Hello from "@
        + name + "!\");\n}\n"@
}

/// The built-in template of a new script.
pub fn new_script_template(name: &str) -> (r: String)
    ensures
        r@ == spec_new_script_template(name@),
{
    let mut out = chars_of(
        "#!/usr/bin/env rfast\n/*\n[dependencies]\n# add crates here, e.g.:\n# colored = \"2.0\"\n*/\n\nfn main() {\n    println!(\"Hello from ",
    );
    push_str(&mut out, name);
    push_str(&mut out, "!\");\n}\n");
    string_of(&out)
}

// ───────────────────────────── adding a dependency ─────────────────────────────

/// The dependency line `krate = "version"`.
pub open spec fn new_dep_line(krate: Seq<char>, version: Seq<char>) -> Seq<char> {
    krate + " = \""@ + version + "\""@
}

/// Whether the script starts with a shebang line (see [`has_shebang_line`]).
pub open spec fn has_shebang(source: Seq<char>) -> bool {
    has_shebang_line(source)
}

/// The shebang line of a script, with its newline (empty without a shebang).
pub open spec fn shebang_part(source: Seq<char>) -> Seq<char> {
    if has_shebang(source) {
        source.take(next_char(source, '\n', 0) + 1)
    } else {
        seq![]
    }
}

/// The script after its shebang line.
pub open spec fn after_shebang(source: Seq<char>) -> Seq<char> {
    if has_shebang(source) {
        source.skip(next_char(source, '\n', 0) + 1)
    } else {
        source
    }
}

/// The metadata block that `add` edits: the start of `/*` and of `*/` in
/// `rest`, when `/*` comes first (after white space only) and is closed.
pub open spec fn edit_block(rest: Seq<char>) -> Option<(int, int)> {
    match find(rest, "/*"@) {
        Some(start) => if all_ws(rest.take(start)) {
            match find_from(rest, "*/"@, start) {
                Some(end) => Some((start, end)),
                None => None,
            }
        } else {
            None
        },
        None => None,
    }
}

/// The inputs on which `add` does not panic: a shebang line must end with a
/// newline, and the block's `*/` must not overlap its `/*` (as in `/*/`).
pub open spec fn add_dep_defined(source: Seq<char>) -> bool {
    &&& has_shebang(source) ==> next_char(source, '\n', 0) < source.len()
    &&& edit_block(after_shebang(source)) matches Some((start, end)) ==> end >= start + 2
}

/// Where line `k` of `s[i..]` starts; past the last line, the end of `s`.
pub open spec fn line_pos_from(s: Seq<char>, i: int, k: nat) -> int
    decreases k,
{
    if k == 0 {
        i
    } else {
        let j = next_char(s, '\n', i);
        if j < s.len() {
            line_pos_from(s, j + 1, (k - 1) as nat)
        } else {
            s.len() as int
        }
    }
}

/// Where line `k` of `s` starts (the end of `s` past its last line).
pub open spec fn line_pos(s: Seq<char>, k: int) -> int {
    line_pos_from(s, 0, k as nat)
}

/// The line break that new lines put at `p` need first: one only at the end
/// of a text whose last line has none.
pub open spec fn line_break_before(s: Seq<char>, p: int) -> Seq<char> {
    if p == s.len() && s.len() > 0 && s.last() != '\n' {
        "\n"@
    } else {
        seq![]
    }
}

/// Index of the first `//#` line of `ls[i..]`.
pub open spec fn first_play_line(ls: Seq<Seq<char>>, i: int) -> Option<int>
    decreases ls.len() - i,
{
    if i < 0 || i >= ls.len() {
        None
    } else if starts_with(trim_start(ls[i]), "//#"@) {
        Some(i)
    } else {
        first_play_line(ls, i + 1)
    }
}

/// A `//!` line.
pub open spec fn is_doc_line(l: Seq<char>) -> bool {
    starts_with(trim(l), "//!"@)
}

/// Index of the first `//!` line of `ls[i..]`.
pub open spec fn first_doc_line(ls: Seq<Seq<char>>, i: int) -> Option<int>
    decreases ls.len() - i,
{
    if i < 0 || i >= ls.len() {
        None
    } else if is_doc_line(ls[i]) {
        Some(i)
    } else {
        first_doc_line(ls, i + 1)
    }
}

/// The end (exclusive) of the run of `//!` lines that goes on at `ls[i]`.
pub open spec fn doc_run_end(ls: Seq<Seq<char>>, i: int) -> int
    decreases ls.len() - i,
{
    if 0 <= i < ls.len() && is_doc_line(ls[i]) {
        doc_run_end(ls, i + 1)
    } else {
        i
    }
}

/// A `//!` line that holds the `[dependencies]` header.
pub open spec fn is_doc_deps_header(l: Seq<char>) -> bool {
    let t = trim(l);
    t.len() >= 3 && trim(t.skip(3)) == "[dependencies]"@
}

/// Index of the `[dependencies]` header among the `//!` lines `ls[i..end]`.
pub open spec fn doc_header(ls: Seq<Seq<char>>, i: int, end: int) -> Option<int>
    decreases end - i,
{
    if i < 0 || i >= end || i >= ls.len() {
        None
    } else if is_doc_deps_header(ls[i]) {
        Some(i)
    } else {
        doc_header(ls, i + 1, end)
    }
}

/// Where the dependency list of a `cargo-deps` line ends: at its second
/// colon, or at the end of the line.
pub open spec fn field_end(l: Seq<char>) -> int {
    let a = next_char(l, ':', 0);
    if a < l.len() {
        next_char(l, ':', a + 1)
    } else {
        l.len() as int
    }
}

/// A new metadata block that holds only the dependency line `dep`.
pub open spec fn new_block(dep: Seq<char>) -> Seq<char> {
    "/*\n[dependencies]\n"@ + dep + "\n*/\n\n"@
}

/// Inside a `/* */` block: where `dep` goes and the text put there. It goes on
/// the line after the `[dependencies]` header; without a header, a new
/// `[dependencies]` table holding it is put at the end of the block, so that
/// what the block held before stays where it was.
pub open spec fn block_inside_edit(inside: Seq<char>, dep: Seq<char>) -> (int, Seq<char>) {
    match find(inside, "[dependencies]"@) {
        Some(pos) => (next_char(inside, '\n', pos), "\n"@ + dep),
        None => (
            inside.len() as int,
            line_break_before(inside, inside.len() as int) + "[dependencies]\n"@ + dep + "\n"@,
        ),
    }
}

/// The inside of a metadata block with `dep` added (see [`block_inside_edit`]).
pub open spec fn inside_with_dep(inside: Seq<char>, dep: Seq<char>) -> Seq<char> {
    let e = block_inside_edit(inside, dep);
    inside.take(e.0) + e.1 + inside.skip(e.0)
}

/// In a cargo-script code block (`//! ```cargo` … ```` ``` ````): where `dep`
/// goes and the text put there. It goes as a `//!` line after the
/// `[dependencies]` header line; without a header inside the block, a
/// `[dependencies]` table holding it is put at the end of the block.
pub open spec fn code_block_edit(rest: Seq<char>, dep: Seq<char>) -> (int, Seq<char>) {
    let start = find(rest, "//! ```cargo"@)->0;
    let a = start + "//! ```cargo"@.len();
    let e = find_from(rest, "```"@, a)->0;
    match find_from(rest, "[dependencies]"@, a) {
        Some(h) => if h + "[dependencies]"@.len() <= e {
            let n = next_char(rest, '\n', h);
            if n < e {
                (n + 1, "//! "@ + dep + "\n"@)
            } else {
                (e, "\n//! "@ + dep + "\n//! "@)
            }
        } else {
            (e, "\n//! [dependencies]\n//! "@ + dep + "\n//! "@)
        },
        None => (e, "\n//! [dependencies]\n//! "@ + dep + "\n//! "@),
    }
}

/// Where a script (after its shebang line) declares its metadata, in the order
/// in which the reader looks for it.
pub enum MetadataSite {
    /// A cargo-script code block.
    CodeBlock,
    /// A `/* */` block: the positions of its `/*` and `*/`.
    Block(int, int),
    /// A `cargo-deps` comment on the given line.
    DepsComment(int),
    /// `//#` lines, the first on the given line.
    PlayLines(int),
    /// `//!` lines, the first on the given line.
    DocLines(int),
    /// No metadata (or an unclosed block).
    NoMetadata,
}

pub open spec fn metadata_site(rest: Seq<char>) -> MetadataSite {
    if cargo_block_fragment(rest) is Some {
        MetadataSite::CodeBlock
    } else {
        match edit_block(rest) {
            Some((start, end)) => MetadataSite::Block(start, end),
            None => if block_comment_scan(rest) is Unclosed {
                MetadataSite::NoMetadata
            } else {
                let ls = lines(rest);
                match first_deps_comment(ls, 0) {
                    Some(k) => MetadataSite::DepsComment(k),
                    None => match first_play_line(ls, 0) {
                        Some(k) => MetadataSite::PlayLines(k),
                        None => match first_doc_line(ls, 0) {
                            Some(k) => MetadataSite::DocLines(k),
                            None => MetadataSite::NoMetadata,
                        },
                    },
                }
            },
        }
    }
}

/// The `cargo-deps` item that `add` appends: `krate="version"`, after a comma.
pub open spec fn deps_item(krate: Seq<char>, version: Seq<char>) -> Seq<char> {
    ", "@ + krate + "=\""@ + version + "\""@
}

/// Where `add` puts the dependency in the script after its shebang line, and
/// the text it puts there. The metadata that the reader would use gets it:
/// a cargo-script code block or a `/* */` block (after the `[dependencies]`
/// header line, or a new table at the block's end), a `cargo-deps` comment
/// (one more item), `//#` lines (one more line after the first), `//!` lines
/// (after their `[dependencies]` header, or a new table at their end); a
/// script with none (or with an unclosed block) gets a new block in front.
pub open spec fn rest_edit(rest: Seq<char>, krate: Seq<char>, version: Seq<char>) -> (int, Seq<char>) {
    let dep = new_dep_line(krate, version);
    let ls = lines(rest);
    match metadata_site(rest) {
        MetadataSite::CodeBlock => code_block_edit(rest, dep),
        MetadataSite::Block(start, end) => {
            let e = block_inside_edit(rest.subrange(start + 2, end), dep);
            (start + 2 + e.0, e.1)
        },
        MetadataSite::DepsComment(k) => (line_pos(rest, k) + field_end(ls[k]), deps_item(krate, version)),
        MetadataSite::PlayLines(k) => {
            let p = line_pos(rest, k + 1);
            (p, line_break_before(rest, p) + "//# "@ + dep + "\n"@)
        },
        MetadataSite::DocLines(k) => {
            let end = doc_run_end(ls, k);
            match doc_header(ls, k, end) {
                Some(h) => {
                    let p = line_pos(rest, h + 1);
                    (p, line_break_before(rest, p) + "//! "@ + dep + "\n"@)
                },
                None => {
                    let p = line_pos(rest, end);
                    (p, line_break_before(rest, p) + "//! [dependencies]\n//! "@ + dep + "\n"@)
                },
            }
        },
        MetadataSite::NoMetadata => (0, new_block(dep)),
    }
}

/// Where `add` inserts text into a script, and the text it inserts.
pub open spec fn add_edit(source: Seq<char>, krate: Seq<char>, version: Seq<char>) -> (int, Seq<char>) {
    let e = rest_edit(after_shebang(source), krate, version);
    (shebang_part(source).len() + e.0, e.1)
}

/// The script with `krate = "version"` added to its metadata.
pub open spec fn spec_add_dep(source: Seq<char>, krate: Seq<char>, version: Seq<char>) -> Seq<char> {
    let e = add_edit(source, krate, version);
    source.take(e.0) + e.1 + source.skip(e.0)
}

proof fn lemma_line_pos_bounds(s: Seq<char>, i: int, k: nat)
    requires
        0 <= i <= s.len(),
    ensures
        i <= line_pos_from(s, i, k) <= s.len(),
    decreases k,
{
    if k > 0 {
        crate::text::lemma_next_char(s, '\n', i);
        let j = next_char(s, '\n', i);
        if j < s.len() {
            lemma_line_pos_bounds(s, j + 1, (k - 1) as nat);
        }
    }
}

/// Line `k` of `s[i..]` lies between [`line_pos_from`] and the next line break.
proof fn lemma_line_pos_line(s: Seq<char>, i: int, k: int)
    requires
        0 <= i <= s.len(),
        0 <= k < crate::text::lines_from(s, i).len(),
    ensures
        ({
            let p = line_pos_from(s, i, k as nat);
            let n = next_char(s, '\n', p);
            &&& i <= p <= n <= s.len()
            &&& crate::text::lines_from(s, i)[k].len() <= n - p
        }),
    decreases k,
{
    crate::text::lemma_next_char(s, '\n', i);
    let j = next_char(s, '\n', i);
    if k > 0 {
        assert(j < s.len());
        lemma_line_pos_line(s, j + 1, k - 1);
    }
}

fn line_pos_exec(s: &Vec<char>, k: usize) -> (p: usize)
    ensures
        p == line_pos(s@, k as int),
        p <= s.len(),
{
    let mut pos: usize = 0;
    let mut c: usize = 0;
    while c < k
        invariant
            c <= k,
            pos <= s.len(),
            line_pos(s@, k as int) == line_pos_from(s@, pos as int, (k - c) as nat),
        decreases k - c,
    {
        let j = crate::text::next_char_exec(s, '\n', pos);
        if j < s.len() {
            pos = j + 1;
            c = c + 1;
        } else {
            pos = s.len();
            c = k;
        }
    }
    pos
}

fn line_break_before_exec(s: &Vec<char>, p: usize) -> (r: Vec<char>)
    ensures
        r@ == line_break_before(s@, p as int),
{
    if p == s.len() && s.len() > 0 && s[s.len() - 1] != '\n' {
        chars_of("\n")
    } else {
        Vec::new()
    }
}

fn first_deps_comment_exec(ls: &Vec<Vec<char>>) -> (r: Option<usize>)
    ensures
        match r {
            Some(k) => first_deps_comment(seqs_of(ls@), 0) == Some(k as int) && k < ls.len(),
            None => first_deps_comment(seqs_of(ls@), 0) is None,
        },
{
    let ghost all = seqs_of(ls@);
    let m1 = chars_of("// cargo-deps:");
    let m2 = chars_of("//cargo-deps:");
    let mut i: usize = 0;
    while i < ls.len()
        invariant
            i <= ls.len(),
            all == seqs_of(ls@),
            m1@ == "// cargo-deps:"@,
            m2@ == "//cargo-deps:"@,
            first_deps_comment(all, 0) == first_deps_comment(all, i as int),
        decreases ls.len() - i,
    {
        assert(all[i as int] == ls@[i as int]@);
        let t = crate::text::trim_start_exec(&ls[i]);
        if starts_with_exec(&t, &m1) || starts_with_exec(&t, &m2) {
            return Some(i);
        }
        i = i + 1;
    }
    None
}

fn first_play_line_exec(ls: &Vec<Vec<char>>) -> (r: Option<usize>)
    ensures
        match r {
            Some(k) => first_play_line(seqs_of(ls@), 0) == Some(k as int) && k < ls.len(),
            None => first_play_line(seqs_of(ls@), 0) is None,
        },
{
    let ghost all = seqs_of(ls@);
    let m = chars_of("//#");
    let mut i: usize = 0;
    while i < ls.len()
        invariant
            i <= ls.len(),
            all == seqs_of(ls@),
            m@ == "//#"@,
            first_play_line(all, 0) == first_play_line(all, i as int),
        decreases ls.len() - i,
    {
        assert(all[i as int] == ls@[i as int]@);
        let t = crate::text::trim_start_exec(&ls[i]);
        if starts_with_exec(&t, &m) {
            return Some(i);
        }
        i = i + 1;
    }
    None
}

fn is_doc_line_exec(l: &Vec<char>) -> (b: bool)
    ensures
        b == is_doc_line(l@),
{
    let t = trim_exec(l);
    let m = chars_of("//!");
    starts_with_exec(&t, &m)
}

fn first_doc_line_exec(ls: &Vec<Vec<char>>) -> (r: Option<usize>)
    ensures
        match r {
            Some(k) => first_doc_line(seqs_of(ls@), 0) == Some(k as int) && k < ls.len(),
            None => first_doc_line(seqs_of(ls@), 0) is None,
        },
{
    let ghost all = seqs_of(ls@);
    let mut i: usize = 0;
    while i < ls.len()
        invariant
            i <= ls.len(),
            all == seqs_of(ls@),
            first_doc_line(all, 0) == first_doc_line(all, i as int),
        decreases ls.len() - i,
    {
        assert(all[i as int] == ls@[i as int]@);
        if is_doc_line_exec(&ls[i]) {
            return Some(i);
        }
        i = i + 1;
    }
    None
}

fn doc_run_end_exec(ls: &Vec<Vec<char>>, k: usize) -> (r: usize)
    requires
        k <= ls.len(),
    ensures
        r == doc_run_end(seqs_of(ls@), k as int),
        k <= r <= ls.len(),
{
    let ghost all = seqs_of(ls@);
    let mut i: usize = k;
    while i < ls.len()
        invariant
            k <= i <= ls.len(),
            all == seqs_of(ls@),
            doc_run_end(all, k as int) == doc_run_end(all, i as int),
        decreases ls.len() - i,
    {
        assert(all[i as int] == ls@[i as int]@);
        if !is_doc_line_exec(&ls[i]) {
            return i;
        }
        i = i + 1;
    }
    i
}

fn is_doc_deps_header_exec(l: &Vec<char>) -> (b: bool)
    ensures
        b == is_doc_deps_header(l@),
{
    let t = trim_exec(l);
    if t.len() < 3 {
        return false;
    }
    let rest = slice_exec(&t, 3, t.len());
    assert(rest@ =~= t@.skip(3));
    let body = trim_exec(&rest);
    let h = chars_of("[dependencies]");
    let r = starts_with_exec(&body, &h) && body.len() == h.len();
    proof {
        assert(body@.take(body@.len() as int) =~= body@);
    }
    r
}

fn doc_header_exec(ls: &Vec<Vec<char>>, k: usize, end: usize) -> (r: Option<usize>)
    requires
        end <= ls.len(),
    ensures
        match r {
            Some(h) => doc_header(seqs_of(ls@), k as int, end as int) == Some(h as int) && k <= h < end,
            None => doc_header(seqs_of(ls@), k as int, end as int) is None,
        },
{
    let ghost all = seqs_of(ls@);
    let mut i: usize = k;
    while i < end
        invariant
            k <= i,
            end <= ls.len(),
            all == seqs_of(ls@),
            doc_header(all, k as int, end as int) == doc_header(all, i as int, end as int),
        decreases end - i,
    {
        assert(all[i as int] == ls@[i as int]@);
        if is_doc_deps_header_exec(&ls[i]) {
            return Some(i);
        }
        i = i + 1;
    }
    None
}

fn field_end_exec(l: &Vec<char>) -> (r: usize)
    ensures
        r == field_end(l@),
        r <= l.len(),
{
    let a = crate::text::next_char_exec(l, ':', 0);
    if a < l.len() {
        crate::text::next_char_exec(l, ':', a + 1)
    } else {
        l.len()
    }
}

fn new_block_exec(dep: &Vec<char>) -> (r: Vec<char>)
    ensures
        r@ == new_block(dep@),
{
    let mut out = chars_of("/*\n[dependencies]\n");
    push_all(&mut out, dep);
    push_str(&mut out, "\n*/\n\n");
    out
}

fn block_inside_edit_exec(inside: &Vec<char>, dep: &Vec<char>) -> (r: (usize, Vec<char>))
    ensures
        (r.0 as int, r.1@) == block_inside_edit(inside@, dep@),
        r.0 <= inside.len(),
{
    let header = chars_of("[dependencies]");
    match find_exec(inside, &header, 0) {
        Some(pos) => {
            proof {
                crate::text::lemma_find_from(inside@, header@, 0);
            }
            let e = crate::text::next_char_exec(inside, '\n', pos);
            let mut t = chars_of("\n");
            push_all(&mut t, dep);
            (e, t)
        },
        None => {
            let mut t = line_break_before_exec(inside, inside.len());
            push_str(&mut t, "[dependencies]\n");
            push_all(&mut t, dep);
            push_str(&mut t, "\n");
            (inside.len(), t)
        },
    }
}

fn code_block_edit_exec(rest: &Vec<char>, a: usize, e: usize, dep: &Vec<char>) -> (r: (usize, Vec<char>))
    requires
        find(rest@, "//! ```cargo"@) matches Some(start) && a == start + "//! ```cargo"@.len(),
        find_from(rest@, "```"@, a as int) == Some(e as int),
        a <= e <= rest.len(),
    ensures
        (r.0 as int, r.1@) == code_block_edit(rest@, dep@),
        r.0 <= rest.len(),
{
    let header = chars_of("[dependencies]");
    let found = find_exec(rest, &header, a);
    proof {
        crate::text::lemma_find_from(rest@, header@, a as int);
    }
    let mut t: Vec<char> = Vec::new();
    match found {
        Some(h) => {
            if h <= e && e - h >= header.len() {
                let n = crate::text::next_char_exec(rest, '\n', h);
                if n < e {
                    push_str(&mut t, "//! ");
                    push_all(&mut t, dep);
                    push_str(&mut t, "\n");
                    return (n + 1, t);
                }
                push_str(&mut t, "\n//! ");
                push_all(&mut t, dep);
                push_str(&mut t, "\n//! ");
                return (e, t);
            }
        },
        None => {},
    }
    push_str(&mut t, "\n//! [dependencies]\n//! ");
    push_all(&mut t, dep);
    push_str(&mut t, "\n//! ");
    (e, t)
}

fn rest_edit_exec(rest: &Vec<char>, krate: &str, version: &str, dep: &Vec<char>) -> (r: (usize, Vec<char>))
    requires
        dep@ == new_dep_line(krate@, version@),
        edit_block(rest@) matches Some((start, end)) ==> end >= start + 2,
    ensures
        (r.0 as int, r.1@) == rest_edit(rest@, krate@, version@),
        r.0 <= rest.len(),
{
    let marker = chars_of("//! ```cargo");
    let fence = chars_of("```");
    proof {
        reveal_strlit("//! ```cargo");
    }
    match find_exec(rest, &marker, 0) {
        Some(start) => {
            proof {
                crate::text::lemma_find_from(rest@, marker@, 0);
                assert(find_from(rest@, marker@, 0) == Some(start as int));
                assert(crate::text::occurs_at(rest@, marker@, start as int));
                assert(start + marker@.len() <= rest@.len());
            }
            let total = rest.len();
            let ml = marker.len();
            assert(start + ml <= total);
            let a = start + ml;
            match find_exec(rest, &fence, a) {
                Some(e) => {
                    proof {
                        crate::text::lemma_find_from(rest@, fence@, a as int);
                    }
                    return code_block_edit_exec(rest, a, e, dep);
                },
                None => {},
            }
        },
        None => {},
    }
    assert(cargo_block_fragment(rest@) is None);
    match edit_block_exec(rest) {
        Some((start, end)) => {
            let inside = slice_exec(rest, start + 2, end);
            let (k, t) = block_inside_edit_exec(&inside, dep);
            return (start + 2 + k, t);
        },
        None => {},
    }
    let open = chars_of("/*");
    let close = chars_of("*/");
    let unclosed = match find_exec(rest, &open, 0) {
        Some(st) => {
            proof {
                crate::text::lemma_find_from(rest@, open@, 0);
            }
            if crate::text::all_ws_prefix_exec(rest, st) {
                match find_exec(rest, &close, st) {
                    Some(_) => false,
                    None => true,
                }
            } else {
                false
            }
        },
        None => false,
    };
    if unclosed {
        return (0, new_block_exec(dep));
    }
    let ls = lines_exec(rest);
    let ghost all = seqs_of(ls@);
    match first_deps_comment_exec(&ls) {
        Some(k) => {
            let lp = line_pos_exec(rest, k);
            assert(all[k as int] == ls@[k as int]@);
            let fe = field_end_exec(&ls[k]);
            proof {
                lemma_line_pos_line(rest@, 0, k as int);
            }
            let mut t = chars_of(", ");
            push_str(&mut t, krate);
            push_str(&mut t, "=\"");
            push_str(&mut t, version);
            push_str(&mut t, "\"");
            return (lp + fe, t);
        },
        None => {},
    }
    match first_play_line_exec(&ls) {
        Some(k) => {
            let p = line_pos_exec(rest, k + 1);
            let mut t = line_break_before_exec(rest, p);
            push_str(&mut t, "//# ");
            push_all(&mut t, dep);
            push_str(&mut t, "\n");
            return (p, t);
        },
        None => {},
    }
    match first_doc_line_exec(&ls) {
        Some(k) => {
            let end = doc_run_end_exec(&ls, k);
            match doc_header_exec(&ls, k, end) {
                Some(h) => {
                    let p = line_pos_exec(rest, h + 1);
                    let mut t = line_break_before_exec(rest, p);
                    push_str(&mut t, "//! ");
                    push_all(&mut t, dep);
                    push_str(&mut t, "\n");
                    (p, t)
                },
                None => {
                    let p = line_pos_exec(rest, end);
                    let mut t = line_break_before_exec(rest, p);
                    push_str(&mut t, "//! [dependencies]\n//! ");
                    push_all(&mut t, dep);
                    push_str(&mut t, "\n");
                    (p, t)
                },
            }
        },
        None => (0, new_block_exec(dep)),
    }
}

/// Whether [`add_dep`] can edit `source` (see [`add_dep_defined`]).
pub fn add_dep_applicable(source: &str) -> (b: bool)
    ensures
        b == add_dep_defined(source@),
{
    let s = chars_of(source);
    let mut rest = s.clone();
    if has_shebang_line_exec(&s) {
        let nl = crate::text::next_char_exec(&s, '\n', 0);
        if nl >= s.len() {
            return false;
        }
        rest = slice_exec(&s, nl + 1, s.len());
        assert(rest@ =~= after_shebang(s@));
    } else {
        assert(rest@ =~= after_shebang(s@));
    }
    match edit_block_exec(&rest) {
        Some((start, end)) => end >= start + 2,
        None => true,
    }
}

fn edit_block_exec(rest: &Vec<char>) -> (r: Option<(usize, usize)>)
    ensures
        match r {
            Some((a, b)) => edit_block(rest@) == Some((a as int, b as int)),
            None => edit_block(rest@) is None,
        },
        r matches Some((a, b)) ==> a <= b && b + 2 <= rest@.len(),
{
    let open = chars_of("/*");
    let close = chars_of("*/");
    proof {
        reveal_strlit("*/");
    }
    match find_exec(rest, &open, 0) {
        Some(start) => {
            proof {
                crate::text::lemma_find_from(rest@, open@, 0);
            }
            if crate::text::all_ws_prefix_exec(rest, start) {
                match find_exec(rest, &close, start) {
                    Some(end) => {
                        proof {
                            crate::text::lemma_find_from(rest@, close@, start as int);
                        }
                        Some((start, end))
                    },
                    None => None,
                }
            } else {
                None
            }
        },
        None => None,
    }
}

fn insert_at(s: &Vec<char>, p: usize, t: &Vec<char>) -> (r: Vec<char>)
    requires
        p <= s.len(),
    ensures
        r@ == s@.take(p as int) + t@ + s@.skip(p as int),
{
    let mut out = slice_exec(s, 0, p);
    push_all(&mut out, t);
    let tail = slice_exec(s, p, s.len());
    push_all(&mut out, &tail);
    assert(out@ =~= s@.take(p as int) + t@ + s@.skip(p as int));
    out
}

/// Injects the dependency `krate = "version"` into the script's metadata, in
/// whichever format the script declares it (creating a block when the script
/// has none), and returns the new script.
pub fn add_dep(source: &str, krate: &str, version: &str) -> (r: String)
    requires
        add_dep_defined(source@),
    ensures
        r@ == spec_add_dep(source@, krate@, version@),
{
    let s = chars_of(source);
    let mut dep = chars_of(krate);
    push_str(&mut dep, " = \"");
    push_str(&mut dep, version);
    push_str(&mut dep, "\"");
    let mut sh_len: usize = 0;
    let mut rest = s.clone();
    if has_shebang_line_exec(&s) {
        let nl = crate::text::next_char_exec(&s, '\n', 0);
        sh_len = nl + 1;
        rest = slice_exec(&s, nl + 1, s.len());
        assert(rest@ =~= after_shebang(s@));
    } else {
        assert(rest@ =~= after_shebang(s@));
    }
    assert(shebang_part(s@).len() == sh_len);
    let (p, t) = rest_edit_exec(&rest, krate, version, &dep);
    let out = insert_at(&s, sh_len + p, &t);
    string_of(&out)
}

// ───────────────────────────── inline evaluation ─────────────────────────────

pub open spec fn deps_view(deps: Seq<DepSpec>) -> Seq<DepModel> {
    Seq::new(deps.len(), |i: int| deps[i]@)
}

/// The concatenated UTF-8 bytes of some strings.
pub open spec fn concat_bytes(ss: Seq<Seq<char>>) -> Seq<u8>
    decreases ss.len(),
{
    if ss.len() == 0 {
        seq![]
    } else {
        concat_bytes(ss.drop_last()) + vstd::utf8::encode_utf8(ss.last())
    }
}

/// What identifies a dependency in the eval cache key: its name, version and
/// features, as bytes.
pub open spec fn dep_key_bytes(d: DepModel) -> Seq<u8> {
    vstd::utf8::encode_utf8(d.name) + vstd::utf8::encode_utf8(d.version) + concat_bytes(d.features)
}

pub open spec fn deps_key_bytes(ds: Seq<DepModel>) -> Seq<u8>
    decreases ds.len(),
{
    if ds.len() == 0 {
        seq![]
    } else {
        deps_key_bytes(ds.drop_last()) + dep_key_bytes(ds.last())
    }
}

/// The eval cache key: lower-case hex SHA-256 of the code, the dependencies
/// and the imports.
pub open spec fn spec_eval_hash(code: Seq<char>, deps: Seq<DepModel>, imports: Seq<Seq<char>>) -> Seq<char> {
    crate::digest::hex_lower(
        crate::digest::sha256_digest(
            vstd::utf8::encode_utf8(code) + deps_key_bytes(deps) + concat_bytes(imports),
        ),
    )
}

fn push_strings_bytes(data: &mut Vec<u8>, ss: &Vec<String>)
    ensures
        final(data)@ == old(data)@ + concat_bytes(strings_view(ss@)),
{
    let mut i: usize = 0;
    while i < ss.len()
        invariant
            i <= ss.len(),
            data@ == old(data)@ + concat_bytes(strings_view(ss@).take(i as int)),
        decreases ss.len() - i,
    {
        let ghost prev = data@;
        crate::cache::push_bytes(data, ss[i].as_str().as_bytes());
        assert(strings_view(ss@).take(i + 1).drop_last() =~= strings_view(ss@).take(i as int));
        i = i + 1;
        assert(data@ =~= old(data)@ + concat_bytes(strings_view(ss@).take(i as int)));
    }
    assert(strings_view(ss@).take(ss.len() as int) =~= strings_view(ss@));
}

/// Computes the eval cache key of a snippet with its dependencies and imports.
pub fn eval_hash(code: &str, deps: &[DepSpec], imports: &[String]) -> (r: String)
    ensures
        r@ == spec_eval_hash(code@, deps_view(deps@), strings_view(imports@)),
        r@.len() == 64,
        crate::cache::is_lower_hex(r@),
{
    let mut data: Vec<u8> = Vec::new();
    crate::cache::push_bytes(&mut data, code.as_bytes());
    let ghost code_bytes = data@;
    let mut i: usize = 0;
    while i < deps.len()
        invariant
            i <= deps.len(),
            data@ == code_bytes + deps_key_bytes(deps_view(deps@).take(i as int)),
        decreases deps.len() - i,
    {
        let d = &deps[i];
        crate::cache::push_bytes(&mut data, d.name.as_str().as_bytes());
        crate::cache::push_bytes(&mut data, d.version.as_str().as_bytes());
        push_strings_bytes(&mut data, &d.features);
        assert(deps_view(deps@).take(i + 1).drop_last() =~= deps_view(deps@).take(i as int));
        i = i + 1;
        assert(data@ =~= code_bytes + deps_key_bytes(deps_view(deps@).take(i as int)));
    }
    assert(deps_view(deps@).take(deps.len() as int) =~= deps_view(deps@));
    let mut j: usize = 0;
    let ghost with_deps = data@;
    while j < imports.len()
        invariant
            j <= imports.len(),
            data@ == with_deps + concat_bytes(strings_view(imports@).take(j as int)),
        decreases imports.len() - j,
    {
        crate::cache::push_bytes(&mut data, imports[j].as_str().as_bytes());
        assert(strings_view(imports@).take(j + 1).drop_last() =~= strings_view(imports@).take(
            j as int,
        ));
        j = j + 1;
        assert(data@ =~= with_deps + concat_bytes(strings_view(imports@).take(j as int)));
    }
    assert(strings_view(imports@).take(imports.len() as int) =~= strings_view(imports@));
    let digest = crate::digest::sha256(data.as_slice());
    proof {
        crate::digest::lemma_hex_lower_len(digest@);
        crate::digest::lemma_hex_lower_digits(digest@);
    }
    crate::digest::hex_encode(digest.as_slice())
}

/// The `use` lines of the imports.
pub open spec fn use_lines(imports: Seq<Seq<char>>) -> Seq<char>
    decreases imports.len(),
{
    if imports.len() == 0 {
        seq![]
    } else {
        use_lines(imports.drop_last()) + "use "@ + imports.last() + ";\n"@
    }
}

/// The program compiled for `rfast -e`: the imports, then the code, wrapped
/// in `fn main` unless it already starts with one.
pub open spec fn spec_eval_source(code: Seq<char>, imports: Seq<Seq<char>>) -> Seq<char> {
    let header = if imports.len() == 0 {
        seq![]
    } else {
        "#[allow(unused_imports)]\n"@ + use_lines(imports) + "\n"@
    };
    let body = if starts_with(crate::text::trim_start(code), "fn main"@) {
        code
    } else {
        "fn main() {\n    "@ + code + "\n}"@
    };
    header + body
}

/// Builds the source of an evaluated snippet.
pub fn eval_source(code: &str, imports: &[String]) -> (r: String)
    ensures
        r@ == spec_eval_source(code@, strings_view(imports@)),
{
    let mut out: Vec<char> = Vec::new();
    if imports.len() > 0 {
        push_str(&mut out, "#[allow(unused_imports)]\n");
        let ghost head = out@;
        let mut i: usize = 0;
        while i < imports.len()
            invariant
                i <= imports.len(),
                out@ == head + use_lines(strings_view(imports@).take(i as int)),
            decreases imports.len() - i,
        {
            push_str(&mut out, "use ");
            push_str(&mut out, imports[i].as_str());
            push_str(&mut out, ";\n");
            assert(strings_view(imports@).take(i + 1).drop_last() =~= strings_view(imports@).take(
                i as int,
            ));
            i = i + 1;
            assert(out@ =~= head + use_lines(strings_view(imports@).take(i as int)));
        }
        assert(strings_view(imports@).take(imports.len() as int) =~= strings_view(imports@));
        push_str(&mut out, "\n");
    }
    let c = chars_of(code);
    let t = crate::text::trim_start_exec(&c);
    let fn_main = chars_of("fn main");
    if starts_with_exec(&t, &fn_main) {
        push_all(&mut out, &c);
    } else {
        push_str(&mut out, "fn main() {\n    ");
        push_all(&mut out, &c);
        push_str(&mut out, "\n}");
    }
    string_of(&out)
}

/// The quoted features of a dependency.
pub open spec fn quoted(fs: Seq<Seq<char>>) -> Seq<Seq<char>> {
    fs.map_values(|f: Seq<char>| "\""@ + f + "\""@)
}

/// The manifest line of an eval dependency.
pub open spec fn eval_dep_line(d: DepModel) -> Seq<char> {
    if d.features.len() == 0 {
        d.name + " = \""@ + d.version + "\"\n"@
    } else {
        d.name + " = { version = \""@ + d.version + "\", features = ["@ + join(quoted(d.features), ", "@)
            + "] }\n"@
    }
}

pub open spec fn eval_dep_lines(ds: Seq<DepModel>) -> Seq<char>
    decreases ds.len(),
{
    if ds.len() == 0 {
        seq![]
    } else {
        eval_dep_lines(ds.drop_last()) + eval_dep_line(ds.last())
    }
}

/// The `Cargo.toml` of an evaluated snippet with dependencies.
pub open spec fn spec_eval_manifest(deps: Seq<DepModel>) -> Seq<char> {
    "[package]\nname = \"rfast-eval\"\nversion = \"0.1.0\"\nedition = \"2024\"\n\n[dependencies]\n"@
        + eval_dep_lines(deps) + "\n"@
}

fn eval_dep_line_exec(d: &DepSpec) -> (r: Vec<char>)
    ensures
        r@ == eval_dep_line(d@),
{
    let mut out = chars_of(d.name.as_str());
    if d.features.len() == 0 {
        push_str(&mut out, " = \"");
        push_str(&mut out, d.version.as_str());
        push_str(&mut out, "\"\n");
    } else {
        push_str(&mut out, " = { version = \"");
        push_str(&mut out, d.version.as_str());
        push_str(&mut out, "\", features = [");
        let mut quoted_features: Vec<Vec<char>> = Vec::new();
        let mut i: usize = 0;
        while i < d.features.len()
            invariant
                i <= d.features.len(),
                seqs_of(quoted_features@) == quoted(strings_view(d.features@).take(i as int)),
            decreases d.features.len() - i,
        {
            let mut q = chars_of("\"");
            push_str(&mut q, d.features[i].as_str());
            push_str(&mut q, "\"");
            let ghost prev = seqs_of(quoted_features@);
            quoted_features.push(q);
            assert(seqs_of(quoted_features@) =~= prev.push(q@));
            i = i + 1;
            assert(seqs_of(quoted_features@) =~= quoted(strings_view(d.features@).take(i as int)));
        }
        assert(strings_view(d.features@).take(d.features.len() as int) =~= strings_view(
            d.features@,
        ));
        let sep = chars_of(", ");
        let joined = join_exec(&quoted_features, &sep);
        push_all(&mut out, &joined);
        push_str(&mut out, "] }\n");
    }
    out
}

/// Builds the `Cargo.toml` of an evaluated snippet with dependencies.
pub fn eval_manifest(deps: &[DepSpec]) -> (r: String)
    ensures
        r@ == spec_eval_manifest(deps_view(deps@)),
{
    let mut out = chars_of(
        "[package]\nname = \"rfast-eval\"\nversion = \"0.1.0\"\nedition = \"2024\"\n\n[dependencies]\n",
    );
    let ghost head = out@;
    let mut i: usize = 0;
    while i < deps.len()
        invariant
            i <= deps.len(),
            out@ == head + eval_dep_lines(deps_view(deps@).take(i as int)),
        decreases deps.len() - i,
    {
        let line = eval_dep_line_exec(&deps[i]);
        push_all(&mut out, &line);
        assert(deps_view(deps@).take(i + 1).drop_last() =~= deps_view(deps@).take(i as int));
        i = i + 1;
        assert(out@ =~= head + eval_dep_lines(deps_view(deps@).take(i as int)));
    }
    assert(deps_view(deps@).take(deps.len() as int) =~= deps_view(deps@));
    push_str(&mut out, "\n");
    string_of(&out)
}

/// What `eval` does next.
#[derive(Debug, Clone, Copy, PartialEq, Eq)]
pub enum EvalStep {
    /// Run the binary already in the eval cache.
    RunCached,
    /// Compile the snippet alone with `rustc`.
    CompileWithRustc,
    /// Compile the snippet in a Cargo project with its dependencies.
    CompileWithCargo,
}

/// `eval` reuses a cached binary unless forced; otherwise it compiles with
/// `rustc` when there are no dependencies, with Cargo when there are.
pub open spec fn spec_eval_step(force: bool, binary_exists: bool, dep_count: nat) -> EvalStep {
    if !force && binary_exists {
        EvalStep::RunCached
    } else if dep_count == 0 {
        EvalStep::CompileWithRustc
    } else {
        EvalStep::CompileWithCargo
    }
}

/// Decides how `eval` obtains the binary of a snippet.
pub fn eval_step(force: bool, binary_exists: bool, dep_count: usize) -> (r: EvalStep)
    ensures
        r == spec_eval_step(force, binary_exists, dep_count as nat),
{
    if !force && binary_exists {
        EvalStep::RunCached
    } else if dep_count == 0 {
        EvalStep::CompileWithRustc
    } else {
        EvalStep::CompileWithCargo
    }
}


// ───────────────────────────── laws ─────────────────────────────

proof fn lemma_cut_line_comment_from(l: Seq<char>, p: int, i: int, in_str: bool)
    requires
        0 <= i <= p,
        comment_start_from(l, i, in_str) == Some(p),
    ensures
        comment_start_from(l.take(p), i, in_str) is None,
    decreases p - i,
{
    lemma_comment_start_bounds(l, i, in_str);
    let t = l.take(p);
    if i < p {
        assert(t[i] == l[i]);
        if l[i] == '"' {
            lemma_cut_line_comment_from(l, p, i + 1, !in_str);
        } else {
            if i + 1 < p {
                assert(t[i + 1] == l[i + 1]);
            }
            lemma_cut_line_comment_from(l, p, i + 1, in_str);
        }
    }
}

proof fn lemma_cut_line_comment(l: Seq<char>)
    ensures
        comment_start(cut_line_comment(l)) is None,
{
    lemma_comment_start_bounds(l, 0, false);
    if let Some(p) = comment_start(l) {
        lemma_cut_line_comment_from(l, p, 0, false);
    }
}

/// Every dependency line of a generated manifest is free of `//` comments
/// (outside string literals) and is not blank.
pub proof fn law_manifest_dependency_lines_are_clean(ls: Seq<Seq<char>>)
    ensures
        forall|i: int|
            0 <= i < kept_dep_lines(ls).len() ==> comment_start(#[trigger] kept_dep_lines(ls)[i]) is None
                && trim(kept_dep_lines(ls)[i]).len() > 0,
    decreases ls.len(),
{
    if ls.len() > 0 {
        law_manifest_dependency_lines_are_clean(ls.drop_last());
        lemma_cut_line_comment(ls.last());
    }
}

/// A dependency line that is not blank and holds no `//` comment outside
/// string literals reaches the manifest unchanged (so `git = "https://..."`
/// and any other string survive).
pub proof fn law_uncommented_dependency_lines_are_kept(ls: Seq<Seq<char>>, k: int)
    requires
        0 <= k < ls.len(),
        comment_start(ls[k]) is None,
        trim(ls[k]).len() > 0,
    ensures
        kept_dep_lines(ls).contains(ls[k]),
    decreases ls.len(),
{
    let rest = kept_dep_lines(ls.drop_last());
    if k == ls.len() - 1 {
        assert(kept_dep_lines(ls) == rest.push(ls[k]));
        assert(kept_dep_lines(ls)[rest.len() as int] == ls[k]);
    } else {
        assert(ls.drop_last()[k] == ls[k]);
        law_uncommented_dependency_lines_are_kept(ls.drop_last(), k);
        let j = choose|j: int| 0 <= j < rest.len() && rest[j] == ls[k];
        if trim(cut_line_comment(ls.last())).len() > 0 {
            assert(kept_dep_lines(ls)[j] == ls[k]);
        }
    }
}

proof fn lemma_site_ranges(ls: Seq<Seq<char>>, i: int, end: int)
    requires
        0 <= i,
    ensures
        first_deps_comment(ls, i) matches Some(k) ==> i <= k < ls.len(),
        first_play_line(ls, i) matches Some(k) ==> i <= k < ls.len() && starts_with(
            trim_start(ls[k]),
            "//#"@,
        ),
        first_doc_line(ls, i) matches Some(k) ==> i <= k < ls.len() && is_doc_line(ls[k]),
        i <= ls.len() ==> i <= doc_run_end(ls, i) <= ls.len(),
        doc_header(ls, i, end) matches Some(h) ==> i <= h < end && h < ls.len(),
    decreases ls.len() + (if end > i { end - i } else { 0 }) - i,
{
    if i < ls.len() {
        lemma_site_ranges(ls, i + 1, end);
    }
}

proof fn lemma_rest_edit_bounds(rest: Seq<char>, krate: Seq<char>, version: Seq<char>)
    requires
        edit_block(rest) matches Some((start, end)) ==> end >= start + 2,
    ensures
        0 <= rest_edit(rest, krate, version).0 <= rest.len(),
{
    reveal_strlit("//! ```cargo");
    reveal_strlit("```");
    reveal_strlit("[dependencies]");
    reveal_strlit("/*");
    reveal_strlit("*/");
    let ls = lines(rest);
    match metadata_site(rest) {
        MetadataSite::CodeBlock => {
            let m = "//! ```cargo"@;
            crate::text::lemma_find_from(rest, m, 0);
            let start = find(rest, m)->0;
            let a = start + m.len();
            crate::text::lemma_find_from(rest, "```"@, a);
            crate::text::lemma_find_from(rest, "[dependencies]"@, a);
            if let Some(h) = find_from(rest, "[dependencies]"@, a) {
                crate::text::lemma_next_char(rest, '\n', h);
            }
        },
        MetadataSite::Block(start, end) => {
            crate::text::lemma_find_from(rest, "/*"@, 0);
            crate::text::lemma_find_from(rest, "*/"@, start);
            let inside = rest.subrange(start + 2, end);
            crate::text::lemma_find_from(inside, "[dependencies]"@, 0);
            if let Some(pos) = find(inside, "[dependencies]"@) {
                crate::text::lemma_next_char(inside, '\n', pos);
            }
        },
        MetadataSite::DepsComment(k) => {
            lemma_site_ranges(ls, 0, 0);
            lemma_line_pos_line(rest, 0, k);
            crate::text::lemma_next_char(ls[k], ':', 0);
            let a = next_char(ls[k], ':', 0);
            if a < ls[k].len() {
                crate::text::lemma_next_char(ls[k], ':', a + 1);
            }
        },
        MetadataSite::PlayLines(k) => {
            lemma_site_ranges(ls, 0, 0);
            lemma_line_pos_bounds(rest, 0, (k + 1) as nat);
        },
        MetadataSite::DocLines(k) => {
            lemma_site_ranges(ls, 0, 0);
            let end = doc_run_end(ls, k);
            lemma_site_ranges(ls, k, end);
            lemma_line_pos_bounds(rest, 0, end as nat);
            if let Some(h) = doc_header(ls, k, end) {
                lemma_line_pos_bounds(rest, 0, (h + 1) as nat);
            }
        },
        MetadataSite::NoMetadata => {},
    }
}

/// Adding a dependency only inserts text, at one place, after the shebang
/// line: the new script is the old one with the text of [`add_edit`] put in
/// at its position; no character of the script is removed or changed.
pub proof fn law_add_dep_only_inserts(source: Seq<char>, krate: Seq<char>, version: Seq<char>)
    requires
        add_dep_defined(source),
    ensures
        shebang_part(source).len() <= add_edit(source, krate, version).0 <= source.len(),
        spec_add_dep(source, krate, version) == source.take(add_edit(source, krate, version).0)
            + add_edit(source, krate, version).1 + source.skip(add_edit(source, krate, version).0),
{
    crate::text::lemma_next_char(source, '\n', 0);
    assert(source =~= shebang_part(source) + after_shebang(source));
    lemma_rest_edit_bounds(after_shebang(source), krate, version);
}

proof fn lemma_contains_mid(pre: Seq<char>, x: Seq<char>, d: Seq<char>, y: Seq<char>, post: Seq<char>)
    ensures
        crate::text::contains(pre + (x + d + y) + post, d),
{
    let s = pre + (x + d + y) + post;
    let i = (pre.len() + x.len()) as int;
    assert(s.subrange(i, i + d.len()) =~= d);
    assert(crate::text::occurs_at(s, d, i));
    crate::text::lemma_find_from(s, d, 0);
}

/// Adding a dependency keeps the shebang line in front, and the script then
/// holds the line `krate = "version"` (for a `cargo-deps` comment, the item
/// `krate="version"`).
pub proof fn law_add_dep_keeps_script(source: Seq<char>, krate: Seq<char>, version: Seq<char>)
    requires
        add_dep_defined(source),
    ensures
        starts_with(spec_add_dep(source, krate, version), shebang_part(source)),
        metadata_site(after_shebang(source)) is DepsComment ==> crate::text::contains(
            spec_add_dep(source, krate, version),
            deps_item(krate, version),
        ),
        !(metadata_site(after_shebang(source)) is DepsComment) ==> crate::text::contains(
            spec_add_dep(source, krate, version),
            new_dep_line(krate, version),
        ),
{
    law_add_dep_only_inserts(source, krate, version);
    let dep = new_dep_line(krate, version);
    let rest = after_shebang(source);
    let e = add_edit(source, krate, version);
    let pre = source.take(e.0);
    let post = source.skip(e.0);
    let t = e.1;
    let r = spec_add_dep(source, krate, version);
    let sh = shebang_part(source);
    crate::text::lemma_next_char(source, '\n', 0);
    assert(source.take(sh.len() as int) =~= sh);
    assert(r.take(sh.len() as int) =~= pre.take(sh.len() as int));
    assert(r.take(sh.len() as int) =~= sh);
    let ls = lines(rest);
    let e0 = Seq::<char>::empty();
    match metadata_site(rest) {
        MetadataSite::CodeBlock => {
            let m = "//! ```cargo"@;
            let start = find(rest, m)->0;
            let a = start + m.len();
            let fe = find_from(rest, "```"@, a)->0;
            match find_from(rest, "[dependencies]"@, a) {
                Some(h) => if h + "[dependencies]"@.len() <= fe {
                    if next_char(rest, '\n', h) < fe {
                        assert(t =~= "//! "@ + dep + "\n"@);
                        lemma_contains_mid(pre, "//! "@, dep, "\n"@, post);
                    } else {
                        assert(t =~= "\n//! "@ + dep + "\n//! "@);
                        lemma_contains_mid(pre, "\n//! "@, dep, "\n//! "@, post);
                    }
                } else {
                    assert(t =~= "\n//! [dependencies]\n//! "@ + dep + "\n//! "@);
                    lemma_contains_mid(pre, "\n//! [dependencies]\n//! "@, dep, "\n//! "@, post);
                },
                None => {
                    assert(t =~= "\n//! [dependencies]\n//! "@ + dep + "\n//! "@);
                    lemma_contains_mid(pre, "\n//! [dependencies]\n//! "@, dep, "\n//! "@, post);
                },
            }
        },
        MetadataSite::Block(start, end) => {
            let inside = rest.subrange(start + 2, end);
            match find(inside, "[dependencies]"@) {
                Some(_) => {
                    assert(t =~= "\n"@ + dep + e0);
                    lemma_contains_mid(pre, "\n"@, dep, e0, post);
                },
                None => {
                    let x = line_break_before(inside, inside.len() as int) + "[dependencies]\n"@;
                    assert(t =~= x + dep + "\n"@);
                    lemma_contains_mid(pre, x, dep, "\n"@, post);
                },
            }
        },
        MetadataSite::DepsComment(k) => {
            assert(t =~= e0 + deps_item(krate, version) + e0);
            lemma_contains_mid(pre, e0, deps_item(krate, version), e0, post);
        },
        MetadataSite::PlayLines(k) => {
            let x = line_break_before(rest, line_pos(rest, k + 1)) + "//# "@;
            assert(t =~= x + dep + "\n"@);
            lemma_contains_mid(pre, x, dep, "\n"@, post);
        },
        MetadataSite::DocLines(k) => {
            let end = doc_run_end(ls, k);
            match doc_header(ls, k, end) {
                Some(h) => {
                    let x = line_break_before(rest, line_pos(rest, h + 1)) + "//! "@;
                    assert(t =~= x + dep + "\n"@);
                    lemma_contains_mid(pre, x, dep, "\n"@, post);
                },
                None => {
                    let x = line_break_before(rest, line_pos(rest, end)) + "//! [dependencies]\n//! "@;
                    assert(t =~= x + dep + "\n"@);
                    lemma_contains_mid(pre, x, dep, "\n"@, post);
                },
            }
        },
        MetadataSite::NoMetadata => {
            assert(t =~= "/*\n[dependencies]\n"@ + dep + "\n*/\n\n"@);
            lemma_contains_mid(pre, "/*\n[dependencies]\n"@, dep, "\n*/\n\n"@, post);
        },
    }
}

proof fn lemma_insert_in_block(rest: Seq<char>, start: int, end: int, k: int, ins: Seq<char>)
    requires
        0 <= start,
        start + 2 <= end,
        end + 2 <= rest.len(),
        0 <= k <= end - start - 2,
    ensures
        ({
            let inside = rest.subrange(start + 2, end);
            let p = start + 2 + k;
            rest.take(start) + rest.subrange(start, start + 2) + (inside.take(k) + ins + inside.skip(k))
                + rest.subrange(end, end + 2) + rest.skip(end + 2) == rest.take(p) + ins + rest.skip(p)
        }),
{
    let inside = rest.subrange(start + 2, end);
    let p = start + 2 + k;
    assert(rest.take(p) =~= rest.take(start) + rest.subrange(start, start + 2) + inside.take(k));
    assert(rest.skip(p) =~= inside.skip(k) + rest.subrange(end, end + 2) + rest.skip(end + 2));
    assert(rest.take(start) + rest.subrange(start, start + 2) + (inside.take(k) + ins + inside.skip(k))
        + rest.subrange(end, end + 2) + rest.skip(end + 2) =~= rest.take(p) + ins + rest.skip(p));
}

/// `add`'s script after the shebang line.
pub open spec fn edited_body(source: Seq<char>, krate: Seq<char>, version: Seq<char>) -> Seq<char> {
    let rest = after_shebang(source);
    let e = rest_edit(rest, krate, version);
    rest.take(e.0) + e.1 + rest.skip(e.0)
}

proof fn lemma_edited_body_of_block(source: Seq<char>, krate: Seq<char>, version: Seq<char>)
    requires
        add_dep_defined(source),
        metadata_site(after_shebang(source)) is Block,
    ensures
        ({
            let rest = after_shebang(source);
            let (start, end) = edit_block(rest)->0;
            edited_body(source, krate, version) == rest.take(start) + "/*"@ + inside_with_dep(
                rest.subrange(start + 2, end),
                new_dep_line(krate, version),
            ) + "*/"@ + rest.skip(end + 2)
        }),
{
    reveal_strlit("/*");
    reveal_strlit("*/");
    let rest = after_shebang(source);
    let (start, end) = edit_block(rest)->0;
    crate::text::lemma_find_from(rest, "/*"@, 0);
    crate::text::lemma_find_from(rest, "*/"@, start);
    assert(rest.subrange(start, start + 2) == "/*"@);
    assert(rest.subrange(end, end + 2) == "*/"@);
    let inside = rest.subrange(start + 2, end);
    let dep = new_dep_line(krate, version);
    crate::text::lemma_find_from(inside, "[dependencies]"@, 0);
    if let Some(pos) = find(inside, "[dependencies]"@) {
        crate::text::lemma_next_char(inside, '\n', pos);
    }
    let ed = block_inside_edit(inside, dep);
    lemma_insert_in_block(rest, start, end, ed.0, ed.1);
}

#[verifier::spinoff_prover]
proof fn lemma_doc_edit_facts(rest: Seq<char>, krate: Seq<char>, version: Seq<char>)
    requires
        metadata_site(rest) is DocLines,
        line_break_before(rest, rest_edit(rest, krate, version).0) == Seq::<char>::empty(),
    ensures
        ({
            let e = rest_edit(rest, krate, version);
            &&& e.1.len() > 0 && e.1[0] == '/'
            &&& 0 <= e.0 <= rest.len()
            &&& e.0 == rest.len() || (e.0 >= 1 && rest[e.0 - 1] == '\n')
        }),
{
    reveal_strlit("//! ");
    reveal_strlit("//! [dependencies]\n//! ");
    let ls = lines(rest);
    let k = metadata_site(rest)->DocLines_0;
    lemma_site_ranges(ls, 0, 0);
    let end = doc_run_end(ls, k);
    lemma_site_ranges(ls, k, end);
    let j = match doc_header(ls, k, end) {
        Some(h) => h + 1,
        None => end,
    };
    assert(is_doc_line(ls[k]));
    lemma_site_ranges(ls, k + 1, 0);
    assert(end == doc_run_end(ls, k + 1));
    assert(j >= 1);
    lemma_line_pos_after_break(rest, 0, j as nat);
    lemma_line_pos_bounds(rest, 0, j as nat);
    let e = rest_edit(rest, krate, version);
    assert(e.0 == line_pos(rest, j));
}

#[verifier::spinoff_prover]
proof fn lemma_strip_edited_shebang(source: Seq<char>, krate: Seq<char>, version: Seq<char>)
    requires
        add_dep_defined(source),
        metadata_site(after_shebang(source)) is Block || metadata_site(after_shebang(source)) is NoMetadata
            || ((metadata_site(after_shebang(source)) is DocLines || metadata_site(
            after_shebang(source),
        ) is PlayLines) && line_break_before(
            after_shebang(source),
            rest_edit(after_shebang(source), krate, version).0,
        ) == Seq::<char>::empty()),
    ensures
        spec_strip_shebang(spec_add_dep(source, krate, version)) == edited_body(source, krate, version),
{
    reveal_strlit("#!");
    reveal_strlit("#![");
    reveal_strlit("/*");
    law_add_dep_only_inserts(source, krate, version);
    let new = spec_add_dep(source, krate, version);
    let body = edited_body(source, krate, version);
    let sh = shebang_part(source);
    let rest = after_shebang(source);
    crate::text::lemma_next_char(source, '\n', 0);
    lemma_rest_edit_bounds(rest, krate, version);
    assert(source =~= sh + rest);
    let e = rest_edit(rest, krate, version);
    assert(source.take(sh.len() + e.0) =~= sh + rest.take(e.0));
    assert(source.skip(sh.len() + e.0) =~= rest.skip(e.0));
    assert(new =~= sh + body);
    if has_shebang(source) {
        let nl = next_char(source, '\n', 0);
        assert(source[0] == '#' && source[1] == '!') by {
            assert(source.take(2)[0] == source[0]);
            assert(source.take(2)[1] == source[1]);
        }
        assert(nl >= 2);
        assert(new.take(2) =~= source.take(2));
        assert forall|k: int| 0 <= k < nl implies new[k] != '\n' by {
            assert(new[k] == source[k]);
        }
        assert(new[nl] == source[nl]);
        assert(new[2] == source[2]);
        assert(!starts_with(new, "#!["@)) by {
            if starts_with(new, "#!["@) {
                assert(new.take(3) =~= source.take(3));
            }
        }
        crate::text::lemma_next_char_at(new, '\n', 0, nl);
        assert(new.skip(nl + 1) =~= body);
    } else if metadata_site(rest) is DocLines {
        assert(new =~= body);
        lemma_doc_edit_facts(rest, krate, version);
        lemma_no_new_shebang(rest, e.0, e.1);
    } else if metadata_site(rest) is PlayLines {
        assert(new =~= body);
        lemma_play_edit_facts(rest, krate, version);
        reveal_strlit("//# ");
        assert(e.1.len() > 0);
        lemma_no_new_shebang(rest, e.0, e.1);
    } else {
        assert(new =~= body);
        if body.len() >= 2 {
            match metadata_site(rest) {
                MetadataSite::Block(start, end) => {
                    lemma_edited_body_of_block(source, krate, version);
                    crate::text::lemma_find_from(rest, "/*"@, 0);
                    if start > 0 {
                        assert(body[0] == rest.take(start)[0]);
                        assert(crate::text::is_ws(rest.take(start)[0]));
                    } else {
                        assert(body[0] == '/');
                    }
                },
                _ => {
                    reveal_strlit("/*\n[dependencies]\n");
                    assert(body[0] == '/');
                },
            }
            assert(body.take(2)[0] == body[0]);
        }
    }
}

/// Reading back a `-d` argument written as `name=version` gives the same
/// name and version, without features (for a trimmed name without `=` and a
/// trimmed version without `,`).
pub proof fn law_dep_spec_round_trip(name: Seq<char>, version: Seq<char>)
    requires
        trim(name) == name,
        trim(version) == version,
        !crate::text::has_char(name, '='),
        !crate::text::has_char(version, ','),
    ensures
        spec_parse_dep_spec(name + "="@ + version) == (DepModel {
            name,
            version,
            features: seq![],
        }),
{
    reveal_strlit("=");
    let s = name + "="@ + version;
    crate::text::lemma_next_char(name, '=', 0);
    crate::text::lemma_next_char(s, '=', 0);
    crate::text::lemma_next_char(version, ',', 0);
    assert forall|k: int| 0 <= k < name.len() implies s[k] != '=' by {
        assert(s[k] == name[k]);
    }
    assert(s[name.len() as int] == '=');
    crate::text::lemma_next_char_at(s, '=', 0, name.len() as int);
    assert(s.take(name.len() as int) =~= name);
    assert(s.skip(name.len() as int + 1) =~= version);
}


proof fn lemma_dep_line_shape(krate: Seq<char>, version: Seq<char>)
    ensures
        new_dep_line(krate, version).len() > 0,
        new_dep_line(krate, version).last() == '"',
{
    reveal_strlit("\"");
}

proof fn lemma_header_free() 
    ensures
        crate::text::free_of("[dependencies]\n"@, "*/"@),
        crate::text::free_of("\n[dependencies]\n"@, "*/"@),
        crate::text::free_of("\n"@, "*/"@),
{
    reveal_strlit("*/");
    reveal_strlit("[dependencies]\n");
    reveal_strlit("\n[dependencies]\n");
    reveal_strlit("\n");
    crate::text::lemma_free_of_missing_char("[dependencies]\n"@, "*/"@);
    crate::text::lemma_free_of_missing_char("\n[dependencies]\n"@, "*/"@);
    crate::text::lemma_free_of_short("\n"@, "*/"@);
}

/// The facts about the new dependency line that reading it back relies on.
pub open spec fn readable_dep_line(dep: Seq<char>) -> bool {
    &&& dep.len() > 0
    &&& dep.last() != '\r'
    &&& forall|k: int| 0 <= k < dep.len() ==> dep[k] != '\n'
    &&& crate::text::free_of(dep, "*/"@)
}

/// What the block reader yields for a block whose inside is `ni`.
pub open spec fn read_inside(ni: Seq<char>) -> Seq<char> {
    if ni[0] == '!' || ni[0] == '*' {
        ni.skip(1)
    } else {
        ni
    }
}

#[verifier::spinoff_prover]
proof fn lemma_inside_with_dep(inside: Seq<char>, dep: Seq<char>)
    requires
        readable_dep_line(dep),
        crate::text::free_of(inside, "*/"@),
        inside.len() > 0 ==> inside[0] != '/',
    ensures
        inside_with_dep(inside, dep).len() > 0,
        inside_with_dep(inside, dep)[0] != '/',
        crate::text::free_of(inside_with_dep(inside, dep), "*/"@),
        lines(read_inside(inside_with_dep(inside, dep))).contains(dep),
{
    reveal_strlit("*/");
    reveal_strlit("\n");
    lemma_header_free();
    let ni = inside_with_dep(inside, dep);
    let hdr = "[dependencies]"@;
    match find(inside, hdr) {
        Some(p) => {
            reveal_strlit("[dependencies]");
            crate::text::lemma_find_from(inside, hdr, 0);
            crate::text::lemma_next_char(inside, '\n', p);
            let e = next_char(inside, '\n', p);
            assert(inside[p] == '[') by {
                assert(inside.subrange(p, p + hdr.len())[0] == inside[p]);
            }
            assert(e > 0);
            let a = inside.take(e);
            let bb = inside.skip(e);
            crate::text::lemma_free_of_subrange(inside, "*/"@, 0, e);
            crate::text::lemma_free_of_subrange(inside, "*/"@, e, inside.len() as int);
            assert(a =~= inside.subrange(0, e));
            assert(bb =~= inside.subrange(e, inside.len() as int));
            crate::text::lemma_free_of_concat2(a, "\n"@, "*/"@);
            crate::text::lemma_free_of_concat2(a + "\n"@, dep, "*/"@);
            if bb.len() > 0 {
                assert(bb[0] == '\n');
            }
            crate::text::lemma_free_of_concat2(a + "\n"@ + dep, bb, "*/"@);
            assert(ni =~= a + "\n"@ + dep + bb);
            assert(ni[0] == inside[0]);
            if ni[0] == '!' || ni[0] == '*' {
                let inner = ni.skip(1);
                let i = a.len() as int;
                assert(inner =~= a.skip(1) + "\n"@ + dep + bb);
                assert(inner.subrange(i, i + dep.len()) =~= dep);
                crate::text::lemma_line_at(inner, i, dep);
            } else {
                let i = a.len() as int + 1;
                assert(ni.subrange(i, i + dep.len()) =~= dep);
                crate::text::lemma_line_at(ni, i, dep);
            }
        },
        None => {
            reveal_strlit("[dependencies]\n");
            let h = "[dependencies]\n"@;
            let lb = line_break_before(inside, inside.len() as int);
            let x = inside + lb;
            if inside.len() > 0 && inside.last() != '\n' {
                assert(lb =~= "\n"@);
                crate::text::lemma_free_of_concat2(inside, "\n"@, "*/"@);
            } else {
                assert(x =~= inside);
            }
            assert(crate::text::free_of(x, "*/"@));
            assert(x.len() > 0 ==> x.last() != '*') by {
                if inside.len() > 0 && inside.last() != '\n' {
                    assert(x.last() == '\n');
                } else if inside.len() > 0 {
                    assert(x.last() == inside.last());
                }
            }
            crate::text::lemma_free_of_concat2(x, h, "*/"@);
            crate::text::lemma_free_of_concat2(x + h, dep, "*/"@);
            crate::text::lemma_free_of_concat2(x + h + dep, "\n"@, "*/"@);
            assert(ni =~= x + h + dep + "\n"@);
            let i = (x.len() + h.len()) as int;
            assert(ni[i - 1] == '\n');
            assert(ni.subrange(i, i + dep.len()) =~= dep);
            assert(ni[i + dep.len()] == '\n');
            if inside.len() == 0 {
                assert(ni[0] == '[');
                crate::text::lemma_line_at(ni, i, dep);
            } else {
                assert(ni[0] == inside[0]);
                if ni[0] == '!' || ni[0] == '*' {
                    let inner = ni.skip(1);
                    assert(inner.subrange(i - 1, i - 1 + dep.len()) =~= dep);
                    assert(inner[i - 2] == '\n');
                    assert(inner[i - 1 + dep.len()] == '\n');
                    crate::text::lemma_line_at(inner, i - 1, dep);
                } else {
                    crate::text::lemma_line_at(ni, i, dep);
                }
            }
        },
    }
}

#[verifier::spinoff_prover]
proof fn lemma_read_back_existing_block(rest: Seq<char>, dep: Seq<char>)
    requires
        readable_dep_line(dep),
        edit_block(rest) matches Some((start, end)) && end >= start + 2,
    ensures
        ({
            let (start, end) = edit_block(rest)->0;
            let ni = inside_with_dep(rest.subrange(start + 2, end), dep);
            block_comment_scan(rest.take(start) + "/*"@ + ni + "*/"@ + rest.skip(end + 2))
                == BlockScan::Inner(read_inside(ni)) && lines(read_inside(ni)).contains(dep)
        }),
{
    reveal_strlit("/*");
    reveal_strlit("*/");
    let (start, end) = edit_block(rest)->0;
    crate::text::lemma_find_from(rest, "/*"@, 0);
    crate::text::lemma_find_from(rest, "*/"@, start);
    let pre = rest.take(start);
    let inside = rest.subrange(start + 2, end);
    assert forall|j: int| !#[trigger] crate::text::occurs_at(inside, "*/"@, j) by {
        if crate::text::occurs_at(inside, "*/"@, j) {
            assert(inside.subrange(j, j + 2) =~= rest.subrange(start + 2 + j, start + 4 + j));
            assert(crate::text::occurs_at(rest, "*/"@, start + 2 + j));
        }
    }
    if inside.len() > 0 && inside[0] == '/' {
        assert(rest.subrange(start, start + 2)[1] == '*');
        assert(rest.subrange(start + 1, start + 3) =~= "*/"@);
        assert(crate::text::occurs_at(rest, "*/"@, start + 1));
    }
    lemma_inside_with_dep(inside, dep);
    assert(crate::text::all_ws(pre));
    lemma_block_scan_of(pre, inside_with_dep(inside, dep), rest.skip(end + 2));
}

#[verifier::spinoff_prover]
proof fn lemma_read_back_new_block(rest: Seq<char>, dep: Seq<char>)
    requires
        readable_dep_line(dep),
    ensures
        block_comment_scan("/*\n[dependencies]\n"@ + dep + "\n*/\n\n"@ + rest) == BlockScan::Inner(
            "\n[dependencies]\n"@ + dep + "\n"@,
        ),
        lines("\n[dependencies]\n"@ + dep + "\n"@).contains(dep),
{
    reveal_strlit("/*");
    reveal_strlit("*/");
    reveal_strlit("\n");
    reveal_strlit("\n[dependencies]\n");
    reveal_strlit("/*\n[dependencies]\n");
    reveal_strlit("\n*/\n\n");
    reveal_strlit("\n\n");
    lemma_header_free();
    let h = "\n[dependencies]\n"@;
    let ni = h + dep + "\n"@;
    let pre = Seq::<char>::empty();
    let post = "\n\n"@ + rest;
    assert("/*\n[dependencies]\n"@ + dep + "\n*/\n\n"@ + rest =~= pre + "/*"@ + ni + "*/"@ + post);
    crate::text::lemma_free_of_concat2(h, dep, "*/"@);
    crate::text::lemma_free_of_concat2(h + dep, "\n"@, "*/"@);
    assert(ni[0] == '\n');
    lemma_block_scan_of(pre, ni, post);
    let i = h.len() as int;
    assert(ni.subrange(i, i + dep.len()) =~= dep);
    crate::text::lemma_line_at(ni, i, dep);
}

/// Adding a dependency to a script whose metadata is a `/* */` block, or that
/// has none, then reading it back: the block-comment reader finds the block,
/// and `krate = "version"` is one of its lines; unless a cargo-script code
/// block (which takes precedence) appears, the metadata read from the script
/// is that block's. This holds when the new line has no line break and no `*/`.
pub proof fn law_added_dependency_is_read_back(source: Seq<char>, krate: Seq<char>, version: Seq<char>)
    requires
        add_dep_defined(source),
        metadata_site(after_shebang(source)) is Block || metadata_site(after_shebang(source)) is NoMetadata,
        !crate::text::has_char(new_dep_line(krate, version), '\n'),
        crate::text::free_of(new_dep_line(krate, version), "*/"@),
    ensures
        block_comment_scan(spec_strip_shebang(spec_add_dep(source, krate, version))) matches BlockScan::Inner(t)
            && lines(t).contains(new_dep_line(krate, version)) && (cargo_block_fragment(
            spec_strip_shebang(spec_add_dep(source, krate, version)),
        ) is None ==> spec_parse_meta(spec_add_dep(source, krate, version)) == fragment_meta(t)),
{
    let dep = new_dep_line(krate, version);
    let rest = after_shebang(source);
    lemma_strip_edited_shebang(source, krate, version);
    lemma_dep_line_shape(krate, version);
    crate::text::lemma_next_char(dep, '\n', 0);
    assert(readable_dep_line(dep));
    match metadata_site(rest) {
        MetadataSite::Block(start, end) => {
            lemma_edited_body_of_block(source, krate, version);
            lemma_read_back_existing_block(rest, dep);
        },
        _ => {
            assert(edited_body(source, krate, version) =~= "/*\n[dependencies]\n"@ + dep + "\n*/\n\n"@ + rest);
            lemma_read_back_new_block(rest, dep);
        },
    }
}

proof fn lemma_next_char_skip(s: Seq<char>, a: int, t: Seq<char>, b: int, c: char)
    requires
        0 <= a <= s.len(),
        0 <= b <= t.len(),
        s.skip(a) == t.skip(b),
    ensures
        next_char(s, c, a) - a == next_char(t, c, b) - b,
    decreases s.len() - a,
{
    assert(s.len() - a == s.skip(a).len());
    if a < s.len() {
        assert(s[a] == s.skip(a)[0]);
        assert(t[b] == t.skip(b)[0]);
        if s[a] != c {
            assert(s.skip(a + 1) =~= s.skip(a).skip(1));
            assert(t.skip(b + 1) =~= t.skip(b).skip(1));
            lemma_next_char_skip(s, a + 1, t, b + 1, c);
        }
    }
}

/// The lines of a text from some position depend only on what follows it.
proof fn lemma_lines_skip(s: Seq<char>, a: int, t: Seq<char>, b: int)
    requires
        0 <= a <= s.len(),
        0 <= b <= t.len(),
        s.skip(a) == t.skip(b),
    ensures
        crate::text::lines_from(s, a) == crate::text::lines_from(t, b),
    decreases s.len() - a,
{
    assert(s.len() - a == s.skip(a).len());
    if a < s.len() {
        lemma_next_char_skip(s, a, t, b, '\n');
        crate::text::lemma_next_char(s, '\n', a);
        crate::text::lemma_next_char(t, '\n', b);
        let n = next_char(s, '\n', a);
        let m = next_char(t, '\n', b);
        assert(s.subrange(a, n) =~= s.skip(a).take(n - a));
        assert(t.subrange(b, m) =~= t.skip(b).take(m - b));
        if n < s.len() {
            assert(s.skip(n + 1) =~= s.skip(a).skip(n + 1 - a));
            assert(t.skip(m + 1) =~= t.skip(b).skip(m + 1 - b));
            lemma_lines_skip(s, n + 1, t, m + 1);
        } else {
            assert(s.subrange(a, s.len() as int) =~= s.skip(a));
            assert(t.subrange(b, t.len() as int) =~= t.skip(b));
        }
    }
}

/// A line put in front of a text becomes its first line.
proof fn lemma_lines_cons(l: Seq<char>, y: Seq<char>)
    requires
        forall|k: int| 0 <= k < l.len() ==> l[k] != '\n',
    ensures
        lines(l + "\n"@ + y) == seq![crate::text::strip_cr(l)] + lines(y),
{
    reveal_strlit("\n");
    let s = l + "\n"@ + y;
    crate::text::lemma_next_char_at(s, '\n', 0, l.len() as int);
    assert(s.subrange(0, l.len() as int) =~= l);
    let q = l.len() + 1;
    assert(s.skip(q as int) =~= y.skip(0));
    lemma_lines_skip(s, q as int, y, 0);
}

/// Walking `j` lines from a line start: the lines before position `p` of a
/// text are kept when text is put in at `p`.
proof fn lemma_lines_prefix(s: Seq<char>, i: int, j: int, w: Seq<char>)
    requires
        0 <= i <= s.len(),
        i == 0 || s[i - 1] == '\n',
        0 <= j <= crate::text::lines_from(s, i).len(),
        line_break_before(s, line_pos_from(s, i, j as nat)) == Seq::<char>::empty(),
    ensures
        ({
            let p = line_pos_from(s, i, j as nat);
            let u = s.take(p) + w + s.skip(p);
            crate::text::lines_from(u, i) == crate::text::lines_from(s, i).take(j)
                + crate::text::lines_from(u, p)
        }),
    decreases j,
{
    let p = line_pos_from(s, i, j as nat);
    lemma_line_pos_bounds(s, i, j as nat);
    let u = s.take(p) + w + s.skip(p);
    if j == 0 {
        assert(crate::text::lines_from(s, i).take(0) =~= Seq::<Seq<char>>::empty());
    } else {
        crate::text::lemma_next_char(s, '\n', i);
        let n = next_char(s, '\n', i);
        if n < s.len() {
            lemma_line_pos_bounds(s, n + 1, (j - 1) as nat);
            assert(p >= n + 1);
            assert forall|k: int| i <= k <= n implies u[k] == s[k] by {}
            crate::text::lemma_next_char_at(u, '\n', i, n);
            assert(u.subrange(i, n) =~= s.subrange(i, n));
            lemma_lines_prefix(s, n + 1, j - 1, w);
            assert(crate::text::lines_from(s, i).take(j) =~= seq![crate::text::strip_cr(
                s.subrange(i, n),
            )] + crate::text::lines_from(s, n + 1).take(j - 1));
        } else {
            assert(i < s.len());
            assert(p == s.len());
            assert(s[s.len() - 1] != '\n');
            assert(s.last() == s[s.len() - 1]);
            reveal_strlit("\n");
            assert(line_break_before(s, p).len() == 1);
            assert(false);
        }
    }
}

/// Putting the lines `l + "\n"` in at the start of line `j` of `s` (where
/// that start is a real line start) puts them between lines `j - 1` and `j`.
proof fn lemma_lines_insert(s: Seq<char>, j: int, l: Seq<char>)
    requires
        0 <= j <= lines(s).len(),
        line_break_before(s, line_pos(s, j)) == Seq::<char>::empty(),
        forall|k: int| 0 <= k < l.len() ==> l[k] != '\n',
    ensures
        lines(s.take(line_pos(s, j)) + (l + "\n"@) + s.skip(line_pos(s, j))) == lines(s).take(j)
            + seq![crate::text::strip_cr(l)] + lines(s).skip(j),
{
    let p = line_pos(s, j);
    lemma_line_pos_bounds(s, 0, j as nat);
    let w = l + "\n"@;
    let u = s.take(p) + w + s.skip(p);
    lemma_lines_prefix(s, 0, j, w);
    lemma_lines_prefix(s, 0, j, Seq::<char>::empty());
    assert(s.take(p) + Seq::<char>::empty() + s.skip(p) =~= s);
    assert(u.skip(p) =~= (l + "\n"@ + s.skip(p)).skip(0));
    lemma_lines_skip(u, p, l + "\n"@ + s.skip(p), 0);
    lemma_lines_cons(l, s.skip(p));
    assert(s.skip(p) =~= s.skip(p).skip(0));
    lemma_lines_skip(s, p, s.skip(p), 0);
    let ls = lines(s);
    assert(ls =~= ls.take(j) + crate::text::lines_from(s, p));
    assert(ls.skip(j) =~= crate::text::lines_from(s, p));
    assert(lines(u) =~= ls.take(j) + (seq![crate::text::strip_cr(l)] + lines(s.skip(p))));
}

/// The text of a `//!` line as the `//!` reader reads it.
pub open spec fn doc_body(l: Seq<char>) -> Seq<char> {
    trim_start_spaces(trim(l).skip("//!"@.len() as int))
}

/// The texts of the `//!` lines `ls[a..b]`.
pub open spec fn doc_bodies(ls: Seq<Seq<char>>, a: int, b: int) -> Seq<Seq<char>> {
    Seq::new((b - a) as nat, |t: int| doc_body(ls[a + t]))
}

proof fn lemma_doc_run(ls: Seq<Seq<char>>, i: int)
    requires
        0 <= i <= ls.len(),
    ensures
        i <= doc_run_end(ls, i) <= ls.len(),
        forall|t: int| i <= t < doc_run_end(ls, i) ==> is_doc_line(#[trigger] ls[t]),
        doc_lines_scan(ls, i, true) == doc_bodies(ls, i, doc_run_end(ls, i)),
    decreases ls.len() - i,
{
    reveal_strlit("//!");
    if i < ls.len() && is_doc_line(ls[i]) {
        lemma_doc_run(ls, i + 1);
        let e = doc_run_end(ls, i);
        assert(doc_bodies(ls, i, e) =~= seq![doc_body(ls[i])] + doc_bodies(ls, i + 1, e));
    } else {
        assert(doc_bodies(ls, i, i) =~= Seq::<Seq<char>>::empty());
    }
}

proof fn lemma_run_end_ge(ls: Seq<Seq<char>>, i: int, j: int)
    requires
        0 <= i <= j <= ls.len(),
        forall|t: int| i <= t < j ==> is_doc_line(#[trigger] ls[t]),
    ensures
        doc_run_end(ls, i) >= j,
    decreases j - i,
{
    if i < j {
        assert(is_doc_line(ls[i]));
        lemma_run_end_ge(ls, i + 1, j);
    } else {
        lemma_site_ranges(ls, i, 0);
    }
}

proof fn lemma_doc_scan_start(ls: Seq<Seq<char>>, i: int, k: int)
    requires
        0 <= i,
        first_doc_line(ls, i) == Some(k),
    ensures
        doc_lines_scan(ls, i, false) == doc_lines_scan(ls, k, true),
    decreases k - i,
{
    lemma_site_ranges(ls, i, 0);
    reveal_strlit("//!");
    if i < k {
        assert(!is_doc_line(ls[i]));
        assert(doc_lines_scan(ls, i, false) == doc_lines_scan(ls, i + 1, false));
        lemma_doc_scan_start(ls, i + 1, k);
    } else {
        assert(is_doc_line(ls[k]));
        assert(starts_with(trim(ls[k]), "//!"@));
        assert(doc_lines_scan(ls, k, false) == seq![trim_start_spaces(trim(ls[k]).skip("//!"@.len() as int))]
            + doc_lines_scan(ls, k + 1, true));
        assert(doc_lines_scan(ls, k, true) == seq![trim_start_spaces(trim(ls[k]).skip("//!"@.len() as int))]
            + doc_lines_scan(ls, k + 1, true));
        assert(i == k);
    }
}

proof fn lemma_first_doc_line_prefix(ls: Seq<Seq<char>>, ls2: Seq<Seq<char>>, i: int, k: int)
    requires
        0 <= i,
        first_doc_line(ls, i) == Some(k),
        k < ls2.len(),
        forall|t: int| i <= t <= k ==> ls2[t] == ls[t],
    ensures
        first_doc_line(ls2, i) == Some(k),
    decreases k - i,
{
    lemma_site_ranges(ls, i, 0);
    assert(ls2[i] == ls[i]);
    if i < k {
        lemma_first_doc_line_prefix(ls, ls2, i + 1, k);
    }
}

proof fn lemma_doc_scan_skip(a: Seq<Seq<char>>, i: int, b: Seq<Seq<char>>, j: int, started: bool)
    requires
        0 <= i <= a.len(),
        0 <= j <= b.len(),
        a.skip(i) == b.skip(j),
    ensures
        doc_lines_scan(a, i, started) == doc_lines_scan(b, j, started),
    decreases a.len() - i,
{
    assert(a.len() - i == a.skip(i).len());
    if i < a.len() {
        assert(a[i] == a.skip(i)[0]);
        assert(b[j] == b.skip(j)[0]);
        assert(a.skip(i + 1) =~= a.skip(i).skip(1));
        assert(b.skip(j + 1) =~= b.skip(j).skip(1));
        lemma_doc_scan_skip(a, i + 1, b, j + 1, true);
        lemma_doc_scan_skip(a, i + 1, b, j + 1, started);
    }
}

/// A `//!` line put in within (or right after) a run of `//!` lines joins
/// the run.
proof fn lemma_doc_scan_insert(ls: Seq<Seq<char>>, i: int, j: int, x: Seq<char>)
    requires
        0 <= i <= j <= ls.len(),
        forall|t: int| i <= t < j ==> is_doc_line(#[trigger] ls[t]),
        is_doc_line(x),
    ensures
        doc_lines_scan(ls.take(j) + seq![x] + ls.skip(j), i, true) == doc_lines_scan(ls, i, true).take(
            j - i,
        ) + seq![doc_body(x)] + doc_lines_scan(ls, i, true).skip(j - i),
    decreases j - i,
{
    reveal_strlit("//!");
    let l2 = ls.take(j) + seq![x] + ls.skip(j);
    let sc = doc_lines_scan(ls, i, true);
    if i == j {
        assert(l2[i] == x);
        assert(l2.skip(i + 1) =~= ls.skip(i));
        lemma_doc_scan_skip(l2, i + 1, ls, i, true);
        assert(sc.take(0) =~= Seq::<Seq<char>>::empty());
        assert(sc.skip(0) =~= sc);
    } else {
        assert(l2[i] == ls[i]);
        assert(is_doc_line(ls[i]));
        lemma_doc_scan_insert(ls, i + 1, j, x);
        let sc1 = doc_lines_scan(ls, i + 1, true);
        lemma_doc_run(ls, i + 1);
        lemma_run_end_ge(ls, i + 1, j);
        assert(sc1.len() >= j - i - 1);
        assert(sc == seq![doc_body(ls[i])] + sc1);
        assert(sc.take(j - i) =~= seq![doc_body(ls[i])] + sc1.take(j - i - 1));
        assert(sc.skip(j - i) =~= sc1.skip(j - i - 1));
    }
}

proof fn lemma_line_pos_after_break(s: Seq<char>, i: int, j: nat)
    requires
        0 <= i <= s.len(),
        j >= 1,
    ensures
        line_pos_from(s, i, j) == s.len() || (line_pos_from(s, i, j) >= 1 && s[line_pos_from(s, i, j) - 1] == '\n'),
    decreases j,
{
    crate::text::lemma_next_char(s, '\n', i);
    let n = next_char(s, '\n', i);
    if n < s.len() {
        if j > 1 {
            lemma_line_pos_after_break(s, n + 1, (j - 1) as nat);
        } else {
            assert(line_pos_from(s, n + 1, 0) == n + 1);
        }
    }
}

/// Putting text that starts with `/` in at the start of a line never makes a
/// script start with a shebang line.
proof fn lemma_no_new_shebang(rest: Seq<char>, p: int, t: Seq<char>)
    requires
        0 <= p <= rest.len(),
        !has_shebang_line(rest),
        t.len() > 0,
        t[0] == '/',
        p == 0 || p >= 3 || p == rest.len() || rest[p - 1] == '\n',
    ensures
        !has_shebang_line(rest.take(p) + t + rest.skip(p)),
{
    reveal_strlit("#!");
    reveal_strlit("#![");
    let u = rest.take(p) + t + rest.skip(p);
    if starts_with(u, "#!"@) {
        assert(u[0] == u.take(2)[0] && u[1] == u.take(2)[1]);
        if p >= 3 {
            assert(u.take(3) =~= rest.take(3));
            assert(u.take(2) =~= rest.take(2));
        } else if p == 2 {
            assert(rest.take(2) =~= u.take(2));
            assert(starts_with(rest, "#!["@)) by {
                assert(starts_with(rest, "#!"@));
            }
            assert(rest.take(3)[2] == '[');
            assert(rest[1] == '!');
        } else if p == 1 {
            assert(u[1] == t[0]);
        } else {
            assert(u[0] == t[0]);
        }
    }
}

/// Adding a dependency to a script whose metadata is `//!` lines, then
/// reading it back: the `//!` reader reads the old lines, with the new line
/// `krate = "version"` right after the `[dependencies]` header line (or, where
/// there is no header, a `[dependencies]` header and the new line after the
/// old lines). Stated for scripts whose `//!` lines do not end the file
/// without a final line break.
#[verifier::spinoff_prover]
#[verifier::rlimit(40)]
pub proof fn law_added_doc_line_is_read_back(source: Seq<char>, krate: Seq<char>, version: Seq<char>)
    requires
        add_dep_defined(source),
        metadata_site(after_shebang(source)) is DocLines,
        line_break_before(after_shebang(source), rest_edit(after_shebang(source), krate, version).0)
            == Seq::<char>::empty(),
        !crate::text::has_char(new_dep_line(krate, version), '\n'),
    ensures
        ({
            let rest = after_shebang(source);
            let ls = lines(rest);
            let k = metadata_site(rest)->DocLines_0;
            let end = doc_run_end(ls, k);
            let old = doc_bodies(ls, k, end);
            let line = "//! "@ + new_dep_line(krate, version);
            let added = match doc_header(ls, k, end) {
                Some(h) => old.take(h + 1 - k) + seq![doc_body(line)] + old.skip(h + 1 - k),
                None => old + seq![doc_body("//! [dependencies]"@), doc_body(line)],
            };
            let body = edited_body(source, krate, version);
            &&& doc_lines_scan(ls, 0, false) == old
            &&& spec_strip_shebang(spec_add_dep(source, krate, version)) == body
            &&& doc_lines_scan(lines(body), 0, false) == added
            &&& line_comments_fragment(body) == Some(join(added, "\n"@))
        }),
{
    reveal_strlit("//! ");
    reveal_strlit("//!");
    reveal_strlit("\n");
    reveal_strlit("//! [dependencies]");
    reveal_strlit("//! [dependencies]\n//! ");
    let dep = new_dep_line(krate, version);
    let rest = after_shebang(source);
    let ls = lines(rest);
    let k = metadata_site(rest)->DocLines_0;
    lemma_site_ranges(ls, 0, 0);
    let end = doc_run_end(ls, k);
    lemma_doc_run(ls, k);
    lemma_site_ranges(ls, k, end);
    let old = doc_bodies(ls, k, end);
    lemma_doc_scan_start(ls, 0, k);
    assert(is_doc_line(ls[k]));
    lemma_site_ranges(ls, k + 1, 0);
    assert(end == doc_run_end(ls, k + 1));
    assert(k < end);
    lemma_dep_line_shape(krate, version);
    crate::text::lemma_next_char(dep, '\n', 0);
    let line = "//! "@ + dep;
    assert forall|t: int| 0 <= t < line.len() implies line[t] != '\n' by {
        if t >= 4 {
            assert(line[t] == dep[t - 4]);
        }
    }
    assert(line.last() == '"');
    assert(crate::text::strip_cr(line) == line);
    assert(trim(line) == line) by {
        crate::text::lemma_trim_kept(line);
    }
    assert(line.take(3) =~= "//!"@);
    assert(is_doc_line(line));
    let e = rest_edit(rest, krate, version);
    let body = edited_body(source, krate, version);
    // shebang
    lemma_strip_edited_shebang(source, krate, version);
    match doc_header(ls, k, end) {
        Some(h) => {
            let j = h + 1;
            assert(e.1 =~= line + "\n"@);
            lemma_lines_insert(rest, j, line);
            let l2 = ls.take(j) + seq![line] + ls.skip(j);
            assert(lines(body) == l2);
            lemma_first_doc_line_prefix(ls, l2, 0, k);
            lemma_doc_scan_start(l2, 0, k);
            lemma_doc_scan_insert(ls, k, j, line);
        },
        None => {
            let hl = "//! [dependencies]"@;
            assert(trim(hl) == hl) by {
                crate::text::lemma_trim_kept(hl);
            }
            assert(hl.take(3) =~= "//!"@);
            assert(is_doc_line(hl));
            assert(e.1 =~= hl + "\n"@ + (line + "\n"@));
            lemma_lines_insert_two(rest, end, hl, line);
            let l1 = ls.take(end) + seq![hl] + ls.skip(end);
            let l2 = l1.take(end + 1) + seq![line] + l1.skip(end + 1);
            assert(l2 =~= ls.take(end) + seq![hl, line] + ls.skip(end));
            assert(lines(body) == l2);
            lemma_first_doc_line_prefix(ls, l2, 0, k);
            lemma_doc_scan_start(l2, 0, k);
            lemma_doc_scan_insert(ls, k, end, hl);
            assert forall|t: int| k <= t < end + 1 implies is_doc_line(#[trigger] l1[t]) by {
                if t < end {
                    assert(l1[t] == ls[t]);
                }
            }
            lemma_doc_scan_insert(l1, k, end + 1, line);
            assert(old.take(end - k) =~= old);
            assert(old.skip(end - k) =~= Seq::<Seq<char>>::empty());
            let s1 = old + seq![doc_body(hl)];
            assert(s1.take(end + 1 - k) =~= s1);
            assert(s1.skip(end + 1 - k) =~= Seq::<Seq<char>>::empty());
        },
    }
}

proof fn lemma_lines_insert_two(s: Seq<char>, j: int, l1: Seq<char>, l2: Seq<char>)
    requires
        0 <= j <= lines(s).len(),
        line_break_before(s, line_pos(s, j)) == Seq::<char>::empty(),
        forall|k: int| 0 <= k < l1.len() ==> l1[k] != '\n',
        forall|k: int| 0 <= k < l2.len() ==> l2[k] != '\n',
    ensures
        lines(s.take(line_pos(s, j)) + (l1 + "\n"@ + (l2 + "\n"@)) + s.skip(line_pos(s, j)))
            == lines(s).take(j) + seq![crate::text::strip_cr(l1), crate::text::strip_cr(l2)] + lines(
            s,
        ).skip(j),
{
    let p = line_pos(s, j);
    lemma_line_pos_bounds(s, 0, j as nat);
    let w = l1 + "\n"@ + (l2 + "\n"@);
    let u = s.take(p) + w + s.skip(p);
    lemma_lines_prefix(s, 0, j, w);
    lemma_lines_prefix(s, 0, j, Seq::<char>::empty());
    assert(s.take(p) + Seq::<char>::empty() + s.skip(p) =~= s);
    let tail = l1 + "\n"@ + (l2 + "\n"@ + s.skip(p));
    assert(u.skip(p) =~= tail.skip(0));
    lemma_lines_skip(u, p, tail, 0);
    lemma_lines_cons(l1, l2 + "\n"@ + s.skip(p));
    lemma_lines_cons(l2, s.skip(p));
    assert(s.skip(p) =~= s.skip(p).skip(0));
    lemma_lines_skip(s, p, s.skip(p), 0);
    let ls = lines(s);
    assert(ls =~= ls.take(j) + crate::text::lines_from(s, p));
    assert(ls.skip(j) =~= crate::text::lines_from(s, p));
    assert(lines(u) =~= ls.take(j) + (seq![crate::text::strip_cr(l1)] + (seq![
        crate::text::strip_cr(l2),
    ] + lines(s.skip(p)))));
}

proof fn lemma_play_skip(a: Seq<Seq<char>>, i: int, b: Seq<Seq<char>>, j: int, found: bool)
    requires
        0 <= i <= a.len(),
        0 <= j <= b.len(),
        a.skip(i) == b.skip(j),
    ensures
        play_scan(a, i, found) == play_scan(b, j, found),
    decreases a.len() - i,
{
    assert(a.len() - i == a.skip(i).len());
    if i < a.len() {
        assert(a[i] == a.skip(i)[0]);
        assert(b[j] == b.skip(j)[0]);
        assert(a.skip(i + 1) =~= a.skip(i).skip(1));
        assert(b.skip(j + 1) =~= b.skip(j).skip(1));
        lemma_play_skip(a, i + 1, b, j + 1, true);
        lemma_play_skip(a, i + 1, b, j + 1, found);
    }
}

proof fn lemma_play_start(ls: Seq<Seq<char>>, i: int, k: int)
    requires
        0 <= i,
        first_play_line(ls, i) == Some(k),
    ensures
        play_scan(ls, i, false) == play_scan(ls, k, false),
    decreases k - i,
{
    lemma_site_ranges(ls, i, 0);
    if i < k {
        assert(!starts_with(trim_start(ls[i]), "//#"@));
        assert(play_scan(ls, i, false) == play_scan(ls, i + 1, false));
        lemma_play_start(ls, i + 1, k);
    }
}

proof fn lemma_first_play_line_prefix(ls: Seq<Seq<char>>, ls2: Seq<Seq<char>>, i: int, k: int)
    requires
        0 <= i,
        first_play_line(ls, i) == Some(k),
        k < ls2.len(),
        forall|t: int| i <= t <= k ==> ls2[t] == ls[t],
    ensures
        first_play_line(ls2, i) == Some(k),
    decreases k - i,
{
    lemma_site_ranges(ls, i, 0);
    assert(ls2[i] == ls[i]);
    if i < k {
        lemma_first_play_line_prefix(ls, ls2, i + 1, k);
    }
}

#[verifier::spinoff_prover]
proof fn lemma_play_edit_facts(rest: Seq<char>, krate: Seq<char>, version: Seq<char>)
    requires
        metadata_site(rest) is PlayLines,
        line_break_before(rest, rest_edit(rest, krate, version).0) == Seq::<char>::empty(),
    ensures
        ({
            let e = rest_edit(rest, krate, version);
            &&& e.1 == "//# "@ + new_dep_line(krate, version) + "\n"@
            &&& e.1[0] == '/'
            &&& 0 <= e.0 <= rest.len()
            &&& e.0 == line_pos(rest, metadata_site(rest)->PlayLines_0 + 1)
            &&& e.0 == rest.len() || (e.0 >= 1 && rest[e.0 - 1] == '\n')
        }),
{
    reveal_strlit("//# ");
    let ls = lines(rest);
    let k = metadata_site(rest)->PlayLines_0;
    lemma_site_ranges(ls, 0, 0);
    lemma_line_pos_after_break(rest, 0, (k + 1) as nat);
    lemma_line_pos_bounds(rest, 0, (k + 1) as nat);
    let e = rest_edit(rest, krate, version);
    assert(e.1 =~= "//# "@ + new_dep_line(krate, version) + "\n"@);
}

/// Adding a dependency to a script whose metadata is `//#` lines, then reading
/// it back: the `//#` reader reads the old entries with the new entry
/// `krate = "version"` right after the first. Stated for scripts whose first
/// `//#` line does not end the file without a final line break.
#[verifier::spinoff_prover]
#[verifier::rlimit(40)]
pub proof fn law_added_play_line_is_read_back(source: Seq<char>, krate: Seq<char>, version: Seq<char>)
    requires
        add_dep_defined(source),
        metadata_site(after_shebang(source)) is PlayLines,
        line_break_before(after_shebang(source), rest_edit(after_shebang(source), krate, version).0)
            == Seq::<char>::empty(),
        !crate::text::has_char(new_dep_line(krate, version), '\n'),
    ensures
        ({
            let rest = after_shebang(source);
            let ls = lines(rest);
            let k = metadata_site(rest)->PlayLines_0;
            let first = crate::parser::play_entry(trim_start(ls[k]));
            let others = play_scan(ls, k + 1, true).1;
            let line = "//# "@ + new_dep_line(krate, version);
            let body = edited_body(source, krate, version);
            &&& play_fragment(rest) == Some("[dependencies]\n"@ + first + others)
            &&& spec_strip_shebang(spec_add_dep(source, krate, version)) == body
            &&& play_fragment(body) == Some(
                "[dependencies]\n"@ + first + crate::parser::play_entry(line) + others,
            )
        }),
{
    reveal_strlit("//# ");
    reveal_strlit("//#");
    reveal_strlit("\n");
    let dep = new_dep_line(krate, version);
    let rest = after_shebang(source);
    let ls = lines(rest);
    let k = metadata_site(rest)->PlayLines_0;
    lemma_site_ranges(ls, 0, 0);
    lemma_play_start(ls, 0, k);
    lemma_play_edit_facts(rest, krate, version);
    lemma_strip_edited_shebang(source, krate, version);
    lemma_dep_line_shape(krate, version);
    crate::text::lemma_next_char(dep, '\n', 0);
    let line = "//# "@ + dep;
    assert forall|t: int| 0 <= t < line.len() implies line[t] != '\n' by {
        if t >= 4 {
            assert(line[t] == dep[t - 4]);
        }
    }
    assert(line.last() == '"');
    assert(crate::text::strip_cr(line) == line);
    assert(crate::text::ws_run_end(line, 0) == 0);
    assert(line.skip(0) =~= line);
    assert(trim_start(line) == line);
    assert(line.take(3) =~= "//#"@);
    let j = k + 1;
    lemma_lines_insert(rest, j, line);
    let l2 = ls.take(j) + seq![line] + ls.skip(j);
    assert(lines(edited_body(source, krate, version)) == l2);
    lemma_first_play_line_prefix(ls, l2, 0, k);
    lemma_play_start(l2, 0, k);
    assert(l2[k] == ls[k]);
    assert(l2[j] == line);
    assert(l2.skip(j + 1) =~= ls.skip(j));
    lemma_play_skip(l2, j + 1, ls, j, true);
    assert(play_scan(l2, j, true).1 == crate::parser::play_entry(line) + play_scan(ls, j, true).1);
    assert(play_scan(l2, k, false).1 == crate::parser::play_entry(trim_start(ls[k])) + play_scan(
        l2,
        j,
        true,
    ).1);
    let first = crate::parser::play_entry(trim_start(ls[k]));
    let others = play_scan(ls, j, true).1;
    assert(play_scan(l2, j, true).1 == crate::parser::play_entry(line) + others);
    assert(play_scan(l2, k, false).1 == first + play_scan(l2, j, true).1);
    assert(play_scan(ls, k, false).1 == first + others);
    assert("[dependencies]\n"@ + (first + (crate::parser::play_entry(line) + others)) =~= "[dependencies]\n"@
        + first + crate::parser::play_entry(line) + others);
    assert("[dependencies]\n"@ + (first + others) =~= "[dependencies]\n"@ + first + others);
}

/// Where a `/* */` block has no `[dependencies]` header, adding a dependency
/// keeps everything the block held, in place, and puts a new `[dependencies]`
/// table after it: the keys that come before any table (such as `edition`)
/// stay outside the dependency table.
pub proof fn law_block_without_header_keeps_its_content(inside: Seq<char>, dep: Seq<char>)
    requires
        find(inside, "[dependencies]"@) is None,
    ensures
        starts_with(inside_with_dep(inside, dep), inside),
        inside_with_dep(inside, dep).skip(inside.len() as int) == line_break_before(
            inside,
            inside.len() as int,
        ) + "[dependencies]\n"@ + dep + "\n"@,
{
    let ni = inside_with_dep(inside, dep);
    assert(inside.take(inside.len() as int) =~= inside);
    assert(inside.skip(inside.len() as int) =~= Seq::<char>::empty());
    assert(ni.take(inside.len() as int) =~= inside);
    assert(ni.skip(inside.len() as int) =~= line_break_before(inside, inside.len() as int)
        + "[dependencies]\n"@ + dep + "\n"@);
}

/// The metadata block of the new-script template, between `/*` and `*/`.
pub open spec fn template_block() -> Seq<char> {
    "\n[dependencies]\n# add crates here, e.g.:\n# colored = \"2.0\"\n"@
}

proof fn lemma_lines_step(s: Seq<char>, i: int, j: int)
    requires
        0 <= i <= j < s.len(),
        s[j] == '\n',
        forall|k: int| i <= k < j ==> s[k] != '\n',
    ensures
        crate::text::lines_from(s, i) == seq![crate::text::strip_cr(s.subrange(i, j))]
            + crate::text::lines_from(s, j + 1),
{
    crate::text::lemma_next_char_at(s, '\n', i, j);
}


proof fn lemma_template_deps_text()
    ensures
        crate::parser::spec_dependencies_text(template_block())
            == "[dependencies]\n# add crates here, e.g.:\n# colored = \"2.0\""@,
{
    reveal_strlit("\n[dependencies]\n# add crates here, e.g.:\n# colored = \"2.0\"\n");
    reveal_strlit("[dependencies]\n# add crates here, e.g.:\n# colored = \"2.0\"");
    reveal_strlit("[dependencies]");
    reveal_strlit("# add crates here, e.g.:");
    reveal_strlit("# colored = \"2.0\"");
    reveal_strlit("[dependencies");
    reveal_strlit("]");
    reveal_strlit("[");
    reveal_strlit("\n");
    let t = template_block();
    let a = "[dependencies]"@;
    let b = "# add crates here, e.g.:"@;
    let c = "# colored = \"2.0\""@;
    assert(t.len() == 59);
    lemma_lines_step(t, 0, 0);
    lemma_lines_step(t, 1, 15);
    lemma_lines_step(t, 16, 40);
    lemma_lines_step(t, 41, 58);
    assert(t.subrange(0, 0) =~= Seq::<char>::empty());
    assert(t.subrange(1, 15) =~= a);
    assert(t.subrange(16, 40) =~= b);
    assert(t.subrange(41, 58) =~= c);
    let e = Seq::<char>::empty();
    let ls = lines(t);
    assert(ls =~= seq![e, a, b, c]);
    assert(trim(e) =~= e);
    crate::text::lemma_trim_kept(a);
    crate::text::lemma_trim_kept(b);
    crate::text::lemma_trim_kept(c);
    assert(a.take(13) =~= "[dependencies"@);
    assert(a.skip(13) =~= "]"@);
    assert(crate::parser::is_deps_header(a));
    assert(!starts_with(b, "["@));
    assert(!starts_with(c, "["@));
    assert(!starts_with(e, "[dependencies"@));
    assert(!starts_with(b, "[dependencies"@));
    assert(!starts_with(c, "[dependencies"@));
    assert(ls[3] == c && ls[2] == b && ls[1] == a && ls[0] == e);
    assert(crate::parser::deps_lines_from(ls, 4, true) =~= Seq::<Seq<char>>::empty());
    assert(crate::parser::deps_lines_from(ls, 3, true) =~= seq![c]);
    assert(crate::parser::deps_lines_from(ls, 2, true) =~= seq![b, c]);
    assert(crate::parser::deps_lines_from(ls, 1, false) =~= seq![a, b, c]);
    assert(crate::parser::deps_lines_from(ls, 0, false) =~= seq![a, b, c]);
    assert(seq![a, b, c].drop_last() =~= seq![a, b]);
    assert(seq![a, b].drop_last() =~= seq![a]);
    assert(join(seq![a], "\n"@) == a);
    assert(join(seq![a, b], "\n"@) == a + "\n"@ + b);
    assert(join(seq![a, b, c], "\n"@) == a + "\n"@ + b + "\n"@ + c);
    assert(a + "\n"@ + b + "\n"@ + c =~= "[dependencies]\n# add crates here, e.g.:\n# colored = \"2.0\""@);
}


/// A script made from the template declares its metadata in the block comment
/// after its shebang line: it can be read, reading it gives what that block's
/// TOML gives, and the block's dependencies text is the template's
/// `[dependencies]` header with its two comment lines (for a script name
/// without `/`, as a file name is).
pub proof fn law_template_metadata_is_read_back(name: Seq<char>)
    requires
        !crate::text::has_char(name, '/'),
    ensures
        parse_meta_defined(spec_new_script_template(name)),
        spec_parse_meta(spec_new_script_template(name)) == fragment_meta(template_block()),
        crate::parser::spec_dependencies_text(template_block())
            == "[dependencies]\n# add crates here, e.g.:\n# colored = \"2.0\""@,
{
    reveal_strlit("#!/usr/bin/env rfast\n/*\n[dependencies]\n# add crates here, e.g.:\n# colored = \"2.0\"\n*/\n\nfn main() {\n    println!(\"Hello from ");
    reveal_strlit("!\");\n}\n");
    reveal_strlit("\n[dependencies]\n# add crates here, e.g.:\n# colored = \"2.0\"\n");
    reveal_strlit("\n\nfn main() {\n    println!(\"Hello from ");
    reveal_strlit("/usr/bin/env rfast");
    reveal_strlit("#!");
    reveal_strlit("\n");
    reveal_strlit("/*");
    reveal_strlit("*/");
    reveal_strlit("//");
    reveal_strlit("//! ```cargo");
    let tb = template_block();
    let line = "/usr/bin/env rfast"@;
    let p1 = "\n\nfn main() {\n    println!(\"Hello from "@;
    let p2 = "!\");\n}\n"@;
    let post = p1 + name + p2;
    let src = "/*"@ + tb + "*/"@ + post;
    let full = spec_new_script_template(name);
    assert(full =~= "#!"@ + line + "\n"@ + src);
    // the shebang line
    crate::text::lemma_next_char(line, '\n', 0);
    assert(!crate::text::has_char(line, '\n'));
    assert(!starts_with(src, "#!"@)) by {
        assert(src[0] == '/');
    }
    crate::parser::law_shebang_does_not_change_metadata(line, src);
    assert(spec_strip_shebang(src) == src);
    // no cargo-script code block: the text holds no `//`
    crate::text::lemma_next_char(name, '/', 0);
    let sl = "//"@;
    assert(crate::text::free_of("/*"@, sl)) by {
        assert forall|j: int| !#[trigger] crate::text::occurs_at("/*"@, sl, j) by {
            if crate::text::occurs_at("/*"@, sl, j) {
                assert("/*"@.subrange(j, j + 2)[1] == '/');
            }
        }
    }
    assert(crate::text::free_of("*/"@, sl)) by {
        assert forall|j: int| !#[trigger] crate::text::occurs_at("*/"@, sl, j) by {
            if crate::text::occurs_at("*/"@, sl, j) {
                assert("*/"@.subrange(j, j + 2)[0] == '/');
            }
        }
    }
    crate::text::lemma_free_of_missing_char(tb, sl);
    crate::text::lemma_free_of_missing_char(p1, sl);
    crate::text::lemma_free_of_missing_char(p2, sl);
    crate::text::lemma_free_of_missing_char(name, sl);
    crate::text::lemma_free_of_concat2("/*"@, tb, sl);
    crate::text::lemma_free_of_concat2("/*"@ + tb, "*/"@, sl);
    crate::text::lemma_free_of_concat2("/*"@ + tb + "*/"@, p1, sl);
    crate::text::lemma_free_of_concat2("/*"@ + tb + "*/"@ + p1, name, sl);
    crate::text::lemma_free_of_concat2("/*"@ + tb + "*/"@ + p1 + name, p2, sl);
    assert(src =~= "/*"@ + tb + "*/"@ + p1 + name + p2);
    let m = "//! ```cargo"@;
    assert forall|j: int| !#[trigger] crate::text::occurs_at(src, m, j) by {
        if crate::text::occurs_at(src, m, j) {
            assert(m.take(2) =~= sl);
            assert(src.subrange(j, j + 2) =~= src.subrange(j, j + m.len()).take(2));
            assert(crate::text::occurs_at(src, sl, j));
        }
    }
    crate::text::lemma_find_from(src, m, 0);
    assert(cargo_block_fragment(src) is None);
    // the block comment
    crate::text::lemma_free_of_missing_char(tb, "*/"@);
    lemma_block_scan_of(Seq::<char>::empty(), tb, post);
    assert(Seq::<char>::empty() + "/*"@ + tb + "*/"@ + post =~= src);
    assert(block_comment_scan(src) == BlockScan::Inner(tb));
    lemma_template_deps_text();
}


/// Whenever a script declares features, the generated manifest holds its
/// `[features]` section, whatever its dependencies: the manifest ends with the
/// features (then the Cranelift profile when asked for).
pub proof fn law_manifest_keeps_features(meta: MetaModel, cranelift: bool)
    requires
        meta.features.len() > 0,
    ensures
        crate::text::ends_with(
            spec_cargo_toml(meta, cranelift),
            "\n[features]\n"@ + meta.features + (if cranelift {
                "\n[profile.dev]\nopt-level = 0\ndebug = false\n"@
            } else {
                seq![]
            }) + "\n"@,
        ),
        crate::text::contains(spec_cargo_toml(meta, cranelift), "\n[features]\n"@ + meta.features),
{
    let t = spec_cargo_toml(meta, cranelift);
    let f = "\n[features]\n"@ + meta.features;
    let profile = if cranelift {
        "\n[profile.dev]\nopt-level = 0\ndebug = false\n"@
    } else {
        seq![]
    };
    let tail = f + profile + "\n"@;
    let deps = join(kept_dep_lines(lines(meta.dependencies)), "\n"@);
    let deps_section = if deps.len() == 0 {
        seq![]
    } else {
        "\n"@ + deps
    };
    let head = "[package]\nname = \"script\"\nversion = \"0.1.0\"\nedition = \""@ + meta.edition + "\"\n"@
        + deps_section;
    assert(t =~= head + tail);
    assert(t.skip(t.len() - tail.len()) =~= tail);
    let i = head.len() as int;
    assert(t.subrange(i, i + f.len()) =~= f);
    assert(crate::text::occurs_at(t, f, i));
    crate::text::lemma_find_from(t, f, 0);
}

/// `eval` never reuses a cached binary when forced, always reuses one that
/// exists otherwise, and compiles with Cargo exactly when the snippet has
/// dependencies.
pub proof fn law_eval_step_respects_force(force: bool, binary_exists: bool, dep_count: nat)
    ensures
        force ==> spec_eval_step(force, binary_exists, dep_count) != EvalStep::RunCached,
        !force && binary_exists ==> spec_eval_step(force, binary_exists, dep_count) == EvalStep::RunCached,
        force || !binary_exists ==> (spec_eval_step(force, binary_exists, dep_count)
            == EvalStep::CompileWithCargo <==> dep_count > 0),
        force || !binary_exists ==> (spec_eval_step(force, binary_exists, dep_count)
            == EvalStep::CompileWithRustc <==> dep_count == 0),
{
}

/// The `use` line of an import.
pub open spec fn use_line(import: Seq<char>) -> Seq<char> {
    "use "@ + import + ";\n"@
}

proof fn lemma_use_lines_prefix(imps: Seq<Seq<char>>, i: int)
    requires
        0 <= i <= imps.len(),
    ensures
        use_lines(imps.take(i)).len() <= use_lines(imps).len(),
        use_lines(imps).take(use_lines(imps.take(i)).len() as int) == use_lines(imps.take(i)),
        i < imps.len() ==> use_lines(imps.take(i + 1)) == use_lines(imps.take(i)) + use_line(imps[i]),
    decreases imps.len(),
{
    if i < imps.len() {
        assert(imps.take(i + 1).drop_last() =~= imps.take(i));
        assert(imps.take(i + 1).last() == imps[i]);
        assert(use_lines(imps.take(i + 1)) =~= use_lines(imps.take(i)) + use_line(imps[i]));
        let d = imps.drop_last();
        lemma_use_lines_prefix(d, i);
        assert(d.take(i) =~= imps.take(i));
        let l = use_lines(imps.take(i)).len() as int;
        assert(use_lines(imps) =~= use_lines(d) + use_line(imps.last()));
        assert(use_lines(imps).take(l) =~= use_lines(d).take(l));
    } else {
        assert(imps.take(i) =~= imps);
        assert(use_lines(imps).take(use_lines(imps).len() as int) =~= use_lines(imps));
    }
}

/// Every import of an evaluated snippet gets its `use` line, in the order given,
/// before the snippet's code.
pub proof fn law_eval_source_imports_in_order(code: Seq<char>, imports: Seq<Seq<char>>)
    ensures
        exists|ps: Seq<int>, cp: int|
            #![trigger ps.len(), crate::text::occurs_at(spec_eval_source(code, imports), code, cp)]
            {
                let src = spec_eval_source(code, imports);
                &&& ps.len() == imports.len()
                &&& crate::text::occurs_at(src, code, cp)
                &&& forall|i: int|
                    0 <= i < imports.len() ==> crate::text::occurs_at(src, use_line(imports[i]), #[trigger] ps[i])
                        && ps[i] + use_line(imports[i]).len() < cp
                &&& forall|i: int, j: int| 0 <= i < j < imports.len() ==> ps[i] < ps[j]
            },
{
    reveal_strlit("#[allow(unused_imports)]\n");
    reveal_strlit("fn main() {\n    ");
    reveal_strlit("use ");
    reveal_strlit("\n");
    let src = spec_eval_source(code, imports);
    let n = imports.len() as int;
    let u = use_lines(imports);
    let hd = "#[allow(unused_imports)]\n"@;
    let header = if n == 0 {
        seq![]
    } else {
        hd + u + "\n"@
    };
    let wrapped = !starts_with(crate::text::trim_start(code), "fn main"@);
    let pre = if wrapped {
        "fn main() {\n    "@
    } else {
        seq![]
    };
    let cp = (header.len() + pre.len()) as int;
    if wrapped {
        assert(src =~= header + pre + code + "\n}"@);
    } else {
        assert(src =~= header + pre + code);
    }
    assert(src.subrange(cp, cp + code.len()) =~= code);
    let ps = Seq::new(n as nat, |i: int| (25 + use_lines(imports.take(i)).len()) as int);
    assert(hd.len() == 25);
    assert forall|i: int| 0 <= i < n implies crate::text::occurs_at(src, use_line(imports[i]), #[trigger] ps[i])
        && ps[i] + use_line(imports[i]).len() < cp by {
        lemma_use_lines_prefix(imports, i);
        lemma_use_lines_prefix(imports, i + 1);
        let ui = use_lines(imports.take(i));
        let line = use_line(imports[i]);
        let a = ui.len() as int;
        let b = use_lines(imports.take(i + 1)).len() as int;
        assert(b == a + line.len());
        assert(u.take(b) == ui + line);
        assert(u.subrange(a, b) =~= (ui + line).subrange(a, b));
        assert((ui + line).subrange(a, b) =~= line);
        assert(header =~= hd + u + "\n"@);
        assert(src.subrange(25 + a, 25 + b) =~= u.subrange(a, b));
        assert(ps[i] == 25 + a);
        assert(b <= u.len());
        assert(header.len() == 25 + u.len() + 1);
        assert(cp >= header.len());
    }
    assert forall|i: int, j: int| 0 <= i < j < n implies ps[i] < ps[j] by {
        lemma_use_lines_prefix(imports, i);
        lemma_use_lines_prefix(imports.take(j), i + 1);
        assert(imports.take(j).take(i + 1) =~= imports.take(i + 1));
        assert(imports.take(j).take(i) =~= imports.take(i));
        lemma_use_lines_prefix(imports.take(j), i);
    }
    assert(ps.len() == imports.len());
    assert(crate::text::occurs_at(src, code, cp));
}

} // verus!
