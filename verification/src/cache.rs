//! Build cache layout and validity for `rfast`.
//!
//! Each script is hashed (SHA-256 of its content followed by its path) and its
//! build lives under `<cache>/rfast/<hash>/`.  A stamp file holding the hash
//! marks a finished build.
use crate::digest::{hex_encode, hex_lower, sha256, sha256_digest};
use crate::text::{
    byte_prefix, byte_prefix_exec, chars_of, is_ws, push_all, starts_with, string_of, trim,
    trim_exec,
};
use vstd::prelude::*;
use vstd::utf8::encode_utf8;

verus! {

// ───────────────────────────── paths ─────────────────────────────

/// `Path::new(base).join(comp)` on Unix: an absolute `comp` replaces `base`;
/// otherwise a `/` is put between them unless `base` is empty or ends with one.
pub open spec fn path_join(base: Seq<char>, comp: Seq<char>) -> Seq<char> {
    if comp.len() > 0 && comp[0] == '/' {
        comp
    } else if base.len() == 0 || base.last() == '/' {
        base + comp
    } else {
        base + seq!['/'] + comp
    }
}

/// `Path::new(base).join(comp)` on Unix.
pub fn path_join_exec(base: &str, comp: &str) -> (r: String)
    ensures
        r@ == path_join(base@, comp@),
{
    let b = chars_of(base);
    let c = chars_of(comp);
    if c.len() > 0 && c[0] == '/' {
        return string_of(&c);
    }
    let mut out = b;
    if out.len() > 0 && out[out.len() - 1] != '/' {
        out.push('/');
    }
    push_all(&mut out, &c);
    string_of(&out)
}

/// The cache root: `rfast` inside the system cache directory, or inside
/// `/tmp` where the system has none.
pub open spec fn cache_root(system_cache: Option<Seq<char>>) -> Seq<char> {
    path_join(
        match system_cache {
            Some(d) => d,
            None => "/tmp"@,
        },
        "rfast"@,
    )
}

/// `dirs::cache_dir()`, as text (`~/.cache` on Linux).
///
/// Trusted: nothing is claimed of the result, which depends on the environment.
/// A directory name that is not UTF-8 is converted lossily.
#[verifier::external_body]
fn system_cache_dir() -> (r: Option<String>) {
    match dirs::cache_dir() {
        Some(p) => Some(p.to_string_lossy().into_owned()),
        None => None,
    }
}

/// The cache root for the given system cache directory (see [`cache_root`]).
pub fn cache_dir_from(system_cache: Option<String>) -> (r: String)
    ensures
        r@ == cache_root(crate::text::opt_string_view(system_cache)),
{
    match system_cache {
        Some(d) => path_join_exec(d.as_str(), "rfast"),
        None => path_join_exec("/tmp", "rfast"),
    }
}

/// Returns the root cache directory for `rfast`: `rfast` inside the system
/// cache directory, falling back to `/tmp/rfast`.
pub fn cache_dir() -> (r: String)
    ensures
        exists|sys: Option<Seq<char>>| r@ == #[trigger] cache_root(sys),
{
    let sys = system_cache_dir();
    let ghost v = crate::text::opt_string_view(sys);
    let r = cache_dir_from(sys);
    assert(r@ == cache_root(v));
    r
}

/// Returns the root directory (the same as [`cache_dir`]): `rfast` inside the
/// system cache directory, falling back to `/tmp/rfast`.
pub fn root_dir() -> (r: String)
    ensures
        exists|sys: Option<Seq<char>>| r@ == #[trigger] cache_root(sys),
{
    cache_dir()
}

/// Where the files of the cache live, under a given root.
pub struct CacheLayout {
    pub root: String,
}

pub open spec fn spec_project_dir(root: Seq<char>, hash: Seq<char>) -> Seq<char> {
    path_join(root, hash)
}

pub open spec fn spec_stamp_path(root: Seq<char>, hash: Seq<char>) -> Seq<char> {
    path_join(spec_project_dir(root, hash), ".build_stamp"@)
}

pub open spec fn spec_binary_path(root: Seq<char>, hash: Seq<char>) -> Seq<char> {
    path_join(spec_project_dir(root, hash), "target/debug/script"@)
}

pub open spec fn spec_release_binary_path(root: Seq<char>, hash: Seq<char>) -> Seq<char> {
    path_join(spec_project_dir(root, hash), "target/release/script"@)
}

pub open spec fn spec_eval_dir(root: Seq<char>, hash: Seq<char>) -> Seq<char> {
    path_join(path_join(root, "eval"@), hash)
}

impl CacheLayout {
    /// The project subdirectory for a given script hash.
    pub fn project_dir(&self, hash: &str) -> (r: String)
        ensures
            r@ == spec_project_dir(self.root@, hash@),
    {
        path_join_exec(self.root.as_str(), hash)
    }

    /// The stamp file that validates a cache entry.
    pub fn stamp_path(&self, hash: &str) -> (r: String)
        ensures
            r@ == spec_stamp_path(self.root@, hash@),
    {
        let p = self.project_dir(hash);
        path_join_exec(p.as_str(), ".build_stamp")
    }

    /// The compiled (debug) binary of a script.
    pub fn binary_path(&self, hash: &str) -> (r: String)
        ensures
            r@ == spec_binary_path(self.root@, hash@),
    {
        let p = self.project_dir(hash);
        path_join_exec(p.as_str(), "target/debug/script")
    }

    /// The compiled release binary of a script.
    pub fn release_binary_path(&self, hash: &str) -> (r: String)
        ensures
            r@ == spec_release_binary_path(self.root@, hash@),
    {
        let p = self.project_dir(hash);
        path_join_exec(p.as_str(), "target/release/script")
    }

    /// The directory of a cached evaluated snippet.
    pub fn eval_dir(&self, hash: &str) -> (r: String)
        ensures
            r@ == spec_eval_dir(self.root@, hash@),
    {
        let e = path_join_exec(self.root.as_str(), "eval");
        path_join_exec(e.as_str(), hash)
    }
}

/// Returns the project subdirectory for a given script hash.
pub fn project_dir(hash: &str) -> (r: String)
    ensures
        exists|sys: Option<Seq<char>>| r@ == spec_project_dir(#[trigger] cache_root(sys), hash@),
{
    let layout = CacheLayout { root: cache_dir() };
    layout.project_dir(hash)
}

/// Returns the path to the compiled binary for a given script hash.
pub fn binary_path(hash: &str) -> (r: String)
    ensures
        exists|sys: Option<Seq<char>>| r@ == spec_binary_path(#[trigger] cache_root(sys), hash@),
{
    let layout = CacheLayout { root: cache_dir() };
    layout.binary_path(hash)
}

/// Returns a human-readable short cache path for display:
/// `~/.cache/rfast/` and the first 12 bytes of the hash.
pub fn short_cache_path(hash: &str) -> (r: String)
    requires
        byte_prefix(hash@, 12) is Some,
    ensures
        r@ == "~/.cache/rfast/"@ + byte_prefix(hash@, 12)->0,
{
    let h = chars_of(hash);
    let p = match byte_prefix_exec(&h, 12) {
        Some(p) => p,
        None => Vec::new(),
    };
    let mut out = chars_of("~/.cache/rfast/");
    push_all(&mut out, &p);
    string_of(&out)
}

/// The name under which `rfast cache` lists an entry: its first 16 bytes when
/// it has that many, the whole name otherwise.
pub open spec fn spec_entry_label(name: Seq<char>) -> Seq<char> {
    if crate::text::utf8_len(name) >= 16 {
        byte_prefix(name, 16)->0
    } else {
        name
    }
}

/// The label of a cache entry in `rfast cache`.
pub fn cache_entry_label(name: &str) -> (r: String)
    requires
        crate::text::utf8_len(name@) >= 16 ==> byte_prefix(name@, 16) is Some,
    ensures
        r@ == spec_entry_label(name@),
{
    let v = chars_of(name);
    let total = crate::text::utf8_len_exec(&v, v.len());
    assert(v@.take(v@.len() as int) =~= v@);
    if total >= 16 {
        match byte_prefix_exec(&v, 16) {
            Some(p) => string_of(&p),
            None => string_of(&v),
        }
    } else {
        string_of(&v)
    }
}

// ───────────────────────────── validity ─────────────────────────────

/// A cache entry is valid when its binary and its stamp exist and the stamp,
/// trimmed, holds exactly the hash.
pub open spec fn spec_cache_valid(
    binary_exists: bool,
    stamp_exists: bool,
    stamp_text: Option<Seq<char>>,
    hash: Seq<char>,
) -> bool {
    binary_exists && stamp_exists && match stamp_text {
        Some(t) => trim(t) == hash,
        None => false,
    }
}

/// Decides whether a cached build for `hash` is still valid, from whether its
/// binary and stamp file exist and what the stamp file holds (`None` when it
/// could not be read).
pub fn is_cache_valid(
    binary_exists: bool,
    stamp_exists: bool,
    stamp_text: Option<&str>,
    hash: &str,
) -> (r: bool)
    ensures
        r == spec_cache_valid(
            binary_exists,
            stamp_exists,
            match stamp_text {
                Some(t) => Some(t@),
                None => None,
            },
            hash@,
        ),
{
    if !binary_exists || !stamp_exists {
        return false;
    }
    match stamp_text {
        Some(t) => {
            let tv = chars_of(t);
            let tt = trim_exec(&tv);
            let hv = chars_of(hash);
            let same = crate::text::starts_with_exec(&tt, &hv) && tt.len() == hv.len();
            proof {
                assert(tt@.take(tt@.len() as int) =~= tt@);
            }
            same
        },
        None => false,
    }
}

/// What a stamp file holds for `hash`: the hash itself.
pub open spec fn spec_stamp_contents(hash: Seq<char>) -> Seq<char> {
    hash
}

/// The text written to the stamp file that marks the build of `hash` as valid.
pub fn stamp_contents(hash: &str) -> (r: String)
    ensures
        r@ == spec_stamp_contents(hash@),
{
    hash.to_string()
}

// ───────────────────────────── hashing ─────────────────────────────

pub fn push_bytes(dst: &mut Vec<u8>, src: &[u8])
    ensures
        final(dst)@ == old(dst)@ + src@,
{
    let mut i: usize = 0;
    while i < src.len()
        invariant
            i <= src.len(),
            dst@ == old(dst)@ + src@.take(i as int),
        decreases src.len() - i,
    {
        dst.push(src[i]);
        i = i + 1;
        assert(dst@ =~= old(dst)@ + src@.take(i as int));
    }
    assert(src@.take(src@.len() as int) =~= src@);
}

/// The cache key of a script: lower-case hex SHA-256 of its content followed
/// by the UTF-8 bytes of its path.
pub open spec fn spec_script_hash(content: Seq<u8>, path: Seq<char>) -> Seq<char> {
    hex_lower(sha256_digest(content + encode_utf8(path)))
}

/// Computes the cache key of a script from its content and its path.
pub fn script_hash(content: &[u8], path: &str) -> (r: String)
    ensures
        r@ == spec_script_hash(content@, path@),
        r@.len() == 64,
        is_lower_hex(r@),
{
    let mut data: Vec<u8> = Vec::new();
    push_bytes(&mut data, content);
    push_bytes(&mut data, path.as_bytes());
    assert(data@ =~= content@ + encode_utf8(path@));
    let digest = sha256(data.as_slice());
    proof {
        crate::digest::lemma_hex_lower_len(digest@);
        crate::digest::lemma_hex_lower_digits(digest@);
    }
    hex_encode(digest.as_slice())
}


// ───────────────────────────── laws ─────────────────────────────


/// Lower-case hexadecimal digits only.
pub open spec fn is_lower_hex(s: Seq<char>) -> bool {
    forall|i: int| 0 <= i < s.len() ==> {
        let c = #[trigger] s[i];
        ('0' <= c && c <= '9') || ('a' <= c && c <= 'f')
    }
}

/// A stamp written for a build validates that build as soon as its binary
/// exists, for every key without surrounding white space (all script keys).
pub proof fn law_fresh_stamp_validates(hash: Seq<char>)
    requires
        trim(hash) == hash,
    ensures
        spec_cache_valid(true, true, Some(spec_stamp_contents(hash)), hash),
{
}

/// A stamp written for one key never validates the build of another.
pub proof fn law_foreign_stamp_rejected(
    binary_exists: bool,
    stamp_exists: bool,
    written_for: Seq<char>,
    hash: Seq<char>,
)
    requires
        trim(written_for) == written_for,
        written_for != hash,
    ensures
        !spec_cache_valid(binary_exists, stamp_exists, Some(spec_stamp_contents(written_for)), hash),
{
}

/// Without its binary or its stamp (after `invalidate`), a build is never valid.
pub proof fn law_missing_files_invalidate(
    binary_exists: bool,
    stamp_exists: bool,
    stamp_text: Option<Seq<char>>,
    hash: Seq<char>,
)
    requires
        !binary_exists || !stamp_exists,
    ensures
        !spec_cache_valid(binary_exists, stamp_exists, stamp_text, hash),
{
}

/// Keys made of hexadecimal digits have no surrounding white space.
pub proof fn law_hex_key_is_trimmed(hash: Seq<char>)
    requires
        is_lower_hex(hash),
    ensures
        trim(hash) == hash,
{
    assert forall|i: int| 0 <= i < hash.len() implies !is_ws(#[trigger] hash[i]) by {
        let c = hash[i];
        assert(('0' <= c && c <= '9') || ('a' <= c && c <= 'f'));
    }
    if hash.len() > 0 {
        crate::text::lemma_trim_kept(hash);
    } else {
        assert(crate::text::ws_run_end(hash, 0) == 0);
        assert(hash.skip(0) =~= hash);
        assert(hash.take(0) =~= hash);
    }
}

/// Scripts with different keys get different project directories, and every
/// file of a build lies inside its project directory.
pub proof fn law_project_dirs_are_separate(root: Seq<char>, h1: Seq<char>, h2: Seq<char>)
    requires
        h1 != h2,
        !(h1.len() > 0 && h1[0] == '/'),
        !(h2.len() > 0 && h2[0] == '/'),
    ensures
        spec_project_dir(root, h1) != spec_project_dir(root, h2),
        starts_with(spec_stamp_path(root, h1), spec_project_dir(root, h1)),
        starts_with(spec_binary_path(root, h1), spec_project_dir(root, h1)),
        starts_with(spec_release_binary_path(root, h1), spec_project_dir(root, h1)),
{
    let p1 = spec_project_dir(root, h1);
    let p2 = spec_project_dir(root, h2);
    if p1 == p2 {
        let b = if root.len() == 0 || root.last() == '/' { root } else { root + seq!['/'] };
        assert(p1 =~= b + h1);
        assert(p2 =~= b + h2);
        assert(h1 =~= p1.skip(b.len() as int));
        assert(h2 =~= p2.skip(b.len() as int));
    }
    reveal_strlit(".build_stamp");
    reveal_strlit("target/debug/script");
    reveal_strlit("target/release/script");
    assert(spec_stamp_path(root, h1).take(p1.len() as int) =~= p1);
    assert(spec_binary_path(root, h1).take(p1.len() as int) =~= p1);
    assert(spec_release_binary_path(root, h1).take(p1.len() as int) =~= p1);
}


// ───────────────────────────── listing ─────────────────────────────

/// Entry `a` is listed before entry `b`: it was modified later, or at the same
/// time but comes later in the directory listing (a stable sort by time,
/// reversed).
pub open spec fn listed_before(times: Seq<u128>, a: int, b: int) -> bool {
    times[a] > times[b] || (times[a] == times[b] && a > b)
}

/// Entry `m` may come next after the entries `r` already listed.
pub open spec fn after_last(times: Seq<u128>, r: Seq<usize>, m: int) -> bool {
    r.len() == 0 || listed_before(times, r[r.len() - 1] as int, m)
}

/// `r` lists the (at most) five most recent entries, most recent first.
pub open spec fn is_recent_listing(times: Seq<u128>, r: Seq<usize>) -> bool {
    &&& r.len() == if times.len() < 5 { times.len() } else { 5 }
    &&& forall|i: int| 0 <= i < r.len() ==> #[trigger] r[i] < times.len()
    &&& forall|i: int, j: int| 0 <= i < j < r.len() ==> listed_before(times, r[i] as int, r[j] as int)
    &&& forall|k: usize|
        k < times.len() && !#[trigger] r.contains(k) ==> forall|i: int|
            0 <= i < r.len() ==> listed_before(times, #[trigger] r[i] as int, k as int)
}

/// Chooses the entries that `rfast cache` lists, given their modification
/// times (in the directory's order): the five most recent, most recent first.
pub fn most_recent_entries(times: &[u128]) -> (r: Vec<usize>)
    ensures
        is_recent_listing(times@, r@),
{
    let n = times.len();
    let mut r: Vec<usize> = Vec::new();
    while r.len() < 5 && r.len() < n
        invariant
            n == times@.len(),
            r.len() <= 5,
            r.len() <= n,
            forall|i: int| 0 <= i < r.len() ==> #[trigger] r@[i] < n,
            forall|i: int, j: int| 0 <= i < j < r.len() ==> listed_before(times@, r@[i] as int, r@[j] as int),
            forall|k: usize|
                k < n && !#[trigger] r@.contains(k) ==> forall|i: int|
                    0 <= i < r.len() ==> listed_before(times@, #[trigger] r@[i] as int, k as int),
        decreases 5 - r.len(),
    {
        let ghost chosen = r@;
        // the candidates: every entry listed after the last chosen one
        let mut best: usize = n;
        let mut k: usize = 0;
        while k < n
            invariant
                n == times@.len(),
                r@ == chosen,
                k <= n,
                forall|i: int| 0 <= i < r.len() ==> #[trigger] r@[i] < n,
                best == n || (best < k && after_last(times@, r@, best as int)),
                forall|m: int|
                    0 <= m < k && m != best && #[trigger] after_last(times@, r@, m) ==> best < n
                        && listed_before(times@, best as int, m),
                best == n ==> forall|m: int| 0 <= m < k ==> !#[trigger] after_last(times@, r@, m),
            decreases n - k,
        {
            let candidate = r.len() == 0 || {
                let last = r[r.len() - 1];
                times[last] > times[k] || (times[last] == times[k] && last > k)
            };
            if candidate && (best == n || times[k] > times[best] || (times[k] == times[best] && k
                > best)) {
                best = k;
            }
            k = k + 1;
        }
        proof {
            // some entry is not chosen yet, and every such entry is a candidate
            lemma_unchosen_exists(chosen, n as int);
            let free = choose|m: usize| m < n && !chosen.contains(m);
            if r.len() > 0 {
                assert(listed_before(times@, r@[r.len() - 1] as int, free as int));
            }
            assert(after_last(times@, r@, free as int));
            assert(best < n);
        }
        let ghost b = best as int;
        r.push(best);
        proof {
            assert forall|m: usize|
                m < n && !#[trigger] r@.contains(m) implies forall|i: int|
                0 <= i < r.len() ==> listed_before(times@, #[trigger] r@[i] as int, m as int) by {
                assert(!chosen.contains(m)) by {
                    if chosen.contains(m) {
                        let i = choose|i: int| 0 <= i < chosen.len() && chosen[i] == m;
                        assert(r@[i] == m);
                    }
                }
                assert(m != best) by {
                    assert(r@[r.len() - 1] == best);
                }
                if chosen.len() > 0 {
                    assert(listed_before(times@, chosen[chosen.len() - 1] as int, m as int));
                }
                assert(after_last(times@, chosen, m as int));
                assert(listed_before(times@, b, m as int));
                assert forall|i: int| 0 <= i < r.len() implies listed_before(
                    times@,
                    #[trigger] r@[i] as int,
                    m as int,
                ) by {
                    if i < chosen.len() {
                        assert(r@[i] == chosen[i]);
                    }
                }
            }
            assert forall|i: int, j: int| 0 <= i < j < r.len() implies listed_before(
                times@,
                r@[i] as int,
                r@[j] as int,
            ) by {
                if j == r.len() - 1 && i < j {
                    if i < chosen.len() - 1 {
                        assert(listed_before(times@, chosen[i] as int, chosen[chosen.len() - 1] as int));
                    }
                }
            }
        }
    }
    r
}

proof fn lemma_unchosen_exists(chosen: Seq<usize>, n: int)
    requires
        chosen.len() < n <= usize::MAX,
    ensures
        exists|m: usize| m < n && !#[trigger] chosen.contains(m),
{
    let ints = chosen.map_values(|x: usize| x as int);
    let range = vstd::set_lib::set_int_range(0, n);
    if forall|m: usize| m < n ==> #[trigger] chosen.contains(m) {
        assert forall|m: int| range.contains(m) implies ints.to_set().contains(m) by {
            assert(chosen.contains(m as usize));
            let i = choose|i: int| 0 <= i < chosen.len() && chosen[i] == m as usize;
            assert(ints[i] == m);
        }
        ints.lemma_cardinality_of_set();
        vstd::set_lib::lemma_int_range(0, n);
        vstd::seq_lib::seq_to_set_is_finite(ints);
        vstd::set_lib::lemma_len_subset(range, ints.to_set());
    }
}


/// The cache key covers the whole content of a script, then its path: two
/// scripts get the same key exactly when SHA-256 gives the same digest for
/// their whole contents followed by their paths. Scripts that differ anywhere
/// in their content, at the same path, hash different inputs.
pub proof fn law_script_key_covers_whole_content(
    c1: Seq<u8>,
    p1: Seq<char>,
    c2: Seq<u8>,
    p2: Seq<char>,
)
    ensures
        spec_script_hash(c1, p1) == spec_script_hash(c2, p2) <==> sha256_digest(c1 + encode_utf8(p1))
            == sha256_digest(c2 + encode_utf8(p2)),
        p1 == p2 && c1 != c2 ==> c1 + encode_utf8(p1) != c2 + encode_utf8(p2),
{
    if spec_script_hash(c1, p1) == spec_script_hash(c2, p2) {
        crate::digest::lemma_hex_lower_injective(
            sha256_digest(c1 + encode_utf8(p1)),
            sha256_digest(c2 + encode_utf8(p2)),
        );
    }
    if p1 == p2 && c1 != c2 {
        let u = encode_utf8(p1);
        if c1 + u == c2 + u {
            assert((c1 + u).len() == c1.len() + u.len());
            assert((c2 + u).len() == c2.len() + u.len());
            assert(c1.len() == c2.len());
            assert(c1 =~= (c1 + u).take(c1.len() as int));
            assert(c2 =~= (c2 + u).take(c2.len() as int));
        }
    }
}

} // verus!
