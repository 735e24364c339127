//! Character-level text model shared by the metadata parser, the manifest
//! generator and the script editor.
//!
//! Strings are modelled by their `Seq<char>` views.  The spec functions here
//! describe the `str` operations the tool relies on (`lines`, `trim`, `find`,
//! `split`, `join`, byte offsets) and the executable functions are proved to
//! compute exactly those.
use vstd::prelude::*;

verus! {

// ───────────────────────────── characters ─────────────────────────────

/// The Unicode `White_Space` property, which is what `char::is_whitespace`
/// (and therefore `str::trim`) tests.
pub open spec fn is_ws(c: char) -> bool {
    let u = c as u32;
    ||| 0x9 <= u && u <= 0xD
    ||| u == 0x20
    ||| u == 0x85
    ||| u == 0xA0
    ||| u == 0x1680
    ||| 0x2000 <= u && u <= 0x200A
    ||| u == 0x2028
    ||| u == 0x2029
    ||| u == 0x202F
    ||| u == 0x205F
    ||| u == 0x3000
}

pub fn is_ws_exec(c: char) -> (b: bool)
    ensures
        b == is_ws(c),
{
    let u = c as u32;
    (0x9 <= u && u <= 0xD) || u == 0x20 || u == 0x85 || u == 0xA0 || u == 0x1680 || (0x2000 <= u
        && u <= 0x200A) || u == 0x2028 || u == 0x2029 || u == 0x202F || u == 0x205F || u == 0x3000
}

/// Every character of `s` is white space (so `s.trim()` is empty).
pub open spec fn all_ws(s: Seq<char>) -> bool {
    forall|i: int| 0 <= i < s.len() ==> #[trigger] is_ws(s[i])
}

/// Number of bytes of the UTF-8 encoding of `c`.
pub open spec fn char_width(c: char) -> nat {
    let u = c as u32;
    if u < 0x80 {
        1
    } else if u < 0x800 {
        2
    } else if u < 0x10000 {
        3
    } else {
        4
    }
}

/// Number of bytes of the UTF-8 encoding of `s` (what `str::len` returns).
pub open spec fn utf8_len(s: Seq<char>) -> nat
    decreases s.len(),
{
    if s.len() == 0 {
        0
    } else {
        utf8_len(s.drop_last()) + char_width(s.last())
    }
}

/// Byte offset `n` of `s` falls right before character `k`.
pub open spec fn byte_boundary(s: Seq<char>, n: int, k: int) -> bool {
    0 <= k <= s.len() && utf8_len(s.take(k)) == n
}

/// `&s[..n]` with `n` a byte offset: the characters before byte `n`, or
/// `None` where `n` is not a character boundary of `s` (where the slice panics).
pub open spec fn byte_prefix(s: Seq<char>, n: int) -> Option<Seq<char>> {
    if exists|k: int| byte_boundary(s, n, k) {
        Some(s.take(choose|k: int| byte_boundary(s, n, k)))
    } else {
        None
    }
}

pub fn char_width_exec(c: char) -> (w: usize)
    ensures
        w == char_width(c),
{
    let u = c as u32;
    if u < 0x80 {
        1
    } else if u < 0x800 {
        2
    } else if u < 0x10000 {
        3
    } else {
        4
    }
}

pub proof fn lemma_utf8_len_step(s: Seq<char>, k: int)
    requires
        0 <= k < s.len(),
    ensures
        utf8_len(s.take(k + 1)) == utf8_len(s.take(k)) + char_width(s[k]),
{
    assert(s.take(k + 1).drop_last() =~= s.take(k));
}

pub proof fn lemma_utf8_len_strict(s: Seq<char>, a: int, b: int)
    requires
        0 <= a < b <= s.len(),
    ensures
        utf8_len(s.take(a)) < utf8_len(s.take(b)),
    decreases b - a,
{
    lemma_utf8_len_step(s, b - 1);
    if a < b - 1 {
        lemma_utf8_len_strict(s, a, b - 1);
    }
}

pub proof fn lemma_byte_boundary_unique(s: Seq<char>, n: int, k1: int, k2: int)
    requires
        byte_boundary(s, n, k1),
        byte_boundary(s, n, k2),
    ensures
        k1 == k2,
{
    if k1 < k2 {
        lemma_utf8_len_strict(s, k1, k2);
    } else if k2 < k1 {
        lemma_utf8_len_strict(s, k2, k1);
    }
}

/// Finds the character index at byte offset `n`, if `n` is a boundary.
pub fn char_index_at_byte(s: &Vec<char>, n: usize) -> (r: Option<usize>)
    ensures
        match r {
            Some(k) => byte_boundary(s@, n as int, k as int),
            None => forall|k: int| !byte_boundary(s@, n as int, k),
        },
{
    let mut i: usize = 0;
    let mut acc: usize = 0;
    assert(s@.take(0) =~= Seq::<char>::empty());
    while i < s.len() && acc < n
        invariant
            i <= s.len(),
            acc == utf8_len(s@.take(i as int)),
            acc <= n,
        decreases s.len() - i,
    {
        proof {
            lemma_utf8_len_step(s@, i as int);
        }
        let w = char_width_exec(s[i]);
        if w > n - acc {
            proof {
                assert forall|k: int| !byte_boundary(s@, n as int, k) by {
                    if 0 <= k <= s@.len() && k <= i {
                        if k < i {
                            lemma_utf8_len_strict(s@, k, i as int);
                        }
                    } else if 0 <= k <= s@.len() && k > i + 1 {
                        lemma_utf8_len_strict(s@, i + 1, k);
                    }
                }
            }
            return None;
        }
        acc = acc + w;
        i = i + 1;
    }
    if acc == n {
        Some(i)
    } else {
        proof {
            assert forall|k: int| !byte_boundary(s@, n as int, k) by {
                if 0 <= k < i {
                    lemma_utf8_len_strict(s@, k, i as int);
                }
            }
        }
        None
    }
}

/// `&s[..n]` for a byte offset `n`, where `n` is a character boundary.
pub fn byte_prefix_exec(s: &Vec<char>, n: usize) -> (r: Option<Vec<char>>)
    ensures
        match r {
            Some(p) => byte_prefix(s@, n as int) == Some(p@),
            None => byte_prefix(s@, n as int) is None,
        },
{
    match char_index_at_byte(s, n) {
        Some(k) => {
            proof {
                let c = choose|j: int| byte_boundary(s@, n as int, j);
                lemma_byte_boundary_unique(s@, n as int, c, k as int);
            }
            let p = slice_exec(s, 0, k);
            assert(p@ =~= s@.take(k as int));
            Some(p)
        },
        None => None,
    }
}

/// `utf8_len(s[..k])`, which cannot overflow a `u128`.
pub fn utf8_len_exec(s: &Vec<char>, k: usize) -> (n: u128)
    requires
        k <= s.len(),
    ensures
        n == utf8_len(s@.take(k as int)),
        n <= 4 * k,
{
    let mut i: usize = 0;
    let mut acc: u128 = 0;
    assert(s@.take(0) =~= Seq::<char>::empty());
    while i < k
        invariant
            i <= k <= s.len(),
            acc == utf8_len(s@.take(i as int)),
            acc <= 4 * i,
        decreases k - i,
    {
        proof {
            lemma_utf8_len_step(s@, i as int);
        }
        let w = char_width_exec(s[i]);
        acc = acc + w as u128;
        i = i + 1;
    }
    acc
}

// ───────────────────────────── prefixes and search ─────────────────────────────

pub open spec fn opt_index(o: Option<usize>) -> Option<int> {
    match o {
        Some(k) => Some(k as int),
        None => None,
    }
}

pub open spec fn starts_with(s: Seq<char>, p: Seq<char>) -> bool {
    p.len() <= s.len() && s.take(p.len() as int) == p
}

pub open spec fn ends_with(s: Seq<char>, p: Seq<char>) -> bool {
    p.len() <= s.len() && s.skip(s.len() - p.len()) == p
}

/// `p` occurs in `s` starting at index `i`.
pub open spec fn occurs_at(s: Seq<char>, p: Seq<char>, i: int) -> bool {
    0 <= i && i + p.len() <= s.len() && s.subrange(i, i + p.len()) == p
}

/// The first occurrence of `p` in `s` at or after index `i` (`s[i..].find(p)`,
/// counted from the start of `s`).
pub open spec fn find_from(s: Seq<char>, p: Seq<char>, i: int) -> Option<int>
    decreases s.len() + 1 - i,
{
    if i < 0 || i + p.len() > s.len() {
        None
    } else if occurs_at(s, p, i) {
        Some(i)
    } else {
        find_from(s, p, i + 1)
    }
}

pub open spec fn find(s: Seq<char>, p: Seq<char>) -> Option<int> {
    find_from(s, p, 0)
}

pub open spec fn contains(s: Seq<char>, p: Seq<char>) -> bool {
    find(s, p) is Some
}

pub proof fn lemma_find_from(s: Seq<char>, p: Seq<char>, i: int)
    requires
        0 <= i,
    ensures
        match find_from(s, p, i) {
            Some(k) => i <= k && occurs_at(s, p, k) && forall|j: int|
                i <= j < k ==> !#[trigger] occurs_at(s, p, j),
            None => forall|j: int| i <= j ==> !#[trigger] occurs_at(s, p, j),
        },
    decreases s.len() + 1 - i,
{
    if i + p.len() > s.len() {
    } else if occurs_at(s, p, i) {
    } else {
        lemma_find_from(s, p, i + 1);
    }
}

pub proof fn lemma_find_from_skip(s: Seq<char>, p: Seq<char>, i: int, j: int)
    requires
        0 <= i <= j,
        forall|k: int| i <= k < j ==> !#[trigger] occurs_at(s, p, k),
    ensures
        find_from(s, p, i) == find_from(s, p, j),
    decreases j - i,
{
    if i < j {
        lemma_find_from_skip(s, p, i + 1, j);
    }
}

pub fn occurs_at_exec(s: &Vec<char>, p: &Vec<char>, i: usize) -> (b: bool)
    ensures
        b == occurs_at(s@, p@, i as int),
{
    if i > s.len() || p.len() > s.len() - i {
        return false;
    }
    let mut k: usize = 0;
    while k < p.len()
        invariant
            i + p.len() <= s.len(),
            k <= p.len(),
            forall|j: int| 0 <= j < k ==> s@[i + j] == p@[j],
        decreases p.len() - k,
    {
        if s[i + k] != p[k] {
            assert(s@.subrange(i as int, i + p.len())[k as int] != p@[k as int]);
            return false;
        }
        k = k + 1;
    }
    assert(s@.subrange(i as int, i + p.len()) =~= p@);
    true
}

pub fn starts_with_exec(s: &Vec<char>, p: &Vec<char>) -> (b: bool)
    ensures
        b == starts_with(s@, p@),
{
    let b = occurs_at_exec(s, p, 0);
    assert(s@.subrange(0, p@.len() as int) =~= s@.take(p@.len() as int));
    b
}

pub fn ends_with_exec(s: &Vec<char>, p: &Vec<char>) -> (b: bool)
    ensures
        b == ends_with(s@, p@),
{
    if p.len() > s.len() {
        return false;
    }
    let b = occurs_at_exec(s, p, s.len() - p.len());
    assert(s@.subrange(s@.len() - p@.len(), s@.len() as int) =~= s@.skip(s@.len() - p@.len()));
    b
}

/// `s[from..].find(p)`, as an index into `s`.
pub fn find_exec(s: &Vec<char>, p: &Vec<char>, from: usize) -> (r: Option<usize>)
    ensures
        opt_index(r) == find_from(s@, p@, from as int),
{
    if p.len() > s.len() {
        return None;
    }
    let mut i = from;
    while i <= s.len() - p.len()
        invariant
            from <= i,
            p.len() <= s.len(),
            find_from(s@, p@, from as int) == find_from(s@, p@, i as int),
        decreases s.len() + 1 - i,
    {
        if p.len() == 0 {
            assert(s@.subrange(i as int, i as int) =~= p@);
        }
        if occurs_at_exec(s, p, i) {
            return Some(i);
        }
        i = i + 1;
    }
    None
}

// ───────────────────────────── single characters ─────────────────────────────

/// Index of the first `c` at or after `i`, or `s.len()` when there is none.
pub open spec fn next_char(s: Seq<char>, c: char, i: int) -> int
    decreases s.len() - i,
{
    if 0 <= i < s.len() && s[i] != c {
        next_char(s, c, i + 1)
    } else {
        i
    }
}

pub proof fn lemma_next_char(s: Seq<char>, c: char, i: int)
    requires
        0 <= i <= s.len(),
    ensures
        i <= next_char(s, c, i) <= s.len(),
        next_char(s, c, i) < s.len() ==> s[next_char(s, c, i)] == c,
        forall|k: int| i <= k < next_char(s, c, i) ==> s[k] != c,
    decreases s.len() - i,
{
    if i < s.len() && s[i] != c {
        lemma_next_char(s, c, i + 1);
    }
}

pub fn next_char_exec(s: &Vec<char>, c: char, i: usize) -> (j: usize)
    requires
        i <= s.len(),
    ensures
        j == next_char(s@, c, i as int),
        i <= j <= s.len(),
{
    let mut j = i;
    while j < s.len() && s[j] != c
        invariant
            i <= j <= s.len(),
            next_char(s@, c, i as int) == next_char(s@, c, j as int),
        decreases s.len() - j,
    {
        j = j + 1;
    }
    j
}

/// `s.contains(c)`.
pub open spec fn has_char(s: Seq<char>, c: char) -> bool {
    next_char(s, c, 0) < s.len()
}

/// `s.split_once(c)`.
pub open spec fn split_once(s: Seq<char>, c: char) -> Option<(Seq<char>, Seq<char>)> {
    let k = next_char(s, c, 0);
    if k < s.len() {
        Some((s.take(k), s.skip(k + 1)))
    } else {
        None
    }
}

/// The pieces of `s[i..]` separated by `c` (`s[i..].split(c)`).
pub open spec fn split_from(s: Seq<char>, c: char, i: int) -> Seq<Seq<char>>
    decreases s.len() + 1 - i,
{
    if i < 0 || i > s.len() {
        seq![]
    } else {
        let j = next_char(s, c, i);
        proof {
            lemma_next_char(s, c, i);
        }
        if j < s.len() {
            seq![s.subrange(i, j)] + split_from(s, c, j + 1)
        } else {
            seq![s.subrange(i, s.len() as int)]
        }
    }
}

/// `s.split(c)`: always at least one piece.
pub open spec fn split(s: Seq<char>, c: char) -> Seq<Seq<char>> {
    split_from(s, c, 0)
}

// ───────────────────────────── lines ─────────────────────────────

/// A line without its `\n` loses a trailing `\r` as well.
pub open spec fn strip_cr(l: Seq<char>) -> Seq<char> {
    if l.len() > 0 && l.last() == '\r' {
        l.drop_last()
    } else {
        l
    }
}

/// The lines of `s[i..]`, as `str::lines` yields them.
pub open spec fn lines_from(s: Seq<char>, i: int) -> Seq<Seq<char>>
    decreases s.len() - i,
{
    if i < 0 || i >= s.len() {
        seq![]
    } else {
        let j = next_char(s, '\n', i);
        proof {
            lemma_next_char(s, '\n', i);
        }
        if j < s.len() {
            seq![strip_cr(s.subrange(i, j))] + lines_from(s, j + 1)
        } else {
            seq![s.subrange(i, s.len() as int)]
        }
    }
}

/// `s.lines()`.
pub open spec fn lines(s: Seq<char>) -> Seq<Seq<char>> {
    lines_from(s, 0)
}

/// `parts.join(sep)`.
pub open spec fn join(parts: Seq<Seq<char>>, sep: Seq<char>) -> Seq<char>
    decreases parts.len(),
{
    if parts.len() == 0 {
        seq![]
    } else if parts.len() == 1 {
        parts[0]
    } else {
        join(parts.drop_last(), sep) + sep + parts.last()
    }
}

// ───────────────────────────── trimming ─────────────────────────────

/// Index of the first non-white-space character at or after `i`.
pub open spec fn ws_run_end(s: Seq<char>, i: int) -> int
    decreases s.len() - i,
{
    if 0 <= i < s.len() && is_ws(s[i]) {
        ws_run_end(s, i + 1)
    } else {
        i
    }
}

/// Index just after the last non-white-space character before `j`.
pub open spec fn ws_run_start(s: Seq<char>, j: int) -> int
    decreases j,
{
    if 0 < j <= s.len() && is_ws(s[j - 1]) {
        ws_run_start(s, j - 1)
    } else {
        j
    }
}

/// `s.trim_start()`.
pub open spec fn trim_start(s: Seq<char>) -> Seq<char> {
    s.skip(ws_run_end(s, 0))
}

/// `s.trim_end()`.
pub open spec fn trim_end(s: Seq<char>) -> Seq<char> {
    s.take(ws_run_start(s, s.len() as int))
}

/// `s.trim()`.
pub open spec fn trim(s: Seq<char>) -> Seq<char> {
    trim_end(trim_start(s))
}

pub proof fn lemma_ws_run_end(s: Seq<char>, i: int)
    requires
        0 <= i <= s.len(),
    ensures
        i <= ws_run_end(s, i) <= s.len(),
        forall|k: int| i <= k < ws_run_end(s, i) ==> is_ws(s[k]),
        ws_run_end(s, i) < s.len() ==> !is_ws(s[ws_run_end(s, i)]),
    decreases s.len() - i,
{
    if i < s.len() && is_ws(s[i]) {
        lemma_ws_run_end(s, i + 1);
    }
}

/// The white space at the start of `s` ends at `k` when `s[..k]` is white
/// space and `s[k]` (if any) is not.
pub proof fn lemma_ws_run_end_at(s: Seq<char>, k: int)
    requires
        0 <= k <= s.len(),
        forall|j: int| 0 <= j < k ==> is_ws(#[trigger] s[j]),
        k == s.len() || !is_ws(s[k]),
    ensures
        ws_run_end(s, 0) == k,
{
    lemma_ws_run_end(s, 0);
    let r = ws_run_end(s, 0);
    if r < k {
        assert(is_ws(s[r]));
    } else if r > k {
        assert(is_ws(s[k]));
    }
}

/// The white space at the end of `s` starts at `k` when `s[k..]` is white
/// space and `s[k - 1]` (if any) is not.
pub proof fn lemma_ws_run_start_at(s: Seq<char>, k: int)
    requires
        0 <= k <= s.len(),
        forall|j: int| k <= j < s.len() ==> is_ws(#[trigger] s[j]),
        k == 0 || !is_ws(s[k - 1]),
    ensures
        ws_run_start(s, s.len() as int) == k,
{
    lemma_ws_run_start(s, s.len() as int);
    let r = ws_run_start(s, s.len() as int);
    if r < k {
        assert(is_ws(s[k - 1]));
    } else if r > k {
        assert(is_ws(s[r - 1]));
    }
}

/// A text that neither starts nor ends with white space is its own `trim`.
pub proof fn lemma_trim_kept(s: Seq<char>)
    requires
        s.len() > 0,
        !is_ws(s[0]),
        !is_ws(s.last()),
    ensures
        trim(s) == s,
{
    assert(ws_run_end(s, 0) == 0);
    assert(s.skip(0) =~= s);
    assert(ws_run_start(s, s.len() as int) == s.len());
    assert(s.take(s.len() as int) =~= s);
}

pub proof fn lemma_ws_run_start(s: Seq<char>, j: int)
    requires
        0 <= j <= s.len(),
    ensures
        0 <= ws_run_start(s, j) <= j,
        forall|k: int| ws_run_start(s, j) <= k < j ==> is_ws(s[k]),
        ws_run_start(s, j) > 0 ==> !is_ws(s[ws_run_start(s, j) - 1]),
    decreases j,
{
    if 0 < j && is_ws(s[j - 1]) {
        lemma_ws_run_start(s, j - 1);
    }
}

/// A copy of `s[a..b]`.
pub fn slice_exec(s: &Vec<char>, a: usize, b: usize) -> (r: Vec<char>)
    requires
        a <= b <= s.len(),
    ensures
        r@ == s@.subrange(a as int, b as int),
{
    let mut r: Vec<char> = Vec::new();
    let mut i = a;
    while i < b
        invariant
            a <= i <= b <= s.len(),
            r@ == s@.subrange(a as int, i as int),
        decreases b - i,
    {
        r.push(s[i]);
        i = i + 1;
        assert(r@ =~= s@.subrange(a as int, i as int));
    }
    r
}

pub fn push_all(dst: &mut Vec<char>, src: &Vec<char>)
    ensures
        final(dst)@ == old(dst)@ + src@,
{
    let mut i: usize = 0;
    while i < src.len()
        invariant
            i <= src.len(),
            dst@ == old(dst)@ + src@.take(i as int),
        decreases src.len() - i,
    {
        dst.push(src[i]);
        i = i + 1;
        assert(dst@ =~= old(dst)@ + src@.take(i as int));
    }
    assert(src@.take(src@.len() as int) =~= src@);
}

pub fn push_str(dst: &mut Vec<char>, s: &str)
    ensures
        final(dst)@ == old(dst)@ + s@,
{
    let v = chars_of(s);
    push_all(dst, &v);
}

pub fn ws_run_end_exec(s: &Vec<char>, i: usize) -> (j: usize)
    requires
        i <= s.len(),
    ensures
        j == ws_run_end(s@, i as int),
        i <= j <= s.len(),
{
    let mut j = i;
    while j < s.len() && is_ws_exec(s[j])
        invariant
            i <= j <= s.len(),
            ws_run_end(s@, i as int) == ws_run_end(s@, j as int),
        decreases s.len() - j,
    {
        j = j + 1;
    }
    j
}

pub fn ws_run_start_exec(s: &Vec<char>, j: usize) -> (i: usize)
    requires
        j <= s.len(),
    ensures
        i == ws_run_start(s@, j as int),
        i <= j,
{
    let mut i = j;
    while i > 0 && is_ws_exec(s[i - 1])
        invariant
            i <= j <= s.len(),
            ws_run_start(s@, j as int) == ws_run_start(s@, i as int),
        decreases i,
    {
        i = i - 1;
    }
    i
}

pub fn trim_start_exec(s: &Vec<char>) -> (r: Vec<char>)
    ensures
        r@ == trim_start(s@),
{
    let a = ws_run_end_exec(s, 0);
    let r = slice_exec(s, a, s.len());
    assert(r@ =~= s@.skip(a as int));
    r
}

pub fn trim_end_exec(s: &Vec<char>) -> (r: Vec<char>)
    ensures
        r@ == trim_end(s@),
{
    let b = ws_run_start_exec(s, s.len());
    let r = slice_exec(s, 0, b);
    assert(r@ =~= s@.take(b as int));
    r
}

pub fn trim_exec(s: &Vec<char>) -> (r: Vec<char>)
    ensures
        r@ == trim(s@),
{
    let t = trim_start_exec(s);
    trim_end_exec(&t)
}

/// Tests `all_ws(s[..k])`.
pub fn all_ws_prefix_exec(s: &Vec<char>, k: usize) -> (b: bool)
    requires
        k <= s.len(),
    ensures
        b == all_ws(s@.take(k as int)),
{
    let j = ws_run_end_exec(s, 0);
    proof {
        lemma_ws_run_end(s@, 0);
    }
    if j >= k {
        true
    } else {
        assert(!is_ws(s@.take(k as int)[j as int]));
        false
    }
}

// ───────────────────────────── conversions ─────────────────────────────

/// The view of an optional string.
pub open spec fn opt_string_view(o: Option<String>) -> Option<Seq<char>> {
    match o {
        Some(s) => Some(s@),
        None => None,
    }
}

/// The characters of `s`.
pub fn chars_of(s: &str) -> (r: Vec<char>)
    ensures
        r@ == s@,
{
    let mut v: Vec<char> = Vec::new();
    for c in it: s.chars()
        invariant
            v@ == it.seq().take(it.index() as int),
            it.seq() == s@,
    {
        v.push(c);
    }
    v
}

/// `String::push`.
///
/// Trusted: the contract claims what the standard library documents, that the
/// character is appended at the end of the string.
#[verifier::external_body]
fn push_char(s: &mut String, c: char)
    ensures
        final(s)@ == old(s)@.push(c),
{
    s.push(c);
}

/// The string made of the characters of `v`.
pub(crate) fn string_of(v: &Vec<char>) -> (r: String)
    ensures
        r@ == v@,
{
    let mut r = String::new();
    let mut i: usize = 0;
    while i < v.len()
        invariant
            i <= v.len(),
            r@ == v@.take(i as int),
        decreases v.len() - i,
    {
        push_char(&mut r, v[i]);
        proof {
            assert(v@.take(i + 1) =~= v@.take(i as int).push(v@[i as int]));
        }
        i = i + 1;
    }
    proof {
        assert(v@.take(v.len() as int) =~= v@);
    }
    r
}

// ───────────────────────────── line splitting and joining ─────────────────────────────

/// The views of a vector of character vectors.
pub open spec fn seqs_of(v: Seq<Vec<char>>) -> Seq<Seq<char>> {
    Seq::new(v.len(), |i: int| v[i]@)
}

pub fn strip_cr_exec(l: Vec<char>) -> (r: Vec<char>)
    ensures
        r@ == strip_cr(l@),
{
    let mut l = l;
    if l.len() > 0 && l[l.len() - 1] == '\r' {
        l.pop();
    }
    l
}

/// `s.lines()`, each line copied.
pub fn lines_exec(s: &Vec<char>) -> (r: Vec<Vec<char>>)
    ensures
        seqs_of(r@) == lines(s@),
{
    let mut out: Vec<Vec<char>> = Vec::new();
    let mut i: usize = 0;
    assert(seqs_of(out@) =~= Seq::<Seq<char>>::empty());
    while i < s.len()
        invariant
            i <= s.len(),
            lines(s@) == seqs_of(out@) + lines_from(s@, i as int),
        decreases s.len() - i,
    {
        let j = next_char_exec(s, '\n', i);
        let ghost before = seqs_of(out@);
        if j < s.len() {
            let piece = slice_exec(s, i, j);
            let l = strip_cr_exec(piece);
            out.push(l);
            assert(seqs_of(out@) =~= before.push(strip_cr(s@.subrange(i as int, j as int))));
            assert(lines(s@) =~= seqs_of(out@) + lines_from(s@, j + 1));
            i = j + 1;
        } else {
            let l = slice_exec(s, i, s.len());
            out.push(l);
            assert(seqs_of(out@) =~= before.push(s@.subrange(i as int, s@.len() as int)));
            assert(lines(s@) =~= seqs_of(out@) + lines_from(s@, s@.len() as int));
            i = s.len();
        }
    }
    assert(lines(s@) =~= seqs_of(out@));
    out
}

/// `parts.join(sep)`.
pub fn join_exec(parts: &Vec<Vec<char>>, sep: &Vec<char>) -> (r: Vec<char>)
    ensures
        r@ == join(seqs_of(parts@), sep@),
{
    let mut r: Vec<char> = Vec::new();
    let mut i: usize = 0;
    while i < parts.len()
        invariant
            i <= parts.len(),
            r@ == join(seqs_of(parts@).take(i as int), sep@),
        decreases parts.len() - i,
    {
        let ghost dv = seqs_of(parts@);
        assert(dv.take(i + 1).drop_last() =~= dv.take(i as int));
        if i > 0 {
            push_all(&mut r, sep);
        }
        push_all(&mut r, &parts[i]);
        i = i + 1;
        proof {
            let t = dv.take(i as int);
            if i == 1 {
                assert(r@ =~= t[0]);
            } else {
                assert(t.last() == parts@[i - 1]@);
            }
        }
    }
    assert(seqs_of(parts@).take(parts.len() as int) =~= seqs_of(parts@));
    r
}

/// `s.split(c)`, each piece copied.
pub fn split_exec(s: &Vec<char>, c: char) -> (r: Vec<Vec<char>>)
    ensures
        seqs_of(r@) == split(s@, c),
{
    let mut out: Vec<Vec<char>> = Vec::new();
    let mut i: usize = 0;
    let mut done = false;
    assert(seqs_of(out@) =~= Seq::<Seq<char>>::empty());
    while !done
        invariant
            i <= s.len(),
            done ==> split(s@, c) == seqs_of(out@),
            !done ==> split(s@, c) == seqs_of(out@) + split_from(s@, c, i as int),
        decreases s.len() + 1 - i, if done { 0int } else { 1int },
    {
        let j = next_char_exec(s, c, i);
        let ghost before = seqs_of(out@);
        let piece = slice_exec(s, i, j);
        out.push(piece);
        assert(seqs_of(out@) =~= before.push(s@.subrange(i as int, j as int)));
        if j < s.len() {
            assert(split(s@, c) =~= seqs_of(out@) + split_from(s@, c, j + 1));
            i = j + 1;
        } else {
            assert(split(s@, c) =~= seqs_of(out@));
            done = true;
        }
    }
    out
}


// ───────────────────────────── lemmas for the laws ─────────────────────────────

/// `p` occurs nowhere in `s`.
pub open spec fn free_of(s: Seq<char>, p: Seq<char>) -> bool {
    forall|j: int| !#[trigger] occurs_at(s, p, j)
}

pub proof fn lemma_free_of_short(s: Seq<char>, p: Seq<char>)
    requires
        s.len() < p.len(),
    ensures
        free_of(s, p),
{
}

pub proof fn lemma_free_of_subrange(s: Seq<char>, p: Seq<char>, a: int, b: int)
    requires
        0 <= a <= b <= s.len(),
        free_of(s, p),
    ensures
        free_of(s.subrange(a, b), p),
{
    let t = s.subrange(a, b);
    assert forall|j: int| !#[trigger] occurs_at(t, p, j) by {
        if occurs_at(t, p, j) {
            assert(t.subrange(j, j + p.len()) =~= s.subrange(a + j, a + j + p.len()));
            assert(occurs_at(s, p, a + j));
        }
    }
}

/// Joining two texts free of a two-character pattern creates no occurrence
/// unless the pattern straddles the junction.
pub proof fn lemma_free_of_concat2(x: Seq<char>, y: Seq<char>, p: Seq<char>)
    requires
        p.len() == 2,
        free_of(x, p),
        free_of(y, p),
        !(x.len() > 0 && y.len() > 0 && x.last() == p[0] && y[0] == p[1]),
    ensures
        free_of(x + y, p),
{
    let z = x + y;
    assert forall|j: int| !#[trigger] occurs_at(z, p, j) by {
        if occurs_at(z, p, j) {
            assert(z.subrange(j, j + 2)[0] == p[0]);
            assert(z.subrange(j, j + 2)[1] == p[1]);
            if j + 2 <= x.len() {
                assert(z.subrange(j, j + 2) =~= x.subrange(j, j + 2));
                assert(occurs_at(x, p, j));
            } else if j >= x.len() {
                assert(z.subrange(j, j + 2) =~= y.subrange(j - x.len(), j - x.len() + 2));
                assert(occurs_at(y, p, j - x.len()));
            } else {
                assert(j == x.len() - 1);
                assert(z[j] == x.last());
                assert(z[j + 1] == y[0]);
            }
        }
    }
}

/// The lines of `s` from a line start `a` end with the lines from any later
/// line start `i` (one just after a `\n`).
pub proof fn lemma_lines_suffix(s: Seq<char>, a: int, i: int)
    requires
        0 <= a <= i <= s.len(),
        a < i ==> s[i - 1] == '\n',
    ensures
        exists|k: int|
            0 <= k <= lines_from(s, a).len() && #[trigger] lines_from(s, a).skip(k) == lines_from(s, i),
    decreases i - a,
{
    if a == i {
        assert(lines_from(s, a).skip(0) =~= lines_from(s, i));
    } else {
        lemma_next_char(s, '\n', a);
        let j = next_char(s, '\n', a);
        assert(j <= i - 1) by {
            if j > i - 1 {
                assert(s[i - 1] != '\n');
            }
        }
        lemma_lines_suffix(s, j + 1, i);
        let k = choose|k: int|
            0 <= k <= lines_from(s, j + 1).len() && #[trigger] lines_from(s, j + 1).skip(k)
                == lines_from(s, i);
        assert(lines_from(s, a) == seq![strip_cr(s.subrange(a, j))] + lines_from(s, j + 1));
        assert(lines_from(s, a).skip(k + 1) =~= lines_from(s, j + 1).skip(k));
    }
}

/// A text `l` without line breaks that sits between a line start and a `\n`
/// (or the end of the text) is one of the lines of the text.
pub proof fn lemma_line_at(s: Seq<char>, i: int, l: Seq<char>)
    requires
        0 <= i,
        i + l.len() <= s.len(),
        l.len() > 0,
        l.last() != '\r',
        s.subrange(i, i + l.len()) == l,
        i > 0 ==> s[i - 1] == '\n',
        forall|k: int| 0 <= k < l.len() ==> l[k] != '\n',
        i + l.len() == s.len() || s[i + l.len()] == '\n',
    ensures
        lines(s).contains(l),
{
    lemma_lines_suffix(s, 0, i);
    let k = choose|k: int| 0 <= k <= lines_from(s, 0).len() && #[trigger] lines_from(s, 0).skip(k) == lines_from(s, i);
    let e = i + l.len();
    assert forall|m: int| i <= m < e implies s[m] != '\n' by {
        assert(s[m] == l[m - i]);
    }
    lemma_next_char(s, '\n', i);
    assert(next_char(s, '\n', i) == e) by {
        let n = next_char(s, '\n', i);
        if n < e {
            assert(s[n] != '\n');
        }
        if n > e {
            assert(s[e] == '\n');
        }
    }
    if e < s.len() {
        assert(strip_cr(s.subrange(i, e)) == l);
        assert(lines_from(s, i)[0] == l);
    } else {
        assert(lines_from(s, i)[0] == l);
    }
    assert(lines_from(s, 0).skip(k).len() > 0);
    assert(k < lines_from(s, 0).len());
    assert(lines_from(s, 0).skip(k)[0] == lines_from(s, 0)[k]);
    assert(lines(s)[k] == l);
}


pub proof fn lemma_next_char_at(s: Seq<char>, c: char, i: int, k: int)
    requires
        0 <= i <= k < s.len(),
        s[k] == c,
        forall|j: int| i <= j < k ==> s[j] != c,
    ensures
        next_char(s, c, i) == k,
    decreases k - i,
{
    if i < k {
        lemma_next_char_at(s, c, i + 1, k);
    }
}

/// A text without the first character of a pattern is free of it.
pub proof fn lemma_free_of_missing_char(s: Seq<char>, p: Seq<char>)
    requires
        p.len() > 0,
        forall|k: int| 0 <= k < s.len() ==> s[k] != p[0],
    ensures
        free_of(s, p),
{
    assert forall|j: int| !#[trigger] occurs_at(s, p, j) by {
        if occurs_at(s, p, j) {
            assert(s.subrange(j, j + p.len())[0] == p[0]);
        }
    }
}

/// No occurrence of `p` lies inside the window `s[a..b]` when that window is free of it.
pub proof fn lemma_free_window(s: Seq<char>, p: Seq<char>, a: int, b: int, j: int)
    requires
        0 <= a <= j,
        j + p.len() <= b <= s.len(),
        free_of(s.subrange(a, b), p),
    ensures
        !occurs_at(s, p, j),
{
    if occurs_at(s, p, j) {
        assert(s.subrange(a, b).subrange(j - a, j - a + p.len()) =~= s.subrange(j, j + p.len()));
        assert(occurs_at(s.subrange(a, b), p, j - a));
    }
}

/// The lines of a text without `c` hold no `c`.
pub proof fn lemma_lines_without_char(s: Seq<char>, i: int, c: char)
    requires
        forall|k: int| 0 <= k < s.len() ==> s[k] != c,
    ensures
        forall|k: int, m: int|
            0 <= k < lines_from(s, i).len() && 0 <= m < lines_from(s, i)[k].len() ==> #[trigger] lines_from(
                s,
                i,
            )[k][m] != c,
    decreases s.len() - i,
{
    if 0 <= i < s.len() {
        lemma_next_char(s, '\n', i);
        let j = next_char(s, '\n', i);
        if j < s.len() {
            lemma_lines_without_char(s, j + 1, c);
            let first = strip_cr(s.subrange(i, j));
            assert forall|k: int, m: int|
                0 <= k < lines_from(s, i).len() && 0 <= m < lines_from(s, i)[k].len() implies #[trigger] lines_from(
                s,
                i,
            )[k][m] != c by {
                if k == 0 {
                    assert(lines_from(s, i)[0] == first);
                    assert(first[m] == s[i + m]);
                } else {
                    assert(lines_from(s, i)[k] == lines_from(s, j + 1)[k - 1]);
                }
            }
        } else {
            assert forall|k: int, m: int|
                0 <= k < lines_from(s, i).len() && 0 <= m < lines_from(s, i)[k].len() implies #[trigger] lines_from(
                s,
                i,
            )[k][m] != c by {
                assert(lines_from(s, i)[k][m] == s[i + m]);
            }
        }
    }
}

} // verus!
