//! Character-level scanning shared by the registry parser and the table.
use vstd::prelude::*;

verus! {

/// Unicode `White_Space`: the characters for which `char::is_whitespace` holds.
pub open spec fn is_ws(c: char) -> bool {
    ||| '\t' <= c <= '\r'
    ||| c == ' '
    ||| c == '\u{85}'
    ||| c == '\u{a0}'
    ||| c == '\u{1680}'
    ||| '\u{2000}' <= c <= '\u{200a}'
    ||| c == '\u{2028}'
    ||| c == '\u{2029}'
    ||| c == '\u{202f}'
    ||| c == '\u{205f}'
    ||| c == '\u{3000}'
}

/// What a scan stops at.
#[derive(Clone, Copy)]
pub enum Stop {
    Newline,
    Space,
    NonSpace,
    Slash,
}

pub open spec fn stops_at(c: char, k: Stop) -> bool {
    match k {
        Stop::Newline => c == '\n',
        Stop::Space => is_ws(c),
        Stop::NonSpace => !is_ws(c),
        Stop::Slash => c == '/',
    }
}

/// The first index at or after `i` whose character stops a `k` scan, or `s.len()`.
pub open spec fn scan(s: Seq<char>, i: int, k: Stop) -> int
    decreases s.len() - i,
{
    if i < 0 || i >= s.len() {
        i
    } else if stops_at(s[i], k) {
        i
    } else {
        scan(s, i + 1, k)
    }
}

/// The start of the run of non-whitespace characters that ends just before `p`.
pub open spec fn token_start(s: Seq<char>, p: int) -> int
    decreases p,
{
    if p <= 0 || p > s.len() {
        p
    } else if is_ws(s[p - 1]) {
        p
    } else {
        token_start(s, p - 1)
    }
}

/// The last index in `[lo, hi)` that holds a slash, or `lo` where none does.
pub open spec fn last_slash(s: Seq<char>, lo: int, hi: int) -> int
    decreases hi - lo,
{
    if hi <= lo + 1 || hi > s.len() {
        lo
    } else if s[hi - 1] == '/' {
        hi - 1
    } else {
        last_slash(s, lo, hi - 1)
    }
}

pub proof fn lemma_scan_bounds(s: Seq<char>, i: int, k: Stop)
    requires
        0 <= i <= s.len(),
    ensures
        i <= scan(s, i, k) <= s.len(),
        scan(s, i, k) < s.len() ==> stops_at(s[scan(s, i, k)], k),
        forall|j: int| i <= j < scan(s, i, k) ==> !stops_at(#[trigger] s[j], k),
    decreases s.len() - i,
{
    if i < s.len() && !stops_at(s[i], k) {
        lemma_scan_bounds(s, i + 1, k);
    }
}

pub proof fn lemma_token_start_bounds(s: Seq<char>, p: int)
    requires
        0 <= p <= s.len(),
    ensures
        0 <= token_start(s, p) <= p,
        forall|j: int| token_start(s, p) <= j < p ==> !is_ws(#[trigger] s[j]),
    decreases p,
{
    if p > 0 && !is_ws(s[p - 1]) {
        lemma_token_start_bounds(s, p - 1);
    }
}

pub proof fn lemma_last_slash_bounds(s: Seq<char>, lo: int, hi: int)
    requires
        0 <= lo < hi <= s.len(),
    ensures
        lo <= last_slash(s, lo, hi) < hi,
    decreases hi - lo,
{
    if hi > lo + 1 && s[hi - 1] != '/' {
        lemma_last_slash_bounds(s, lo, hi - 1);
    }
}

pub fn is_space(c: char) -> (r: bool)
    ensures
        r == is_ws(c),
{
    ('\t' <= c && c <= '\r') || c == ' ' || c == '\u{85}' || c == '\u{a0}' || c == '\u{1680}'
        || ('\u{2000}' <= c && c <= '\u{200a}') || c == '\u{2028}' || c == '\u{2029}'
        || c == '\u{202f}' || c == '\u{205f}' || c == '\u{3000}'
}

fn stops(c: char, k: Stop) -> (r: bool)
    ensures
        r == stops_at(c, k),
{
    match k {
        Stop::Newline => c == '\n',
        Stop::Space => is_space(c),
        Stop::NonSpace => !is_space(c),
        Stop::Slash => c == '/',
    }
}

/// Runs a `k` scan over `s` from `i`.
pub fn scan_from(s: &Vec<char>, i: usize, k: Stop) -> (r: usize)
    requires
        i <= s.len(),
    ensures
        r == scan(s@, i as int, k),
{
    let mut j: usize = i;
    while j < s.len() && !stops(s[j], k)
        invariant
            i <= j <= s.len(),
            scan(s@, j as int, k) == scan(s@, i as int, k),
        decreases s.len() - j,
    {
        j = j + 1;
    }
    j
}

pub fn token_start_of(s: &Vec<char>, p: usize) -> (r: usize)
    requires
        p <= s.len(),
    ensures
        r == token_start(s@, p as int),
{
    let mut q: usize = p;
    while q > 0 && !is_space(s[q - 1])
        invariant
            q <= p <= s.len(),
            token_start(s@, q as int) == token_start(s@, p as int),
        decreases q,
    {
        q = q - 1;
    }
    q
}

pub fn last_slash_in(s: &Vec<char>, lo: usize, hi: usize) -> (r: usize)
    requires
        lo < hi <= s.len(),
    ensures
        r == last_slash(s@, lo as int, hi as int),
{
    let mut h: usize = hi;
    while h > lo + 1 && s[h - 1] != '/'
        invariant
            lo < h <= hi <= s.len(),
            last_slash(s@, lo as int, h as int) == last_slash(s@, lo as int, hi as int),
        decreases h,
    {
        h = h - 1;
    }
    if h > lo + 1 {
        h - 1
    } else {
        lo
    }
}

/// The characters of a string, in order.
pub fn chars_of(s: &str) -> (r: Vec<char>)
    ensures
        r@ == s@,
{
    let mut r: Vec<char> = Vec::new();
    for c in it: s.chars()
        invariant
            r@ == it.seq().take(it.index() as int),
    {
        r.push(c);
    }
    r
}

} // verus!
