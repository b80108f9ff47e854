//! The byte scanner: finds the next byte out of a small set, using `memchr`.

use vstd::prelude::*;
use vstd::slice::*;

verus! {

/// `r` is the first position of `h` whose byte satisfies `wanted`, or `None` when no byte does.
pub open spec fn is_first_match(h: Seq<u8>, wanted: spec_fn(u8) -> bool, r: Option<int>) -> bool {
    match r {
        Some(i) => 0 <= i < h.len() && wanted(h[i]) && forall|j: int| 0 <= j < i ==> !wanted(h[j]),
        None => forall|j: int| 0 <= j < h.len() ==> !wanted(h[j]),
    }
}

/// The first position at or after `start` whose byte satisfies `wanted`, with that byte.
pub open spec fn scan(h: Seq<u8>, start: int, wanted: spec_fn(u8) -> bool) -> Option<(int, u8)>
    decreases h.len() - start,
{
    if start < 0 || start >= h.len() {
        None
    } else if wanted(h[start]) {
        Some((start, h[start]))
    } else {
        scan(h, start + 1, wanted)
    }
}

/// The result of `scan` as an executable value: a position and the byte found there.
pub open spec fn found(r: Option<(usize, u8)>) -> Option<(int, u8)> {
    match r {
        Some((i, c)) => Some((i as int, c)),
        None => None,
    }
}

/// `scan` skips every byte that is not wanted.
pub proof fn lemma_scan_skip(h: Seq<u8>, start: int, to: int, wanted: spec_fn(u8) -> bool)
    requires
        0 <= start <= to <= h.len(),
        forall|j: int| start <= j < to ==> !wanted(h[j]),
    ensures
        scan(h, start, wanted) == scan(h, to, wanted),
    decreases to - start,
{
    if start < to {
        lemma_scan_skip(h, start + 1, to, wanted);
    }
}

/// What `scan` returns is the first wanted byte at or after `start`.
pub proof fn lemma_scan_first(h: Seq<u8>, start: int, wanted: spec_fn(u8) -> bool)
    requires
        0 <= start,
    ensures
        match scan(h, start, wanted) {
            Some((i, c)) => start <= i < h.len() && c == h[i] && wanted(c) && forall|j: int|
                start <= j < i ==> !wanted(h[j]),
            None => forall|j: int| start <= j < h.len() ==> !wanted(h[j]),
        },
    decreases h.len() - start,
{
    if start < h.len() && !wanted(h[start]) {
        lemma_scan_first(h, start + 1, wanted);
    }
}

/// `memchr::memchr`: the index of the first byte of `haystack` equal to `needle`, or `None`
/// if there is none.
pub assume_specification[ memchr::memchr ](needle: u8, haystack: &[u8]) -> (r: Option<usize>)
    ensures
        is_first_match(
            haystack@,
            one_of1(needle),
            match r {
                Some(i) => Some(i as int),
                None => None,
            },
        ),
;

/// `memchr::memchr2`: the index of the first byte of `haystack` equal to one of the two
/// needles, or `None` if there is none.
pub assume_specification[ memchr::memchr2 ](needle1: u8, needle2: u8, haystack: &[u8]) -> (r:
    Option<usize>)
    ensures
        is_first_match(
            haystack@,
            one_of2(needle1, needle2),
            match r {
                Some(i) => Some(i as int),
                None => None,
            },
        ),
;

/// `memchr::memchr3`: the index of the first byte of `haystack` equal to one of the three
/// needles, or `None` if there is none.
pub assume_specification[ memchr::memchr3 ](
    needle1: u8,
    needle2: u8,
    needle3: u8,
    haystack: &[u8],
) -> (r: Option<usize>)
    ensures
        is_first_match(
            haystack@,
            one_of3(needle1, needle2, needle3),
            match r {
                Some(i) => Some(i as int),
                None => None,
            },
        ),
;

/// A first match in `h[start..]` at offset `r` is what `scan` finds from `start`.
proof fn lemma_tail_match(h: Seq<u8>, start: int, wanted: spec_fn(u8) -> bool, r: Option<int>)
    requires
        0 <= start <= h.len(),
        is_first_match(h.subrange(start, h.len() as int), wanted, r),
    ensures
        scan(h, start, wanted) == match r {
            Some(i) => Some((start + i, h[start + i])),
            None => None,
        },
{
    let t = h.subrange(start, h.len() as int);
    assert forall|j: int| start <= j < h.len() implies t[j - start] == h[j] by {}
    match r {
        Some(i) => {
            assert forall|j: int| start <= j < start + i implies !wanted(h[j]) by {
                assert(!wanted(t[j - start]));
            }
            lemma_scan_skip(h, start, start + i, wanted);
            assert(t[i] == h[start + i]);
        },
        None => {
            assert forall|j: int| start <= j < h.len() implies !wanted(h[j]) by {
                assert(!wanted(t[j - start]));
            }
            lemma_scan_skip(h, start, h.len() as int, wanted);
        },
    }
}

/// Is `c` one of the bytes that give a BibTeX file its structure?
pub open spec fn structural(c: u8) -> bool {
    c == 0x7b || c == 0x7d || c == 0x2c || c == 0x40 || c == 0x3d
}

/// Is `c` a brace or a backslash?
pub open spec fn brace_or_escape(c: u8) -> bool {
    c == 0x7b || c == 0x7d || c == 0x5c
}

/// Is `c` a byte that matters inside a quoted string?
pub open spec fn quote_special(c: u8) -> bool {
    c == 0x5c || c == 0x22 || c == 0x7b || c == 0x7d
}

/// The set holding one byte.
pub open spec fn one_of1(n: u8) -> spec_fn(u8) -> bool {
    |c: u8| c == n
}

/// The set holding two bytes.
pub open spec fn one_of2(n1: u8, n2: u8) -> spec_fn(u8) -> bool {
    |c: u8| c == n1 || c == n2
}

/// The set holding three bytes.
pub open spec fn one_of3(n1: u8, n2: u8, n3: u8) -> spec_fn(u8) -> bool {
    |c: u8| c == n1 || c == n2 || c == n3
}

/// The structural bytes, as a set.
pub open spec fn structural_set() -> spec_fn(u8) -> bool {
    |c: u8| structural(c)
}

/// Braces and the backslash, as a set.
pub open spec fn brace_set() -> spec_fn(u8) -> bool {
    |c: u8| brace_or_escape(c)
}

/// The bytes that matter inside a quoted string, as a set.
pub open spec fn quote_set() -> spec_fn(u8) -> bool {
    |c: u8| quote_special(c)
}

/// The earlier of two finds; the first wins a tie.
fn earlier(a: Option<(usize, u8)>, b: Option<(usize, u8)>) -> (r: Option<(usize, u8)>)
    ensures
        r == match (a, b) {
            (Some(x), Some(y)) => if x.0 <= y.0 {
                Some(x)
            } else {
                Some(y)
            },
            (Some(x), None) => Some(x),
            (None, Some(y)) => Some(y),
            (None, None) => None,
        },
{
    match (a, b) {
        (Some(x), Some(y)) => if x.0 <= y.0 {
            Some(x)
        } else {
            Some(y)
        },
        (Some(x), None) => Some(x),
        (None, Some(y)) => Some(y),
        (None, None) => None,
    }
}

/// The first of two partial scans is the scan for the union of their sets.
proof fn lemma_scan_union(
    h: Seq<u8>,
    start: int,
    p: spec_fn(u8) -> bool,
    q: spec_fn(u8) -> bool,
    both: spec_fn(u8) -> bool,
)
    requires
        0 <= start,
        forall|c: u8| #[trigger] both(c) == (p(c) || q(c)),
    ensures
        scan(h, start, both) == match (scan(h, start, p), scan(h, start, q)) {
            (Some(x), Some(y)) => if x.0 <= y.0 {
                Some(x)
            } else {
                Some(y)
            },
            (Some(x), None) => Some(x),
            (None, Some(y)) => Some(y),
            (None, None) => None,
        },
    decreases h.len() - start,
{
    if start < h.len() {
        lemma_scan_first(h, start + 1, p);
        lemma_scan_first(h, start + 1, q);
        if !both(h[start]) {
            lemma_scan_union(h, start + 1, p, q, both);
        }
    }
}

/// Finds the next structural byte (`{`, `}`, `,`, `@`, `=`) at or after `start`.
pub fn find_delimiter(haystack: &[u8], start: usize) -> (r: Option<(usize, u8)>)
    ensures
        found(r) == scan(haystack@, start as int, structural_set()),
{
    if start >= haystack.len() {
        return None;
    }
    let first = find_bytes3(haystack, 0x7b, 0x7d, 0x2c, start);
    let second = find_bytes2(haystack, 0x40, 0x3d, start);
    proof {
        lemma_scan_union(
            haystack@,
            start as int,
            one_of3(0x7b, 0x7d, 0x2c),
            one_of2(0x40, 0x3d),
            structural_set(),
        );
    }
    earlier(first, second)
}

/// Finds the next `{`, `}` or `\` at or after `start`.
pub fn find_brace_delimiter(haystack: &[u8], start: usize) -> (r: Option<(usize, u8)>)
    ensures
        found(r) == scan(haystack@, start as int, brace_set()),
{
    let r = find_bytes3(haystack, 0x7b, 0x7d, 0x5c, start);
    proof {
        lemma_scan_same(
            haystack@,
            start as int,
            one_of3(0x7b, 0x7d, 0x5c),
            brace_set(),
        );
    }
    r
}

/// Finds the next `\`, `"`, `{` or `}` at or after `start`.
pub fn find_quote_delimiter(haystack: &[u8], start: usize) -> (r: Option<(usize, u8)>)
    ensures
        found(r) == scan(haystack@, start as int, quote_set()),
{
    if start >= haystack.len() {
        return None;
    }
    let first = find_bytes3(haystack, 0x5c, 0x22, 0x7b, start);
    let close = match find_byte(haystack, 0x7d, start) {
        Some(pos) => Some((pos, 0x7du8)),
        None => None,
    };
    proof {
        lemma_scan_first(haystack@, start as int, one_of1(0x7d));
        lemma_scan_union(
            haystack@,
            start as int,
            one_of3(0x5c, 0x22, 0x7b),
            one_of1(0x7d),
            quote_set(),
        );
    }
    earlier(first, close)
}

/// Two sets with the same members give the same scan.
proof fn lemma_scan_same(h: Seq<u8>, start: int, p: spec_fn(u8) -> bool, q: spec_fn(u8) -> bool)
    requires
        forall|c: u8| #[trigger] p(c) == q(c),
    ensures
        scan(h, start, p) == scan(h, start, q),
    decreases h.len() - start,
{
    if 0 <= start < h.len() && !p(h[start]) {
        lemma_scan_same(h, start + 1, p, q);
    }
}

/// Finds the next occurrence of `needle` at or after `start`.
pub fn find_byte(haystack: &[u8], needle: u8, start: usize) -> (r: Option<usize>)
    ensures
        match r {
            Some(i) => scan(haystack@, start as int, one_of1(needle)) == Some((i as int, needle)),
            None => scan(haystack@, start as int, one_of1(needle)) is None,
        },
{
    if start >= haystack.len() {
        return None;
    }
    let tail = slice_subrange(haystack, start, haystack.len());
    let r = memchr::memchr(needle, tail);
    proof {
        lemma_tail_match(
            haystack@,
            start as int,
            one_of1(needle),
            match r {
                Some(i) => Some(i as int),
                None => None,
            },
        );
    }
    match r {
        Some(pos) => Some(start + pos),
        None => None,
    }
}

/// Finds the next occurrence of either needle at or after `start`.
pub fn find_bytes2(haystack: &[u8], needle1: u8, needle2: u8, start: usize) -> (r: Option<
    (usize, u8),
>)
    ensures
        found(r) == scan(haystack@, start as int, one_of2(needle1, needle2)),
{
    if start >= haystack.len() {
        return None;
    }
    let tail = slice_subrange(haystack, start, haystack.len());
    let r = memchr::memchr2(needle1, needle2, tail);
    proof {
        lemma_tail_match(
            haystack@,
            start as int,
            one_of2(needle1, needle2),
            match r {
                Some(i) => Some(i as int),
                None => None,
            },
        );
    }
    match r {
        Some(pos) => Some((start + pos, haystack[start + pos])),
        None => None,
    }
}

/// Finds the next occurrence of any of three needles at or after `start`.
pub fn find_bytes3(
    haystack: &[u8],
    needle1: u8,
    needle2: u8,
    needle3: u8,
    start: usize,
) -> (r: Option<(usize, u8)>)
    ensures
        found(r) == scan(
            haystack@,
            start as int,
            one_of3(needle1, needle2, needle3),
        ),
{
    if start >= haystack.len() {
        return None;
    }
    let tail = slice_subrange(haystack, start, haystack.len());
    let r = memchr::memchr3(needle1, needle2, needle3, tail);
    proof {
        lemma_tail_match(
            haystack@,
            start as int,
            one_of3(needle1, needle2, needle3),
            match r {
                Some(i) => Some(i as int),
                None => None,
            },
        );
    }
    match r {
        Some(pos) => Some((start + pos, haystack[start + pos])),
        None => None,
    }
}

} // verus!
