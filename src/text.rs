//! Character-level helpers shared by the parsers: whitespace, trimming,
//! line splitting.
use vstd::prelude::*;
use vstd::string::*;

verus! {

/// The characters that `char::is_whitespace` accepts (Unicode `White_Space`).
pub open spec fn is_white(c: char) -> bool {
    let u = c as u32;
    u == 0x20 || (0x09 <= u && u <= 0x0d) || u == 0x85 || u == 0xa0 || u == 0x1680
        || (0x2000 <= u && u <= 0x200a) || u == 0x2028 || u == 0x2029 || u == 0x202f
        || u == 0x205f || u == 0x3000
}

/// First index in `[i, j)` that does not hold whitespace, or `j`.
pub open spec fn skip_white(s: Seq<char>, i: int, j: int) -> int
    decreases j - i,
{
    if i < j && is_white(s[i]) {
        skip_white(s, i + 1, j)
    } else {
        i
    }
}

/// End of `[i, j)` once trailing whitespace is dropped.
pub open spec fn back_white(s: Seq<char>, i: int, j: int) -> int
    decreases j - i,
{
    if i < j && is_white(s[j - 1]) {
        back_white(s, i, j - 1)
    } else {
        j
    }
}

/// `s[i..j]` with leading and trailing whitespace removed, as `str::trim` does.
pub open spec fn trimmed_range(s: Seq<char>, i: int, j: int) -> Seq<char> {
    let a = skip_white(s, i, j);
    s.subrange(a, back_white(s, a, j))
}

pub open spec fn trimmed(s: Seq<char>) -> Seq<char> {
    trimmed_range(s, 0, s.len() as int)
}

/// Whether `c` is whitespace in the sense of `char::is_whitespace`.
pub fn is_whitespace(c: char) -> (r: bool)
    ensures
        r == is_white(c),
{
    let u = c as u32;
    u == 0x20 || (0x09 <= u && u <= 0x0d) || u == 0x85 || u == 0xa0 || u == 0x1680
        || (0x2000 <= u && u <= 0x200a) || u == 0x2028 || u == 0x2029 || u == 0x202f
        || u == 0x205f || u == 0x3000
}

/// Bounds of `s[i..j]` without its surrounding whitespace.
pub fn trim_bounds(s: &str, i: usize, j: usize) -> (r: (usize, usize))
    requires
        i <= j <= s@.len(),
    ensures
        r.0 == skip_white(s@, i as int, j as int),
        r.1 == back_white(s@, r.0 as int, j as int),
        i <= r.0 <= r.1 <= j,
{
    let mut a = i;
    while a < j && is_whitespace(s.get_char(a))
        invariant
            i <= a <= j <= s@.len(),
            skip_white(s@, a as int, j as int) == skip_white(s@, i as int, j as int),
        decreases j - a,
    {
        a = a + 1;
    }
    let mut b = j;
    while a < b && is_whitespace(s.get_char(b - 1))
        invariant
            a <= b <= j <= s@.len(),
            back_white(s@, a as int, b as int) == back_white(s@, a as int, j as int),
        decreases b - a,
    {
        b = b - 1;
    }
    (a, b)
}

/// `s` without leading and trailing whitespace.
pub fn trim(s: &str) -> (r: &str)
    ensures
        r@ == trimmed(s@),
{
    let n = s.unicode_len();
    let (a, b) = trim_bounds(s, 0, n);
    s.substring_char(a, b)
}

/// Scans `s[0..n]` as `str::lines` does: the ranges of the lines already
/// ended by a `'\n'` (a `'\r'` just before it is dropped), and where the
/// current line starts.
pub open spec fn line_scan(s: Seq<char>, n: int) -> (Seq<(int, int)>, int)
    decreases n,
{
    if n <= 0 {
        (seq![], 0)
    } else {
        let (done, start) = line_scan(s, n - 1);
        if s[n - 1] == '\n' {
            let end = if n - 1 > start && s[n - 2] == '\r' {
                n - 2
            } else {
                n - 1
            };
            (done.push((start, end)), n)
        } else {
            (done, start)
        }
    }
}

/// The ranges of the lines of `s`; a last line without `'\n'` counts when it
/// is not empty.
pub open spec fn line_ranges(s: Seq<char>) -> Seq<(int, int)> {
    let (done, start) = line_scan(s, s.len() as int);
    if start < s.len() {
        done.push((start, s.len() as int))
    } else {
        done
    }
}

/// The lines of `s`, as `str::lines` yields them.
pub open spec fn lines(s: Seq<char>) -> Seq<Seq<char>> {
    line_ranges(s).map_values(|r: (int, int)| s.subrange(r.0, r.1))
}

/// The ranges `[a, b)` of the lines of `s`.
pub fn line_bounds(s: &str) -> (r: Vec<(usize, usize)>)
    ensures
        r@.len() == line_ranges(s@).len(),
        forall|k: int|
            0 <= k < r@.len() ==> (#[trigger] r@[k]).0 == line_ranges(s@)[k].0 && r@[k].1
                == line_ranges(s@)[k].1 && r@[k].0 <= r@[k].1 <= s@.len(),
{
    let n = s.unicode_len();
    let mut r: Vec<(usize, usize)> = Vec::new();
    let mut start: usize = 0;
    let mut i: usize = 0;
    while i < n
        invariant
            n == s@.len(),
            0 <= start <= i <= n,
            line_scan(s@, i as int).1 == start,
            r@.len() == line_scan(s@, i as int).0.len(),
            forall|k: int|
                0 <= k < r@.len() ==> (#[trigger] r@[k]).0 == line_scan(s@, i as int).0[k].0
                    && r@[k].1 == line_scan(s@, i as int).0[k].1 && r@[k].0 <= r@[k].1 <= i,
        decreases n - i,
    {
        if s.get_char(i) == '\n' {
            let end = if i > start && s.get_char(i - 1) == '\r' {
                i - 1
            } else {
                i
            };
            r.push((start, end));
            start = i + 1;
        }
        i = i + 1;
    }
    if start < n {
        r.push((start, n));
    }
    r
}

} // verus!
