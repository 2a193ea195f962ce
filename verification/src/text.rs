//! Character-level text operations shared by the scanners.
//!
//! Every operation is specified over `Seq<char>`, the view of `str` and
//! `String`, and implemented on `Vec<char>` so that positions are character
//! positions and never byte offsets.

use vstd::prelude::*;
use vstd::string::*;

verus! {

/// Equality of string slices (`str::eq`): two slices are equal exactly when
/// they hold the same characters.
pub assume_specification[ <str as PartialEq>::eq ](a: &str, b: &str) -> (r: bool)
    ensures
        r == (a@ == b@),
;

/// `String::push` appends one character at the end of the string.
pub assume_specification[ String::push ](s: &mut String, c: char)
    ensures
        final(s)@ == old(s)@.push(c),
;

/// Whether a character is white space: whether it is one of the characters
/// with the Unicode property `White_Space`. These are the control
/// characters from tab to carriage return, the space, the next-line
/// character, and the spaces and line separators of the other blocks.
pub open spec fn white_space(c: char) -> bool {
    let n = c as u32;
    ||| 0x09 <= n <= 0x0d
    ||| n == 0x20
    ||| n == 0x85
    ||| n == 0xa0
    ||| n == 0x1680
    ||| 0x2000 <= n <= 0x200a
    ||| n == 0x2028
    ||| n == 0x2029
    ||| n == 0x202f
    ||| n == 0x205f
    ||| n == 0x3000
}

/// Whether `c` is white space.
pub fn is_white_space(c: char) -> (r: bool)
    ensures
        r == white_space(c),
{
    let n = c as u32;
    (0x09 <= n && n <= 0x0d) || n == 0x20 || n == 0x85 || n == 0xa0 || n == 0x1680 || (0x2000 <= n
        && n <= 0x200a) || n == 0x2028 || n == 0x2029 || n == 0x202f || n == 0x205f || n == 0x3000
}

/// The lower-case form of a text, as `str::to_lowercase` computes it.
pub uninterp spec fn lowercase_of(s: Seq<char>) -> Seq<char>;

/// `str::to_lowercase`: the result is a function of the characters alone.
#[verifier::external_body]
pub(crate) fn to_lowercase(s: &str) -> (r: String)
    ensures
        r@ == lowercase_of(s@),
{
    s.to_lowercase()
}

/// The characters of a string slice, in order.
pub fn chars_of(s: &str) -> (v: Vec<char>)
    ensures
        v@ == s@,
{
    let mut v: Vec<char> = Vec::new();
    let chars = s.chars();
    for c in it: chars
        invariant
            v@ == it.seq().take(it.index() as int),
            it.seq() == s@,
    {
        v.push(c);
    }
    v
}

/// The string made of `v[from..to]`.
pub fn string_of(v: &Vec<char>, from: usize, to: usize) -> (s: String)
    requires
        from <= to <= v@.len(),
    ensures
        s@ == v@.subrange(from as int, to as int),
{
    let mut s = String::new();
    let mut i: usize = from;
    while i < to
        invariant
            from <= i <= to <= v@.len(),
            s@ == v@.subrange(from as int, i as int),
        decreases to - i,
    {
        s.push(v[i]);
        i += 1;
    }
    s
}

/// Position of the first character at or after `start` that is not white
/// space; the length of `s` if there is none.
pub open spec fn first_non_space(s: Seq<char>, start: int) -> int
    decreases s.len() - start,
{
    if start < 0 || start >= s.len() {
        s.len() as int
    } else if !white_space(s[start]) {
        start
    } else {
        first_non_space(s, start + 1)
    }
}

/// End of the trimmed text: one past the last character in `s[lo..end]`
/// that is not white space; `lo` if there is none.
pub open spec fn last_non_space_end(s: Seq<char>, lo: int, end: int) -> int
    decreases end - lo,
{
    if end <= lo || end > s.len() {
        lo
    } else if !white_space(s[end - 1]) {
        end
    } else {
        last_non_space_end(s, lo, end - 1)
    }
}

/// Where the trimmed text starts in `s`.
pub open spec fn trim_start(s: Seq<char>) -> int {
    first_non_space(s, 0)
}

/// Where the trimmed text ends in `s` (exclusive).
pub open spec fn trim_end(s: Seq<char>) -> int {
    last_non_space_end(s, trim_start(s), s.len() as int)
}

/// `s` without its leading and trailing white space.
pub open spec fn trimmed(s: Seq<char>) -> Seq<char> {
    s.subrange(trim_start(s), trim_end(s))
}

proof fn lemma_first_non_space_bounds(s: Seq<char>, start: int)
    requires
        0 <= start <= s.len(),
    ensures
        start <= first_non_space(s, start) <= s.len(),
        first_non_space(s, start) < s.len() ==> !white_space(s[first_non_space(s, start)]),
        forall|k: int| start <= k < first_non_space(s, start) ==> white_space(#[trigger] s[k]),
    decreases s.len() - start,
{
    if start < s.len() && white_space(s[start]) {
        lemma_first_non_space_bounds(s, start + 1);
    }
}

proof fn lemma_last_non_space_bounds(s: Seq<char>, lo: int, end: int)
    requires
        0 <= lo <= end <= s.len(),
    ensures
        lo <= last_non_space_end(s, lo, end) <= end,
        last_non_space_end(s, lo, end) > lo ==> !white_space(
            s[last_non_space_end(s, lo, end) - 1],
        ),
        forall|k: int| last_non_space_end(s, lo, end) <= k < end ==> white_space(#[trigger] s[k]),
    decreases end - lo,
{
    if end > lo && white_space(s[end - 1]) {
        lemma_last_non_space_bounds(s, lo, end - 1);
    }
}

/// The bounds of the trimmed text lie inside `s`, in order.
proof fn lemma_trim_bounds(s: Seq<char>)
    ensures
        0 <= trim_start(s) <= trim_end(s) <= s.len(),
        trimmed(s).len() == trim_end(s) - trim_start(s),
        trimmed(s).len() > 0 ==> !white_space(trimmed(s)[0]) && !white_space(trimmed(s).last()),
{
    lemma_first_non_space_bounds(s, 0);
    lemma_last_non_space_bounds(s, trim_start(s), s.len() as int);
}

/// Trimming is idempotent: a trimmed text has nothing left to trim.
pub proof fn lemma_trimmed_idempotent(s: Seq<char>)
    ensures
        trimmed(trimmed(s)) == trimmed(s),
{
    lemma_trim_bounds(s);
    let t = trimmed(s);
    if t.len() == 0 {
        assert(trimmed(t) =~= t);
    } else {
        assert(first_non_space(t, 0) == 0);
        assert(last_non_space_end(t, 0, t.len() as int) == t.len());
        assert(trimmed(t) =~= t);
    }
}

/// The bounds `(lo, hi)` of the trimmed text within `v`.
pub fn trim_bounds(v: &Vec<char>) -> (r: (usize, usize))
    ensures
        r.0 == trim_start(v@),
        r.1 == trim_end(v@),
        r.0 <= r.1 <= v@.len(),
{
    let n = v.len();
    let mut lo: usize = 0;
    while lo < n && is_white_space(v[lo])
        invariant
            lo <= n == v@.len(),
            first_non_space(v@, 0) == first_non_space(v@, lo as int),
        decreases n - lo,
    {
        lo += 1;
    }
    let mut hi: usize = n;
    while hi > lo && is_white_space(v[hi - 1])
        invariant
            lo <= hi <= n == v@.len(),
            last_non_space_end(v@, lo as int, n as int) == last_non_space_end(
                v@,
                lo as int,
                hi as int,
            ),
        decreases hi - lo,
    {
        hi -= 1;
    }
    (lo, hi)
}

/// The characters of `v` without leading and trailing white space.
pub fn trim_chars(v: &Vec<char>) -> (r: Vec<char>)
    ensures
        r@ == trimmed(v@),
{
    let (lo, hi) = trim_bounds(v);
    slice_chars(v, lo, hi)
}

/// A copy of `v[from..to]`.
pub fn slice_chars(v: &Vec<char>, from: usize, to: usize) -> (r: Vec<char>)
    requires
        from <= to <= v@.len(),
    ensures
        r@ == v@.subrange(from as int, to as int),
{
    let mut r: Vec<char> = Vec::new();
    let mut i: usize = from;
    while i < to
        invariant
            from <= i <= to <= v@.len(),
            r@ == v@.subrange(from as int, i as int),
        decreases to - i,
    {
        r.push(v[i]);
        i += 1;
    }
    r
}

/// `s` without leading and trailing white space, as a new string.
pub fn trim_string(s: &str) -> (r: String)
    ensures
        r@ == trimmed(s@),
{
    let v = chars_of(s);
    let (lo, hi) = trim_bounds(&v);
    string_of(&v, lo, hi)
}

/// Whether `s` starts with the characters `p`.
pub open spec fn has_prefix(s: Seq<char>, p: Seq<char>) -> bool {
    p.len() <= s.len() && s.subrange(0, p.len() as int) == p
}

/// Whether `s` ends with the characters `p`.
pub open spec fn has_suffix(s: Seq<char>, p: Seq<char>) -> bool {
    p.len() <= s.len() && s.subrange(s.len() - p.len(), s.len() as int) == p
}

/// Whether `p` occurs in `s` at position `i`.
pub open spec fn occurs_at(s: Seq<char>, p: Seq<char>, i: int) -> bool {
    0 <= i && i + p.len() <= s.len() && s.subrange(i, i + p.len()) == p
}

/// Whether `p` occurs somewhere in `s`.
pub open spec fn has_infix(s: Seq<char>, p: Seq<char>) -> bool {
    exists|i: int| occurs_at(s, p, i)
}

/// Whether `p` occurs in `v` at position `i`.
pub fn matches_at(v: &Vec<char>, p: &Vec<char>, i: usize) -> (r: bool)
    ensures
        r == occurs_at(v@, p@, i as int),
{
    let n = v.len();
    let m = p.len();
    if i > n || m > n - i {
        return false;
    }
    let mut k: usize = 0;
    while k < m
        invariant
            i + m <= n == v@.len(),
            m == p@.len(),
            k <= m,
            forall|j: int| 0 <= j < k ==> v@[i + j] == p@[j],
        decreases m - k,
    {
        if v[i + k] != p[k] {
            assert(v@.subrange(i as int, i + m)[k as int] != p@[k as int]);
            return false;
        }
        k += 1;
    }
    assert(v@.subrange(i as int, i + m) =~= p@);
    true
}

/// Whether `v` starts with `p`.
pub fn starts_with(v: &Vec<char>, p: &Vec<char>) -> (r: bool)
    ensures
        r == has_prefix(v@, p@),
{
    matches_at(v, p, 0)
}

/// Whether `v` ends with `p`.
pub fn ends_with(v: &Vec<char>, p: &Vec<char>) -> (r: bool)
    ensures
        r == has_suffix(v@, p@),
{
    if p.len() > v.len() {
        false
    } else {
        matches_at(v, p, v.len() - p.len())
    }
}

/// Whether `p` occurs somewhere in `v`.
pub fn contains(v: &Vec<char>, p: &Vec<char>) -> (r: bool)
    ensures
        r == has_infix(v@, p@),
{
    let n = v.len();
    let m = p.len();
    if m > n {
        assert forall|i: int| !occurs_at(v@, p@, i) by {}
        return false;
    }
    let last = n - m;
    let mut i: usize = 0;
    while i < last
        invariant
            m <= n == v@.len(),
            m == p@.len(),
            last == n - m,
            i <= last,
            forall|j: int| 0 <= j < i ==> !occurs_at(v@, p@, j),
        decreases last - i,
    {
        if matches_at(v, p, i) {
            return true;
        }
        i += 1;
    }
    if matches_at(v, p, last) {
        return true;
    }
    assert forall|j: int| !occurs_at(v@, p@, j) by {}
    false
}

/// Whether the character `c` occurs in `v`.
pub fn contains_char(v: &Vec<char>, c: char) -> (r: bool)
    ensures
        r == v@.contains(c),
{
    let mut i: usize = 0;
    while i < v.len()
        invariant
            i <= v@.len(),
            forall|j: int| 0 <= j < i ==> v@[j] != c,
        decreases v@.len() - i,
    {
        if v[i] == c {
            return true;
        }
        i += 1;
    }
    false
}

/// Position of the first `c` at or after `start`; the length of `s` if there
/// is none.
pub open spec fn next_index_of(s: Seq<char>, c: char, start: int) -> int
    decreases s.len() - start,
{
    if start < 0 || start >= s.len() {
        s.len() as int
    } else if s[start] == c {
        start
    } else {
        next_index_of(s, c, start + 1)
    }
}

pub proof fn lemma_next_index_of(s: Seq<char>, c: char, start: int)
    requires
        0 <= start <= s.len(),
    ensures
        start <= next_index_of(s, c, start) <= s.len(),
        next_index_of(s, c, start) < s.len() ==> s[next_index_of(s, c, start)] == c,
        forall|k: int| start <= k < next_index_of(s, c, start) ==> #[trigger] s[k] != c,
    decreases s.len() - start,
{
    if start < s.len() && s[start] != c {
        lemma_next_index_of(s, c, start + 1);
    }
}

/// Position of the first `c` at or after `start`, or `v.len()`.
pub fn find_from(v: &Vec<char>, c: char, start: usize) -> (r: usize)
    requires
        start <= v@.len(),
    ensures
        r == next_index_of(v@, c, start as int),
        start <= r <= v@.len(),
{
    let mut i: usize = start;
    while i < v.len() && v[i] != c
        invariant
            start <= i <= v@.len(),
            next_index_of(v@, c, start as int) == next_index_of(v@, c, i as int),
        decreases v@.len() - i,
    {
        i += 1;
    }
    i
}

/// One past the position of the last `c` before `end`; `0` if there is none.
pub open spec fn last_index_end(s: Seq<char>, c: char, end: int) -> int
    decreases end,
{
    if end <= 0 || end > s.len() {
        0
    } else if s[end - 1] == c {
        end
    } else {
        last_index_end(s, c, end - 1)
    }
}

/// One past the position of the last `c` in `v`; `0` if `c` does not occur.
pub fn rfind_end(v: &Vec<char>, c: char) -> (r: usize)
    ensures
        r == last_index_end(v@, c, v@.len() as int),
        r <= v@.len(),
{
    let mut i: usize = v.len();
    while i > 0 && v[i - 1] != c
        invariant
            i <= v@.len(),
            last_index_end(v@, c, v@.len() as int) == last_index_end(v@, c, i as int),
        decreases i,
    {
        i -= 1;
    }
    i
}

/// The pieces of `s[start..]` between occurrences of `sep`. There is always
/// at least one piece, and one more piece than there are separators.
pub open spec fn split_from(s: Seq<char>, sep: char, start: int) -> Seq<Seq<char>>
    decreases s.len() - start,
{
    if start < 0 || start > s.len() {
        Seq::empty()
    } else {
        let next = next_index_of(s, sep, start);
        if next < s.len() {
            proof {
                lemma_next_index_of(s, sep, start);
            }
            seq![s.subrange(start, next)] + split_from(s, sep, next + 1)
        } else {
            seq![s.subrange(start, s.len() as int)]
        }
    }
}

/// The pieces of `s` between occurrences of `sep`.
pub open spec fn split_on(s: Seq<char>, sep: char) -> Seq<Seq<char>> {
    split_from(s, sep, 0)
}

/// The views of a vector of character vectors.
pub open spec fn pieces_view(v: Seq<Vec<char>>) -> Seq<Seq<char>> {
    v.map_values(|p: Vec<char>| p@)
}

/// The pieces of `v` between occurrences of `sep`.
pub fn split(v: &Vec<char>, sep: char) -> (r: Vec<Vec<char>>)
    ensures
        pieces_view(r@) == split_on(v@, sep),
        r@.len() >= 1,
{
    let n = v.len();
    let mut out: Vec<Vec<char>> = Vec::new();
    let mut start: usize = 0;
    loop
        invariant_except_break
            start <= n == v@.len(),
            split_on(v@, sep) == pieces_view(out@) + split_from(v@, sep, start as int),
        ensures
            pieces_view(out@) == split_on(v@, sep),
            out@.len() >= 1,
        decreases n - start,
    {
        let next = find_from(v, sep, start);
        proof {
            lemma_next_index_of(v@, sep, start as int);
        }
        let piece = slice_chars(v, start, next);
        let ghost before = out@;
        out.push(piece);
        assert(pieces_view(out@) =~= pieces_view(before) + seq![v@.subrange(
            start as int,
            next as int,
        )]);
        if next < n {
            start = next + 1;
        } else {
            break ;
        }
    }
    out
}

/// The text of a line of `content` that starts at `start` and whose line feed
/// (or the end of `content`) is at `end`: a carriage return directly before
/// the line feed belongs to the line ending.
pub open spec fn line_text(s: Seq<char>, start: int, end: int) -> Seq<char> {
    if end < s.len() && start < end && s[end - 1] == '\r' {
        s.subrange(start, end - 1)
    } else {
        s.subrange(start, end)
    }
}

/// The lines of `s[start..]`.
pub open spec fn lines_from(s: Seq<char>, start: int) -> Seq<Seq<char>>
    decreases s.len() - start,
{
    if start < 0 || start >= s.len() {
        Seq::empty()
    } else {
        let end = next_index_of(s, '\n', start);
        if end < s.len() {
            proof {
                lemma_next_index_of(s, '\n', start);
            }
            seq![line_text(s, start, end)] + lines_from(s, end + 1)
        } else {
            seq![line_text(s, start, end)]
        }
    }
}

/// The lines of a text. A line ends at a line feed, or at a carriage return
/// directly followed by a line feed; the line ending is not part of the line.
/// The last line needs no line ending, and a text that ends with one has no
/// empty line after it.
pub open spec fn lines_of(s: Seq<char>) -> Seq<Seq<char>> {
    lines_from(s, 0)
}

/// The views of a vector of strings.
pub open spec fn strings_view(v: Seq<String>) -> Seq<Seq<char>> {
    v.map_values(|p: String| p@)
}

/// The lines of `content`, each as a string of its own.
pub fn split_lines(content: &str) -> (r: Vec<String>)
    ensures
        strings_view(r@) == lines_of(content@),
{
    let v = chars_of(content);
    let n = v.len();
    let mut out: Vec<String> = Vec::new();
    let mut start: usize = 0;
    while start < n
        invariant_except_break
            start <= n,
            lines_of(v@) == strings_view(out@) + lines_from(v@, start as int),
        invariant
            n == v@.len(),
            v@ == content@,
        ensures
            lines_of(v@) == strings_view(out@),
        decreases n - start,
    {
        let end = find_from(&v, '\n', start);
        proof {
            lemma_next_index_of(v@, '\n', start as int);
        }
        let stop = if end < n && start < end && v[end - 1] == '\r' {
            end - 1
        } else {
            end
        };
        let line = string_of(&v, start, stop);
        let ghost before = out@;
        out.push(line);
        assert(strings_view(out@) =~= strings_view(before) + seq![line_text(
            v@,
            start as int,
            end as int,
        )]);
        if end < n {
            start = end + 1;
        } else {
            break ;
        }
    }
    out
}

/// The decimal digit for `d < 10`.
pub open spec fn digit_char(d: int) -> char {
    if d == 0 {
        '0'
    } else if d == 1 {
        '1'
    } else if d == 2 {
        '2'
    } else if d == 3 {
        '3'
    } else if d == 4 {
        '4'
    } else if d == 5 {
        '5'
    } else if d == 6 {
        '6'
    } else if d == 7 {
        '7'
    } else if d == 8 {
        '8'
    } else {
        '9'
    }
}

/// The decimal numeral of `n`, without leading zeros.
pub open spec fn decimal(n: nat) -> Seq<char>
    decreases n,
{
    if n < 10 {
        seq![digit_char(n as int)]
    } else {
        decimal(n / 10).push(digit_char((n % 10) as int))
    }
}

/// A numeral has at least one digit, and two if the number is not below
/// ten.
proof fn lemma_decimal_len(n: nat)
    ensures
        decimal(n).len() >= 1,
        n >= 10 ==> decimal(n).len() >= 2,
    decreases n,
{
    if n >= 10 {
        lemma_decimal_len(n / 10);
    }
}

/// Different numbers have different numerals.
pub(crate) proof fn lemma_decimal_injective(n: nat, m: nat)
    requires
        decimal(n) == decimal(m),
    ensures
        n == m,
    decreases n,
{
    lemma_decimal_len(n);
    lemma_decimal_len(m);
    if n < 10 {
        assert(decimal(n).len() == 1);
        assert(m < 10);
        assert(decimal(n)[0] == digit_char(n as int));
        assert(decimal(m)[0] == digit_char(m as int));
    } else {
        assert(m >= 10) by {
            if m < 10 {
                assert(decimal(m).len() == 1);
            }
        }
        let a = decimal(n / 10);
        let b = decimal(m / 10);
        let x = digit_char((n % 10) as int);
        let y = digit_char((m % 10) as int);
        assert(a.push(x) == b.push(y));
        assert(a.push(x).drop_last() =~= a);
        assert(b.push(y).drop_last() =~= b);
        assert(a.push(x).last() == x);
        assert(b.push(y).last() == y);
        lemma_decimal_injective(n / 10, m / 10);
        assert(n % 10 == m % 10);
    }
}

fn digit_of(d: usize) -> (c: char)
    requires
        d < 10,
    ensures
        c == digit_char(d as int),
{
    if d == 0 {
        '0'
    } else if d == 1 {
        '1'
    } else if d == 2 {
        '2'
    } else if d == 3 {
        '3'
    } else if d == 4 {
        '4'
    } else if d == 5 {
        '5'
    } else if d == 6 {
        '6'
    } else if d == 7 {
        '7'
    } else if d == 8 {
        '8'
    } else {
        '9'
    }
}

/// Appends the decimal numeral of `n` to `s`.
pub fn push_decimal(s: &mut String, n: usize)
    ensures
        final(s)@ == old(s)@ + decimal(n as nat),
    decreases n,
{
    if n >= 10 {
        push_decimal(s, n / 10);
    }
    s.push(digit_of(n % 10));
    assert(final(s)@ =~= old(s)@ + decimal(n as nat)) by {
        if n >= 10 {
            assert(decimal(n as nat) == decimal((n / 10) as nat).push(
                digit_char((n % 10) as int),
            ));
        }
    }
}

/// Appends the characters of `t` to `s`.
pub fn push_str(s: &mut String, t: &str)
    ensures
        final(s)@ == old(s)@ + t@,
{
    s.append(t);
}

/// The texts `parts` joined by `sep`: no separator before the first part or
/// after the last.
pub open spec fn join_with(parts: Seq<Seq<char>>, sep: char) -> Seq<char>
    decreases parts.len(),
{
    if parts.len() == 0 {
        Seq::empty()
    } else if parts.len() == 1 {
        parts[0]
    } else {
        join_with(parts.drop_last(), sep) + seq![sep] + parts.last()
    }
}

/// The views of a vector of string references.
pub open spec fn refs_view(v: Seq<&String>) -> Seq<Seq<char>> {
    v.map_values(|p: &String| p@)
}

/// The strings `parts` joined by `sep`.
pub fn join(parts: &Vec<&String>, sep: char) -> (r: String)
    ensures
        r@ == join_with(refs_view(parts@), sep),
{
    let mut out = String::new();
    let mut k: usize = 0;
    while k < parts.len()
        invariant
            k <= parts@.len(),
            out@ == join_with(refs_view(parts@).take(k as int), sep),
        decreases parts@.len() - k,
    {
        let ghost before = refs_view(parts@).take(k as int);
        let ghost after = refs_view(parts@).take(k + 1);
        assert(after.drop_last() =~= before);
        assert(after.last() == parts@[k as int]@);
        if k > 0 {
            out.push(sep);
        }
        push_str(&mut out, parts[k].as_str());
        assert(out@ =~= join_with(after, sep));
        k += 1;
    }
    assert(refs_view(parts@).take(k as int) =~= refs_view(parts@));
    out
}

} // verus!
