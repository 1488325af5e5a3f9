//! Character-level text primitives: Unicode whitespace, trimming, searching,
//! line splitting and match counting, each with a mathematical definition
//! over `Seq<char>` and an executable counterpart proved against it.

use vstd::prelude::*;
use vstd::utf8::{valid_utf8, decode_utf8};
use crate::numeric::{digits_value, is_digits, parse_i64_spec, sign_and_digits};

verus! {

/// Unicode `White_Space`: the characters `char::is_whitespace` accepts.
pub open spec fn is_ws(c: char) -> bool {
    let u = c as u32;
    ||| (0x9 <= u && u <= 0xD)
    ||| u == 0x20
    ||| u == 0x85
    ||| u == 0xA0
    ||| u == 0x1680
    ||| (0x2000 <= u && u <= 0x200A)
    ||| u == 0x2028
    ||| u == 0x2029
    ||| u == 0x202F
    ||| u == 0x205F
    ||| u == 0x3000
}

pub fn is_whitespace(c: char) -> (b: bool)
    ensures
        b == is_ws(c),
{
    let u = c as u32;
    (0x9 <= u && u <= 0xD) || u == 0x20 || u == 0x85 || u == 0xA0 || u == 0x1680 || (0x2000
        <= u && u <= 0x200A) || u == 0x2028 || u == 0x2029 || u == 0x202F || u == 0x205F || u
        == 0x3000
}

/// `s` with its leading whitespace removed.
pub open spec fn trim_start(s: Seq<char>) -> Seq<char>
    decreases s.len(),
{
    if s.len() > 0 && is_ws(s[0]) {
        trim_start(s.drop_first())
    } else {
        s
    }
}

/// `s` with its trailing whitespace removed.
pub open spec fn trim_end(s: Seq<char>) -> Seq<char>
    decreases s.len(),
{
    if s.len() > 0 && is_ws(s.last()) {
        trim_end(s.drop_last())
    } else {
        s
    }
}

/// `s` with whitespace removed from both ends.
pub open spec fn trim(s: Seq<char>) -> Seq<char> {
    trim_end(trim_start(s))
}

/// Index of the first occurrence of `c` in `s`, or `s.len()` when absent.
pub open spec fn index_of(s: Seq<char>, c: char) -> int
    decreases s.len(),
{
    if s.len() == 0 {
        0
    } else if s[0] == c {
        0
    } else {
        1 + index_of(s.drop_first(), c)
    }
}

pub proof fn lemma_index_of(s: Seq<char>, c: char)
    ensures
        0 <= index_of(s, c) <= s.len(),
        index_of(s, c) < s.len() ==> s[index_of(s, c)] == c,
        forall|j: int| 0 <= j < index_of(s, c) ==> s[j] != c,
    decreases s.len(),
{
    if s.len() > 0 && s[0] != c {
        lemma_index_of(s.drop_first(), c);
        assert forall|j: int| 0 <= j < index_of(s, c) implies s[j] != c by {
            if j > 0 {
                assert(s[j] == s.drop_first()[j - 1]);
            }
        }
    }
}

/// An index at which `c` first occurs (or the length, when it never occurs)
/// is `index_of`.
pub proof fn lemma_index_of_unique(s: Seq<char>, c: char, k: int)
    requires
        0 <= k <= s.len(),
        k < s.len() ==> s[k] == c,
        forall|j: int| 0 <= j < k ==> s[j] != c,
    ensures
        index_of(s, c) == k,
    decreases s.len(),
{
    if s.len() > 0 && s[0] != c {
        assert forall|j: int| 0 <= j < k - 1 implies s.drop_first()[j] != c by {
            assert(s.drop_first()[j] == s[j + 1]);
        }
        if k - 1 < s.len() - 1 {
            assert(s.drop_first()[k - 1] == s[k]);
        }
        lemma_index_of_unique(s.drop_first(), c, k - 1);
    }
}

/// The line with a trailing carriage return removed.
pub open spec fn strip_cr(l: Seq<char>) -> Seq<char> {
    if l.len() > 0 && l.last() == '\r' {
        l.drop_last()
    } else {
        l
    }
}

/// The lines of `s`, as `str::lines` yields them: split at `'\n'`, a
/// `"\r\n"` ending counts as one line ending, a final line ending does not
/// start an extra empty line, and a last line with no line ending keeps a
/// trailing carriage return.
pub open spec fn lines(s: Seq<char>) -> Seq<Seq<char>>
    decreases s.len(),
{
    if s.len() == 0 {
        seq![]
    } else {
        let i = index_of(s, '\n');
        if i >= s.len() {
            seq![s]
        } else {
            proof {
                lemma_index_of(s, '\n');
            }
            seq![strip_cr(s.take(i))] + lines(s.skip(i + 1))
        }
    }
}

/// Number of non-overlapping occurrences of `p` in `s`, scanning from the
/// left (what `str::matches(p).count()` yields for a non-empty `p`).
pub open spec fn count_matches(s: Seq<char>, p: Seq<char>) -> nat
    decreases s.len(),
{
    if p.len() == 0 || s.len() < p.len() {
        0
    } else if p.is_prefix_of(s) {
        1 + count_matches(s.skip(p.len() as int), p)
    } else {
        count_matches(s.drop_first(), p)
    }
}

/// Whether `p` occurs in `s` at position `i`.
pub open spec fn occurs_at(s: Seq<char>, p: Seq<char>, i: int) -> bool {
    0 <= i && i + p.len() <= s.len() && s.subrange(i, i + p.len()) == p
}

/// Whether `p` occurs anywhere in `s` (the empty sequence occurs everywhere).
pub open spec fn contains_seq(s: Seq<char>, p: Seq<char>) -> bool {
    exists|i: int| occurs_at(s, p, i)
}

/// Position of the first occurrence of `p` in `s`.
pub open spec fn first_occurrence(s: Seq<char>, p: Seq<char>) -> Option<int> {
    if contains_seq(s, p) {
        Some(choose|i: int| occurs_at(s, p, i) && forall|j: int| 0 <= j < i ==> !occurs_at(s, p, j))
    } else {
        None
    }
}

// ---------------------------------------------------------------------------
// Executable counterparts
// ---------------------------------------------------------------------------

/// `String::push`: `c` appended.
#[verifier::external_body]
fn push_char(s: &mut String, c: char)
    ensures
        final(s)@ == old(s)@.push(c),
{
    s.push(c);
}

/// A name for the `Display` text of the `Utf8Error` that
/// `std::str::from_utf8` gives for `b`.
pub uninterp spec fn utf8_error_text(b: Seq<u8>) -> Seq<char>;

/// `std::str::from_utf8`: the text when `bytes` is well-formed UTF-8, else
/// the text of its error.
#[verifier::external_body]
pub(crate) fn text_from_utf8(bytes: &[u8]) -> (r: Result<String, String>)
    ensures
        r is Ok <==> valid_utf8(bytes@),
        r matches Ok(s) ==> s@ == decode_utf8(bytes@),
        r matches Err(e) ==> e@ == utf8_error_text(bytes@),
{
    std::str::from_utf8(bytes).map(|s| s.to_owned()).map_err(|e| e.to_string())
}

/// Whether `a` and `b` hold the same characters.
pub fn same_chars(a: &Vec<char>, b: &Vec<char>) -> (r: bool)
    ensures
        r == (a@ == b@),
{
    if a.len() != b.len() {
        return false;
    }
    let mut i: usize = 0;
    while i < a.len()
        invariant
            a.len() == b.len(),
            i <= a.len(),
            forall|j: int| 0 <= j < i ==> a@[j] == b@[j],
        decreases a.len() - i,
    {
        if a[i] != b[i] {
            return false;
        }
        i = i + 1;
    }
    assert(a@ =~= b@);
    true
}

/// The characters of `s`, in order.
pub fn chars_of(s: &str) -> (v: Vec<char>)
    ensures
        v@ == s@,
{
    let mut v: Vec<char> = Vec::new();
    for c in it: s.chars()
        invariant
            v@ == it.seq().take(it.index() as int),
    {
        v.push(c);
    }
    v
}

/// The string made of the characters `v`.
pub fn string_of(v: &Vec<char>) -> (s: String)
    ensures
        s@ == v@,
{
    let mut s = String::new();
    let mut i: usize = 0;
    while i < v.len()
        invariant
            i <= v.len(),
            s@ == v@.take(i as int),
        decreases v.len() - i,
    {
        push_char(&mut s, v[i]);
        assert(v@.take(i + 1) == v@.take(i as int).push(v@[i as int]));
        i = i + 1;
    }
    assert(v@.take(v.len() as int) == v@);
    s
}

/// The characters `s[lo..hi]`.
pub fn sub_chars(s: &Vec<char>, lo: usize, hi: usize) -> (r: Vec<char>)
    requires
        lo <= hi <= s.len(),
    ensures
        r@ == s@.subrange(lo as int, hi as int),
{
    let mut r: Vec<char> = Vec::new();
    let mut i = lo;
    while i < hi
        invariant
            lo <= i <= hi <= s.len(),
            r@ == s@.subrange(lo as int, i as int),
        decreases hi - i,
    {
        r.push(s[i]);
        assert(s@.subrange(lo as int, i + 1) == s@.subrange(lo as int, i as int).push(s@[i as int]));
        i = i + 1;
    }
    r
}

proof fn lemma_skip_drop_first(s: Seq<char>, i: int)
    requires
        0 <= i < s.len(),
    ensures
        s.skip(i).drop_first() == s.skip(i + 1),
        s.skip(i)[0] == s[i],
{
    assert(s.skip(i).drop_first() =~= s.skip(i + 1));
}

proof fn lemma_take_drop_last(s: Seq<char>, i: int)
    requires
        0 < i <= s.len(),
    ensures
        s.take(i).drop_last() == s.take(i - 1),
        s.take(i).last() == s[i - 1],
{
    assert(s.take(i).drop_last() =~= s.take(i - 1));
}

/// Index of the first non-whitespace character of `s` at or after `from`
/// (or `s.len()`).
fn skip_ws_from(s: &Vec<char>, from: usize) -> (i: usize)
    requires
        from <= s.len(),
    ensures
        from <= i <= s.len(),
        trim_start(s@.skip(from as int)) == s@.skip(i as int),
{
    let mut i = from;
    while i < s.len() && is_whitespace(s[i])
        invariant
            from <= i <= s.len(),
            trim_start(s@.skip(from as int)) == trim_start(s@.skip(i as int)),
        decreases s.len() - i,
    {
        proof {
            lemma_skip_drop_first(s@, i as int);
        }
        i = i + 1;
    }
    proof {
        if i < s.len() {
            lemma_skip_drop_first(s@, i as int);
        }
    }
    i
}

/// Position just after the last non-whitespace character of `s[..to]`.
fn trim_end_to(s: &Vec<char>, to: usize) -> (i: usize)
    requires
        to <= s.len(),
    ensures
        i <= to,
        trim_end(s@.take(to as int)) == s@.take(i as int),
{
    let mut i = to;
    while i > 0 && is_whitespace(s[i - 1])
        invariant
            i <= to <= s.len(),
            trim_end(s@.take(to as int)) == trim_end(s@.take(i as int)),
        decreases i,
    {
        proof {
            lemma_take_drop_last(s@, i as int);
        }
        i = i - 1;
    }
    proof {
        if i > 0 {
            lemma_take_drop_last(s@, i as int);
        }
    }
    i
}

/// `s` without its leading whitespace.
pub fn trim_start_chars(s: &Vec<char>) -> (r: Vec<char>)
    ensures
        r@ == trim_start(s@),
{
    let i = skip_ws_from(s, 0);
    assert(s@.skip(0) == s@);
    sub_chars(s, i, s.len())
}

/// `s` without leading or trailing whitespace.
pub fn trim_chars(s: &Vec<char>) -> (r: Vec<char>)
    ensures
        r@ == trim(s@),
{
    let t = trim_start_chars(s);
    let j = trim_end_to(&t, t.len());
    assert(t@.take(t.len() as int) == t@);
    sub_chars(&t, 0, j)
}

/// `s` without its trailing whitespace.
pub fn trim_end_chars(s: &Vec<char>) -> (r: Vec<char>)
    ensures
        r@ == trim_end(s@),
{
    let j = trim_end_to(s, s.len());
    assert(s@.take(s.len() as int) == s@);
    sub_chars(s, 0, j)
}

/// Whether `s` starts with `p`.
pub fn starts_with(s: &Vec<char>, p: &Vec<char>) -> (b: bool)
    ensures
        b == p@.is_prefix_of(s@),
{
    occurs_at_exec(s, p, 0)
}

/// Whether `p` occurs in `s` at position `i`.
pub fn occurs_at_exec(s: &Vec<char>, p: &Vec<char>, i: usize) -> (b: bool)
    ensures
        b == occurs_at(s@, p@, i as int),
        i == 0 ==> b == p@.is_prefix_of(s@),
{
    if i > s.len() || p.len() > s.len() - i {
        return false;
    }
    let mut k: usize = 0;
    while k < p.len()
        invariant
            i + p.len() <= s.len(),
            k <= p.len(),
            forall|j: int| 0 <= j < k ==> s@[i + j] == p@[j],
        decreases p.len() - k,
    {
        if s[i + k] != p[k] {
            assert(s@.subrange(i as int, i + p.len())[k as int] != p@[k as int]);
            return false;
        }
        k = k + 1;
    }
    assert(s@.subrange(i as int, i + p.len()) =~= p@);
    true
}

/// Whether `c` occurs in `s`.
pub fn contains_char(s: &Vec<char>, c: char) -> (b: bool)
    ensures
        b == s@.contains(c),
{
    let i = find_char(s, c);
    proof {
        lemma_index_of(s@, c);
    }
    i < s.len()
}

/// Index of the first `c` in `s`, or `s.len()` when it does not occur.
pub fn find_char(s: &Vec<char>, c: char) -> (i: usize)
    ensures
        i == index_of(s@, c),
{
    let mut i: usize = 0;
    while i < s.len() && s[i] != c
        invariant
            i <= s.len(),
            forall|j: int| 0 <= j < i ==> s@[j] != c,
        decreases s.len() - i,
    {
        i = i + 1;
    }
    proof {
        lemma_index_of_unique(s@, c, i as int);
    }
    i
}

/// Position of the first occurrence of `p` in `s`.
pub fn find_seq(s: &Vec<char>, p: &Vec<char>) -> (r: Option<usize>)
    ensures
        r matches Some(i) ==> first_occurrence(s@, p@) == Some(i as int) && occurs_at(s@, p@, i as int),
        r is None ==> first_occurrence(s@, p@) is None,
{
    if p.len() > s.len() {
        return None;
    }
    let last = s.len() - p.len();
    let mut i: usize = 0;
    loop
        invariant
            i <= last,
            last + p.len() == s.len(),
            forall|j: int| 0 <= j < i ==> !occurs_at(s@, p@, j),
        decreases last - i,
    {
        if occurs_at_exec(s, p, i) {
            proof {
                lemma_first_occurrence_at(s@, p@, i as int);
            }
            return Some(i);
        }
        if i == last {
            proof {
                assert forall|j: int| !occurs_at(s@, p@, j) by {
                    if 0 <= j <= i {
                    }
                }
            }
            return None;
        }
        i = i + 1;
    }
}

proof fn lemma_first_occurrence_at(s: Seq<char>, p: Seq<char>, i: int)
    requires
        occurs_at(s, p, i),
        forall|j: int| 0 <= j < i ==> !occurs_at(s, p, j),
    ensures
        first_occurrence(s, p) == Some(i),
{
    assert(contains_seq(s, p));
    let k = choose|k: int| occurs_at(s, p, k) && forall|j: int| 0 <= j < k ==> !occurs_at(s, p, j);
    if k < i {
        assert(!occurs_at(s, p, k));
    } else if k > i {
        assert(!occurs_at(s, p, i));
    }
}

/// Whether `p` occurs in `s`.
pub fn contains_seq_exec(s: &Vec<char>, p: &Vec<char>) -> (b: bool)
    ensures
        b == contains_seq(s@, p@),
{
    match find_seq(s, p) {
        Some(_) => true,
        None => false,
    }
}


/// Index of the first `c` in `s` at or after `from`, or `s.len()`.
pub fn find_char_from(s: &Vec<char>, c: char, from: usize) -> (i: usize)
    requires
        from <= s.len(),
    ensures
        i == from + index_of(s@.skip(from as int), c),
        from <= i <= s.len(),
{
    let mut i: usize = from;
    while i < s.len() && s[i] != c
        invariant
            from <= i <= s.len(),
            forall|j: int| from <= j < i ==> s@[j] != c,
        decreases s.len() - i,
    {
        i = i + 1;
    }
    proof {
        let t = s@.skip(from as int);
        assert forall|j: int| 0 <= j < i - from implies t[j] != c by {
            assert(t[j] == s@[from + j]);
        }
        if i < s.len() {
            assert(t[i - from] == s@[i as int]);
        }
        lemma_index_of_unique(t, c, i - from);
    }
    i
}

/// `l` without a final carriage return.
pub fn strip_cr_chars(l: Vec<char>) -> (r: Vec<char>)
    ensures
        r@ == strip_cr(l@),
{
    let mut l = l;
    if l.len() > 0 && l[l.len() - 1] == '\r' {
        l.pop();
    }
    l
}

/// The lines of `s`, as `str::lines` yields them.
pub fn lines_of(s: &Vec<char>) -> (r: Vec<Vec<char>>)
    ensures
        r.deep_view() == lines(s@),
{
    let mut r: Vec<Vec<char>> = Vec::new();
    let mut start: usize = 0;
    assert(s@.skip(0) == s@);
    while start < s.len()
        invariant
            start <= s.len(),
            r.deep_view() + lines(s@.skip(start as int)) == lines(s@),
        decreases s.len() - start,
    {
        let ghost t = s@.skip(start as int);
        let j = find_char_from(s, '\n', start);
        proof {
            lemma_index_of(t, '\n');
        }
        let line = sub_chars(s, start, j);
        let line = if j < s.len() { strip_cr_chars(line) } else { line };
        let ghost before = r.deep_view();
        proof {
            assert(line.deep_view() =~= line@);
        }
        r.push(line);
        proof {
            assert(t.take(j - start) =~= s@.subrange(start as int, j as int));
            if j < s.len() {
                assert(r.deep_view() =~= before.push(strip_cr(s@.subrange(start as int, j as int))));
            } else {
                assert(r.deep_view() =~= before.push(s@.subrange(start as int, j as int)));
            }
        }
        if j == s.len() {
            proof {
                assert(t.take(j - start) =~= t);
                assert(lines(s@.skip(s.len() as int)) =~= seq![]);
                assert(r.deep_view() =~= before + lines(t));
            }
            start = j;
        } else {
            proof {
                assert(t.skip(j - start + 1) =~= s@.skip(j + 1));
                assert(lines(t) == seq![strip_cr(t.take(j - start))] + lines(s@.skip(j + 1)));
                assert(before + lines(t) =~= r.deep_view() + lines(s@.skip(j + 1)));
            }
            start = j + 1;
        }
    }
    proof {
        assert(lines(s@.skip(start as int)) =~= seq![]);
        assert(r.deep_view() + seq![] =~= r.deep_view());
    }
    r
}

proof fn lemma_occurs_at_prefix(s: Seq<char>, p: Seq<char>, i: int)
    requires
        0 <= i <= s.len(),
    ensures
        occurs_at(s, p, i) == p.is_prefix_of(s.skip(i)),
{
    if p.len() <= s.len() - i {
        assert(s.skip(i).take(p.len() as int) =~= s.subrange(i, i + p.len()));
    }
}

/// Number of non-overlapping occurrences of a non-empty `p` in `s`.
pub fn count_matches_exec(s: &Vec<char>, p: &Vec<char>) -> (n: usize)
    requires
        p.len() > 0,
    ensures
        n == count_matches(s@, p@),
{
    let mut i: usize = 0;
    let mut n: usize = 0;
    assert(s@.skip(0) == s@);
    while i <= s.len() && p.len() <= s.len() - i
        invariant
            i <= s.len(),
            n <= i,
            p.len() > 0,
            n + count_matches(s@.skip(i as int), p@) == count_matches(s@, p@),
        decreases s.len() - i,
    {
        let ghost t = s@.skip(i as int);
        proof {
            lemma_occurs_at_prefix(s@, p@, i as int);
        }
        if occurs_at_exec(s, p, i) {
            proof {
                assert(t.skip(p.len() as int) =~= s@.skip(i + p.len()));
            }
            n = n + 1;
            i = i + p.len();
        } else {
            proof {
                lemma_skip_drop_first(s@, i as int);
            }
            i = i + 1;
        }
    }
    n
}


/// Index of the first character of `s` satisfying `p`, or `s.len()`.
pub open spec fn index_where(s: Seq<char>, p: spec_fn(char) -> bool) -> int
    decreases s.len(),
{
    if s.len() == 0 {
        0
    } else if p(s[0]) {
        0
    } else {
        1 + index_where(s.drop_first(), p)
    }
}

pub proof fn lemma_index_where(s: Seq<char>, p: spec_fn(char) -> bool)
    ensures
        0 <= index_where(s, p) <= s.len(),
        index_where(s, p) < s.len() ==> p(s[index_where(s, p)]),
        forall|j: int| 0 <= j < index_where(s, p) ==> !p(#[trigger] s[j]),
    decreases s.len(),
{
    if s.len() > 0 && !p(s[0]) {
        lemma_index_where(s.drop_first(), p);
        assert forall|j: int| 0 <= j < index_where(s, p) implies !p(#[trigger] s[j]) by {
            if j > 0 {
                assert(s[j] == s.drop_first()[j - 1]);
            }
        }
    }
}

pub proof fn lemma_index_where_unique(s: Seq<char>, p: spec_fn(char) -> bool, k: int)
    requires
        0 <= k <= s.len(),
        k < s.len() ==> p(s[k]),
        forall|j: int| 0 <= j < k ==> !p(#[trigger] s[j]),
    ensures
        index_where(s, p) == k,
    decreases s.len(),
{
    if s.len() > 0 && !p(s[0]) {
        assert forall|j: int| 0 <= j < k - 1 implies !p(#[trigger] s.drop_first()[j]) by {
            assert(s.drop_first()[j] == s[j + 1]);
        }
        if k - 1 < s.len() - 1 {
            assert(s.drop_first()[k - 1] == s[k]);
        }
        lemma_index_where_unique(s.drop_first(), p, k - 1);
    }
}

/// `trim_start(s)` is a suffix of `s` that does not start with whitespace.
pub proof fn lemma_trim_start(s: Seq<char>)
    ensures
        trim_start(s).len() <= s.len(),
        trim_start(s) == s.skip(s.len() - trim_start(s).len()),
        trim_start(s).len() > 0 ==> !is_ws(trim_start(s)[0]),
    decreases s.len(),
{
    if s.len() > 0 && is_ws(s[0]) {
        lemma_trim_start(s.drop_first());
        assert(s.drop_first().skip(s.drop_first().len() - trim_start(s).len()) =~= s.skip(
            s.len() - trim_start(s).len(),
        ));
    } else {
        assert(s.skip(0) =~= s);
    }
}

pub open spec fn ws_pred() -> spec_fn(char) -> bool {
    |c: char| is_ws(c)
}

/// The whitespace-separated words of `s`, in order (`str::split_whitespace`).
pub open spec fn words(s: Seq<char>) -> Seq<Seq<char>>
    decreases s.len(),
{
    let t = trim_start(s);
    if t.len() == 0 {
        seq![]
    } else {
        let k = index_where(t, ws_pred());
        proof {
            lemma_trim_start(s);
            lemma_index_where(t, ws_pred());
        }
        if k <= 0 {
            seq![]
        } else {
            seq![t.take(k)] + words(t.skip(k))
        }
    }
}

/// The pieces joined with a single space between neighbours.
pub open spec fn join_spaced(ws: Seq<Seq<char>>) -> Seq<char>
    decreases ws.len(),
{
    if ws.len() == 0 {
        seq![]
    } else if ws.len() == 1 {
        ws[0]
    } else {
        join_spaced(ws.drop_last()) + seq![' '] + ws.last()
    }
}

/// `s` with every whitespace run collapsed to one space and none at either
/// end.
pub open spec fn collapse(s: Seq<char>) -> Seq<char> {
    join_spaced(words(s))
}

/// The words of `s`.
pub fn words_of(s: &Vec<char>) -> (r: Vec<Vec<char>>)
    ensures
        r.deep_view() == words(s@),
{
    let mut r: Vec<Vec<char>> = Vec::new();
    let mut start: usize = 0;
    assert(s@.skip(0) == s@);
    loop
        invariant
            start <= s.len(),
            r.deep_view() + words(s@.skip(start as int)) == words(s@),
        decreases s.len() - start,
    {
        let ghost u = s@.skip(start as int);
        let b = skip_ws_from(s, start);
        let ghost t = trim_start(u);
        assert(t == s@.skip(b as int));
        if b == s.len() {
            proof {
                assert(t.len() == 0);
                assert(r.deep_view() + seq![] =~= r.deep_view());
            }
            return r;
        }
        let mut e = b;
        while e < s.len() && !is_whitespace(s[e])
            invariant
                b <= e <= s.len(),
                forall|j: int| b <= j < e ==> !is_ws(#[trigger] s@[j]),
            decreases s.len() - e,
        {
            e = e + 1;
        }
        proof {
            assert forall|j: int| 0 <= j < e - b implies !#[trigger] ws_pred()(t[j]) by {
                assert(t[j] == s@[b + j]);
            }
            if e < s.len() {
                assert(t[e - b] == s@[e as int]);
            }
            lemma_index_where_unique(t, ws_pred(), e - b);
            lemma_trim_start(u);
            assert(!is_ws(t[0]));
            assert(e > b);
            assert(t.take(e - b) =~= s@.subrange(b as int, e as int));
            assert(t.skip(e - b) =~= s@.skip(e as int));
        }
        let w = sub_chars(s, b, e);
        let ghost before = r.deep_view();
        proof {
            assert(w.deep_view() =~= w@);
        }
        r.push(w);
        proof {
            assert(r.deep_view() =~= before.push(s@.subrange(b as int, e as int)));
            assert(words(u) == seq![t.take(e - b)] + words(t.skip(e - b)));
            assert(before + words(u) =~= r.deep_view() + words(s@.skip(e as int)));
        }
        start = e;
    }
}

/// `s` with whitespace runs collapsed to single spaces and trimmed (what
/// `s.split_whitespace().collect::<Vec<_>>().join(" ")` yields).
pub fn collapse_ws(s: &str) -> (r: String)
    ensures
        r@ == collapse(s@),
{
    let cs = chars_of(s);
    let ws = words_of(&cs);
    let ghost wv = ws.deep_view();
    let mut out: Vec<char> = Vec::new();
    let mut i: usize = 0;
    while i < ws.len()
        invariant
            wv == ws.deep_view(),
            i <= ws.len(),
            out@ == join_spaced(wv.take(i as int)),
        decreases ws.len() - i,
    {
        assert(wv[i as int] =~= ws@[i as int]@);
        if i > 0 {
            out.push(' ');
        }
        let w = &ws[i];
        let ghost before = out@;
        let mut k: usize = 0;
        while k < w.len()
            invariant
                k <= w.len(),
                out@ == before + w@.take(k as int),
            decreases w.len() - k,
        {
            out.push(w[k]);
            assert(w@.take(k + 1) =~= w@.take(k as int).push(w@[k as int]));
            k = k + 1;
        }
        proof {
            assert(w@.take(w.len() as int) =~= w@);
            let tk = wv.take(i + 1);
            assert(tk.drop_last() =~= wv.take(i as int));
            assert(tk.last() == wv[i as int]);
            if i == 0 {
                assert(join_spaced(wv.take(0)) =~= seq![]);
                assert(out@ =~= w@);
            }
        }
        i = i + 1;
    }
    assert(wv.take(ws.len() as int) =~= wv);
    string_of(&out)
}


/// The decimal digits of `n`.
pub open spec fn decimal(n: nat) -> Seq<char>
    decreases n,
{
    if n < 10 {
        seq![(48 + n) as char]
    } else {
        decimal(n / 10).push((48 + n % 10) as char)
    }
}

/// The decimal digits of `n`.
pub fn decimal_chars(n: u128) -> (r: Vec<char>)
    ensures
        r@ == decimal(n as nat),
    decreases n,
{
    if n < 10 {
        let mut r: Vec<char> = Vec::new();
        r.push(((48 + n) as u8) as char);
        assert(r@ =~= decimal(n as nat));
        r
    } else {
        let mut r = decimal_chars(n / 10);
        r.push(((48 + n % 10) as u8) as char);
        assert(r@ =~= decimal(n as nat));
        r
    }
}

/// Appends the characters of `s` to `out`.
pub fn push_chars(out: &mut Vec<char>, s: &Vec<char>)
    ensures
        final(out)@ == old(out)@ + s@,
{
    let mut i: usize = 0;
    while i < s.len()
        invariant
            i <= s@.len(),
            out@ == old(out)@ + s@.take(i as int),
        decreases s@.len() - i,
    {
        out.push(s[i]);
        assert(s@.take(i + 1) == s@.take(i as int).push(s@[i as int]));
        i = i + 1;
    }
    assert(s@.take(s@.len() as int) == s@);
}

/// Appends the characters of `s` to `out`.
pub fn push_text(out: &mut Vec<char>, s: &str)
    ensures
        final(out)@ == old(out)@ + s@,
{
    let c = chars_of(s);
    push_chars(out, &c);
}

/// Appends the decimal digits of `n` to `out`.
pub fn push_decimal(out: &mut Vec<char>, n: u128)
    ensures
        final(out)@ == old(out)@ + decimal(n as nat),
{
    let d = decimal_chars(n);
    push_chars(out, &d);
}

/// Appends the decimal digits of the count `n` to `out`.
pub fn push_count(out: &mut Vec<char>, n: usize)
    ensures
        final(out)@ == old(out)@ + decimal(n as nat),
{
    push_decimal(out, n as u128);
}

/// The decimal form of `i`, with a minus sign when it is negative.
pub open spec fn signed_decimal(i: int) -> Seq<char> {
    if i < 0 {
        seq!['-'] + decimal((-i) as nat)
    } else {
        decimal(i as nat)
    }
}

/// Appends the decimal form of `i` to `out`, with a minus sign when it is
/// negative.
pub fn push_signed(out: &mut Vec<char>, i: i64)
    ensures
        final(out)@ == old(out)@ + signed_decimal(i as int),
{
    if i < 0 {
        out.push('-');
        let m: i128 = 0 - (i as i128);
        push_decimal(out, m as u128);
        assert(out@ =~= old(out)@ + signed_decimal(i as int));
    } else {
        push_decimal(out, i as u128);
    }
}

/// A name for the text `String::from_utf8_lossy` makes of `b`: ill-formed
/// sequences replaced by U+FFFD.
pub uninterp spec fn lossy_text(b: Seq<u8>) -> Seq<char>;

/// `String::from_utf8_lossy`: well-formed UTF-8 is decoded as it stands.
#[verifier::external_body]
pub(crate) fn text_from_utf8_lossy(bytes: &[u8]) -> (s: String)
    ensures
        s@ == lossy_text(bytes@),
        valid_utf8(bytes@) ==> s@ == decode_utf8(bytes@),
{
    String::from_utf8_lossy(bytes).into_owned()
}

/// A name for the `Debug` form of a string: quoted, with escapes.
pub uninterp spec fn debug_quoted(s: Seq<char>) -> Seq<char>;

/// `<str as Debug>::fmt`, written into a new string.
#[verifier::external_body]
pub(crate) fn debug_text(s: &str) -> (r: String)
    ensures
        r@ == debug_quoted(s@),
{
    format!("{:?}", s)
}

/// A name for the `Debug` form of a character: single-quoted, with escapes.
pub uninterp spec fn debug_char_text(c: char) -> Seq<char>;

/// `<char as Debug>::fmt`, written into a new string.
#[verifier::external_body]
pub(crate) fn debug_char(c: char) -> (r: String)
    ensures
        r@ == debug_char_text(c),
{
    format!("{:?}", c)
}

/// A name for the `Display` text of the error `str::parse::<i64>` gives
/// for `s`.
pub uninterp spec fn int_parse_error_text(s: Seq<char>) -> Seq<char>;

/// `str::parse::<i64>` on `s`: the `Display` text of its error (nothing
/// when `s` is an integer). Stated where the documented error kind is plain:
/// an empty text; a signed run of digits beyond `i64`; a text too short to
/// overflow that is no integer (an invalid digit). Otherwise only named:
/// which of an invalid digit and an overflow a long text reports first is
/// not documented.
#[verifier::external_body]
pub(crate) fn int_parse_error(s: &str) -> (r: String)
    ensures
        r@ == int_parse_error_text(s@),
        s@.len() == 0 ==> r@ == "cannot parse integer from empty string"@,
        is_digits(sign_and_digits(s@).1) && !sign_and_digits(s@).0 && digits_value(sign_and_digits(s@).1) > i64::MAX
            ==> r@ == "number too large to fit in target type"@,
        is_digits(sign_and_digits(s@).1) && sign_and_digits(s@).0 && -digits_value(sign_and_digits(s@).1) < i64::MIN
            ==> r@ == "number too small to fit in target type"@,
        1 <= s@.len() <= 18 && parse_i64_spec(s@) is None ==> r@ == "invalid digit found in string"@,
{
    match s.parse::<i64>() {
        Err(e) => e.to_string(),
        Ok(_) => String::new(),
    }
}

} // verus!
