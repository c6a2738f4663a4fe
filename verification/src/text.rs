//! Character-level text utilities shared by the pipeline stages.
//!
//! Texts are modelled as sequences of `char`; the byte length of a text is
//! the length of its UTF-8 encoding, which is what `str::len` reports.
use vstd::prelude::*;
use vstd::utf8::*;
use vstd::string::*;

verus! {

broadcast use vstd::seq_lib::group_seq_properties;

// ---------------------------------------------------------------------------
// Whitespace and UTF-8 widths.
// ---------------------------------------------------------------------------

/// Unicode `White_Space`, the property that `char::is_whitespace` tests.
pub open spec fn is_ws(c: char) -> bool {
    let u = c as u32;
    ||| 0x9 <= u <= 0xD
    ||| u == 0x20
    ||| u == 0x85
    ||| u == 0xA0
    ||| u == 0x1680
    ||| 0x2000 <= u <= 0x200A
    ||| u == 0x2028
    ||| u == 0x2029
    ||| u == 0x202F
    ||| u == 0x205F
    ||| u == 0x3000
}

/// True for a whitespace character (same set as `char::is_whitespace`).
pub fn is_whitespace(c: char) -> (b: bool)
    ensures
        b == is_ws(c),
{
    let u = c as u32;
    (0x9 <= u && u <= 0xD) || u == 0x20 || u == 0x85 || u == 0xA0 || u == 0x1680 || (0x2000 <= u
        && u <= 0x200A) || u == 0x2028 || u == 0x2029 || u == 0x202F || u == 0x205F || u == 0x3000
}

/// ASCII decimal digit.
pub open spec fn is_digit(c: char) -> bool {
    '0' <= c && c <= '9'
}

/// Number of bytes of the UTF-8 encoding of `c`.
pub open spec fn utf8_width(c: char) -> nat {
    let u = c as u32;
    if u < 0x80 {
        1
    } else if u < 0x800 {
        2
    } else if u < 0x10000 {
        3
    } else {
        4
    }
}

/// Byte length of the UTF-8 encoding of a character sequence.
pub open spec fn byte_len(s: Seq<char>) -> nat
    decreases s.len(),
{
    if s.len() == 0 {
        0
    } else {
        byte_len(s.drop_last()) + utf8_width(s.last())
    }
}

pub fn char_width(c: char) -> (w: usize)
    ensures
        w == utf8_width(c),
        1 <= w <= 4,
{
    let u = c as u32;
    if u < 0x80 {
        1
    } else if u < 0x800 {
        2
    } else if u < 0x10000 {
        3
    } else {
        4
    }
}

pub proof fn lemma_byte_len_concat(a: Seq<char>, b: Seq<char>)
    ensures
        byte_len(a + b) == byte_len(a) + byte_len(b),
    decreases b.len(),
{
    if b.len() == 0 {
        assert(a + b =~= a);
    } else {
        lemma_byte_len_concat(a, b.drop_last());
        assert((a + b).drop_last() =~= a + b.drop_last());
    }
}

pub proof fn lemma_byte_len_push(a: Seq<char>, c: char)
    ensures
        byte_len(a.push(c)) == byte_len(a) + utf8_width(c),
{
    assert(a.push(c).drop_last() =~= a);
}

pub proof fn lemma_byte_len_bounds(s: Seq<char>)
    ensures
        s.len() <= byte_len(s) <= 4 * s.len(),
    decreases s.len(),
{
    if s.len() > 0 {
        lemma_byte_len_bounds(s.drop_last());
    }
}

pub proof fn lemma_byte_len_prefix(s: Seq<char>, i: int)
    requires
        0 <= i <= s.len(),
    ensures
        byte_len(s.take(i)) <= byte_len(s),
        byte_len(s.take(i)) + byte_len(s.skip(i)) == byte_len(s),
{
    lemma_byte_len_concat(s.take(i), s.skip(i));
    assert(s.take(i) + s.skip(i) =~= s);
}

pub proof fn lemma_byte_len_subrange(s: Seq<char>, i: int, j: int)
    requires
        0 <= i <= j <= s.len(),
    ensures
        byte_len(s.subrange(i, j)) <= byte_len(s),
{
    lemma_byte_len_concat(s.subrange(0, i), s.subrange(i, j));
    lemma_byte_len_concat(s.subrange(0, i) + s.subrange(i, j), s.subrange(j, s.len() as int));
    assert(s.subrange(0, i) + s.subrange(i, j) + s.subrange(j, s.len() as int) =~= s);
}

proof fn lemma_encode_concat(a: Seq<char>, b: Seq<char>)
    ensures
        encode_utf8(a + b) == encode_utf8(a) + encode_utf8(b),
    decreases a.len(),
{
    if a.len() == 0 {
        assert(a + b =~= b);
    } else {
        lemma_encode_concat(a.drop_first(), b);
        assert((a + b).drop_first() =~= a.drop_first() + b);
        assert((a + b)[0] == a[0]);
    }
}

proof fn lemma_encode_single(c: char)
    ensures
        encode_utf8(seq![c]).len() == utf8_width(c),
{
    char_is_scalar(c);
    assert(seq![c].drop_first() =~= Seq::<char>::empty());
    assert(encode_utf8(Seq::<char>::empty()) =~= Seq::<u8>::empty());
}

/// The modelled byte length is the length of the UTF-8 encoding.
pub proof fn lemma_byte_len_is_encoding_len(s: Seq<char>)
    ensures
        byte_len(s) == encode_utf8(s).len(),
    decreases s.len(),
{
    if s.len() > 0 {
        lemma_byte_len_is_encoding_len(s.drop_last());
        lemma_encode_concat(s.drop_last(), seq![s.last()]);
        lemma_encode_single(s.last());
        assert(s.drop_last() + seq![s.last()] =~= s);
    }
}

// ---------------------------------------------------------------------------
// Conversions between `str`/`String` and character vectors.
// ---------------------------------------------------------------------------

/// `String::push`: the string gains the character at its end.
#[verifier::external_body]
pub(crate) fn push_char(s: &mut String, c: char)
    ensures
        final(s)@ == old(s)@.push(c),
{
    s.push(c);
}

/// The characters of a string slice, in order; its byte length fits `usize`.
pub fn chars_of(s: &str) -> (v: Vec<char>)
    ensures
        v@ == s@,
        byte_len(s@) <= usize::MAX,
        byte_len(s@) == s.len(),
{
    let mut v: Vec<char> = Vec::new();
    for c in it: s.chars()
        invariant
            v@ == it.seq().take(it.index() as int),
    {
        v.push(c);
    }
    let bytes = s.as_bytes();
    let _n = bytes.len();
    proof {
        lemma_byte_len_is_encoding_len(s@);
    }
    v
}

/// A new string holding `v[lo..hi]`.
pub fn string_of(v: &Vec<char>, lo: usize, hi: usize) -> (r: String)
    requires
        lo <= hi <= v@.len(),
    ensures
        r@ == v@.subrange(lo as int, hi as int),
{
    let mut r = String::new();
    let mut i = lo;
    while i < hi
        invariant
            lo <= i <= hi <= v@.len(),
            r@ == v@.subrange(lo as int, i as int),
        decreases hi - i,
    {
        push_char(&mut r, v[i]);
        i += 1;
    }
    r
}

/// Appends `v[lo..hi]` to `out`.
pub fn push_range(out: &mut String, v: &Vec<char>, lo: usize, hi: usize)
    requires
        lo <= hi <= v@.len(),
    ensures
        final(out)@ == old(out)@ + v@.subrange(lo as int, hi as int),
{
    let mut i = lo;
    while i < hi
        invariant
            lo <= i <= hi <= v@.len(),
            out@ == old(out)@ + v@.subrange(lo as int, i as int),
        decreases hi - i,
    {
        push_char(out, v[i]);
        i += 1;
    }
}

/// Appends a string slice to `out`.
pub fn push_str(out: &mut String, s: &str)
    ensures
        final(out)@ == old(out)@ + s@,
{
    out.append(s);
}

/// Byte length of `v[lo..hi]`.
pub fn byte_len_of(v: &Vec<char>, lo: usize, hi: usize) -> (n: usize)
    requires
        lo <= hi <= v@.len(),
        byte_len(v@) <= usize::MAX,
    ensures
        n == byte_len(v@.subrange(lo as int, hi as int)),
{
    let mut n: usize = 0;
    let mut i = lo;
    while i < hi
        invariant
            lo <= i <= hi <= v@.len(),
            byte_len(v@) <= usize::MAX,
            n == byte_len(v@.subrange(lo as int, i as int)),
        decreases hi - i,
    {
        proof {
            assert(v@.subrange(lo as int, i + 1) =~= v@.subrange(lo as int, i as int).push(v@[i as int]));
            lemma_byte_len_push(v@.subrange(lo as int, i as int), v@[i as int]);
            lemma_byte_len_subrange(v@, lo as int, i + 1);
        }
        n = n + char_width(v[i]);
        i += 1;
    }
    n
}


// ---------------------------------------------------------------------------
// Trimming.
// ---------------------------------------------------------------------------

/// The characters that a trim removes: whitespace, or only `'\n'` when `nl`.
pub open spec fn strip_pred(nl: bool, c: char) -> bool {
    if nl {
        c == '\n'
    } else {
        is_ws(c)
    }
}

/// `s` without its leading strippable characters.
pub open spec fn trim_start_by(s: Seq<char>, nl: bool) -> Seq<char>
    decreases s.len(),
{
    if s.len() > 0 && strip_pred(nl, s[0]) {
        trim_start_by(s.drop_first(), nl)
    } else {
        s
    }
}

/// `s` without its trailing strippable characters.
pub open spec fn trim_end_by(s: Seq<char>, nl: bool) -> Seq<char>
    decreases s.len(),
{
    if s.len() > 0 && strip_pred(nl, s.last()) {
        trim_end_by(s.drop_last(), nl)
    } else {
        s
    }
}

/// `str::trim_start`.
pub open spec fn trim_start(s: Seq<char>) -> Seq<char> {
    trim_start_by(s, false)
}

/// `str::trim_end`.
pub open spec fn trim_end(s: Seq<char>) -> Seq<char> {
    trim_end_by(s, false)
}

/// `str::trim`.
pub open spec fn trim(s: Seq<char>) -> Seq<char> {
    trim_end(trim_start(s))
}

/// `str::trim_matches('\n')`.
pub open spec fn trim_newlines(s: Seq<char>) -> Seq<char> {
    trim_end_by(trim_start_by(s, true), true)
}

pub proof fn lemma_trim_start_skip(s: Seq<char>, nl: bool, k: int)
    requires
        0 <= k <= s.len(),
        forall|j: int| 0 <= j < k ==> strip_pred(nl, #[trigger] s[j]),
        k == s.len() || !strip_pred(nl, s[k]),
    ensures
        trim_start_by(s, nl) == s.skip(k),
    decreases k,
{
    if k == 0 {
        assert(s.skip(0) =~= s);
    } else {
        assert forall|j: int| 0 <= j < k - 1 implies strip_pred(nl, #[trigger] s.drop_first()[j]) by {
            assert(s.drop_first()[j] == s[j + 1]);
        }
        lemma_trim_start_skip(s.drop_first(), nl, k - 1);
        assert(s.drop_first().skip(k - 1) =~= s.skip(k));
    }
}

pub proof fn lemma_trim_end_take(s: Seq<char>, nl: bool, k: int)
    requires
        0 <= k <= s.len(),
        forall|j: int| k <= j < s.len() ==> strip_pred(nl, #[trigger] s[j]),
        k == 0 || !strip_pred(nl, s[k - 1]),
    ensures
        trim_end_by(s, nl) == s.take(k),
    decreases s.len() - k,
{
    if k == s.len() {
        assert(s.take(k) =~= s);
    } else {
        assert forall|j: int| k <= j < s.len() - 1 implies strip_pred(nl, #[trigger] s.drop_last()[j]) by {
            assert(s.drop_last()[j] == s[j]);
        }
        lemma_trim_end_take(s.drop_last(), nl, k);
        assert(s.drop_last().take(k) =~= s.take(k));
    }
}

pub fn strip_test(nl: bool, c: char) -> (b: bool)
    ensures
        b == strip_pred(nl, c),
{
    if nl {
        c == '\n'
    } else {
        is_whitespace(c)
    }
}

/// Index of the first character of `v[lo..hi]` that a trim keeps.
pub fn trim_start_index(v: &Vec<char>, lo: usize, hi: usize, nl: bool) -> (k: usize)
    requires
        lo <= hi <= v@.len(),
    ensures
        lo <= k <= hi,
        v@.subrange(k as int, hi as int) == trim_start_by(v@.subrange(lo as int, hi as int), nl),
{
    let mut k = lo;
    while k < hi && strip_test(nl, v[k])
        invariant
            lo <= k <= hi <= v@.len(),
            forall|j: int| lo <= j < k ==> strip_pred(nl, #[trigger] v@[j]),
        decreases hi - k,
    {
        k += 1;
    }
    proof {
        let s = v@.subrange(lo as int, hi as int);
        assert forall|j: int| 0 <= j < k - lo implies strip_pred(nl, #[trigger] s[j]) by {
            assert(s[j] == v@[lo + j]);
        }
        lemma_trim_start_skip(s, nl, k - lo);
        assert(s.skip(k - lo) =~= v@.subrange(k as int, hi as int));
    }
    k
}

/// One past the last character of `v[lo..hi]` that a trim keeps.
pub fn trim_end_index(v: &Vec<char>, lo: usize, hi: usize, nl: bool) -> (k: usize)
    requires
        lo <= hi <= v@.len(),
    ensures
        lo <= k <= hi,
        v@.subrange(lo as int, k as int) == trim_end_by(v@.subrange(lo as int, hi as int), nl),
{
    let mut k = hi;
    while k > lo && strip_test(nl, v[k - 1])
        invariant
            lo <= k <= hi <= v@.len(),
            forall|j: int| k <= j < hi ==> strip_pred(nl, #[trigger] v@[j]),
        decreases k - lo,
    {
        k -= 1;
    }
    proof {
        let s = v@.subrange(lo as int, hi as int);
        assert forall|j: int| k - lo <= j < s.len() implies strip_pred(nl, #[trigger] s[j]) by {
            assert(s[j] == v@[lo + j]);
        }
        lemma_trim_end_take(s, nl, k - lo);
        assert(s.take(k - lo) =~= v@.subrange(lo as int, k as int));
    }
    k
}

/// Bounds of `trim(v[lo..hi])` inside `v`.
pub fn trim_bounds(v: &Vec<char>, lo: usize, hi: usize) -> (r: (usize, usize))
    requires
        lo <= hi <= v@.len(),
    ensures
        lo <= r.0 <= r.1 <= hi,
        v@.subrange(r.0 as int, r.1 as int) == trim(v@.subrange(lo as int, hi as int)),
{
    let a = trim_start_index(v, lo, hi, false);
    let b = trim_end_index(v, a, hi, false);
    (a, b)
}

/// `trim(v[lo..hi])` as a new string.
pub fn trimmed_string(v: &Vec<char>, lo: usize, hi: usize) -> (r: String)
    requires
        lo <= hi <= v@.len(),
    ensures
        r@ == trim(v@.subrange(lo as int, hi as int)),
{
    let (a, b) = trim_bounds(v, lo, hi);
    string_of(v, a, b)
}

/// `str::trim` on a string slice.
pub fn trim_str(s: &str) -> (r: String)
    ensures
        r@ == trim(s@),
{
    let v = chars_of(s);
    let r = trimmed_string(&v, 0, v.len());
    proof {
        assert(v@.subrange(0, v@.len() as int) =~= v@);
    }
    r
}


// ---------------------------------------------------------------------------
// Substring search and splitting.
// ---------------------------------------------------------------------------

/// `p` occurs in `s` starting at index `i`.
pub open spec fn occurs_at(s: Seq<char>, p: Seq<char>, i: int) -> bool {
    0 <= i && i + p.len() <= s.len() && s.subrange(i, i + p.len()) == p
}

/// First occurrence of `p` in `s` at an index `>= i`.
pub open spec fn find_from(s: Seq<char>, p: Seq<char>, i: int) -> Option<int>
    decreases s.len() + 1 - i,
{
    if i < 0 || i + p.len() > s.len() {
        None
    } else if occurs_at(s, p, i) {
        Some(i)
    } else {
        find_from(s, p, i + 1)
    }
}

/// `str::find`: the first occurrence of `p` in `s`.
pub open spec fn find(s: Seq<char>, p: Seq<char>) -> Option<int> {
    find_from(s, p, 0)
}

/// Last occurrence of `p` in `s` at an index `<= i`.
pub open spec fn rfind_to(s: Seq<char>, p: Seq<char>, i: int) -> Option<int>
    decreases i + 1,
{
    if i < 0 {
        None
    } else if occurs_at(s, p, i) {
        Some(i)
    } else {
        rfind_to(s, p, i - 1)
    }
}

/// `str::rfind`: the last occurrence of `p` in `s`.
pub open spec fn rfind(s: Seq<char>, p: Seq<char>) -> Option<int> {
    rfind_to(s, p, s.len() - p.len())
}

pub proof fn lemma_find_from(s: Seq<char>, p: Seq<char>, i: int)
    requires
        0 <= i,
    ensures
        find_from(s, p, i) matches Some(k) ==> i <= k && occurs_at(s, p, k) && forall|j: int|
            i <= j < k ==> !occurs_at(s, p, j),
        find_from(s, p, i) is None ==> forall|j: int| i <= j ==> !occurs_at(s, p, j),
    decreases s.len() + 1 - i,
{
    if i + p.len() > s.len() {
    } else if occurs_at(s, p, i) {
    } else {
        lemma_find_from(s, p, i + 1);
    }
}

pub proof fn lemma_rfind_to(s: Seq<char>, p: Seq<char>, i: int)
    ensures
        rfind_to(s, p, i) matches Some(k) ==> k <= i && occurs_at(s, p, k) && forall|j: int|
            k < j <= i ==> !occurs_at(s, p, j),
        rfind_to(s, p, i) is None ==> forall|j: int| j <= i ==> !occurs_at(s, p, j),
    decreases i + 1,
{
    if i < 0 {
    } else if occurs_at(s, p, i) {
    } else {
        lemma_rfind_to(s, p, i - 1);
    }
}

pub proof fn lemma_find(s: Seq<char>, p: Seq<char>)
    ensures
        find(s, p) matches Some(k) ==> occurs_at(s, p, k) && forall|j: int|
            0 <= j < k ==> !occurs_at(s, p, j),
        find(s, p) is None ==> forall|j: int| !occurs_at(s, p, j),
{
    lemma_find_from(s, p, 0);
}

pub proof fn lemma_rfind(s: Seq<char>, p: Seq<char>)
    ensures
        rfind(s, p) matches Some(k) ==> occurs_at(s, p, k) && forall|j: int|
            k < j ==> !occurs_at(s, p, j),
        rfind(s, p) is None ==> forall|j: int| !occurs_at(s, p, j),
{
    lemma_rfind_to(s, p, s.len() - p.len());
}

/// Maps an optional index to its mathematical value.
pub open spec fn opt_int(o: Option<usize>) -> Option<int> {
    match o {
        Some(k) => Some(k as int),
        None => None,
    }
}

/// Does `p` occur in `v[lo..hi]` at relative index `i`?
pub fn occurs_at_exec(v: &Vec<char>, lo: usize, hi: usize, p: &Vec<char>, i: usize) -> (b: bool)
    requires
        lo <= hi <= v@.len(),
    ensures
        b == occurs_at(v@.subrange(lo as int, hi as int), p@, i as int),
{
    let ghost s = v@.subrange(lo as int, hi as int);
    if i > hi - lo || p.len() > hi - lo - i {
        return false;
    }
    let mut j: usize = 0;
    while j < p.len()
        invariant
            lo <= hi <= v@.len(),
            s == v@.subrange(lo as int, hi as int),
            i + p@.len() <= hi - lo,
            j <= p@.len(),
            forall|k: int| 0 <= k < j ==> v@[lo + i + k] == p@[k],
        decreases p@.len() - j,
    {
        if v[lo + i + j] != p[j] {
            proof {
                assert(s.subrange(i as int, i + p@.len())[j as int] == v@[lo + i + j]);
            }
            return false;
        }
        j += 1;
    }
    proof {
        assert(s.subrange(i as int, i + p@.len()) =~= p@);
    }
    true
}

/// `find(v[lo..hi], p)` with the index relative to `lo`.
pub fn find_exec(v: &Vec<char>, lo: usize, hi: usize, p: &Vec<char>) -> (r: Option<usize>)
    requires
        lo <= hi <= v@.len(),
    ensures
        opt_int(r) == find(v@.subrange(lo as int, hi as int), p@),
        r matches Some(k) ==> k + p@.len() <= hi - lo,
{
    let ghost s = v@.subrange(lo as int, hi as int);
    if p.len() > hi - lo {
        return None;
    }
    if p.len() == 0 {
        proof {
            assert(s.subrange(0, 0) =~= p@);
        }
        return Some(0);
    }
    let mut i: usize = 0;
    while i <= hi - lo - p.len()
        invariant
            lo <= hi <= v@.len(),
            s == v@.subrange(lo as int, hi as int),
            1 <= p@.len() <= hi - lo,
            i <= hi - lo - p@.len() + 1,
            find(s, p@) == find_from(s, p@, i as int),
        decreases hi - lo - p@.len() + 1 - i,
    {
        if occurs_at_exec(v, lo, hi, p, i) {
            return Some(i);
        }
        i += 1;
    }
    None
}

/// `rfind(v[lo..hi], p)` with the index relative to `lo`.
pub fn rfind_exec(v: &Vec<char>, lo: usize, hi: usize, p: &Vec<char>) -> (r: Option<usize>)
    requires
        lo <= hi <= v@.len(),
    ensures
        opt_int(r) == rfind(v@.subrange(lo as int, hi as int), p@),
        r matches Some(k) ==> k + p@.len() <= hi - lo,
{
    let ghost s = v@.subrange(lo as int, hi as int);
    if p.len() > hi - lo {
        return None;
    }
    if p.len() == 0 {
        proof {
            assert(s.subrange(s.len() as int, s.len() as int) =~= p@);
        }
        return Some(hi - lo);
    }
    let mut i: usize = hi - lo - p.len() + 1;
    while i > 0
        invariant
            lo <= hi <= v@.len(),
            s == v@.subrange(lo as int, hi as int),
            p@.len() <= hi - lo,
            i <= hi - lo - p@.len() + 1,
            rfind(s, p@) == rfind_to(s, p@, i - 1),
        decreases i,
    {
        if occurs_at_exec(v, lo, hi, p, i - 1) {
            return Some(i - 1);
        }
        i -= 1;
    }
    None
}

/// `str::split` with a non-empty separator: the pieces between the
/// non-overlapping occurrences of `sep`, found left to right.
pub open spec fn split_on(s: Seq<char>, sep: Seq<char>) -> Seq<Seq<char>>
    recommends
        sep.len() > 0,
    decreases s.len(),
{
    match find(s, sep) {
        Some(i) => if sep.len() > 0 && 0 <= i && i + sep.len() <= s.len() {
            seq![s.take(i)] + split_on(s.skip(i + sep.len()), sep)
        } else {
            seq![s]
        },
        None => seq![s],
    }
}

/// The pieces of `v` named by a list of ranges.
pub open spec fn range_views(v: Seq<char>, rs: Seq<(usize, usize)>) -> Seq<Seq<char>> {
    rs.map_values(|r: (usize, usize)| v.subrange(r.0 as int, r.1 as int))
}

/// Ranges of the pieces of `split_on(v[lo..hi], sep)`.
pub fn split_ranges(v: &Vec<char>, lo: usize, hi: usize, sep: &Vec<char>) -> (rs: Vec<(usize, usize)>)
    requires
        lo <= hi <= v@.len(),
        sep@.len() > 0,
    ensures
        range_views(v@, rs@) == split_on(v@.subrange(lo as int, hi as int), sep@),
        forall|k: int| 0 <= k < rs@.len() ==> lo <= (#[trigger] rs@[k]).0 <= rs@[k].1 <= hi,
{
    let mut rs: Vec<(usize, usize)> = Vec::new();
    let mut pos = lo;
    loop
        invariant
            lo <= pos <= hi <= v@.len(),
            sep@.len() > 0,
            range_views(v@, rs@) + split_on(v@.subrange(pos as int, hi as int), sep@) == split_on(
                v@.subrange(lo as int, hi as int),
                sep@,
            ),
            forall|k: int| 0 <= k < rs@.len() ==> lo <= (#[trigger] rs@[k]).0 <= rs@[k].1 <= hi,
        decreases hi - pos,
    {
        let ghost s = v@.subrange(pos as int, hi as int);
        match find_exec(v, pos, hi, sep) {
            Some(i) => {
                proof {
                    assert(s.take(i as int) =~= v@.subrange(pos as int, pos + i));
                    assert(s.skip(i + sep@.len()) =~= v@.subrange(pos + i + sep@.len(), hi as int));
                    assert(range_views(v@, rs@.push((pos, (pos + i) as usize))) =~= range_views(v@, rs@).push(
                        v@.subrange(pos as int, pos + i),
                    ));
                }
                rs.push((pos, pos + i));
                pos = pos + i + sep.len();
            },
            None => {
                proof {
                    assert(range_views(v@, rs@.push((pos, hi))) =~= range_views(v@, rs@).push(s));
                }
                rs.push((pos, hi));
                return rs;
            },
        }
    }
}

// ---------------------------------------------------------------------------
// Words (`str::split_whitespace`) and joining.
// ---------------------------------------------------------------------------

/// `str::split_whitespace`: the maximal runs of non-whitespace characters.
pub open spec fn words(s: Seq<char>) -> Seq<Seq<char>>
    decreases s.len(),
{
    if s.len() == 0 {
        seq![]
    } else {
        let w = words(s.drop_last());
        if is_ws(s.last()) {
            w
        } else if s.len() == 1 || is_ws(s[s.len() - 2]) {
            w.push(seq![s.last()])
        } else {
            w.update(w.len() - 1, w.last().push(s.last()))
        }
    }
}

/// `text.split_whitespace().count()`.
pub open spec fn word_count(s: Seq<char>) -> nat {
    words(s).len()
}

pub proof fn lemma_words_nonempty_when_continuing(s: Seq<char>)
    requires
        s.len() > 0,
        !is_ws(s.last()),
    ensures
        words(s).len() > 0,
    decreases s.len(),
{
    if s.len() > 1 && !is_ws(s[s.len() - 2]) {
        assert(s.drop_last().last() == s[s.len() - 2]);
        lemma_words_nonempty_when_continuing(s.drop_last());
    }
}

/// Number of whitespace-separated words of `v[lo..hi]`.
pub fn word_count_of(v: &Vec<char>, lo: usize, hi: usize) -> (n: usize)
    requires
        lo <= hi <= v@.len(),
    ensures
        n == word_count(v@.subrange(lo as int, hi as int)),
{
    let mut n: usize = 0;
    let mut i = lo;
    let mut prev_ws = true;
    while i < hi
        invariant
            lo <= i <= hi <= v@.len(),
            n == word_count(v@.subrange(lo as int, i as int)),
            n <= i - lo,
            prev_ws == (i == lo || is_ws(v@[i - 1])),
        decreases hi - i,
    {
        let ghost p = v@.subrange(lo as int, i + 1);
        proof {
            assert(p.drop_last() =~= v@.subrange(lo as int, i as int));
            if i > lo {
                assert(p[p.len() - 2] == v@[i - 1]);
                if !is_ws(v@[i - 1]) {
                    lemma_words_nonempty_when_continuing(p.drop_last());
                }
            }
        }
        let ws = is_whitespace(v[i]);
        if !ws && prev_ws {
            n += 1;
        }
        prev_ws = ws;
        i += 1;
    }
    n
}

/// `text.split_whitespace().count()` for a string slice.
pub fn count_words(s: &str) -> (n: usize)
    ensures
        n == word_count(s@),
{
    let v = chars_of(s);
    proof {
        assert(v@.subrange(0, v@.len() as int) =~= v@);
    }
    word_count_of(&v, 0, v.len())
}

/// The pieces of `list` joined with `sep` between consecutive pieces.
pub open spec fn join(list: Seq<Seq<char>>, sep: Seq<char>) -> Seq<char>
    decreases list.len(),
{
    if list.len() == 0 {
        seq![]
    } else if list.len() == 1 {
        list[0]
    } else {
        join(list.drop_last(), sep) + sep + list.last()
    }
}

/// Views of a list of strings.
pub open spec fn str_views(v: Seq<String>) -> Seq<Seq<char>> {
    v.map_values(|s: String| s@)
}


/// Mapping then flattening distributes over `push`.
pub proof fn lemma_flat_map_push<A, B>(s: Seq<A>, x: A, f: spec_fn(A) -> Seq<B>)
    ensures
        s.push(x).map_values(f).flatten() == s.map_values(f).flatten() + f(x),
{
    assert(s.push(x).map_values(f) =~= s.map_values(f).push(f(x)));
    s.map_values(f).lemma_flatten_push(f(x));
}

/// Mapping then flattening a prefix one element longer.
pub proof fn lemma_flat_map_take<A, B>(s: Seq<A>, k: int, f: spec_fn(A) -> Seq<B>)
    requires
        0 <= k < s.len(),
    ensures
        s.take(k + 1).map_values(f).flatten() == s.take(k).map_values(f).flatten() + f(s[k]),
{
    assert(s.take(k + 1) =~= s.take(k).push(s[k]));
    lemma_flat_map_push(s.take(k), s[k], f);
}


/// Byte length of a string slice (`str::len`).
pub fn str_byte_len(s: &str) -> (n: usize)
    ensures
        n == byte_len(s@),
{
    let b = s.as_bytes();
    let n = b.len();
    proof {
        lemma_byte_len_is_encoding_len(s@);
    }
    n
}


/// A new string equal to `s`.
pub fn owned(s: &str) -> (r: String)
    ensures
        r@ == s@,
{
    let mut r = String::new();
    push_str(&mut r, s);
    proof {
        assert(r@ =~= s@);
    }
    r
}


/// `list.join(sep)` for a list of strings.
pub fn join_strings(list: &Vec<String>, sep: &str) -> (r: String)
    ensures
        r@ == join(str_views(list@), sep@),
{
    let ghost lv = str_views(list@);
    let mut r = String::new();
    let mut k: usize = 0;
    while k < list.len()
        invariant
            k <= list@.len(),
            lv == str_views(list@),
            r@ == join(lv.take(k as int), sep@),
        decreases list@.len() - k,
    {
        proof {
            assert(lv.take(k + 1).drop_last() =~= lv.take(k as int));
            assert(lv.take(k + 1).last() == list@[k as int]@);
        }
        if k > 0 {
            push_str(&mut r, sep);
        } else {
            proof {
                assert(lv.take(1)[0] == list@[0]@);
            }
        }
        push_str(&mut r, list[k].as_str());
        proof {
            if k == 0 {
                assert(r@ =~= join(lv.take(1), sep@));
            }
        }
        k += 1;
    }
    proof {
        assert(lv.take(list@.len() as int) =~= lv);
    }
    r
}


/// `a == b` on string slices.
pub fn str_eq(a: &str, b: &str) -> (r: bool)
    ensures
        r == (a@ == b@),
{
    let x = chars_of(a);
    let y = chars_of(b);
    if x.len() != y.len() {
        return false;
    }
    let mut i: usize = 0;
    while i < x.len()
        invariant
            x@.len() == y@.len(),
            x@ == a@,
            y@ == b@,
            i <= x@.len(),
            forall|k: int| 0 <= k < i ==> x@[k] == y@[k],
        decreases x@.len() - i,
    {
        if x[i] != y[i] {
            return false;
        }
        i += 1;
    }
    proof {
        assert(x@ =~= y@);
    }
    true
}


/// `s` contains `p`.
pub open spec fn contains(s: Seq<char>, p: Seq<char>) -> bool {
    find(s, p) is Some
}

/// `s` starts with `p`.
pub open spec fn starts_with(s: Seq<char>, p: Seq<char>) -> bool {
    p.len() <= s.len() && s.take(p.len() as int) == p
}

/// `s` ends with `p`.
pub open spec fn ends_with(s: Seq<char>, p: Seq<char>) -> bool {
    p.len() <= s.len() && s.skip(s.len() - p.len()) == p
}

/// `str::contains` with a string pattern.
pub fn str_contains(s: &str, p: &str) -> (r: bool)
    ensures
        r == contains(s@, p@),
{
    let v = chars_of(s);
    let pv = chars_of(p);
    proof {
        assert(v@.subrange(0, v@.len() as int) =~= v@);
    }
    find_exec(&v, 0, v.len(), &pv).is_some()
}

/// Does `v[lo..hi]` start with `p`?
pub fn starts_with_exec(v: &Vec<char>, lo: usize, hi: usize, p: &Vec<char>) -> (b: bool)
    requires
        lo <= hi <= v@.len(),
    ensures
        b == starts_with(v@.subrange(lo as int, hi as int), p@),
{
    let ghost s = v@.subrange(lo as int, hi as int);
    let r = occurs_at_exec(v, lo, hi, p, 0);
    proof {
        if p@.len() <= s.len() {
            assert(s.subrange(0, p@.len() as int) =~= s.take(p@.len() as int));
        }
    }
    r
}

/// Does `v[lo..hi]` end with `p`?
pub fn ends_with_exec(v: &Vec<char>, lo: usize, hi: usize, p: &Vec<char>) -> (b: bool)
    requires
        lo <= hi <= v@.len(),
    ensures
        b == ends_with(v@.subrange(lo as int, hi as int), p@),
{
    let ghost s = v@.subrange(lo as int, hi as int);
    if p.len() > hi - lo {
        return false;
    }
    let r = occurs_at_exec(v, lo, hi, p, hi - lo - p.len());
    proof {
        assert(s.subrange(s.len() - p@.len(), s.len() as int) =~= s.skip(s.len() - p@.len()));
    }
    r
}

/// `str::starts_with` with a string pattern.
pub fn str_starts_with(s: &str, p: &str) -> (r: bool)
    ensures
        r == starts_with(s@, p@),
{
    let v = chars_of(s);
    let pv = chars_of(p);
    proof {
        assert(v@.subrange(0, v@.len() as int) =~= v@);
    }
    starts_with_exec(&v, 0, v.len(), &pv)
}

/// `str::ends_with` with a string pattern.
pub fn str_ends_with(s: &str, p: &str) -> (r: bool)
    ensures
        r == ends_with(s@, p@),
{
    let v = chars_of(s);
    let pv = chars_of(p);
    proof {
        assert(v@.subrange(0, v@.len() as int) =~= v@);
    }
    ends_with_exec(&v, 0, v.len(), &pv)
}

/// `s` without the prefix `p`, when it starts with it.
pub open spec fn strip_prefix(s: Seq<char>, p: Seq<char>) -> Option<Seq<char>> {
    if starts_with(s, p) {
        Some(s.skip(p.len() as int))
    } else {
        None
    }
}

/// `str::strip_prefix` with a string pattern.
pub fn str_strip_prefix(s: &str, p: &str) -> (r: Option<String>)
    ensures
        match r {
            Some(t) => strip_prefix(s@, p@) == Some(t@),
            None => strip_prefix(s@, p@) is None,
        },
{
    let v = chars_of(s);
    let pv = chars_of(p);
    proof {
        assert(v@.subrange(0, v@.len() as int) =~= v@);
    }
    if starts_with_exec(&v, 0, v.len(), &pv) {
        let t = string_of(&v, pv.len(), v.len());
        proof {
            assert(v@.subrange(pv@.len() as int, v@.len() as int) =~= v@.skip(pv@.len() as int));
        }
        Some(t)
    } else {
        None
    }
}


/// A vector holding `v[lo..hi]`.
pub fn sub_chars(v: &Vec<char>, lo: usize, hi: usize) -> (r: Vec<char>)
    requires
        lo <= hi <= v@.len(),
    ensures
        r@ == v@.subrange(lo as int, hi as int),
{
    let mut r: Vec<char> = Vec::new();
    let mut i = lo;
    while i < hi
        invariant
            lo <= i <= hi <= v@.len(),
            r@ == v@.subrange(lo as int, i as int),
        decreases hi - i,
    {
        r.push(v[i]);
        i += 1;
    }
    r
}

/// ASCII lowercase of one character: 'A'..='Z' become 'a'..='z', every
/// other character is unchanged.
pub open spec fn ascii_lower(c: char) -> char {
    if 65 <= (c as u32) && (c as u32) <= 90 {
        ((c as u32) + 32) as char
    } else {
        c
    }
}

/// `s` with its ASCII letters lowercased.
pub open spec fn ascii_lowercase(s: Seq<char>) -> Seq<char> {
    s.map_values(|c: char| ascii_lower(c))
}

/// ASCII lowercase of one character.
fn ascii_lower_char(c: char) -> (r: char)
    ensures
        r == ascii_lower(c),
{
    let u = c as u32;
    if 65 <= u && u <= 90 {
        let b: u8 = (u + 32) as u8;
        b as char
    } else {
        c
    }
}

/// `s` with its ASCII letters lowercased (`str::to_ascii_lowercase`).
pub fn to_ascii_lowercase(s: &str) -> (r: String)
    ensures
        r@ == ascii_lowercase(s@),
{
    let v = chars_of(s);
    let mut r = String::new();
    let mut i: usize = 0;
    while i < v.len()
        invariant
            i <= v@.len(),
            v@ == s@,
            r@ == ascii_lowercase(v@.take(i as int)),
        decreases v@.len() - i,
    {
        push_char(&mut r, ascii_lower_char(v[i]));
        proof {
            assert(ascii_lowercase(v@.take(i + 1)) =~= ascii_lowercase(v@.take(i as int)).push(ascii_lower(v@[i as int])));
        }
        i += 1;
    }
    proof {
        assert(v@.take(v@.len() as int) =~= v@);
    }
    r
}

// ---------------------------------------------------------------------------
// Decimal formatting.
// ---------------------------------------------------------------------------

/// The ASCII digit for `d < 10`.
pub open spec fn digit_char(d: nat) -> char {
    (48 + d) as char
}

/// Decimal digits of `n`, without leading zeros (`format!("{n}")`).
pub open spec fn decimal(n: nat) -> Seq<char>
    decreases n,
{
    if n < 10 {
        seq![digit_char(n)]
    } else {
        decimal(n / 10).push(digit_char(n % 10))
    }
}

/// `format!("{n}")` for a signed integer.
pub open spec fn signed_decimal(n: int) -> Seq<char> {
    if n < 0 {
        seq!['-'] + decimal((-n) as nat)
    } else {
        decimal(n as nat)
    }
}

/// `format!("{n:02}")`: at least two digits.
pub open spec fn pad2(n: nat) -> Seq<char> {
    if n < 10 {
        seq!['0'] + decimal(n)
    } else {
        decimal(n)
    }
}

fn digit(d: u64) -> (c: char)
    requires
        d < 10,
    ensures
        c == digit_char(d as nat),
{
    match d {
        0 => '0',
        1 => '1',
        2 => '2',
        3 => '3',
        4 => '4',
        5 => '5',
        6 => '6',
        7 => '7',
        8 => '8',
        _ => '9',
    }
}

/// Appends the decimal digits of `n`.
pub fn push_decimal(out: &mut String, n: u64)
    ensures
        final(out)@ == old(out)@ + decimal(n as nat),
    decreases n,
{
    if n >= 10 {
        push_decimal(out, n / 10);
    }
    push_char(out, digit(n % 10));
    proof {
        if n >= 10 {
            assert(old(out)@ + decimal(n as nat) =~= old(out)@ + decimal((n / 10) as nat) + seq![
                digit_char((n % 10) as nat),
            ]);
        } else {
            assert(old(out)@ + decimal(n as nat) =~= old(out)@.push(digit_char((n % 10) as nat)));
        }
    }
}

/// Appends `format!("{n}")` for a signed integer.
pub fn push_signed_decimal(out: &mut String, n: i64)
    ensures
        final(out)@ == old(out)@ + signed_decimal(n as int),
{
    if n < 0 {
        push_char(out, '-');
        let m: u64 = (0i128 - (n as i128)) as u64;
        push_decimal(out, m);
        proof {
            assert(old(out)@.push('-') + decimal(m as nat) =~= old(out)@ + (seq!['-'] + decimal(
                (-n) as nat,
            )));
        }
    } else {
        push_decimal(out, n as u64);
    }
}

/// Appends `format!("{n:02}")`.
pub fn push_pad2(out: &mut String, n: u64)
    ensures
        final(out)@ == old(out)@ + pad2(n as nat),
{
    if n < 10 {
        push_char(out, '0');
        push_decimal(out, n);
        proof {
            assert(old(out)@.push('0') + decimal(n as nat) =~= old(out)@ + (seq!['0'] + decimal(n as nat)));
        }
    } else {
        push_decimal(out, n);
    }
}

/// Ranges of the words (`split_whitespace`) of `v[lo..hi]`.
pub fn word_ranges(v: &Vec<char>, lo: usize, hi: usize) -> (rs: Vec<(usize, usize)>)
    requires
        lo <= hi <= v@.len(),
    ensures
        range_views(v@, rs@) == words(v@.subrange(lo as int, hi as int)),
        forall|k: int| 0 <= k < rs@.len() ==> lo <= (#[trigger] rs@[k]).0 <= rs@[k].1 <= hi,
{
    let mut rs: Vec<(usize, usize)> = Vec::new();
    let mut i = lo;
    proof {
        assert(v@.subrange(lo as int, lo as int) =~= Seq::<char>::empty());
        assert(range_views(v@, rs@) =~= Seq::<Seq<char>>::empty());
    }
    while i < hi
        invariant
            lo <= i <= hi <= v@.len(),
            range_views(v@, rs@) == words(v@.subrange(lo as int, i as int)),
            forall|k: int| 0 <= k < rs@.len() ==> lo <= (#[trigger] rs@[k]).0 <= rs@[k].1 <= i,
            rs@.len() > 0 && i > lo && !is_ws(v@[i - 1]) ==> rs@.last().1 == i,
        decreases hi - i,
    {
        let ghost s = v@.subrange(lo as int, i + 1);
        proof {
            assert(s.drop_last() =~= v@.subrange(lo as int, i as int));
            assert(s.last() == v@[i as int]);
            if i > lo {
                assert(s[s.len() - 2] == v@[i - 1]);
            }
        }
        if !is_whitespace(v[i]) {
            if i == lo || is_whitespace(v[i - 1]) {
                proof {
                    assert(v@.subrange(i as int, i + 1) =~= seq![v@[i as int]]);
                    assert(range_views(v@, rs@.push((i, (i + 1) as usize))) =~= range_views(v@, rs@).push(
                        seq![v@[i as int]],
                    ));
                }
                rs.push((i, i + 1));
            } else {
                proof {
                    let p = v@.subrange(lo as int, i as int);
                    assert(p.last() == v@[i - 1]);
                    lemma_words_nonempty_when_continuing(p);
                }
                let last = rs.len() - 1;
                let (a, _b) = rs[last];
                let ghost w = range_views(v@, rs@);
                rs.set(last, (a, i + 1));
                proof {
                    assert(v@.subrange(a as int, i + 1) =~= v@.subrange(a as int, i as int).push(v@[i as int]));
                    assert(range_views(v@, rs@) =~= w.update(w.len() - 1, w.last().push(v@[i as int])));
                }
            }
        }
        i += 1;
    }
    rs
}

/// `s.split_whitespace().collect::<Vec<_>>().join(" ")`.
pub fn normalize_whitespace(s: &str) -> (r: String)
    ensures
        r@ == join(words(s@), seq![' ']),
{
    let v = chars_of(s);
    let rs = word_ranges(&v, 0, v.len());
    proof {
        assert(v@.subrange(0, v@.len() as int) =~= v@);
    }
    let ghost ws = range_views(v@, rs@);
    let mut r = String::new();
    let mut k: usize = 0;
    proof {
        assert(ws.take(0) =~= Seq::<Seq<char>>::empty());
    }
    while k < rs.len()
        invariant
            k <= rs@.len(),
            ws == range_views(v@, rs@),
            forall|j: int| 0 <= j < rs@.len() ==> (#[trigger] rs@[j]).0 <= rs@[j].1 <= v@.len(),
            r@ == join(ws.take(k as int), seq![' ']),
        decreases rs@.len() - k,
    {
        proof {
            assert(ws.take(k + 1).drop_last() =~= ws.take(k as int));
            assert(ws.take(k + 1).last() == v@.subrange(rs@[k as int].0 as int, rs@[k as int].1 as int));
        }
        if k > 0 {
            push_char(&mut r, ' ');
        }
        let (a, b) = rs[k];
        push_range(&mut r, &v, a, b);
        proof {
            if k == 0 {
                assert(r@ =~= join(ws.take(1), seq![' ']));
            } else {
                assert(r@ =~= join(ws.take(k as int), seq![' ']) + seq![' '] + ws[k as int]);
            }
        }
        k += 1;
    }
    proof {
        assert(ws.take(rs@.len() as int) =~= ws);
    }
    r
}

/// `s` left-padded with zeros to `width` characters.
pub open spec fn zero_pad(s: Seq<char>, width: int) -> Seq<char> {
    if s.len() < width {
        Seq::new((width - s.len()) as nat, |i: int| '0') + s
    } else {
        s
    }
}

/// Appends `format!("{n:0width$}")`.
pub fn push_zero_padded(out: &mut String, n: u64, width: usize)
    ensures
        final(out)@ == old(out)@ + zero_pad(decimal(n as nat), width as int),
{
    let mut digits = String::new();
    push_decimal(&mut digits, n);
    let dv = chars_of(digits.as_str());
    proof {
        assert(digits@ =~= Seq::<char>::empty() + decimal(n as nat));
    }
    let ghost before = out@;
    let mut k: usize = dv.len();
    while k < width
        invariant
            dv.len() <= k <= width || (width < dv.len() && k == dv.len()),
            out@ == before + Seq::new((k - dv.len()) as nat, |i: int| '0'),
        decreases width - k,
    {
        proof {
            assert(Seq::new((k + 1 - dv.len()) as nat, |i: int| '0') =~= Seq::new(
                (k - dv.len()) as nat,
                |i: int| '0',
            ).push('0'));
        }
        push_char(out, '0');
        k += 1;
    }
    push_str(out, digits.as_str());
    proof {
        if dv.len() >= width {
            assert(Seq::new(0, |i: int| '0') =~= Seq::<char>::empty());
        }
        assert(out@ =~= before + zero_pad(decimal(n as nat), width as int));
    }
}

// ---------------------------------------------------------------------------
// Decimal parsing (`str::parse` of integers).
// ---------------------------------------------------------------------------

/// Value of an ASCII digit.
pub open spec fn digit_value(c: char) -> nat {
    ((c as u32) - 48) as nat
}

/// Every character is an ASCII digit.
pub open spec fn all_digits(s: Seq<char>) -> bool {
    forall|i: int| 0 <= i < s.len() ==> is_digit(#[trigger] s[i])
}

/// The number written by a string of digits.
pub open spec fn digits_value(s: Seq<char>) -> nat
    decreases s.len(),
{
    if s.len() == 0 {
        0
    } else {
        digits_value(s.drop_last()) * 10 + digit_value(s.last())
    }
}

/// `str::parse` of an unsigned integer type whose largest value is `max`:
/// an optional `+`, then one or more digits, the value at most `max`.
pub open spec fn unsigned_of(s: Seq<char>, max: nat) -> Option<nat> {
    let d = if s.len() > 0 && s[0] == '+' {
        s.drop_first()
    } else {
        s
    };
    if d.len() > 0 && all_digits(d) && digits_value(d) <= max {
        Some(digits_value(d))
    } else {
        None
    }
}

/// `str::parse::<i32>`: an optional sign, then one or more digits, the
/// value within `i32`.
pub open spec fn i32_of(s: Seq<char>) -> Option<int> {
    if s.len() > 0 && s[0] == '-' {
        let d = s.drop_first();
        if d.len() > 0 && all_digits(d) && digits_value(d) <= 2147483648 {
            Some(-(digits_value(d) as int))
        } else {
            None
        }
    } else {
        match unsigned_of(s, 2147483647) {
            Some(v) => Some(v as int),
            None => None,
        }
    }
}

proof fn lemma_digits_prefix(s: Seq<char>, i: int)
    requires
        0 <= i <= s.len(),
    ensures
        digits_value(s.take(i)) <= digits_value(s),
    decreases s.len() - i,
{
    if i < s.len() {
        assert(s.drop_last().take(i) =~= s.take(i));
        lemma_digits_prefix(s.drop_last(), i);
    } else {
        assert(s.take(i) =~= s);
    }
}

/// Value of the digits `v[lo..hi]` when they are all digits and the value
/// is at most `max`.
fn digits_at_most(v: &Vec<char>, lo: usize, hi: usize, max: u64) -> (r: Option<u64>)
    requires
        lo <= hi <= v@.len(),
    ensures
        ({
            let d = v@.subrange(lo as int, hi as int);
            match r {
                Some(x) => all_digits(d) && digits_value(d) <= max && x == digits_value(d),
                None => !all_digits(d) || digits_value(d) > max,
            }
        }),
{
    let ghost d = v@.subrange(lo as int, hi as int);
    let mut acc: u64 = 0;
    let mut i = lo;
    while i < hi
        invariant
            lo <= i <= hi <= v@.len(),
            d == v@.subrange(lo as int, hi as int),
            all_digits(d.take(i - lo)),
            acc == digits_value(d.take(i - lo)),
            acc <= max,
        decreases hi - i,
    {
        proof {
            assert(d.take(i + 1 - lo).drop_last() =~= d.take(i - lo));
            assert(d.take(i + 1 - lo).last() == v@[i as int]);
        }
        let c = v[i];
        if !is_digit_exec(c) {
            proof {
                assert(d[i - lo] == c);
            }
            return None;
        }
        let dv = (c as u32 - 48) as u64;
        if dv > max || acc > (max - dv) / 10 {
            proof {
                assert(digits_value(d.take(i + 1 - lo)) == acc * 10 + dv);
                if dv <= max {
                    assert(acc * 10 + dv > max) by (nonlinear_arith)
                        requires
                            acc > (max - dv) / 10,
                            dv <= max,
                    ;
                }
                lemma_digits_prefix(d, i + 1 - lo);
            }
            return None;
        }
        acc = acc * 10 + dv;
        proof {
            assert forall|j: int| 0 <= j < i + 1 - lo implies is_digit(#[trigger] d.take(i + 1 - lo)[j]) by {
                if j < i - lo {
                    assert(d.take(i + 1 - lo)[j] == d.take(i - lo)[j]);
                }
            }
        }
        i += 1;
    }
    proof {
        assert(d.take(hi - lo) =~= d);
    }
    Some(acc)
}

/// `true` for an ASCII digit.
pub fn is_digit_exec(c: char) -> (b: bool)
    ensures
        b == is_digit(c),
{
    '0' <= c && c <= '9'
}

/// `str::parse` of an unsigned integer no larger than `max`.
pub fn parse_unsigned(s: &str, max: u64) -> (r: Option<u64>)
    ensures
        match r {
            Some(x) => unsigned_of(s@, max as nat) == Some(x as nat),
            None => unsigned_of(s@, max as nat) is None,
        },
{
    let v = chars_of(s);
    let lo: usize = if v.len() > 0 && v[0] == '+' {
        1
    } else {
        0
    };
    proof {
        if lo == 1 {
            assert(v@.subrange(1, v@.len() as int) =~= v@.drop_first());
        } else {
            assert(v@.subrange(0, v@.len() as int) =~= v@);
        }
    }
    if lo == v.len() {
        return None;
    }
    digits_at_most(&v, lo, v.len(), max)
}

/// `str::parse::<i32>`.
pub fn parse_i32(s: &str) -> (r: Option<i32>)
    ensures
        match r {
            Some(x) => i32_of(s@) == Some(x as int),
            None => i32_of(s@) is None,
        },
{
    let v = chars_of(s);
    if v.len() > 0 && v[0] == '-' {
        proof {
            assert(v@.subrange(1, v@.len() as int) =~= v@.drop_first());
        }
        if v.len() == 1 {
            return None;
        }
        match digits_at_most(&v, 1, v.len(), 2147483648) {
            Some(x) => {
                let r: i64 = 0 - (x as i64);
                Some(r as i32)
            },
            None => None,
        }
    } else {
        match parse_unsigned(s, 2147483647) {
            Some(x) => Some(x as i32),
            None => None,
        }
    }
}

proof fn lemma_trim_start_by_suffix(s: Seq<char>, nl: bool)
    ensures
        byte_len(trim_start_by(s, nl)) <= byte_len(s),
    decreases s.len(),
{
    if s.len() > 0 && strip_pred(nl, s[0]) {
        lemma_trim_start_by_suffix(s.drop_first(), nl);
        lemma_byte_len_prefix(s, 1);
        assert(s.skip(1) =~= s.drop_first());
    }
}

proof fn lemma_trim_end_by_prefix(s: Seq<char>, nl: bool)
    ensures
        byte_len(trim_end_by(s, nl)) <= byte_len(s),
    decreases s.len(),
{
    if s.len() > 0 && strip_pred(nl, s.last()) {
        lemma_trim_end_by_prefix(s.drop_last(), nl);
        lemma_byte_len_prefix(s, s.len() - 1);
        assert(s.take(s.len() - 1) =~= s.drop_last());
    }
}

/// Trimming never makes text longer.
pub proof fn lemma_trim_byte_len(s: Seq<char>)
    ensures
        byte_len(trim(s)) <= byte_len(s),
        byte_len(trim_start(s)) <= byte_len(s),
        byte_len(trim_newlines(s)) <= byte_len(s),
{
    lemma_trim_start_by_suffix(s, false);
    lemma_trim_end_by_prefix(trim_start_by(s, false), false);
    lemma_trim_start_by_suffix(s, true);
    lemma_trim_end_by_prefix(trim_start_by(s, true), true);
}

} // verus!
