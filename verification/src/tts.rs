//! Text preparation for speech synthesis: section parsing, sentence
//! splitting, chunking and SSML generation.
use vstd::prelude::*;
use base64::Engine;
use crate::text::{join, find, occurs_at, split_on, byte_len, char_width, is_digit, lemma_byte_len_bounds, lemma_byte_len_prefix, lemma_byte_len_push, opt_int, chars_of, is_ws, push_char, push_str, string_of, trim, trim_end, trim_start};

verus! {

broadcast use vstd::seq_lib::group_seq_properties;

/// Budget in bytes for the SSML payload of one synthesis request.
pub const MAX_CHUNK_CHARS: usize = 3600;

/// Longest sentence, in bytes, that the synthesis service accepts.
pub const MAX_SENTENCE_CHARS: usize = 900;

// ---------------------------------------------------------------------------
// XML escaping.
// ---------------------------------------------------------------------------

/// The escaped form of one character.
pub open spec fn xml_escape_char(c: char) -> Seq<char> {
    if c == '&' {
        seq!['&', 'a', 'm', 'p', ';']
    } else if c == '<' {
        seq!['&', 'l', 't', ';']
    } else if c == '>' {
        seq!['&', 'g', 't', ';']
    } else if c == '"' {
        seq!['&', 'q', 'u', 'o', 't', ';']
    } else if c == '\'' {
        seq!['&', 'a', 'p', 'o', 's', ';']
    } else {
        seq![c]
    }
}

/// `s` with the five XML-special characters replaced by entities.
pub open spec fn xml_escape_spec(s: Seq<char>) -> Seq<char> {
    s.map_values(|c: char| xml_escape_char(c)).flatten()
}

fn push_escaped(out: &mut String, c: char)
    ensures
        final(out)@ == old(out)@ + xml_escape_char(c),
{
    if c == '&' {
        push_char(out, '&');
        push_char(out, 'a');
        push_char(out, 'm');
        push_char(out, 'p');
        push_char(out, ';');
    } else if c == '<' {
        push_char(out, '&');
        push_char(out, 'l');
        push_char(out, 't');
        push_char(out, ';');
    } else if c == '>' {
        push_char(out, '&');
        push_char(out, 'g');
        push_char(out, 't');
        push_char(out, ';');
    } else if c == '"' {
        push_char(out, '&');
        push_char(out, 'q');
        push_char(out, 'u');
        push_char(out, 'o');
        push_char(out, 't');
        push_char(out, ';');
    } else if c == '\'' {
        push_char(out, '&');
        push_char(out, 'a');
        push_char(out, 'p');
        push_char(out, 'o');
        push_char(out, 's');
        push_char(out, ';');
    } else {
        push_char(out, c);
    }
    proof {
        assert(old(out)@ + xml_escape_char(c) =~= out@);
    }
}

/// Appends the escaped form of `v[lo..hi]` to `out`.
pub fn push_xml_escaped(out: &mut String, v: &Vec<char>, lo: usize, hi: usize)
    requires
        lo <= hi <= v@.len(),
    ensures
        final(out)@ == old(out)@ + xml_escape_spec(v@.subrange(lo as int, hi as int)),
{
    let mut i = lo;
    while i < hi
        invariant
            lo <= i <= hi <= v@.len(),
            out@ == old(out)@ + xml_escape_spec(v@.subrange(lo as int, i as int)),
        decreases hi - i,
    {
        proof {
            let a = v@.subrange(lo as int, i as int);
            assert(v@.subrange(lo as int, i + 1) =~= a.push(v@[i as int]));
            crate::text::lemma_flat_map_push(a, v@[i as int], |c: char| xml_escape_char(c));
        }
        push_escaped(out, v[i]);
        i += 1;
    }
}

/// Escapes `&`, `<`, `>`, `"` and `'` for inclusion in XML text or
/// attribute values.
pub fn xml_escape(s: &str) -> (r: String)
    ensures
        r@ == xml_escape_spec(s@),
{
    let v = chars_of(s);
    let mut out = String::new();
    push_xml_escaped(&mut out, &v, 0, v.len());
    proof {
        assert(v@.subrange(0, v@.len() as int) =~= s@);
    }
    out
}

// ---------------------------------------------------------------------------
// Abbreviations.
// ---------------------------------------------------------------------------

/// Whether `c` has the Unicode `Alphabetic` property (`char::is_alphabetic`).
pub uninterp spec fn alphabetic(c: char) -> bool;

/// The lowercase mapping of `c` (`char::to_lowercase`), one or more chars.
pub uninterp spec fn lowercase_mapping(c: char) -> Seq<char>;

/// `char::is_alphabetic`; the contract names its result `alphabetic(c)`
/// and states the ASCII case: among ASCII characters exactly the letters
/// have Unicode's `Alphabetic` property.
#[verifier::external_body]
fn char_is_alphabetic(c: char) -> (b: bool)
    ensures
        b == alphabetic(c),
        (c as u32) < 128 ==> (b <==> (('A' <= c && c <= 'Z') || ('a' <= c && c <= 'z'))),
{
    c.is_alphabetic()
}

/// `char::to_lowercase`, collected; the contract names its result
/// `lowercase_mapping(c)` and states the ASCII case: an ASCII character
/// maps to itself, an uppercase letter to its lowercase one.
#[verifier::external_body]
fn char_to_lowercase(c: char) -> (r: Vec<char>)
    ensures
        r@ == lowercase_mapping(c),
        (c as u32) < 128 ==> r@ == seq![crate::text::ascii_lower(c)],
{
    c.to_lowercase().collect()
}

/// Lowercase form of a word.
pub open spec fn lowercase(w: Seq<char>) -> Seq<char> {
    w.map_values(|c: char| lowercase_mapping(c)).flatten()
}

/// The longest suffix of `s` made of alphabetic characters.
pub open spec fn trailing_alpha(s: Seq<char>) -> Seq<char>
    decreases s.len(),
{
    if s.len() > 0 && alphabetic(s.last()) {
        trailing_alpha(s.drop_last()).push(s.last())
    } else {
        seq![]
    }
}

/// Titles and other short words after which a period does not end a sentence.
pub open spec fn is_abbreviation(w: Seq<char>) -> bool {
    ||| w == "mr"@
    ||| w == "mrs"@
    ||| w == "ms"@
    ||| w == "dr"@
    ||| w == "prof"@
    ||| w == "sr"@
    ||| w == "jr"@
    ||| w == "st"@
    ||| w == "rev"@
    ||| w == "hon"@
    ||| w == "gen"@
    ||| w == "etc"@
    ||| w == "vs"@
    ||| w == "cf"@
    ||| w == "approx"@
    ||| w == "inc"@
    ||| w == "ltd"@
    ||| w == "corp"@
    ||| w == "co"@
}

/// `cur` ends with a period that follows a known abbreviation or a single
/// letter (`U.S.`, `e.g.`, `a.m.`).
pub open spec fn abbrev_period(cur: Seq<char>) -> bool {
    cur.len() > 0 && cur.last() == '.' && {
        let w = trailing_alpha(cur.drop_last());
        w.len() > 0 && (w.len() == 1 || is_abbreviation(lowercase(w)))
    }
}

fn eq_str(w: &Vec<char>, s: &str) -> (b: bool)
    ensures
        b == (w@ == s@),
{
    let t = chars_of(s);
    if w.len() != t.len() {
        return false;
    }
    let mut i: usize = 0;
    while i < w.len()
        invariant
            w@.len() == t@.len(),
            t@ == s@,
            i <= w@.len(),
            forall|k: int| 0 <= k < i ==> w@[k] == t@[k],
        decreases w@.len() - i,
    {
        if w[i] != t[i] {
            return false;
        }
        i += 1;
    }
    proof {
        assert(w@ =~= t@);
    }
    true
}

fn is_abbreviation_exec(w: &Vec<char>) -> (b: bool)
    ensures
        b == is_abbreviation(w@),
{
    eq_str(w, "mr") || eq_str(w, "mrs") || eq_str(w, "ms") || eq_str(w, "dr") || eq_str(w, "prof")
        || eq_str(w, "sr") || eq_str(w, "jr") || eq_str(w, "st") || eq_str(w, "rev") || eq_str(
        w,
        "hon",
    ) || eq_str(w, "gen") || eq_str(w, "etc") || eq_str(w, "vs") || eq_str(w, "cf") || eq_str(
        w,
        "approx",
    ) || eq_str(w, "inc") || eq_str(w, "ltd") || eq_str(w, "corp") || eq_str(w, "co")
}

proof fn lemma_trailing_alpha_start(s: Seq<char>, k: int)
    requires
        0 <= k <= s.len(),
        forall|j: int| k <= j < s.len() ==> alphabetic(#[trigger] s[j]),
        k == 0 || !alphabetic(s[k - 1]),
    ensures
        trailing_alpha(s) == s.skip(k),
    decreases s.len() - k,
{
    if k == s.len() {
        assert(s.skip(k) =~= Seq::<char>::empty());
    } else {
        assert forall|j: int| k <= j < s.len() - 1 implies alphabetic(#[trigger] s.drop_last()[j]) by {
            assert(s.drop_last()[j] == s[j]);
        }
        lemma_trailing_alpha_start(s.drop_last(), k);
        assert(s.drop_last().skip(k).push(s.last()) =~= s.skip(k));
    }
}

/// The titles and abbreviations after which a period does not end a
/// sentence, in lower case.
pub open spec fn known_abbreviations() -> Seq<Seq<char>> {
    seq![
        "mr"@, "mrs"@, "ms"@, "dr"@, "prof"@, "sr"@, "jr"@, "st"@, "rev"@, "hon"@, "gen"@,
        "etc"@, "vs"@, "cf"@, "approx"@, "inc"@, "ltd"@, "corp"@, "co"@,
    ]
}

/// Every known title and abbreviation (`mr`, `mrs`, `ms`, `dr`, `prof`,
/// `sr`, `jr`, `st`, `rev`, `hon`, `gen`, `etc`, `vs`, `cf`, `approx`,
/// `inc`, `ltd`, `corp`, `co`) is recognised as one.
pub proof fn lemma_known_abbreviations()
    ensures
        known_abbreviations().len() == 19,
        forall|k: int| 0 <= k < known_abbreviations().len() ==> is_abbreviation(#[trigger] known_abbreviations()[k]),
{
    let ks = known_abbreviations();
    assert(is_abbreviation(ks[0]) && is_abbreviation(ks[1]) && is_abbreviation(ks[2]) && is_abbreviation(ks[3]));
    assert(is_abbreviation(ks[4]) && is_abbreviation(ks[5]) && is_abbreviation(ks[6]) && is_abbreviation(ks[7]));
    assert(is_abbreviation(ks[8]) && is_abbreviation(ks[9]) && is_abbreviation(ks[10]) && is_abbreviation(ks[11]));
    assert(is_abbreviation(ks[12]) && is_abbreviation(ks[13]) && is_abbreviation(ks[14]) && is_abbreviation(ks[15]));
    assert(is_abbreviation(ks[16]) && is_abbreviation(ks[17]) && is_abbreviation(ks[18]));
}

/// A period right after a whole word that is a known title or
/// abbreviation (in any letter case), or after a single letter, does not
/// end the sentence it is in: "Mr. Smith went home." is one sentence.
pub proof fn lemma_abbreviation_period_continues(t: Seq<char>, start: int, a: int, i: int)
    requires
        0 <= start <= a < i < t.len(),
        t[i] == '.',
        a == start || !alphabetic(t[a - 1]),
        forall|j: int| a <= j < i ==> alphabetic(#[trigger] t[j]),
        i - a == 1 || exists|k: int|
            0 <= k < known_abbreviations().len() && lowercase(t.subrange(a, i))
                == #[trigger] known_abbreviations()[k],
    ensures
        !is_cut(t, start, i, true),
{
    lemma_known_abbreviations();
    let s = t.subrange(start, i);
    assert forall|j: int| a - start <= j < s.len() implies alphabetic(#[trigger] s[j]) by {
        assert(s[j] == t[start + j]);
    }
    if a > start {
        assert(s[a - start - 1] == t[a - 1]);
    }
    lemma_trailing_alpha_start(s, a - start);
    assert(s.skip(a - start) =~= t.subrange(a, i));
    let cur = t.subrange(start, i + 1);
    assert(cur.drop_last() =~= s);
    assert(cur.last() == t[i]);
    assert(abbrev_period(cur));
}

/// Where a sentence ends, for a sentence that started at `start` and the
/// character at `i` after it: `!` and `?` always end it; a period between
/// two ASCII digits never does; a period after a whole word of two or more
/// letters that is not a known abbreviation does. Without the number and
/// abbreviation rules, every `.`, `!` and `?` ends it.
pub proof fn lemma_sentence_ends(t: Seq<char>, start: int, a: int, i: int)
    requires
        0 <= start <= a <= i < t.len(),
        start < i,
    ensures
        (t[i] == '!' || t[i] == '?') ==> is_cut(t, start, i, true) && is_cut(t, start, i, false),
        t[i] == '.' ==> is_cut(t, start, i, false),
        t[i] == '.' && '0' <= t[i - 1] <= '9' && i + 1 < t.len() && '0' <= t[i + 1] <= '9' ==> !is_cut(t, start, i, true),
        t[i] == '.' && (a == start || !alphabetic(t[a - 1])) && (forall|j: int| a <= j < i ==> alphabetic(#[trigger] t[j]))
            && i - a >= 2 && !(exists|k: int| 0 <= k < known_abbreviations().len() && lowercase(t.subrange(a, i))
            == #[trigger] known_abbreviations()[k]) && !('0' <= t[i - 1] <= '9' && i + 1 < t.len() && '0' <= t[i + 1]
            <= '9') ==> is_cut(t, start, i, true),
{
    if t[i] == '.' && (a == start || !alphabetic(t[a - 1])) && (forall|j: int| a <= j < i ==> alphabetic(#[trigger] t[j]))
        && i - a >= 2 {
        let s = t.subrange(start, i);
        assert forall|j: int| a - start <= j < s.len() implies alphabetic(#[trigger] s[j]) by {
            assert(s[j] == t[start + j]);
        }
        if a > start {
            assert(s[a - start - 1] == t[a - 1]);
        }
        lemma_trailing_alpha_start(s, a - start);
        assert(s.skip(a - start) =~= t.subrange(a, i));
        let cur = t.subrange(start, i + 1);
        assert(cur.drop_last() =~= s);
        assert(cur.last() == t[i]);
        let w = lowercase(t.subrange(a, i));
        let ks = known_abbreviations();
        if is_abbreviation(w) {
            if w == "mr"@ { assert(w == ks[0]); }
            if w == "mrs"@ { assert(w == ks[1]); }
            if w == "ms"@ { assert(w == ks[2]); }
            if w == "dr"@ { assert(w == ks[3]); }
            if w == "prof"@ { assert(w == ks[4]); }
            if w == "sr"@ { assert(w == ks[5]); }
            if w == "jr"@ { assert(w == ks[6]); }
            if w == "st"@ { assert(w == ks[7]); }
            if w == "rev"@ { assert(w == ks[8]); }
            if w == "hon"@ { assert(w == ks[9]); }
            if w == "gen"@ { assert(w == ks[10]); }
            if w == "etc"@ { assert(w == ks[11]); }
            if w == "vs"@ { assert(w == ks[12]); }
            if w == "cf"@ { assert(w == ks[13]); }
            if w == "approx"@ { assert(w == ks[14]); }
            if w == "inc"@ { assert(w == ks[15]); }
            if w == "ltd"@ { assert(w == ks[16]); }
            if w == "corp"@ { assert(w == ks[17]); }
            if w == "co"@ { assert(w == ks[18]); }
        }
    }
}

/// `abbrev_period(v[lo..hi])`.
fn abbrev_period_exec(v: &Vec<char>, lo: usize, hi: usize) -> (b: bool)
    requires
        lo <= hi <= v@.len(),
    ensures
        b == abbrev_period(v@.subrange(lo as int, hi as int)),
{
    let ghost cur = v@.subrange(lo as int, hi as int);
    if hi == lo || v[hi - 1] != '.' {
        return false;
    }
    let body_end = hi - 1;
    let mut k = body_end;
    while k > lo && char_is_alphabetic(v[k - 1])
        invariant
            lo <= k <= body_end < hi <= v@.len(),
            forall|j: int| k <= j < body_end ==> alphabetic(#[trigger] v@[j]),
        decreases k - lo,
    {
        k -= 1;
    }
    let ghost body = cur.drop_last();
    proof {
        assert(body =~= v@.subrange(lo as int, body_end as int));
        assert forall|j: int| k - lo <= j < body.len() implies alphabetic(#[trigger] body[j]) by {
            assert(body[j] == v@[lo + j]);
        }
        if k > lo {
            assert(body[k - lo - 1] == v@[k - 1]);
        }
        lemma_trailing_alpha_start(body, k - lo);
        assert(body.skip(k - lo) =~= v@.subrange(k as int, body_end as int));
    }
    if k == body_end {
        return false;
    }
    if body_end - k == 1 {
        return true;
    }
    let mut lower: Vec<char> = Vec::new();
    let mut j = k;
    while j < body_end
        invariant
            k <= j <= body_end < v@.len(),
            lower@ == lowercase(v@.subrange(k as int, j as int)),
        decreases body_end - j,
    {
        let m = char_to_lowercase(v[j]);
        let mut t: usize = 0;
        let ghost before = lower@;
        while t < m.len()
            invariant
                t <= m@.len(),
                lower@ == before + m@.take(t as int),
            decreases m@.len() - t,
        {
            lower.push(m[t]);
            t += 1;
        }
        proof {
            let a = v@.subrange(k as int, j as int);
            assert(v@.subrange(k as int, j + 1) =~= a.push(v@[j as int]));
            crate::text::lemma_flat_map_push(a, v@[j as int], |c: char| lowercase_mapping(c));
            assert(m@.take(m@.len() as int) =~= m@);
        }
        j += 1;
    }
    is_abbreviation_exec(&lower)
}

/// True if `current` ends with `.` after a known abbreviation or a single
/// letter (`U.S.`, `e.g.`, `i.e.`, `a.m.`).
pub fn is_abbreviation_period(current: &str) -> (b: bool)
    ensures
        b == abbrev_period(current@),
{
    let v = chars_of(current);
    proof {
        assert(v@.subrange(0, v@.len() as int) =~= v@);
    }
    abbrev_period_exec(&v, 0, v.len())
}


// ---------------------------------------------------------------------------
// Sentence boundaries.
// ---------------------------------------------------------------------------

/// Sentence-ending punctuation.
pub open spec fn is_terminator(c: char) -> bool {
    c == '.' || c == '!' || c == '?'
}

/// The period at `i` sits between two digits ("3.5", "1.2.3").
pub open spec fn decimal_point(t: Seq<char>, i: int) -> bool {
    &&& t[i] == '.'
    &&& i > 0
    &&& is_digit(t[i - 1])
    &&& i + 1 < t.len()
    &&& is_digit(t[i + 1])
}

/// The sentence that started at `start` ends at `i`. With `smart`, periods
/// inside numbers and after abbreviations do not end a sentence.
pub open spec fn is_cut(t: Seq<char>, start: int, i: int, smart: bool) -> bool {
    &&& 0 <= start < i < t.len()
    &&& is_terminator(t[i])
    &&& smart ==> !(t[i] == '.' && (decimal_point(t, i) || abbrev_period(t.subrange(start, i + 1))))
}

/// First end, at index `>= i`, of the sentence that started at `start`.
pub open spec fn next_cut(t: Seq<char>, start: int, i: int, smart: bool) -> Option<int>
    decreases t.len() - i,
{
    if i < 0 || i >= t.len() {
        None
    } else if is_cut(t, start, i, smart) {
        Some(i)
    } else {
        next_cut(t, start, i + 1, smart)
    }
}

/// The sentences of `t[start..]`: each one runs up to and including its first
/// end; a final piece without an end is kept as is.
pub open spec fn raw_sentences(t: Seq<char>, start: int, smart: bool) -> Seq<Seq<char>>
    decreases t.len() - start,
{
    if start < 0 || start >= t.len() {
        seq![]
    } else {
        match next_cut(t, start, start, smart) {
            Some(e) => if start <= e < t.len() {
                seq![t.subrange(start, e + 1)] + raw_sentences(t, e + 1, smart)
            } else {
                seq![]
            },
            None => seq![t.subrange(start, t.len() as int)],
        }
    }
}

proof fn lemma_next_cut_bounds(t: Seq<char>, start: int, i: int, smart: bool)
    ensures
        next_cut(t, start, i, smart) matches Some(e) ==> i <= e < t.len() && start < e,
    decreases t.len() - i,
{
    if i < 0 || i >= t.len() {
    } else if is_cut(t, start, i, smart) {
    } else {
        lemma_next_cut_bounds(t, start, i + 1, smart);
    }
}

fn is_terminator_exec(c: char) -> (b: bool)
    ensures
        b == is_terminator(c),
{
    c == '.' || c == '!' || c == '?'
}

fn is_digit_exec(c: char) -> (b: bool)
    ensures
        b == is_digit(c),
{
    '0' <= c && c <= '9'
}

fn is_cut_exec(t: &Vec<char>, start: usize, i: usize, smart: bool) -> (b: bool)
    requires
        start <= i < t@.len(),
    ensures
        b == is_cut(t@, start as int, i as int, smart),
{
    let n = t.len();
    if !(start < i && is_terminator_exec(t[i])) {
        return false;
    }
    if !smart || t[i] != '.' {
        return true;
    }
    let dec = i > 0 && is_digit_exec(t[i - 1]) && i + 1 < n && is_digit_exec(t[i + 1]);
    if dec {
        return false;
    }
    !abbrev_period_exec(t, start, i + 1)
}

/// Ranges of `raw_sentences(t, 0, smart)`.
#[verifier::rlimit(40)]
pub(crate) fn sentence_ranges(t: &Vec<char>, smart: bool) -> (rs: Vec<(usize, usize)>)
    ensures
        crate::text::range_views(t@, rs@) == raw_sentences(t@, 0, smart),
        forall|k: int| 0 <= k < rs@.len() ==> (#[trigger] rs@[k]).0 < rs@[k].1 <= t@.len(),
{
    let mut rs: Vec<(usize, usize)> = Vec::new();
    let mut start: usize = 0;
    let mut i: usize = 0;
    while i < t.len()
        invariant
            start <= i <= t@.len(),
            crate::text::range_views(t@, rs@) + raw_sentences(t@, start as int, smart)
                == raw_sentences(t@, 0, smart),
            next_cut(t@, start as int, start as int, smart) == next_cut(
                t@,
                start as int,
                i as int,
                smart,
            ),
            forall|k: int| 0 <= k < rs@.len() ==> (#[trigger] rs@[k]).0 < rs@[k].1 <= t@.len(),
        decreases t@.len() - i,
    {
        if is_cut_exec(t, start, i, smart) {
            proof {
                lemma_next_cut_bounds(t@, start as int, start as int, smart);
                assert(raw_sentences(t@, start as int, smart) == seq![t@.subrange(start as int, i + 1)]
                    + raw_sentences(t@, i + 1, smart));
                assert(crate::text::range_views(t@, rs@.push((start, (i + 1) as usize)))
                    =~= crate::text::range_views(t@, rs@).push(
                    t@.subrange(start as int, i + 1),
                ));
            }
            rs.push((start, i + 1));
            start = i + 1;
        } else {
            assert(next_cut(t@, start as int, i as int, smart) == next_cut(t@, start as int, i + 1, smart));
        }
        i += 1;
    }
    if start < t.len() {
        proof {
            assert(crate::text::range_views(t@, rs@.push((start, t@.len() as usize)))
                =~= crate::text::range_views(t@, rs@).push(t@.subrange(start as int, t@.len() as int)));
        }
        rs.push((start, t.len()));
    }
    rs
}

/// The plain sentence splitter: a sentence ends at every `.`, `!` or `?`
/// that is not the first character of the sentence.
pub open spec fn plain_sentences(t: Seq<char>) -> Seq<Seq<char>> {
    raw_sentences(t, 0, false)
}

/// Strings for the pieces of `v` named by `rs`.
pub(crate) fn strings_of_ranges(v: &Vec<char>, rs: &Vec<(usize, usize)>) -> (out: Vec<String>)
    requires
        forall|k: int| 0 <= k < rs@.len() ==> (#[trigger] rs@[k]).0 <= rs@[k].1 <= v@.len(),
    ensures
        crate::text::str_views(out@) == crate::text::range_views(v@, rs@),
{
    let mut out: Vec<String> = Vec::new();
    let mut k: usize = 0;
    while k < rs.len()
        invariant
            k <= rs@.len(),
            forall|j: int| 0 <= j < rs@.len() ==> (#[trigger] rs@[j]).0 <= rs@[j].1 <= v@.len(),
            crate::text::str_views(out@) == crate::text::range_views(v@, rs@.take(k as int)),
        decreases rs@.len() - k,
    {
        let (a, b) = rs[k];
        let piece = string_of(v, a, b);
        proof {
            assert(rs@.take(k + 1) =~= rs@.take(k as int).push(rs@[k as int]));
            assert(crate::text::str_views(out@.push(piece)) =~= crate::text::str_views(out@).push(
                piece@,
            ));
        }
        out.push(piece);
        k += 1;
    }
    proof {
        assert(rs@.take(rs@.len() as int) =~= rs@);
    }
    out
}


// ---------------------------------------------------------------------------
// Word boundaries and long-sentence splitting.
// ---------------------------------------------------------------------------

/// Length of the longest prefix of `s` whose UTF-8 encoding fits in `max`
/// bytes.
pub open spec fn prefix_within(s: Seq<char>, max: int) -> int
    decreases s.len(),
{
    if byte_len(s) <= max || s.len() == 0 {
        s.len() as int
    } else {
        prefix_within(s.drop_last(), max)
    }
}

/// Index of the last whitespace character among `s[..p]`.
pub open spec fn last_ws_before(s: Seq<char>, p: int) -> Option<int>
    decreases p,
{
    if p <= 0 {
        None
    } else if is_ws(s[p - 1]) {
        Some(p - 1)
    } else {
        last_ws_before(s, p - 1)
    }
}

/// The number of leading characters of `s` whose byte offset is at most
/// `max`: those within the first `max` bytes, and the character that
/// starts right after them.
pub open spec fn ws_window(s: Seq<char>, max: int) -> int {
    let p = prefix_within(s, max);
    if p < s.len() {
        p + 1
    } else {
        p
    }
}

/// The (character) position of the last whitespace whose byte offset is
/// at most `max`.
pub open spec fn word_boundary(s: Seq<char>, max: int) -> Option<int> {
    last_ws_before(s, ws_window(s, max))
}

/// The (character) position of the last whitespace lying wholly within
/// the first `max` bytes: where the sentence splitter cuts, so that the
/// piece before the cut, with its closing ". ", stays within `max` bytes.
pub open spec fn fit_boundary(s: Seq<char>, max: int) -> Option<int> {
    last_ws_before(s, prefix_within(s, max))
}

proof fn lemma_prefix_within(s: Seq<char>, max: int, p: int)
    requires
        0 <= p <= s.len(),
        max >= 0,
        byte_len(s.take(p)) <= max,
        p == s.len() || byte_len(s.take(p + 1)) > max,
    ensures
        prefix_within(s, max) == p,
    decreases s.len() - p,
{
    if p == s.len() {
        assert(s.take(p) =~= s);
    } else {
        lemma_byte_len_prefix(s, p + 1);
        assert(s.take(p + 1) =~= s.drop_last().take(p + 1) || p + 1 == s.len());
        if p + 1 == s.len() {
            assert(s.take(p + 1) =~= s);
        }
        assert(s.drop_last().take(p) =~= s.take(p));
        if p < s.len() - 1 {
            assert(s.drop_last().take(p + 1) =~= s.take(p + 1));
        }
        lemma_prefix_within(s.drop_last(), max, p);
    }
}

proof fn lemma_last_ws_before(s: Seq<char>, p: int, k: int)
    requires
        0 <= k <= p <= s.len(),
        forall|j: int| k <= j < p ==> !is_ws(#[trigger] s[j]),
    ensures
        last_ws_before(s, p) == last_ws_before(s, k),
    decreases p - k,
{
    if p > k {
        lemma_last_ws_before(s, p - 1, k);
    }
}

/// `prefix_within(v[lo..hi], max)` and the byte length of that prefix.
pub(crate) fn prefix_within_exec(v: &Vec<char>, lo: usize, hi: usize, max: usize) -> (r: (usize, usize))
    requires
        lo <= hi <= v@.len(),
    ensures
        r.0 == prefix_within(v@.subrange(lo as int, hi as int), max as int),
        r.0 <= hi - lo,
        r.1 == byte_len(v@.subrange(lo as int, hi as int).take(r.0 as int)),
        r.1 <= max,
{
    let ghost w = v@.subrange(lo as int, hi as int);
    let mut p: usize = 0;
    let mut bytes: usize = 0;
    while p < hi - lo && char_width(v[lo + p]) <= max - bytes
        invariant
            lo <= hi <= v@.len(),
            w == v@.subrange(lo as int, hi as int),
            p <= hi - lo,
            bytes == byte_len(w.take(p as int)),
            bytes <= max,
        decreases hi - lo - p,
    {
        proof {
            assert(w.take(p + 1) =~= w.take(p as int).push(w[p as int]));
            lemma_byte_len_push(w.take(p as int), w[p as int]);
        }
        bytes = bytes + char_width(v[lo + p]);
        p += 1;
    }
    proof {
        if p < w.len() {
            assert(w.take(p + 1) =~= w.take(p as int).push(w[p as int]));
            lemma_byte_len_push(w.take(p as int), w[p as int]);
        }
        lemma_prefix_within(w, max as int, p as int);
    }
    (p, bytes)
}

/// `word_boundary(v[lo..hi], max)`, or with `!at_limit`,
/// `fit_boundary(v[lo..hi], max)`.
fn word_boundary_exec(v: &Vec<char>, lo: usize, hi: usize, max: usize, at_limit: bool) -> (r: Option<usize>)
    requires
        lo <= hi <= v@.len(),
    ensures
        at_limit ==> opt_int(r) == word_boundary(v@.subrange(lo as int, hi as int), max as int),
        !at_limit ==> opt_int(r) == fit_boundary(v@.subrange(lo as int, hi as int), max as int),
        r matches Some(k) ==> k < hi - lo,
{
    let ghost w = v@.subrange(lo as int, hi as int);
    let (p0, _bytes) = prefix_within_exec(v, lo, hi, max);
    let p = if at_limit && p0 < hi - lo {
        p0 + 1
    } else {
        p0
    };
    let mut k = p;
    while k > 0 && !crate::text::is_whitespace(v[lo + k - 1])
        invariant
            lo <= hi <= v@.len(),
            w == v@.subrange(lo as int, hi as int),
            k <= p <= hi - lo,
            forall|j: int| k <= j < p ==> !is_ws(#[trigger] w[j]),
        decreases k,
    {
        k -= 1;
    }
    proof {
        lemma_last_ws_before(w, p as int, k as int);
    }
    if k == 0 {
        None
    } else {
        Some(k - 1)
    }
}

/// Returns the (char-count) position of the last whitespace boundary whose
/// byte offset is at most `max_bytes`, or `None` when there is none.
pub fn rfind_word_boundary(s: &str, max_bytes: usize) -> (r: Option<usize>)
    ensures
        opt_int(r) == word_boundary(s@, max_bytes as int),
{
    let v = chars_of(s);
    proof {
        assert(v@.subrange(0, v@.len() as int) =~= v@);
    }
    word_boundary_exec(&v, 0, v.len(), max_bytes, true)
}

/// Characters at which an over-long sentence may be broken.
pub open spec fn is_secondary(c: char) -> bool {
    c == ';' || c == ':' || c == ',' || c == '\n'
}

/// `s` followed by `". "`, turning a fragment into a sentence of its own.
pub open spec fn dot_space(s: Seq<char>) -> Seq<char> {
    s + seq!['.', ' ']
}

/// One step of the long-sentence splitter: the finished pieces and the
/// fragment being accumulated, after reading `ch`.
pub open spec fn long_step(st: (Seq<Seq<char>>, Seq<char>), ch: char) -> (Seq<Seq<char>>, Seq<char>) {
    let (pieces, cur) = st;
    if is_secondary(ch) && byte_len(trim_end(cur)) >= MAX_SENTENCE_CHARS / 2 {
        (pieces.push(dot_space(trim_end(cur))), seq![])
    } else {
        let c2 = cur.push(ch);
        if byte_len(c2) >= MAX_SENTENCE_CHARS {
            match fit_boundary(c2, MAX_SENTENCE_CHARS as int) {
                Some(cut) => (
                    pieces.push(dot_space(trim_end(c2.take(cut)))),
                    trim_start(c2.skip(cut)),
                ),
                None => (pieces, c2),
            }
        } else {
            (pieces, c2)
        }
    }
}

/// State of the long-sentence splitter after reading all of `s`.
pub open spec fn long_state(s: Seq<char>) -> (Seq<Seq<char>>, Seq<char>)
    decreases s.len(),
{
    if s.len() == 0 {
        (seq![], seq![])
    } else {
        long_step(long_state(s.drop_last()), s.last())
    }
}

/// Pieces of an over-long sentence broken at secondary punctuation.
pub open spec fn long_pieces(s: Seq<char>) -> Seq<Seq<char>> {
    let (pieces, cur) = long_state(s);
    if cur.len() > 0 {
        pieces.push(cur)
    } else {
        pieces
    }
}

/// Where a piece that is still too long is cut: the last word boundary, or
/// else after `MAX_SENTENCE_CHARS` characters.
pub open spec fn hard_cut(rem: Seq<char>) -> int {
    match fit_boundary(rem, MAX_SENTENCE_CHARS as int) {
        Some(c) => c,
        None => if rem.len() < MAX_SENTENCE_CHARS {
            rem.len() as int
        } else {
            MAX_SENTENCE_CHARS as int
        },
    }
}

/// Word-boundary splitting of a piece until what remains fits.
pub open spec fn hard_loop(rem: Seq<char>) -> Seq<Seq<char>>
    decreases rem.len(),
{
    if byte_len(rem) <= MAX_SENTENCE_CHARS {
        if rem.len() == 0 {
            seq![]
        } else {
            seq![rem]
        }
    } else {
        let cut = hard_cut(rem);
        let next = trim_start(rem.skip(cut));
        if 0 <= cut <= rem.len() && next.len() < rem.len() {
            seq![dot_space(trim_end(rem.take(cut)))] + hard_loop(next)
        } else {
            seq![]
        }
    }
}

/// `hard_split_if_needed`: a piece that fits is kept whole.
pub open spec fn hard_split_spec(piece: Seq<char>) -> Seq<Seq<char>> {
    if byte_len(piece) <= MAX_SENTENCE_CHARS {
        seq![piece]
    } else {
        hard_loop(piece)
    }
}

/// `split_long_sentence`: a sentence that fits is kept whole; a longer one is
/// broken at secondary punctuation, then at word boundaries.
pub open spec fn split_long_spec(sentence: Seq<char>) -> Seq<Seq<char>> {
    if byte_len(sentence) <= MAX_SENTENCE_CHARS {
        seq![sentence]
    } else {
        long_pieces(sentence).map_values(|p: Seq<char>| hard_split_spec(p)).flatten()
    }
}

/// Sentences of `t` as the synthesizer receives them.
pub open spec fn sentences_spec(t: Seq<char>) -> Seq<Seq<char>> {
    raw_sentences(t, 0, true).map_values(|s: Seq<char>| split_long_spec(s)).flatten()
}

proof fn lemma_trim_start_len(s: Seq<char>)
    ensures
        trim_start(s).len() <= s.len(),
        s.len() > 0 && is_ws(s[0]) ==> trim_start(s).len() < s.len(),
    decreases s.len(),
{
    if s.len() > 0 && is_ws(s[0]) {
        lemma_trim_start_len(s.drop_first());
    }
}

proof fn lemma_trim_end_len(s: Seq<char>)
    ensures
        trim_end(s).len() <= s.len(),
        byte_len(trim_end(s)) <= byte_len(s),
        trim_end(s) == s.take(trim_end(s).len() as int),
    decreases s.len(),
{
    if s.len() > 0 && is_ws(s.last()) {
        lemma_trim_end_len(s.drop_last());
        assert(s.drop_last().take(trim_end(s).len() as int) =~= s.take(trim_end(s).len() as int));
    } else {
        assert(s.take(s.len() as int) =~= s);
    }
}


proof fn lemma_last_ws_before_is_ws(s: Seq<char>, p: int)
    requires
        p <= s.len(),
    ensures
        last_ws_before(s, p) matches Some(k) ==> 0 <= k < p && is_ws(s[k]),
    decreases p,
{
    if p > 0 && !is_ws(s[p - 1]) {
        lemma_last_ws_before_is_ws(s, p - 1);
    }
}

proof fn lemma_prefix_within_le(s: Seq<char>, max: int)
    ensures
        0 <= prefix_within(s, max) <= s.len(),
    decreases s.len(),
{
    if !(byte_len(s) <= max || s.len() == 0) {
        lemma_prefix_within_le(s.drop_last(), max);
    }
}

proof fn lemma_hard_loop_step(rem: Seq<char>, cut: int, he: int, ns: int)
    requires
        byte_len(rem) > MAX_SENTENCE_CHARS,
        cut == hard_cut(rem),
        0 <= he <= cut <= ns <= rem.len(),
        rem.subrange(0, he) == trim_end(rem.subrange(0, cut)),
        rem.subrange(ns, rem.len() as int) == trim_start(rem.subrange(cut, rem.len() as int)),
    ensures
        hard_loop(rem) == seq![dot_space(rem.subrange(0, he))] + hard_loop(
            rem.subrange(ns, rem.len() as int),
        ),
        ns - 0 > 0,
{
    lemma_prefix_within_le(rem, MAX_SENTENCE_CHARS as int);
    lemma_last_ws_before_is_ws(rem, prefix_within(rem, MAX_SENTENCE_CHARS as int));
    assert(rem.take(cut) =~= rem.subrange(0, cut));
    assert(rem.skip(cut) =~= rem.subrange(cut, rem.len() as int));
    lemma_trim_start_len(rem.skip(cut));
    if rem.len() == 0 {
        assert(byte_len(rem) == 0);
    }
    if cut == 0 {
        assert(rem.skip(0) =~= rem);
        assert(is_ws(rem[0]));
    }
}

/// `v@ + ". "` as a new string.
fn dot_space_string(v: &Vec<char>, lo: usize, hi: usize) -> (r: String)
    requires
        lo <= hi <= v@.len(),
    ensures
        r@ == dot_space(v@.subrange(lo as int, hi as int)),
{
    let mut r = string_of(v, lo, hi);
    push_char(&mut r, '.');
    push_char(&mut r, ' ');
    proof {
        assert(r@ =~= dot_space(v@.subrange(lo as int, hi as int)));
    }
    r
}

/// A vector holding `v[lo..hi]`.
fn sub_vec(v: &Vec<char>, lo: usize, hi: usize) -> (r: Vec<char>)
    requires
        lo <= hi <= v@.len(),
    ensures
        r@ == v@.subrange(lo as int, hi as int),
{
    let mut r: Vec<char> = Vec::new();
    let mut i = lo;
    while i < hi
        invariant
            lo <= i <= hi <= v@.len(),
            r@ == v@.subrange(lo as int, i as int),
        decreases hi - i,
    {
        r.push(v[i]);
        i += 1;
    }
    r
}

/// Splits a piece still over the per-sentence limit at word boundaries.
#[verifier::rlimit(40)]
pub fn hard_split_if_needed(piece: String) -> (out: Vec<String>)
    ensures
        crate::text::str_views(out@) == hard_split_spec(piece@),
{
    let v = chars_of(piece.as_str());
    let total = crate::text::byte_len_of(&v, 0, v.len());
    proof {
        assert(v@.subrange(0, v@.len() as int) =~= v@);
    }
    if total <= MAX_SENTENCE_CHARS {
        let mut out: Vec<String> = Vec::new();
        proof {
            assert(crate::text::str_views(out@.push(piece)) =~= seq![piece@]);
        }
        out.push(piece);
        return out;
    }
    let mut out: Vec<String> = Vec::new();
    let mut rem = v;
    let ghost whole = rem@;
    assert(hard_split_spec(piece@) == hard_loop(whole));
    loop
        invariant
            hard_split_spec(piece@) == hard_loop(whole),
            byte_len(rem@) <= usize::MAX,
            crate::text::str_views(out@) + hard_loop(rem@) == hard_loop(whole),
        decreases rem@.len(),
    {
        let n = crate::text::byte_len_of(&rem, 0, rem.len());
        proof {
            assert(rem@.subrange(0, rem@.len() as int) =~= rem@);
        }
        assert(rem@.subrange(0, rem@.len() as int) =~= rem@);
        if n <= MAX_SENTENCE_CHARS {
            if rem.len() > 0 {
                let last = string_of(&rem, 0, rem.len());
                proof {
                    assert(crate::text::str_views(out@.push(last)) =~= crate::text::str_views(
                        out@,
                    ).push(rem@));
                    assert(crate::text::str_views(out@) + seq![rem@] =~= crate::text::str_views(
                        out@,
                    ).push(rem@));
                }
                out.push(last);
            } else {
                proof {
                    assert(crate::text::str_views(out@) + seq![] =~= crate::text::str_views(out@));
                }
            }
            return out;
        }
        let cut = match word_boundary_exec(&rem, 0, rem.len(), MAX_SENTENCE_CHARS, false) {
            Some(c) => c,
            None => if rem.len() < MAX_SENTENCE_CHARS {
                rem.len()
            } else {
                MAX_SENTENCE_CHARS
            },
        };
        let head_end = crate::text::trim_end_index(&rem, 0, cut, false);
        let head = dot_space_string(&rem, 0, head_end);
        let next_start = crate::text::trim_start_index(&rem, cut, rem.len(), false);
        let next = sub_vec(&rem, next_start, rem.len());
        proof {
            lemma_hard_loop_step(rem@, cut as int, head_end as int, next_start as int);
            crate::text::lemma_byte_len_subrange(rem@, next_start as int, rem@.len() as int);
            assert(crate::text::str_views(out@.push(head)) =~= crate::text::str_views(out@).push(
                head@,
            ));
            assert(crate::text::str_views(out@).push(head@) + hard_loop(next@) =~= crate::text::str_views(
                out@,
            ) + (seq![head@] + hard_loop(next@)));
        }
        out.push(head);
        rem = next;
    }
}


proof fn lemma_long_state_step(v: Seq<char>, i: int)
    requires
        0 <= i < v.len(),
    ensures
        long_state(v.take(i + 1)) == long_step(long_state(v.take(i)), v[i]),
{
    assert(v.take(i + 1).drop_last() =~= v.take(i));
}

proof fn lemma_byte_len_split(v: Seq<char>, a: int, m: int, b: int)
    requires
        0 <= a <= m <= b <= v.len(),
    ensures
        byte_len(v.subrange(a, b)) == byte_len(v.subrange(a, m)) + byte_len(v.subrange(m, b)),
{
    crate::text::lemma_byte_len_concat(v.subrange(a, m), v.subrange(m, b));
    assert(v.subrange(a, m) + v.subrange(m, b) =~= v.subrange(a, b));
}

/// Appends `items` to `out`.
fn append_strings(out: &mut Vec<String>, items: Vec<String>)
    ensures
        crate::text::str_views(final(out)@) == crate::text::str_views(old(out)@)
            + crate::text::str_views(items@),
{
    let mut k: usize = 0;
    while k < items.len()
        invariant
            k <= items@.len(),
            crate::text::str_views(out@) == crate::text::str_views(old(out)@)
                + crate::text::str_views(items@).take(k as int),
        decreases items@.len() - k,
    {
        let item = items[k].clone();
        proof {
            assert(crate::text::str_views(items@).take(k + 1) =~= crate::text::str_views(items@).take(
                k as int,
            ).push(items@[k as int]@));
            assert(crate::text::str_views(out@.push(item)) =~= crate::text::str_views(out@).push(
                item@,
            ));
        }
        out.push(item);
        k += 1;
    }
    proof {
        assert(crate::text::str_views(items@).take(items@.len() as int) =~= crate::text::str_views(
            items@,
        ));
    }
}

/// Splits a sentence longer than `MAX_SENTENCE_CHARS` bytes at secondary
/// punctuation (`;`, `:`, `,`, newline), turning each break into `". "`, and
/// falls back to word-boundary splits.
pub fn split_long_sentence(sentence: String) -> (out: Vec<String>)
    ensures
        crate::text::str_views(out@) == split_long_spec(sentence@),
{
    let v = chars_of(sentence.as_str());
    let total = crate::text::byte_len_of(&v, 0, v.len());
    proof {
        assert(v@.subrange(0, v@.len() as int) =~= v@);
    }
    if total <= MAX_SENTENCE_CHARS {
        let mut out: Vec<String> = Vec::new();
        proof {
            assert(crate::text::str_views(out@.push(sentence)) =~= seq![sentence@]);
        }
        out.push(sentence);
        return out;
    }
    let pieces = long_pieces_exec(&v);
    flat_hard_split(pieces)
}

/// `long_pieces(v@)`.
#[verifier::rlimit(60)]
fn long_pieces_exec(v: &Vec<char>) -> (pieces: Vec<String>)
    requires
        byte_len(v@) <= usize::MAX,
    ensures
        crate::text::str_views(pieces@) == long_pieces(v@),
{
    let mut pieces: Vec<String> = Vec::new();
    let mut a: usize = 0;
    let mut cur_bytes: usize = 0;
    let mut i: usize = 0;
    proof {
        assert(v@.take(0) =~= Seq::<char>::empty());
        assert(v@.subrange(0, 0) =~= Seq::<char>::empty());
        assert(crate::text::str_views(pieces@) =~= Seq::<Seq<char>>::empty());
    }
    while i < v.len()
        invariant
            a <= i <= v@.len(),
            byte_len(v@) <= usize::MAX,
            (crate::text::str_views(pieces@), v@.subrange(a as int, i as int)) == long_state(
                v@.take(i as int),
            ),
            cur_bytes == byte_len(v@.subrange(a as int, i as int)),
        decreases v@.len() - i,
    {
        let ghost cur = v@.subrange(a as int, i as int);
        let ghost old_pieces = crate::text::str_views(pieces@);
        proof {
            lemma_long_state_step(v@, i as int);
            crate::text::lemma_byte_len_subrange(v@, a as int, i + 1);
        }
        let ch = v[i];
        let te = crate::text::trim_end_index(v, a, i, false);
        let tail_bytes = crate::text::byte_len_of(v, te, i);
        proof {
            lemma_byte_len_split(v@, a as int, te as int, i as int);
        }
        let trimmed_bytes = cur_bytes - tail_bytes;
        let secondary = ch == ';' || ch == ':' || ch == ',' || ch == '\n';
        if secondary && trimmed_bytes >= MAX_SENTENCE_CHARS / 2 {
            let piece = dot_space_string(v, a, te);
            proof {
                assert(crate::text::str_views(pieces@.push(piece)) =~= old_pieces.push(piece@));
                assert(v@.subrange(i + 1, i + 1) =~= Seq::<char>::empty());
            }
            pieces.push(piece);
            a = i + 1;
            cur_bytes = 0;
        } else {
            proof {
                assert(v@.subrange(a as int, i + 1) =~= cur.push(ch));
                lemma_byte_len_push(cur, ch);
            }
            let c2_bytes = cur_bytes + char_width(ch);
            if c2_bytes >= MAX_SENTENCE_CHARS {
                match word_boundary_exec(v, a, i + 1, MAX_SENTENCE_CHARS, false) {
                    Some(cut) => {
                        let he = crate::text::trim_end_index(v, a, a + cut, false);
                        let piece = dot_space_string(v, a, he);
                        let ns = crate::text::trim_start_index(v, a + cut, i + 1, false);
                        proof {
                            let c2 = v@.subrange(a as int, i + 1);
                            assert(c2.take(cut as int) =~= v@.subrange(a as int, a + cut));
                            assert(c2.skip(cut as int) =~= v@.subrange(a + cut, i + 1));
                            assert(crate::text::str_views(pieces@.push(piece)) =~= old_pieces.push(
                                piece@,
                            ));
                        }
                        pieces.push(piece);
                        a = ns;
                        cur_bytes = crate::text::byte_len_of(v, ns, i + 1);
                    },
                    None => {
                        cur_bytes = c2_bytes;
                    },
                }
            } else {
                cur_bytes = c2_bytes;
            }
        }
        i += 1;
    }
    proof {
        assert(v@.take(v@.len() as int) =~= v@);
    }
    if a < v.len() {
        let last = string_of(v, a, v.len());
        proof {
            assert(crate::text::str_views(pieces@.push(last)) =~= crate::text::str_views(pieces@).push(
                last@,
            ));
        }
        pieces.push(last);
    }
    pieces
}

/// Every piece split at word boundaries where still too long.
fn flat_hard_split(pieces: Vec<String>) -> (out: Vec<String>)
    ensures
        crate::text::str_views(out@) == crate::text::str_views(pieces@).map_values(
            |p: Seq<char>| hard_split_spec(p),
        ).flatten(),
{
    let ghost lp = crate::text::str_views(pieces@);
    let mut out: Vec<String> = Vec::new();
    let mut k: usize = 0;
    while k < pieces.len()
        invariant
            k <= pieces@.len(),
            crate::text::str_views(pieces@) == lp,
            crate::text::str_views(out@) == lp.take(k as int).map_values(
                |p: Seq<char>| hard_split_spec(p),
            ).flatten(),
        decreases pieces@.len() - k,
    {
        let piece = pieces[k].clone();
        let parts = hard_split_if_needed(piece);
        proof {
            assert(lp[k as int] == pieces@[k as int]@);
            crate::text::lemma_flat_map_take(lp, k as int, |p: Seq<char>| hard_split_spec(p));
        }
        append_strings(&mut out, parts);
        k += 1;
    }
    proof {
        assert(lp.take(lp.len() as int) =~= lp);
    }
    out
}

/// Splits text into sentences at `.`, `!` and `?`, keeping decimal numbers,
/// abbreviations and acronyms intact, then breaks over-long sentences so that
/// the synthesizer accepts them.
pub fn split_sentences(text: &str) -> (out: Vec<String>)
    ensures
        crate::text::str_views(out@) == sentences_spec(text@),
{
    let v = chars_of(text);
    let rs = sentence_ranges(&v, true);
    let raws = strings_of_ranges(&v, &rs);
    flat_split_long(raws)
}

/// Every raw sentence passed through `split_long_sentence`.
fn flat_split_long(raws: Vec<String>) -> (out: Vec<String>)
    ensures
        crate::text::str_views(out@) == crate::text::str_views(raws@).map_values(
            |s: Seq<char>| split_long_spec(s),
        ).flatten(),
{
    let ghost rw = crate::text::str_views(raws@);
    let mut out: Vec<String> = Vec::new();
    let mut k: usize = 0;
    while k < raws.len()
        invariant
            k <= raws@.len(),
            crate::text::str_views(raws@) == rw,
            crate::text::str_views(out@) == rw.take(k as int).map_values(
                |s: Seq<char>| split_long_spec(s),
            ).flatten(),
        decreases raws@.len() - k,
    {
        let sentence = raws[k].clone();
        let parts = split_long_sentence(sentence);
        proof {
            assert(rw[k as int] == raws@[k as int]@);
            crate::text::lemma_flat_map_take(rw, k as int, |s: Seq<char>| split_long_spec(s));
        }
        append_strings(&mut out, parts);
        k += 1;
    }
    proof {
        assert(rw.take(rw.len() as int) =~= rw);
    }
    out
}

// ---------------------------------------------------------------------------
// Chunking.
// ---------------------------------------------------------------------------

/// One step of greedy chunking: start a new chunk when appending `s` would
/// push a non-empty chunk past `max` bytes.
pub open spec fn chunk_step(st: (Seq<Seq<char>>, Seq<char>), s: Seq<char>, max: int) -> (
    Seq<Seq<char>>,
    Seq<char>,
) {
    let (chunks, cur) = st;
    if byte_len(cur) + byte_len(s) > max && cur.len() > 0 {
        (chunks.push(cur), s)
    } else {
        (chunks, cur + s)
    }
}

/// State of greedy chunking after all of `ss`.
pub open spec fn chunk_state(ss: Seq<Seq<char>>, max: int) -> (Seq<Seq<char>>, Seq<char>)
    decreases ss.len(),
{
    if ss.len() == 0 {
        (seq![], seq![])
    } else {
        chunk_step(chunk_state(ss.drop_last(), max), ss.last(), max)
    }
}

/// Sentences grouped greedily into chunks of at most `max` bytes (a single
/// sentence longer than `max` forms its own chunk).
pub open spec fn group_chunks(ss: Seq<Seq<char>>, max: int) -> Seq<Seq<char>> {
    let (chunks, cur) = chunk_state(ss, max);
    if cur.len() > 0 {
        chunks.push(cur)
    } else {
        chunks
    }
}

/// `sub_chunk`: the grouped sentences of `text`, or `text` itself when that
/// yields nothing.
pub open spec fn sub_chunk_spec(text: Seq<char>, max: int) -> Seq<Seq<char>> {
    let g = group_chunks(sentences_spec(text), max);
    if g.len() == 0 {
        seq![text]
    } else {
        g
    }
}

/// Greedy grouping of `sentences` (exec form of `group_chunks`).
pub(crate) fn group_sentences(sentences: &Vec<String>, max_chars: usize) -> (chunks: Vec<String>)
    ensures
        crate::text::str_views(chunks@) == group_chunks(
            crate::text::str_views(sentences@),
            max_chars as int,
        ),
{
    let ghost ss = crate::text::str_views(sentences@);
    let mut chunks: Vec<String> = Vec::new();
    let mut current = String::new();
    let mut k: usize = 0;
    while k < sentences.len()
        invariant
            k <= sentences@.len(),
            ss == crate::text::str_views(sentences@),
            (crate::text::str_views(chunks@), current@) == chunk_state(ss.take(k as int), max_chars as int),
        decreases sentences@.len() - k,
    {
        let sentence = &sentences[k];
        let cur_len = crate::text::str_byte_len(current.as_str());
        let s_len = crate::text::str_byte_len(sentence.as_str());
        let over = match cur_len.checked_add(s_len) {
            Some(t) => t > max_chars,
            None => true,
        };
        proof {
            assert(ss.take(k + 1).drop_last() =~= ss.take(k as int));
            assert(ss.take(k + 1).last() == sentence@);
        }
        if over && !current.as_str().is_empty() {
            proof {
                assert(crate::text::str_views(chunks@.push(current)) =~= crate::text::str_views(
                    chunks@,
                ).push(current@));
            }
            chunks.push(current);
            current = String::new();
            push_str(&mut current, sentence.as_str());
            proof {
                assert(current@ =~= sentence@);
            }
        } else {
            push_str(&mut current, sentence.as_str());
        }
        k += 1;
    }
    proof {
        assert(ss.take(sentences@.len() as int) =~= ss);
    }
    if !current.as_str().is_empty() {
        proof {
            assert(crate::text::str_views(chunks@.push(current)) =~= crate::text::str_views(chunks@).push(
                current@,
            ));
        }
        chunks.push(current);
    }
    chunks
}

/// Splits `text` into chunks of whole sentences, each at most `max_chars`
/// bytes unless a single sentence is longer.
pub fn sub_chunk(text: &str, max_chars: usize) -> (chunks: Vec<String>)
    ensures
        crate::text::str_views(chunks@) == sub_chunk_spec(text@, max_chars as int),
{
    let sentences = split_sentences(text);
    let mut chunks = group_sentences(&sentences, max_chars);
    if chunks.len() == 0 {
        let whole = crate::text::owned(text);
        proof {
            assert(crate::text::str_views(chunks@.push(whole)) =~= seq![text@]);
        }
        chunks.push(whole);
    }
    chunks
}


// ---------------------------------------------------------------------------
// SSML.
// ---------------------------------------------------------------------------

/// The trimmed sentences that are not blank, in order.
pub open spec fn trimmed_nonblank(ss: Seq<Seq<char>>) -> Seq<Seq<char>>
    decreases ss.len(),
{
    if ss.len() == 0 {
        seq![]
    } else {
        let r = trimmed_nonblank(ss.drop_last());
        let t = trim(ss.last());
        if t.len() > 0 {
            r.push(t)
        } else {
            r
        }
    }
}

/// `<s>` element for one sentence.
pub open spec fn ssml_sentence(s: Seq<char>) -> Seq<char> {
    "<s>"@ + xml_escape_spec(s) + "</s>"@
}

/// `<p>` element for one paragraph of the source, or nothing when the
/// paragraph has no sentences.
#[verifier::opaque]
pub open spec fn ssml_paragraph(raw_para: Seq<char>) -> Seq<char> {
    let para = trim(raw_para);
    let ss = trimmed_nonblank(sentences_spec(para));
    if para.len() == 0 || ss.len() == 0 {
        seq![]
    } else {
        "<p>"@ + ss.map_values(|s: Seq<char>| ssml_sentence(s)).flatten() + "</p>"@
    }
}

/// The SSML document for `text`: paragraphs are separated by blank lines; an
/// input without sentences yields one empty paragraph.
pub open spec fn ssml_spec(text: Seq<char>) -> Seq<char> {
    let body = split_on(text, "\n\n"@).map_values(|p: Seq<char>| ssml_paragraph(p)).flatten();
    "<speak>"@ + (if body.len() == 0 {
        "<p><s></s></p>"@
    } else {
        body
    }) + "</speak>"@
}

/// Appends the `<p>` element of one paragraph (if any); returns whether one
/// was written.
fn push_ssml_paragraph(out: &mut String, raw_para: &Vec<char>, lo: usize, hi: usize) -> (wrote: bool)
    requires
        lo <= hi <= raw_para@.len(),
    ensures
        final(out)@ == old(out)@ + ssml_paragraph(raw_para@.subrange(lo as int, hi as int)),
        wrote == (ssml_paragraph(raw_para@.subrange(lo as int, hi as int)).len() > 0),
{
    let ghost rp = raw_para@.subrange(lo as int, hi as int);
    reveal(ssml_paragraph);
    let para = crate::text::trimmed_string(raw_para, lo, hi);
    if para.as_str().is_empty() {
        proof {
            assert(old(out)@ + seq![] =~= old(out)@);
        }
        return false;
    }
    let sentences = split_sentences(para.as_str());
    let ghost ss = crate::text::str_views(sentences@);
    let mut kept: Vec<String> = Vec::new();
    let mut k: usize = 0;
    while k < sentences.len()
        invariant
            k <= sentences@.len(),
            ss == crate::text::str_views(sentences@),
            crate::text::str_views(kept@) == trimmed_nonblank(ss.take(k as int)),
        decreases sentences@.len() - k,
    {
        let t = crate::text::trim_str(sentences[k].as_str());
        proof {
            assert(ss.take(k + 1).drop_last() =~= ss.take(k as int));
            assert(ss.take(k + 1).last() == sentences@[k as int]@);
        }
        if !t.as_str().is_empty() {
            proof {
                assert(crate::text::str_views(kept@.push(t)) =~= crate::text::str_views(kept@).push(
                    t@,
                ));
            }
            kept.push(t);
        }
        k += 1;
    }
    proof {
        assert(ss.take(sentences@.len() as int) =~= ss);
    }
    if kept.len() == 0 {
        proof {
            assert(old(out)@ + seq![] =~= old(out)@);
        }
        return false;
    }
    let ghost kv = crate::text::str_views(kept@);
    push_str(out, "<p>");
    let ghost start = out@;
    let mut j: usize = 0;
    while j < kept.len()
        invariant
            j <= kept@.len(),
            kv == crate::text::str_views(kept@),
            out@ == start + kv.take(j as int).map_values(|s: Seq<char>| ssml_sentence(s)).flatten(),
        decreases kept@.len() - j,
    {
        let sv = chars_of(kept[j].as_str());
        push_str(out, "<s>");
        push_xml_escaped(out, &sv, 0, sv.len());
        push_str(out, "</s>");
        proof {
            assert(sv@.subrange(0, sv@.len() as int) =~= kv[j as int]);
            crate::text::lemma_flat_map_take(kv, j as int, |s: Seq<char>| ssml_sentence(s));
            assert(out@ =~= start + kv.take(j + 1).map_values(|s: Seq<char>| ssml_sentence(s)).flatten());
        }
        j += 1;
    }
    push_str(out, "</p>");
    proof {
        assert(kv.take(kept@.len() as int) =~= kv);
        reveal_strlit("<p>");
        assert(out@ =~= old(out)@ + ssml_paragraph(rp));
    }
    true
}

/// The `<p>` elements of all paragraphs of `v@`.
fn ssml_body(v: &Vec<char>) -> (body: String)
    ensures
        body@ == split_on(v@, "\n\n"@).map_values(|p: Seq<char>| ssml_paragraph(p)).flatten(),
{
    let sep = chars_of("\n\n");
    proof {
        reveal_strlit("\n\n");
    }
    let paras = crate::text::split_ranges(v, 0, v.len(), &sep);
    proof {
        assert(v@.subrange(0, v@.len() as int) =~= v@);
    }
    let ghost pv = crate::text::range_views(v@, paras@);
    let mut body = String::new();
    let mut k: usize = 0;
    while k < paras.len()
        invariant
            k <= paras@.len(),
            pv == crate::text::range_views(v@, paras@),
            forall|j: int| 0 <= j < paras@.len() ==> (#[trigger] paras@[j]).0 <= paras@[j].1 <= v@.len(),
            body@ == pv.take(k as int).map_values(|p: Seq<char>| ssml_paragraph(p)).flatten(),
        decreases paras@.len() - k,
    {
        let (a, b) = paras[k];
        let _ = push_ssml_paragraph(&mut body, v, a, b);
        proof {
            crate::text::lemma_flat_map_take(pv, k as int, |p: Seq<char>| ssml_paragraph(p));
        }
        k += 1;
    }
    proof {
        assert(pv.take(paras@.len() as int) =~= pv);
    }
    body
}

/// Wraps text as SSML with `<p>` per paragraph (paragraphs are separated by
/// blank lines) and `<s>` per sentence, escaping XML-special characters in
/// the sentence bodies.
pub fn build_ssml(text: &str) -> (r: String)
    ensures
        r@ == ssml_spec(text@),
{
    let v = chars_of(text);
    let body = ssml_body(&v);
    let mut out = String::new();
    push_str(&mut out, "<speak>");
    if body.as_str().is_empty() {
        push_str(&mut out, "<p><s></s></p>");
    } else {
        push_str(&mut out, body.as_str());
    }
    push_str(&mut out, "</speak>");
    proof {
        assert(out@ =~= ssml_spec(text@));
    }
    out
}


// ---------------------------------------------------------------------------
// Sections.
// ---------------------------------------------------------------------------

/// A part of the input text; `title` is `None` for text before the first
/// `## ` header.
pub struct SectionText {
    pub title: Option<String>,
    pub body: String,
}

impl View for SectionText {
    type V = (Option<Seq<char>>, Seq<char>);

    open spec fn view(&self) -> (Option<Seq<char>>, Seq<char>) {
        (
            match &self.title {
                Some(t) => Some(t@),
                None => None,
            },
            self.body@,
        )
    }
}

/// Views of a list of sections.
pub open spec fn section_views(v: Seq<SectionText>) -> Seq<(Option<Seq<char>>, Seq<char>)> {
    v.map_values(|s: SectionText| s@)
}

/// A line starts at `i`.
pub open spec fn is_line_start(t: Seq<char>, i: int) -> bool {
    i == 0 || (0 < i <= t.len() && t[i - 1] == '\n')
}

/// Index of the newline that ends the line starting at `i`, or `t.len()`.
pub open spec fn line_end(t: Seq<char>, i: int) -> int {
    match find(t.subrange(i, t.len() as int), seq!['\n']) {
        Some(k) => i + k,
        None => t.len() as int,
    }
}

/// Title of a `## Title` header line (leading whitespace allowed, `###`
/// and deeper excluded).
pub open spec fn header_title(line: Seq<char>) -> Option<Seq<char>> {
    let ts = trim_start(line);
    if ts.len() >= 3 && ts[0] == '#' && ts[1] == '#' && ts[2] == ' ' && !(ts.len() > 3 && ts[3]
        == '#') {
        Some(trim(ts.skip(3)))
    } else {
        None
    }
}

/// The header that starts at `i`, if any.
pub open spec fn header_at(t: Seq<char>, i: int) -> Option<Seq<char>> {
    if is_line_start(t, i) && 0 <= i <= t.len() {
        header_title(t.subrange(i, line_end(t, i)))
    } else {
        None
    }
}

/// Headers (start, title) that start before `n`.
pub open spec fn headers_upto(t: Seq<char>, n: int) -> Seq<(int, Seq<char>)>
    decreases n,
{
    if n <= 0 {
        seq![]
    } else {
        let h = headers_upto(t, n - 1);
        match header_at(t, n - 1) {
            Some(title) => h.push((n - 1, title)),
            None => h,
        }
    }
}

/// All headers of `t`, in order.
pub open spec fn headers(t: Seq<char>) -> Seq<(int, Seq<char>)> {
    headers_upto(t, t.len() + 1 as int)
}

/// Start of the line after the one starting at `i`, or `t.len()`.
pub open spec fn after_line(t: Seq<char>, i: int) -> int {
    if line_end(t, i) < t.len() {
        line_end(t, i) + 1
    } else {
        t.len() as int
    }
}

/// The section for header `k`: the title, then a blank line and the trimmed
/// text up to the next header (just the title when that text is blank).
pub open spec fn header_section(t: Seq<char>, hs: Seq<(int, Seq<char>)>, k: int) -> (
    Option<Seq<char>>,
    Seq<char>,
) {
    let (start, title) = hs[k];
    let end = if k < hs.len() - 1 {
        hs[k + 1].0
    } else {
        t.len() as int
    };
    let rest = trim(t.subrange(after_line(t, start), end));
    (Some(title), if rest.len() == 0 {
        title
    } else {
        title + "\n\n"@ + rest
    })
}

/// `parse_sections`: empty when there is no header; otherwise the non-blank
/// preface (if any) and one section per header.
pub open spec fn parse_sections_spec(t: Seq<char>) -> Seq<(Option<Seq<char>>, Seq<char>)> {
    let hs = headers(t);
    if hs.len() == 0 {
        seq![]
    } else {
        let pre = trim(t.take(hs[0].0));
        let preface: Seq<(Option<Seq<char>>, Seq<char>)> = if hs[0].0 > 0 && pre.len() > 0 {
            seq![(None, pre)]
        } else {
            seq![]
        };
        preface + Seq::new(hs.len(), |k: int| header_section(t, hs, k))
    }
}

proof fn lemma_headers_skip(t: Seq<char>, a: int, b: int)
    requires
        0 <= a <= b,
        forall|p: int| a <= p < b ==> (#[trigger] header_at(t, p)) is None,
    ensures
        headers_upto(t, b) == headers_upto(t, a),
    decreases b - a,
{
    if b > a {
        lemma_headers_skip(t, a, b - 1);
    }
}

proof fn lemma_headers_upto_props(t: Seq<char>, n: int)
    ensures
        forall|k: int| 0 <= k < headers_upto(t, n).len() ==> {
            let h = #[trigger] headers_upto(t, n)[k];
            &&& 0 <= h.0 < n
            &&& header_at(t, h.0) == Some(h.1)
        },
        forall|k: int, j: int| 0 <= k < j < headers_upto(t, n).len() ==> #[trigger] headers_upto(
            t,
            n,
        )[k].0 < #[trigger] headers_upto(t, n)[j].0,
    decreases n,
{
    if n > 0 {
        lemma_headers_upto_props(t, n - 1);
    }
}

proof fn lemma_headers_upto_has(t: Seq<char>, p: int, n: int)
    requires
        0 <= p < n,
        header_at(t, p) is Some,
    ensures
        headers_upto(t, n).len() > 0,
    decreases n,
{
    if n - 1 > p {
        lemma_headers_upto_has(t, p, n - 1);
    }
}

/// A text has no sections exactly when none of its lines is a `## `
/// header (`###` and deeper do not count). Otherwise the sections are the
/// non-blank text before the first header, if any, then one section per
/// header line in order, titled with the header, whose body begins with
/// that title.
#[verifier::spinoff_prover]
#[verifier::rlimit(40)]
pub proof fn lemma_parse_sections_headers(t: Seq<char>)
    ensures
        parse_sections_spec(t).len() == 0 <==> forall|p: int|
            0 <= p <= t.len() ==> (#[trigger] header_at(t, p)) is None,
        forall|k: int|
            0 <= k < headers(t).len() ==> header_at(t, (#[trigger] headers(t)[k]).0) == Some(
                headers(t)[k].1,
            ),
        forall|k: int, j: int|
            0 <= k < j < headers(t).len() ==> #[trigger] headers(t)[k].0 < #[trigger] headers(t)[j].0,
        headers(t).len() > 0 ==> {
            let off = parse_sections_spec(t).len() - headers(t).len();
            &&& off == 0 || off == 1
            &&& forall|k: int|
                0 <= k < headers(t).len() ==> {
                    let sec = #[trigger] parse_sections_spec(t)[off + k];
                    &&& sec.0 == Some(headers(t)[k].1)
                    &&& sec.1.len() >= headers(t)[k].1.len()
                    &&& sec.1.take(headers(t)[k].1.len() as int) == headers(t)[k].1
                }
        },
{
    let n: int = t.len() + 1int;
    lemma_headers_upto_props(t, n);
    if forall|p: int| 0 <= p <= t.len() ==> (#[trigger] header_at(t, p)) is None {
        lemma_headers_skip(t, 0, n);
    }
    if exists|p: int| 0 <= p <= t.len() && (#[trigger] header_at(t, p)) is Some {
        let p = choose|p: int| 0 <= p <= t.len() && (#[trigger] header_at(t, p)) is Some;
        lemma_headers_upto_has(t, p, n);
    }
    let hs = headers(t);
    if hs.len() > 0 {
        let r = parse_sections_spec(t);
        let off = r.len() - hs.len();
        assert forall|k: int| 0 <= k < hs.len() implies {
            let sec = #[trigger] r[off + k];
            &&& sec.0 == Some(hs[k].1)
            &&& sec.1.len() >= hs[k].1.len()
            &&& sec.1.take(hs[k].1.len() as int) == hs[k].1
        } by {
            let sec = header_section(t, hs, k);
            assert(r[off + k] == sec);
            let title = hs[k].1;
            let end = if k < hs.len() - 1 {
                hs[k + 1].0
            } else {
                t.len() as int
            };
            let rest = trim(t.subrange(after_line(t, hs[k].0), end));
            if rest.len() > 0 {
                assert((title + "\n\n"@ + rest).take(title.len() as int) =~= title);
            } else {
                assert(title.take(title.len() as int) =~= title);
            }
        }
    }
}

/// Header title of the line `v[lo..hi]`, if it is a header.
fn header_title_exec(v: &Vec<char>, lo: usize, hi: usize) -> (r: Option<String>)
    requires
        lo <= hi <= v@.len(),
    ensures
        match r {
            Some(s) => header_title(v@.subrange(lo as int, hi as int)) == Some(s@),
            None => header_title(v@.subrange(lo as int, hi as int)) is None,
        },
{
    let ghost line = v@.subrange(lo as int, hi as int);
    let ts = crate::text::trim_start_index(v, lo, hi, false);
    let ghost tsv = v@.subrange(ts as int, hi as int);
    if hi - ts >= 3 && v[ts] == '#' && v[ts + 1] == '#' && v[ts + 2] == ' ' && !(hi - ts > 3
        && v[ts + 3] == '#') {
        let title = crate::text::trimmed_string(v, ts + 3, hi);
        proof {
            assert(tsv.skip(3) =~= v@.subrange(ts + 3, hi as int));
        }
        Some(title)
    } else {
        None
    }
}


/// Views of a list of (start, title) headers.
pub open spec fn header_views(v: Seq<(usize, String)>) -> Seq<(int, Seq<char>)> {
    v.map_values(|h: (usize, String)| (h.0 as int, h.1@))
}

proof fn lemma_newline_pattern(t: Seq<char>, pos: int, j: int)
    requires
        0 <= pos <= t.len(),
        0 <= j,
        pos + j < t.len(),
    ensures
        occurs_at(t.subrange(pos, t.len() as int), seq!['\n'], j) == (t[pos + j] == '\n'),
{
    let sub = t.subrange(pos, t.len() as int);
    if t[pos + j] == '\n' {
        assert(sub.subrange(j, j + 1) =~= seq!['\n']);
    } else {
        if sub.subrange(j, j + 1) == seq!['\n'] {
            assert(sub.subrange(j, j + 1)[0] == sub[j]);
        }
    }
}

/// End of the line starting at `pos` (exec form of `line_end`).
fn line_end_exec(v: &Vec<char>, pos: usize, nl: &Vec<char>) -> (e: usize)
    requires
        pos <= v@.len(),
        nl@ == seq!['\n'],
    ensures
        pos <= e <= v@.len(),
        e == line_end(v@, pos as int),
        e < v@.len() ==> v@[e as int] == '\n',
        forall|p: int| pos <= p < e ==> v@[p] != '\n',
{
    let ghost sub = v@.subrange(pos as int, v@.len() as int);
    proof {
        crate::text::lemma_find(sub, nl@);
    }
    match crate::text::find_exec(v, pos, v.len(), nl) {
        Some(k) => {
            proof {
                lemma_newline_pattern(v@, pos as int, k as int);
                assert forall|p: int| pos <= p < pos + k implies v@[p] != '\n' by {
                    lemma_newline_pattern(v@, pos as int, p - pos);
                }
            }
            pos + k
        },
        None => {
            proof {
                assert forall|p: int| pos <= p < v@.len() implies v@[p] != '\n' by {
                    lemma_newline_pattern(v@, pos as int, p - pos);
                }
            }
            v.len()
        },
    }
}

/// The headers of `v@` with their titles.
#[verifier::spinoff_prover]
#[verifier::rlimit(30)]
fn collect_headers(v: &Vec<char>) -> (hs: Vec<(usize, String)>)
    ensures
        header_views(hs@) == headers(v@),
        forall|k: int| 0 <= k < hs@.len() ==> (#[trigger] hs@[k]).0 <= v@.len(),
{
    let nl = chars_of("\n");
    proof {
        reveal_strlit("\n");
        assert(nl@ =~= seq!['\n']);
    }
    let mut hs: Vec<(usize, String)> = Vec::new();
    let mut pos: usize = 0;
    loop
        invariant
            pos <= v@.len(),
            nl@ == seq!['\n'],
            is_line_start(v@, pos as int),
            header_views(hs@) == headers_upto(v@, pos as int),
            forall|k: int| 0 <= k < hs@.len() ==> (#[trigger] hs@[k]).0 <= v@.len(),
        decreases v@.len() - pos,
    {
        let le = line_end_exec(v, pos, &nl);
        let h = header_title_exec(v, pos, le);
        proof {
            assert(header_at(v@, pos as int) == header_title(v@.subrange(pos as int, le as int)));
        }
        match h {
            Some(title) => {
                proof {
                    assert(header_views(hs@.push((pos, title))) =~= header_views(hs@).push(
                        (pos as int, title@),
                    ));
                }
                hs.push((pos, title));
            },
            None => {},
        }
        proof {
            assert forall|p: int| pos + 1 <= p < le + 1 implies (#[trigger] header_at(v@, p)) is None by {
                assert(v@[p - 1] != '\n');
            }
            lemma_headers_skip(v@, pos + 1, le + 1);
        }
        if le == v.len() {
            return hs;
        }
        pos = le + 1;
    }
}

/// Section for header `k` (exec form of `header_section`).
fn header_section_exec(v: &Vec<char>, hs: &Vec<(usize, String)>, k: usize, nl: &Vec<char>) -> (r:
    SectionText)
    requires
        k < hs@.len(),
        nl@ == seq!['\n'],
        header_views(hs@) == headers(v@),
        forall|j: int| 0 <= j < hs@.len() ==> (#[trigger] hs@[j]).0 <= v@.len(),
    ensures
        r@ == header_section(v@, header_views(hs@), k as int),
{
    let ghost hv = header_views(hs@);
    proof {
        lemma_headers_upto_props(v@, v@.len() + 1 as int);
    }
    let start = hs[k].0;
    let title = hs[k].1.clone();
    let le = line_end_exec(v, start, nl);
    let after = if le < v.len() {
        le + 1
    } else {
        v.len()
    };
    let end = if k < hs.len() - 1 {
        hs[k + 1].0
    } else {
        v.len()
    };
    proof {
        if k + 1 < hs@.len() {
            assert(hv[k as int].0 < hv[k + 1].0);
            assert(header_at(v@, hv[k + 1].0) is Some);
            assert(v@[end - 1] == '\n');
        }
    }
    let rest = crate::text::trimmed_string(v, after, end);
    let body = if rest.as_str().is_empty() {
        title.clone()
    } else {
        let mut b = title.clone();
        push_str(&mut b, "\n\n");
        push_str(&mut b, rest.as_str());
        b
    };
    let r = SectionText { title: Some(title), body };
    proof {
        assert(r@ =~= header_section(v@, hv, k as int));
    }
    r
}

/// Splits text on `## Section Title` markdown headers at the start of a
/// line. Text before the first header becomes a section without title.
/// Returns an empty list when there is no header.
pub fn parse_sections(text: &str) -> (r: Vec<SectionText>)
    ensures
        section_views(r@) == parse_sections_spec(text@),
{
    let v = chars_of(text);
    let hs = collect_headers(&v);
    let ghost hv = header_views(hs@);
    let mut out: Vec<SectionText> = Vec::new();
    if hs.len() == 0 {
        proof {
            assert(section_views(out@) =~= parse_sections_spec(text@));
        }
        return out;
    }
    let h0 = hs[0].0;
    let ghost preface: Seq<(Option<Seq<char>>, Seq<char>)> = if hv[0].0 > 0 && trim(v@.take(hv[0].0)).len() > 0 {
        seq![(None, trim(v@.take(hv[0].0)))]
    } else {
        seq![]
    };
    if h0 > 0 {
        let pre = crate::text::trimmed_string(&v, 0, h0);
        proof {
            assert(v@.subrange(0, h0 as int) =~= v@.take(h0 as int));
        }
        if !pre.as_str().is_empty() {
            let sec = SectionText { title: None, body: pre };
            proof {
                assert(section_views(out@.push(sec)) =~= preface);
            }
            out.push(sec);
        }
    }
    assert(section_views(out@) =~= preface);
    let nl = chars_of("\n");
    proof {
        reveal_strlit("\n");
        assert(nl@ =~= seq!['\n']);
    }
    let ghost all = Seq::new(hv.len(), |k: int| header_section(v@, hv, k));
    let mut k: usize = 0;
    while k < hs.len()
        invariant
            k <= hs@.len(),
            nl@ == seq!['\n'],
            hv == header_views(hs@),
            hv == headers(v@),
            forall|j: int| 0 <= j < hs@.len() ==> (#[trigger] hs@[j]).0 <= v@.len(),
            all == Seq::new(hv.len(), |k: int| header_section(v@, hv, k)),
            section_views(out@) == preface + all.take(k as int),
        decreases hs@.len() - k,
    {
        let sec = header_section_exec(&v, &hs, k, &nl);
        proof {
            assert(section_views(out@.push(sec)) =~= section_views(out@).push(sec@));
            assert(all.take(k + 1) =~= all.take(k as int).push(all[k as int]));
        }
        out.push(sec);
        k += 1;
    }
    proof {
        assert(all.take(hs@.len() as int) =~= all);
        assert(v@ == text@);
    }
    out
}


// ---------------------------------------------------------------------------
// Synthesis chunks.
// ---------------------------------------------------------------------------

/// One synthesis request: its text, the section it belongs to, and whether a
/// pause follows it (last chunk of a section that is not the last section).
pub struct Chunk {
    pub text: String,
    pub section_idx: usize,
    pub append_pause: bool,
}

impl View for Chunk {
    type V = (Seq<char>, int, bool);

    open spec fn view(&self) -> (Seq<char>, int, bool) {
        (self.text@, self.section_idx as int, self.append_pause)
    }
}

/// Views of a list of chunks.
pub open spec fn chunk_views(v: Seq<Chunk>) -> Seq<(Seq<char>, int, bool)> {
    v.map_values(|c: Chunk| c@)
}

/// The chunks of one section (none when its body is blank).
pub open spec fn section_chunks(body: Seq<char>, idx: int, last_idx: int, max: int) -> Seq<
    (Seq<char>, int, bool),
> {
    if trim(body).len() == 0 {
        seq![]
    } else {
        let sub = sub_chunk_spec(body, max);
        Seq::new(sub.len(), |i: int| (sub[i], idx, i == sub.len() - 1 && idx < last_idx))
    }
}

/// `build_chunks`: the chunks of every section in order; when there are
/// none, a single chunk holding all bodies joined by blank lines.
pub open spec fn build_chunks_spec(secs: Seq<(Option<Seq<char>>, Seq<char>)>, max: int) -> Seq<
    (Seq<char>, int, bool),
> {
    let last_idx = if secs.len() == 0 {
        0
    } else {
        secs.len() - 1
    };
    let cs = Seq::new(secs.len(), |k: int| section_chunks(secs[k].1, k, last_idx, max)).flatten();
    if cs.len() == 0 {
        seq![(join(secs.map_values(|s: (Option<Seq<char>>, Seq<char>)| s.1), "\n\n"@), 0, false)]
    } else {
        cs
    }
}

/// Chunks for the sections of the input, each chunk at most `max_chars`
/// bytes of whole sentences where possible.
pub fn build_chunks(sections: &Vec<SectionText>, max_chars: usize) -> (chunks: Vec<Chunk>)
    ensures
        chunk_views(chunks@) == build_chunks_spec(section_views(sections@), max_chars as int),
{
    let ghost sv = section_views(sections@);
    let n = sections.len();
    let last_idx: usize = if n == 0 {
        0
    } else {
        n - 1
    };
    let ghost per = Seq::new(sv.len(), |k: int| section_chunks(sv[k].1, k, last_idx as int, max_chars as int));
    let mut chunks: Vec<Chunk> = Vec::new();
    let mut k: usize = 0;
    while k < n
        invariant
            k <= n == sections@.len(),
            sv == section_views(sections@),
            last_idx == (if n == 0 { 0 } else { n - 1 }),
            per == Seq::new(sv.len(), |k: int| section_chunks(sv[k].1, k, last_idx as int, max_chars as int)),
            chunk_views(chunks@) == per.take(k as int).flatten(),
        decreases n - k,
    {
        let body = &sections[k].body;
        let trimmed = crate::text::trim_str(body.as_str());
        let ghost before = chunk_views(chunks@);
        proof {
            assert(sv[k as int].1 == body@);
            assert(per.take(k + 1) =~= per.take(k as int).push(per[k as int]));
            per.take(k as int).lemma_flatten_push(per[k as int]);
        }
        if !trimmed.as_str().is_empty() {
            let sub = sub_chunk(body.as_str(), max_chars);
            let ghost subv = crate::text::str_views(sub@);
            let m = sub.len();
            let mut i: usize = 0;
            while i < m
                invariant
                    i <= m == sub@.len(),
                    subv == crate::text::str_views(sub@),
                    chunk_views(chunks@) == before + Seq::new(
                        m as nat,
                        |j: int| (subv[j], k as int, j == m - 1 && k < last_idx),
                    ).take(i as int),
                decreases m - i,
            {
                let c = Chunk { text: sub[i].clone(), section_idx: k, append_pause: i == m - 1 && k < last_idx };
                proof {
                    assert(chunk_views(chunks@.push(c)) =~= chunk_views(chunks@).push(c@));
                }
                chunks.push(c);
                i += 1;
            }
            proof {
                assert(Seq::new(m as nat, |j: int| (subv[j], k as int, j == m - 1 && k < last_idx)).take(m as int)
                    =~= per[k as int]);
            }
        } else {
            proof {
                assert(per[k as int] =~= Seq::<(Seq<char>, int, bool)>::empty());
                assert(before + per[k as int] =~= before);
            }
        }
        k += 1;
    }
    proof {
        assert(per.take(n as int) =~= per);
    }
    if chunks.len() == 0 {
        let mut bodies: Vec<String> = Vec::new();
        let mut j: usize = 0;
        while j < n
            invariant
                j <= n == sections@.len(),
                sv == section_views(sections@),
                crate::text::str_views(bodies@) == sv.map_values(|s: (Option<Seq<char>>, Seq<char>)| s.1).take(j as int),
            decreases n - j,
        {
            let b = sections[j].body.clone();
            proof {
                assert(crate::text::str_views(bodies@.push(b)) =~= crate::text::str_views(bodies@).push(b@));
            }
            bodies.push(b);
            j += 1;
        }
        let text = crate::text::join_strings(&bodies, "\n\n");
        proof {
            assert(sv.map_values(|s: (Option<Seq<char>>, Seq<char>)| s.1).take(n as int) =~= sv.map_values(
                |s: (Option<Seq<char>>, Seq<char>)| s.1,
            ));
        }
        let c = Chunk { text, section_idx: 0, append_pause: false };
        proof {
            assert(chunk_views(chunks@.push(c)) =~= seq![c@]);
        }
        chunks.push(c);
    }
    chunks
}


// ---------------------------------------------------------------------------
// Configuration.
// ---------------------------------------------------------------------------

/// A pronunciation substitution: occurrences of `term` are spoken as
/// `spoken`.
pub struct LexiconEntry {
    pub term: String,
    pub spoken: String,
}

/// Speech-synthesis configuration.
pub struct TtsConfig {
    pub google_api_key: String,
    pub voice: String,
    /// Pronunciation substitutions applied to the text before chunking.
    pub lexicon: Vec<LexiconEntry>,
}

/// The voice used unless another is chosen.
pub open spec fn default_voice() -> Seq<char> {
    "en-US-Chirp3-HD-Puck"@
}

impl TtsConfig {
    /// Configuration with the default voice and no lexicon entries.
    pub fn new(google_api_key: String) -> (r: Self)
        ensures
            r.google_api_key@ == google_api_key@,
            r.voice@ == default_voice(),
            r.lexicon@.len() == 0,
    {
        TtsConfig {
            google_api_key,
            voice: crate::text::owned("en-US-Chirp3-HD-Puck"),
            lexicon: Vec::new(),
        }
    }

    /// The same configuration with another voice.
    pub fn with_voice(self, voice: String) -> (r: Self)
        ensures
            r.google_api_key == self.google_api_key,
            r.voice == voice,
            r.lexicon == self.lexicon,
    {
        TtsConfig { voice, ..self }
    }

    /// The same configuration with another lexicon.
    pub fn with_lexicon(self, lexicon: Vec<LexiconEntry>) -> (r: Self)
        ensures
            r.google_api_key == self.google_api_key,
            r.voice == self.voice,
            r.lexicon == lexicon,
    {
        TtsConfig { lexicon, ..self }
    }
}

// ---------------------------------------------------------------------------
// Laws of sentence splitting and chunking.
// ---------------------------------------------------------------------------

proof fn lemma_next_cut_range(t: Seq<char>, start: int, i: int, smart: bool)
    requires
        0 <= i,
    ensures
        next_cut(t, start, i, smart) matches Some(e) ==> i <= e < t.len(),
    decreases t.len() - i,
{
    if i < t.len() && !is_cut(t, start, i, smart) {
        lemma_next_cut_range(t, start, i + 1, smart);
    }
}

/// Splitting into raw sentences loses and adds nothing: the sentences of
/// `t[start..]`, concatenated, are `t[start..]`.
pub proof fn lemma_raw_sentences_concat(t: Seq<char>, start: int, smart: bool)
    requires
        0 <= start <= t.len(),
    ensures
        raw_sentences(t, start, smart).flatten() == t.skip(start),
    decreases t.len() - start,
{
    if start == t.len() {
        assert(t.skip(start) =~= Seq::<char>::empty());
    } else {
        lemma_next_cut_range(t, start, start, smart);
        match next_cut(t, start, start, smart) {
            Some(e) => {
                lemma_raw_sentences_concat(t, e + 1, smart);
                let rest = raw_sentences(t, e + 1, smart);
                let whole = seq![t.subrange(start, e + 1)] + rest;
                assert(whole.first() == t.subrange(start, e + 1));
                assert(whole.drop_first() =~= rest);
                assert(t.subrange(start, e + 1) + t.skip(e + 1) =~= t.skip(start));
            },
            None => {
                let whole = seq![t.subrange(start, t.len() as int)];
                whole.lemma_flatten_one_element();
                assert(t.subrange(start, t.len() as int) =~= t.skip(start));
            },
        }
    }
}

proof fn lemma_chunk_state_concat(ss: Seq<Seq<char>>, max: int)
    ensures
        chunk_state(ss, max).0.flatten() + chunk_state(ss, max).1 == ss.flatten(),
    decreases ss.len(),
{
    if ss.len() == 0 {
        assert(Seq::<Seq<char>>::empty().flatten() + Seq::<char>::empty() =~= Seq::<char>::empty());
    } else {
        lemma_chunk_state_concat(ss.drop_last(), max);
        let (c, cur) = chunk_state(ss.drop_last(), max);
        ss.drop_last().lemma_flatten_push(ss.last());
        assert(ss.drop_last().push(ss.last()) =~= ss);
        if byte_len(cur) + byte_len(ss.last()) > max && cur.len() > 0 {
            c.lemma_flatten_push(cur);
            assert(c.push(cur).flatten() + ss.last() =~= c.flatten() + cur + ss.last());
        } else {
            assert(c.flatten() + (cur + ss.last()) =~= c.flatten() + cur + ss.last());
        }
    }
}

/// The sentences `ss[a..b]` put back together.
pub open spec fn run_of(ss: Seq<Seq<char>>, a: int, b: int) -> Seq<char> {
    ss.subrange(a, b).flatten()
}

/// `x` is a non-empty run of whole consecutive sentences of `ss`.
pub open spec fn is_run(ss: Seq<Seq<char>>, x: Seq<char>) -> bool {
    exists|a: int, b: int| 0 <= a < b <= ss.len() && x == run_of(ss, a, b)
}

proof fn lemma_chunk_state_runs(ss: Seq<Seq<char>>, max: int)
    ensures
        forall|i: int|
            0 <= i < chunk_state(ss, max).0.len() ==> is_run(ss, #[trigger] chunk_state(ss, max).0[i]),
        exists|a: int| 0 <= a <= ss.len() && chunk_state(ss, max).1 == run_of(ss, a, ss.len() as int),
    decreases ss.len(),
{
    if ss.len() == 0 {
        assert(run_of(ss, 0, 0) =~= Seq::<char>::empty()) by {
            assert(ss.subrange(0, 0) =~= Seq::<Seq<char>>::empty());
        }
    } else {
        let p = ss.drop_last();
        lemma_chunk_state_runs(p, max);
        let (c, cur) = chunk_state(p, max);
        let s = ss.last();
        let n = p.len() as int;
        let a0 = choose|a: int| 0 <= a <= n && cur == run_of(p, a, n);
        assert(p.subrange(a0, n) =~= ss.subrange(a0, n));
        assert forall|i: int| 0 <= i < c.len() implies is_run(ss, #[trigger] c[i]) by {
            assert(is_run(p, c[i]));
            let (a, b) = choose|a: int, b: int| 0 <= a < b <= n && c[i] == run_of(p, a, b);
            assert(p.subrange(a, b) =~= ss.subrange(a, b));
            assert(c[i] == run_of(ss, a, b));
        }
        assert(ss.subrange(n, n + 1) =~= seq![s]);
        seq![s].lemma_flatten_one_element();
        assert(ss.subrange(a0, n + 1) =~= ss.subrange(a0, n).push(s));
        ss.subrange(a0, n).lemma_flatten_push(s);
        let (c2, cur2) = chunk_state(ss, max);
        if byte_len(cur) + byte_len(s) > max && cur.len() > 0 {
            assert(ss.subrange(n, n) =~= Seq::<Seq<char>>::empty());
            assert(a0 < n);
            assert(c2 == c.push(cur));
            assert forall|i: int| 0 <= i < c2.len() implies is_run(ss, #[trigger] c2[i]) by {
                if i < c.len() {
                    assert(c2[i] == c[i]);
                } else {
                    assert(c2[i] == run_of(ss, a0, n));
                }
            }
            assert(cur2 == run_of(ss, n, n + 1));
        } else {
            assert(cur2 == run_of(ss, a0, n + 1));
        }
    }
}

/// Chunks never cut a sentence: each chunk is a run of whole consecutive
/// sentences.
pub proof fn lemma_group_chunks_whole_sentences(ss: Seq<Seq<char>>, max: int)
    ensures
        forall|i: int|
            0 <= i < group_chunks(ss, max).len() ==> is_run(ss, #[trigger] group_chunks(ss, max)[i]),
{
    lemma_chunk_state_runs(ss, max);
    let (c, cur) = chunk_state(ss, max);
    let g = group_chunks(ss, max);
    if cur.len() > 0 {
        let a0 = choose|a: int| 0 <= a <= ss.len() && cur == run_of(ss, a, ss.len() as int);
        assert(ss.subrange(ss.len() as int, ss.len() as int) =~= Seq::<Seq<char>>::empty());
        assert(run_of(ss, ss.len() as int, ss.len() as int).len() == 0);
        assert(a0 < ss.len());
        assert(g == c.push(cur));
        assert forall|i: int| 0 <= i < g.len() implies is_run(ss, #[trigger] g[i]) by {
            if i < c.len() {
                assert(g[i] == c[i]);
                assert(is_run(ss, c[i]));
                let (a, b) = choose|a: int, b: int| 0 <= a < b <= ss.len() && c[i] == run_of(ss, a, b);
                assert(g[i] == run_of(ss, a, b));
            } else {
                assert(g[i] == run_of(ss, a0, ss.len() as int));
            }
        }
    } else {
        assert(g == c);
        assert forall|i: int| 0 <= i < g.len() implies is_run(ss, #[trigger] g[i]) by {
            assert(is_run(ss, c[i]));
            let (a, b) = choose|a: int, b: int| 0 <= a < b <= ss.len() && c[i] == run_of(ss, a, b);
            assert(g[i] == run_of(ss, a, b));
        }
    }
}

/// Grouping sentences into chunks loses and adds nothing: the chunks,
/// concatenated, are the sentences concatenated.
pub proof fn lemma_group_chunks_concat(ss: Seq<Seq<char>>, max: int)
    ensures
        group_chunks(ss, max).flatten() == ss.flatten(),
{
    lemma_chunk_state_concat(ss, max);
    let (c, cur) = chunk_state(ss, max);
    if cur.len() > 0 {
        c.lemma_flatten_push(cur);
    } else {
        assert(c.flatten() + cur =~= c.flatten());
    }
}

proof fn lemma_chunk_state_bound(ss: Seq<Seq<char>>, max: int)
    ensures
        forall|i: int| 0 <= i < chunk_state(ss, max).0.len() ==> byte_len(
            #[trigger] chunk_state(ss, max).0[i],
        ) <= max || exists|j: int| 0 <= j < ss.len() && chunk_state(ss, max).0[i] == ss[j],
        chunk_state(ss, max).1.len() == 0 || byte_len(chunk_state(ss, max).1) <= max || exists|j: int|
            0 <= j < ss.len() && chunk_state(ss, max).1 == ss[j],
    decreases ss.len(),
{
    if ss.len() > 0 {
        lemma_chunk_state_bound(ss.drop_last(), max);
        let (c, cur) = chunk_state(ss.drop_last(), max);
        let s = ss.last();
        assert forall|j: int| 0 <= j < ss.drop_last().len() implies ss.drop_last()[j] == ss[j] by {}
        if byte_len(cur) + byte_len(s) > max && cur.len() > 0 {
            assert(ss[ss.len() - 1] == s);
        } else {
            if cur.len() == 0 {
                assert(cur + s =~= s);
                assert(ss[ss.len() - 1] == s);
            } else {
                assert(byte_len(cur + s) == byte_len(cur) + byte_len(s)) by {
                    crate::text::lemma_byte_len_concat(cur, s);
                }
            }
        }
    }
}

/// Every chunk fits in `max` bytes, unless it is a single sentence that
/// does not.
pub proof fn lemma_group_chunks_bound(ss: Seq<Seq<char>>, max: int)
    ensures
        forall|i: int| 0 <= i < group_chunks(ss, max).len() ==> byte_len(
            #[trigger] group_chunks(ss, max)[i],
        ) <= max || exists|j: int| 0 <= j < ss.len() && group_chunks(ss, max)[i] == ss[j],
{
    lemma_chunk_state_bound(ss, max);
    let (c, cur) = chunk_state(ss, max);
    if cur.len() > 0 {
        assert forall|i: int| 0 <= i < c.push(cur).len() implies byte_len(#[trigger] c.push(cur)[i])
            <= max || exists|j: int| 0 <= j < ss.len() && c.push(cur)[i] == ss[j] by {
            if i < c.len() {
                assert(c.push(cur)[i] == c[i]);
            }
        }
    }
}

/// No `<`, `>`, `"` or `'` in the text.
pub open spec fn markup_free(s: Seq<char>) -> bool {
    forall|i: int| 0 <= i < s.len() ==> s[i] != '<' && s[i] != '>' && s[i] != '"' && s[i] != '\''
}

proof fn lemma_trimmed_nonblank(ss: Seq<Seq<char>>)
    ensures
        forall|i: int|
            0 <= i < trimmed_nonblank(ss).len() ==> (#[trigger] trimmed_nonblank(ss)[i]).len() > 0
                && exists|j: int| 0 <= j < ss.len() && trimmed_nonblank(ss)[i] == trim(ss[j]),
    decreases ss.len(),
{
    if ss.len() > 0 {
        lemma_trimmed_nonblank(ss.drop_last());
        let r = trimmed_nonblank(ss.drop_last());
        assert forall|i: int| 0 <= i < trimmed_nonblank(ss).len() implies (#[trigger] trimmed_nonblank(
            ss,
        )[i]).len() > 0 && exists|j: int| 0 <= j < ss.len() && trimmed_nonblank(ss)[i] == trim(ss[j]) by {
            if i < r.len() {
                assert(trimmed_nonblank(ss)[i] == r[i]);
                let j = choose|j: int| 0 <= j < ss.drop_last().len() && r[i] == trim(ss.drop_last()[j]);
                assert(ss[j] == ss.drop_last()[j]);
            } else {
                assert(trimmed_nonblank(ss)[i] == trim(ss.last()));
                assert(ss[ss.len() - 1] == ss.last());
            }
        }
    }
}

/// The SSML document is `<speak>`, its paragraphs, `</speak>`. A paragraph
/// gives a `<p>` element exactly when, trimmed, it has a non-blank
/// sentence: `<p>`, one `<s>` element per non-blank sentence of the
/// trimmed paragraph, each sentence trimmed and escaped, then `</p>`;
/// otherwise nothing.
pub proof fn lemma_ssml_document(text: Seq<char>)
    ensures
        ssml_spec(text).len() >= 15,
        ssml_spec(text).take(7) == "<speak>"@,
        ssml_spec(text).skip(ssml_spec(text).len() - 8) == "</speak>"@,
        forall|p: Seq<char>|
            (#[trigger] ssml_paragraph(p)).len() > 0 <==> (trim(p).len() > 0 && trimmed_nonblank(
                sentences_spec(trim(p)),
            ).len() > 0),
        forall|p: Seq<char>|
            (#[trigger] ssml_paragraph(p)).len() > 0 ==> ssml_paragraph(p) == "<p>"@ + trimmed_nonblank(
                sentences_spec(trim(p)),
            ).map_values(|s: Seq<char>| ssml_sentence(s)).flatten() + "</p>"@,
        forall|ss: Seq<Seq<char>>, i: int|
            0 <= i < trimmed_nonblank(ss).len() ==> (#[trigger] trimmed_nonblank(ss)[i]).len() > 0
                && exists|j: int| 0 <= j < ss.len() && trimmed_nonblank(ss)[i] == trim(ss[j]),
{
    reveal(ssml_paragraph);
    reveal_strlit("<speak>");
    reveal_strlit("</speak>");
    reveal_strlit("<p><s></s></p>");
    reveal_strlit("<p>");
    reveal_strlit("</p>");
    let body = split_on(text, "\n\n"@).map_values(|p: Seq<char>| ssml_paragraph(p)).flatten();
    let mid = if body.len() == 0 {
        "<p><s></s></p>"@
    } else {
        body
    };
    assert(ssml_spec(text) == "<speak>"@ + mid + "</speak>"@);
    assert(("<speak>"@ + mid + "</speak>"@).take(7) =~= "<speak>"@);
    assert(("<speak>"@ + mid + "</speak>"@).skip(ssml_spec(text).len() - 8) =~= "</speak>"@);
    assert forall|ss: Seq<Seq<char>>, i: int|
        0 <= i < trimmed_nonblank(ss).len() implies (#[trigger] trimmed_nonblank(ss)[i]).len() > 0
            && exists|j: int| 0 <= j < ss.len() && trimmed_nonblank(ss)[i] == trim(ss[j]) by {
        lemma_trimmed_nonblank(ss);
    }
}

/// Escaped text holds none of the characters that would end an XML
/// attribute or start a tag.
pub proof fn lemma_xml_escape_markup_free(s: Seq<char>)
    ensures
        markup_free(xml_escape_spec(s)),
    decreases s.len(),
{
    if s.len() == 0 {
        assert(xml_escape_spec(s) =~= Seq::<char>::empty());
    } else {
        let p = s.drop_last();
        lemma_xml_escape_markup_free(p);
        assert(p.push(s.last()) =~= s);
        crate::text::lemma_flat_map_push(p, s.last(), |c: char| xml_escape_char(c));
        let e = xml_escape_char(s.last());
        assert(markup_free(e));
        let whole = xml_escape_spec(p) + e;
        assert forall|i: int| 0 <= i < whole.len() implies whole[i] != '<' && whole[i] != '>'
            && whole[i] != '"' && whole[i] != '\'' by {
            if i < xml_escape_spec(p).len() {
                assert(whole[i] == xml_escape_spec(p)[i]);
            } else {
                assert(whole[i] == e[i - xml_escape_spec(p).len()]);
            }
        }
    }
}

proof fn lemma_flatten_member<A>(ss: Seq<Seq<A>>, i: int)
    requires
        0 <= i < ss.flatten().len(),
    ensures
        exists|k: int, j: int| 0 <= k < ss.len() && 0 <= j < ss[k].len() && ss.flatten()[i] == ss[k][j],
    decreases ss.len(),
{
    if ss.len() > 0 {
        let f = ss.first();
        let rest = ss.drop_first();
        assert(ss.flatten() == f + rest.flatten());
        if i < f.len() {
            assert(ss.flatten()[i] == ss[0][i]);
        } else {
            lemma_flatten_member(rest, i - f.len());
            let (k, j) = choose|k: int, j: int| 0 <= k < rest.len() && 0 <= j < rest[k].len()
                && rest.flatten()[i - f.len()] == rest[k][j];
            assert(ss.flatten()[i] == ss[k + 1][j]);
        }
    }
}

proof fn lemma_next_cut_first(t: Seq<char>, start: int, i: int, smart: bool)
    requires
        0 <= i,
    ensures
        next_cut(t, start, i, smart) matches Some(e) ==> i <= e < t.len() && is_cut(t, start, e, smart)
            && forall|j: int| i <= j < e ==> !is_cut(t, start, j, smart),
        next_cut(t, start, i, smart) is None ==> forall|j: int| i <= j ==> !is_cut(t, start, j, smart),
    decreases t.len() - i,
{
    if i < t.len() && !is_cut(t, start, i, smart) {
        lemma_next_cut_first(t, start, i + 1, smart);
    }
}

/// Offset, in the text, at which piece `k` of `ps` starts.
pub open spec fn piece_start(ps: Seq<Seq<char>>, k: int) -> int {
    ps.take(k).flatten().len() as int
}

/// Piece `k` of the sentences of `t[start..]` is the non-empty run of
/// `t` at its offset, holds no sentence end before its last character,
/// and ends at a sentence end unless it is the last piece.
pub open spec fn sentence_piece_ok(t: Seq<char>, start: int, ps: Seq<Seq<char>>, k: int, smart: bool) -> bool {
    let a = start + piece_start(ps, k);
    let p = ps[k];
    &&& p.len() > 0
    &&& a + p.len() <= t.len()
    &&& p == t.subrange(a, a + p.len())
    &&& forall|i: int| a <= i < a + p.len() - 1 ==> !#[trigger] is_cut(t, a, i, smart)
    &&& k < ps.len() - 1 ==> is_cut(t, a, a + p.len() - 1, smart)
}

#[verifier::spinoff_prover]
proof fn lemma_raw_sentence_pieces(t: Seq<char>, start: int, smart: bool)
    requires
        0 <= start,
    ensures
        forall|k: int|
            0 <= k < raw_sentences(t, start, smart).len() ==> #[trigger] sentence_piece_ok(
                t,
                start,
                raw_sentences(t, start, smart),
                k,
                smart,
            ),
    decreases t.len() - start,
{
    let ps = raw_sentences(t, start, smart);
    if start < t.len() {
        lemma_next_cut_first(t, start, start, smart);
        match next_cut(t, start, start, smart) {
            Some(e) => {
                lemma_raw_sentence_pieces(t, e + 1, smart);
                let rest = raw_sentences(t, e + 1, smart);
                let first = t.subrange(start, e + 1);
                assert(ps == seq![first] + rest);
                assert forall|k: int| 0 <= k < ps.len() implies #[trigger] sentence_piece_ok(t, start, ps, k, smart) by {
                    if k == 0 {
                        assert(ps.take(0) =~= Seq::<Seq<char>>::empty());
                        assert(ps[0] == first);
                        assert(first.len() == e + 1 - start);
                    } else {
                        assert(ps[k] == rest[k - 1]);
                        assert(sentence_piece_ok(t, e + 1, rest, k - 1, smart));
                        assert(ps.take(k) =~= seq![first] + rest.take(k - 1));
                        assert((seq![first] + rest.take(k - 1)).drop_first() =~= rest.take(k - 1));
                        assert(ps.take(k).flatten() == first + rest.take(k - 1).flatten());
                        assert(start + piece_start(ps, k) == e + 1 + piece_start(rest, k - 1));
                    }
                }
            },
            None => {
                let only = t.subrange(start, t.len() as int);
                assert(ps == seq![only]);
                assert forall|k: int| 0 <= k < ps.len() implies #[trigger] sentence_piece_ok(t, start, ps, k, smart) by {
                    assert(ps.take(0) =~= Seq::<Seq<char>>::empty());
                    assert(k == 0);
                }
            },
        }
    }
}

/// The sentences of a text, put back together, are the text; each is a
/// non-empty run of the text that ends at the first sentence end after
/// its start (`is_cut`), only the last one possibly without one.
pub proof fn lemma_sentence_pieces(t: Seq<char>, smart: bool)
    ensures
        raw_sentences(t, 0, smart).flatten() == t,
        forall|k: int|
            0 <= k < raw_sentences(t, 0, smart).len() ==> #[trigger] sentence_piece_ok(
                t,
                0,
                raw_sentences(t, 0, smart),
                k,
                smart,
            ),
{
    lemma_raw_sentences_concat(t, 0, smart);
    assert(t.skip(0) =~= t);
    lemma_raw_sentence_pieces(t, 0, smart);
}

proof fn lemma_flatten_singletons(ss: Seq<Seq<char>>, per: Seq<Seq<Seq<char>>>)
    requires
        per.len() == ss.len(),
        forall|k: int| 0 <= k < ss.len() ==> #[trigger] per[k] == seq![ss[k]],
    ensures
        per.flatten() == ss,
    decreases ss.len(),
{
    if ss.len() > 0 {
        lemma_flatten_singletons(ss.drop_first(), per.drop_first());
        assert(per.first() == seq![ss.first()]);
        assert(ss =~= seq![ss.first()] + ss.drop_first());
    }
}

/// A text of at most `MAX_SENTENCE_CHARS` bytes reaches the synthesizer
/// as its sentences unchanged: they put back together give the text; each
/// is non-empty, holds no sentence end before its last character, and
/// ends at a sentence end (`!`, `?`, or a `.` not inside a number nor after
/// an abbreviation) unless it is the last.
pub proof fn lemma_short_text_sentences(t: Seq<char>)
    requires
        byte_len(t) <= MAX_SENTENCE_CHARS,
    ensures
        sentences_spec(t) == raw_sentences(t, 0, true),
        sentences_spec(t).flatten() == t,
        forall|k: int|
            0 <= k < sentences_spec(t).len() ==> #[trigger] sentence_piece_ok(
                t,
                0,
                sentences_spec(t),
                k,
                true,
            ),
{
    lemma_sentence_pieces(t, true);
    let raws = raw_sentences(t, 0, true);
    let per = raws.map_values(|x: Seq<char>| split_long_spec(x));
    assert forall|k: int| 0 <= k < raws.len() implies #[trigger] per[k] == seq![raws[k]] by {
        assert(sentence_piece_ok(t, 0, raws, k, true));
        let a = piece_start(raws, k);
        crate::text::lemma_byte_len_subrange(t, a, a + raws[k].len());
    }
    lemma_flatten_singletons(raws, per);
}

/// Chunk `b` begins with a sentence of `ss` that did not fit after chunk
/// `a`.
pub open spec fn starts_overflowing(ss: Seq<Seq<char>>, a: Seq<char>, b: Seq<char>, max: int) -> bool {
    exists|j: int|
        0 <= j < ss.len() && b.len() >= ss[j].len() && b.take(ss[j].len() as int) == #[trigger] ss[j]
            && byte_len(a) + byte_len(ss[j]) > max
}

proof fn lemma_starts_overflowing_mono(ss: Seq<Seq<char>>, s: Seq<char>, a: Seq<char>, b: Seq<char>, max: int)
    requires
        starts_overflowing(ss, a, b, max),
    ensures
        starts_overflowing(ss.push(s), a, b + s, max),
{
    let j = choose|j: int|
        0 <= j < ss.len() && b.len() >= ss[j].len() && b.take(ss[j].len() as int) == #[trigger] ss[j]
            && byte_len(a) + byte_len(ss[j]) > max;
    assert((b + s).take(ss[j].len() as int) =~= b.take(ss[j].len() as int));
    assert(ss.push(s)[j] == ss[j]);
}

proof fn lemma_starts_overflowing_push(ss: Seq<Seq<char>>, s: Seq<char>, a: Seq<char>, b: Seq<char>, max: int)
    requires
        starts_overflowing(ss, a, b, max),
    ensures
        starts_overflowing(ss.push(s), a, b, max),
{
    let j = choose|j: int|
        0 <= j < ss.len() && b.len() >= ss[j].len() && b.take(ss[j].len() as int) == #[trigger] ss[j]
            && byte_len(a) + byte_len(ss[j]) > max;
    assert(ss.push(s)[j] == ss[j]);
}

proof fn lemma_chunk_state_greedy(ss: Seq<Seq<char>>, max: int)
    ensures
        ({
            let (cs, cur) = chunk_state(ss, max);
            &&& forall|k: int| 0 <= k < cs.len() - 1 ==> starts_overflowing(ss, #[trigger] cs[k], cs[k + 1], max)
            &&& cs.len() > 0 ==> starts_overflowing(ss, cs.last(), cur, max)
        }),
    decreases ss.len(),
{
    if ss.len() > 0 {
        let prev = ss.drop_last();
        let s = ss.last();
        assert(prev.push(s) == ss);
        lemma_chunk_state_greedy(prev, max);
        let (cs, cur) = chunk_state(prev, max);
        assert forall|k: int| 0 <= k < cs.len() - 1 implies starts_overflowing(ss, #[trigger] cs[k], cs[k + 1], max) by {
            lemma_starts_overflowing_push(prev, s, cs[k], cs[k + 1], max);
        }
        if byte_len(cur) + byte_len(s) > max && cur.len() > 0 {
            let cs2 = cs.push(cur);
            assert(s.take(s.len() as int) =~= s);
            assert(ss[ss.len() - 1] == s);
            assert(starts_overflowing(ss, cur, s, max));
            assert forall|k: int| 0 <= k < cs2.len() - 1 implies starts_overflowing(ss, #[trigger] cs2[k], cs2[k + 1], max) by {
                if k < cs.len() - 1 {
                    assert(cs2[k] == cs[k] && cs2[k + 1] == cs[k + 1]);
                } else {
                    assert(cs2[k] == cs.last() && cs2[k + 1] == cur);
                    lemma_starts_overflowing_push(prev, s, cs.last(), cur, max);
                }
            }
        } else if cs.len() > 0 {
            lemma_starts_overflowing_mono(prev, s, cs.last(), cur, max);
        }
    }
}

/// Greedy packing: each chunk after the first begins with a sentence that
/// would have pushed the chunk before it past `max` bytes, so a chunk is
/// closed only when the next sentence does not fit.
pub proof fn lemma_group_chunks_greedy(ss: Seq<Seq<char>>, max: int)
    ensures
        forall|k: int|
            0 <= k < group_chunks(ss, max).len() - 1 ==> starts_overflowing(
                ss,
                #[trigger] group_chunks(ss, max)[k],
                group_chunks(ss, max)[k + 1],
                max,
            ),
{
    lemma_chunk_state_greedy(ss, max);
    let (cs, cur) = chunk_state(ss, max);
    if cur.len() > 0 {
        let g = cs.push(cur);
        assert forall|k: int| 0 <= k < g.len() - 1 implies starts_overflowing(ss, #[trigger] g[k], g[k + 1], max) by {
            if k < cs.len() - 1 {
                assert(g[k] == cs[k] && g[k + 1] == cs[k + 1]);
            } else {
                assert(g[k] == cs.last() && g[k + 1] == cur);
            }
        }
    }
}

proof fn lemma_flatten_all_empty<A>(ss: Seq<Seq<A>>)
    requires
        forall|k: int| 0 <= k < ss.len() ==> (#[trigger] ss[k]).len() == 0,
    ensures
        ss.flatten().len() == 0,
    decreases ss.len(),
{
    if ss.len() > 0 {
        assert(ss.first().len() == 0);
        lemma_flatten_all_empty(ss.drop_first());
    }
}

/// There is always at least one chunk to synthesize: when no section has
/// a non-blank body, the bodies joined by blank lines form the one chunk,
/// of the first section, with no pause after it.
pub proof fn lemma_build_chunks_nonempty(secs: Seq<(Option<Seq<char>>, Seq<char>)>, max: int)
    ensures
        build_chunks_spec(secs, max).len() > 0,
        (forall|k: int| 0 <= k < secs.len() ==> trim(#[trigger] secs[k].1).len() == 0)
            ==> build_chunks_spec(secs, max) == seq![
            (join(secs.map_values(|s: (Option<Seq<char>>, Seq<char>)| s.1), "\n\n"@), 0int, false),
        ],
{
    let last_idx = if secs.len() == 0 {
        0
    } else {
        secs.len() - 1
    };
    let per = Seq::new(secs.len(), |k: int| section_chunks(secs[k].1, k, last_idx, max));
    if forall|k: int| 0 <= k < secs.len() ==> trim(#[trigger] secs[k].1).len() == 0 {
        assert forall|k: int| 0 <= k < per.len() implies (#[trigger] per[k]).len() == 0 by {
            assert(trim(secs[k].1).len() == 0);
        }
        lemma_flatten_all_empty(per);
    }
}

/// Only a chunk that ends a section other than the last is followed by
/// the section pause; every chunk names a section of the input (or the
/// first, for the single fallback chunk).
pub proof fn lemma_build_chunks_pauses(secs: Seq<(Option<Seq<char>>, Seq<char>)>, max: int)
    ensures
        forall|i: int| 0 <= i < build_chunks_spec(secs, max).len() ==> {
            let c = #[trigger] build_chunks_spec(secs, max)[i];
            &&& c.2 ==> 0 <= c.1 < secs.len() - 1
            &&& secs.len() > 0 ==> 0 <= c.1 < secs.len()
        },
{
    let last_idx = if secs.len() == 0 {
        0
    } else {
        secs.len() - 1
    };
    let per = Seq::new(secs.len(), |k: int| section_chunks(secs[k].1, k, last_idx, max));
    let cs = per.flatten();
    assert forall|i: int| 0 <= i < cs.len() implies (cs[i].2 ==> 0 <= cs[i].1 < secs.len() - 1) && (
    secs.len() > 0 ==> 0 <= cs[i].1 < secs.len()) by {
        lemma_flatten_member(per, i);
        let (k, j) = choose|k: int, j: int| 0 <= k < per.len() && 0 <= j < per[k].len() && cs[i]
            == per[k][j];
        assert(per[k] == section_chunks(secs[k].1, k, last_idx, max));
    }
}

/// Where the section pauses fall in a chunk list: no pause between two
/// chunks of the same section, and a pause after the last chunk of every
/// section before the last one.
pub open spec fn pauses_between_sections(cs: Seq<(Seq<char>, int, bool)>, last_idx: int) -> bool {
    &&& forall|i: int| 0 <= i < cs.len() - 1 && (#[trigger] cs[i]).1 == cs[i + 1].1 ==> !cs[i].2
    &&& forall|i: int|
        0 <= i < cs.len() && (#[trigger] cs[i]).1 < last_idx && (i == cs.len() - 1 || cs[i + 1].1 != cs[i].1)
            ==> cs[i].2
    &&& forall|i: int| 0 <= i < cs.len() && (#[trigger] cs[i]).2 ==> cs[i].1 < last_idx
}

#[verifier::spinoff_prover]
#[verifier::rlimit(40)]
proof fn lemma_groups_pauses(gs: Seq<Seq<(Seq<char>, int, bool)>>, lo: int, last_idx: int)
    requires
        forall|k: int, j: int|
            0 <= k < gs.len() && 0 <= j < gs[k].len() ==> (#[trigger] gs[k][j]).1 == lo + k && (gs[k][j].2
                <==> (j == gs[k].len() - 1 && lo + k < last_idx)),
    ensures
        pauses_between_sections(gs.flatten(), last_idx),
        forall|i: int| 0 <= i < gs.flatten().len() ==> (#[trigger] gs.flatten()[i]).1 >= lo,
    decreases gs.len(),
{
    if gs.len() > 0 {
        let rest = gs.drop_first();
        assert forall|k: int, j: int| 0 <= k < rest.len() && 0 <= j < rest[k].len() implies (#[trigger] rest[k][j]).1
            == (lo + 1) + k && (rest[k][j].2 <==> (j == rest[k].len() - 1 && (lo + 1) + k < last_idx)) by {
            assert(rest[k] == gs[k + 1]);
        }
        lemma_groups_pauses(rest, lo + 1, last_idx);
        let g = gs[0];
        let r = rest.flatten();
        let cs = gs.flatten();
        assert(cs == g + r);
        assert forall|j: int| 0 <= j < g.len() implies (#[trigger] g[j]).1 == lo && (g[j].2 <==> (j == g.len() - 1
            && lo < last_idx)) by {
            assert(gs[0][j] == g[j]);
        }
        assert forall|i: int| 0 <= i < cs.len() implies (#[trigger] cs[i]) == (if i < g.len() {
            g[i]
        } else {
            r[i - g.len()]
        }) by {}
        assert forall|i: int| 0 <= i < cs.len() implies (#[trigger] cs[i]).1 >= lo by {
            if i >= g.len() {
                assert(r[i - g.len()].1 >= lo + 1);
            }
        }
        assert forall|i: int| 0 <= i < cs.len() - 1 && (#[trigger] cs[i]).1 == cs[i + 1].1 implies !cs[i].2 by {
            if i + 1 < g.len() {
            } else if i + 1 == g.len() {
                assert(cs[i + 1] == r[0]);
                assert(r[0].1 >= lo + 1);
            } else {
                assert(cs[i] == r[i - g.len()] && cs[i + 1] == r[i - g.len() + 1]);
            }
        }
        assert forall|i: int|
            0 <= i < cs.len() && (#[trigger] cs[i]).1 < last_idx && (i == cs.len() - 1 || cs[i + 1].1
                != cs[i].1) implies cs[i].2 by {
            if i < g.len() {
                if i < g.len() - 1 {
                    assert(cs[i + 1] == g[i + 1]);
                }
            } else {
                assert(cs[i] == r[i - g.len()]);
                if i < cs.len() - 1 {
                    assert(cs[i + 1] == r[i - g.len() + 1]);
                }
            }
        }
        assert forall|i: int| 0 <= i < cs.len() && (#[trigger] cs[i]).2 implies cs[i].1 < last_idx by {
            if i >= g.len() {
                assert(cs[i] == r[i - g.len()]);
            }
        }
    } else {
        assert(gs.flatten() =~= Seq::<(Seq<char>, int, bool)>::empty());
    }
}

/// When some section has a non-blank body, a chunk is followed by the
/// section pause exactly when it is the last chunk of its section and that
/// section is not the last one: never between two chunks of one section,
/// always after the last chunk of an earlier section.
#[verifier::spinoff_prover]
#[verifier::rlimit(40)]
pub proof fn lemma_build_chunks_pause_placement(secs: Seq<(Option<Seq<char>>, Seq<char>)>, max: int)
    requires
        exists|k: int| 0 <= k < secs.len() && trim(#[trigger] secs[k].1).len() > 0,
    ensures
        pauses_between_sections(build_chunks_spec(secs, max), secs.len() - 1),
{
    let last_idx = secs.len() - 1;
    let per = Seq::new(secs.len(), |k: int| section_chunks(secs[k].1, k, last_idx, max));
    assert forall|k: int, j: int| 0 <= k < per.len() && 0 <= j < per[k].len() implies (#[trigger] per[k][j]).1
        == 0 + k && (per[k][j].2 <==> (j == per[k].len() - 1 && 0 + k < last_idx)) by {
        assert(per[k] == section_chunks(secs[k].1, k, last_idx, max));
    }
    lemma_groups_pauses(per, 0, last_idx);
    let k0 = choose|k: int| 0 <= k < secs.len() && trim(#[trigger] secs[k].1).len() > 0;
    let sub = sub_chunk_spec(secs[k0].1, max);
    assert(sub.len() > 0);
    assert(per[k0].len() > 0);
    lemma_flatten_len_pos(per, k0);
}

/// `g` is one of the non-empty groups `gs`, numbered from `lo`.
pub open spec fn nonempty_group(gs: Seq<Seq<(Seq<char>, int, bool)>>, lo: int, g: int) -> bool {
    0 <= g - lo < gs.len() && gs[g - lo].len() > 0
}

#[verifier::spinoff_prover]
#[verifier::rlimit(40)]
proof fn lemma_groups_order(gs: Seq<Seq<(Seq<char>, int, bool)>>, lo: int)
    requires
        forall|k: int, j: int| 0 <= k < gs.len() && 0 <= j < gs[k].len() ==> (#[trigger] gs[k][j]).1 == lo + k,
    ensures
        forall|i: int| 0 <= i < gs.flatten().len() ==> nonempty_group(gs, lo, (#[trigger] gs.flatten()[i]).1),
        forall|i: int, j: int|
            0 <= i <= j < gs.flatten().len() ==> (#[trigger] gs.flatten()[i]).1 <= (#[trigger] gs.flatten()[j]).1,
        forall|k: int|
            0 <= k < gs.len() && (#[trigger] gs[k]).len() > 0 ==> exists|i: int|
                0 <= i < gs.flatten().len() && (#[trigger] gs.flatten()[i]).1 == lo + k,
    decreases gs.len(),
{
    if gs.len() > 0 {
        let rest = gs.drop_first();
        assert forall|k: int, j: int| 0 <= k < rest.len() && 0 <= j < rest[k].len() implies (#[trigger] rest[k][j]).1
            == (lo + 1) + k by {
            assert(rest[k] == gs[k + 1]);
        }
        lemma_groups_order(rest, lo + 1);
        let g = gs[0];
        let r = rest.flatten();
        let cs = gs.flatten();
        assert(cs == g + r);
        assert forall|i: int| 0 <= i < cs.len() implies (#[trigger] cs[i]) == (if i < g.len() {
            g[i]
        } else {
            r[i - g.len()]
        }) by {}
        assert forall|i: int| 0 <= i < cs.len() implies nonempty_group(gs, lo, (#[trigger] cs[i]).1) by {
            if i < g.len() {
                assert(gs[0][i] == g[i]);
            } else {
                assert(nonempty_group(rest, lo + 1, r[i - g.len()].1));
                let k = r[i - g.len()].1 - (lo + 1);
                assert(gs[k + 1] == rest[k]);
            }
        }
        assert forall|i: int, j: int| 0 <= i <= j < cs.len() implies (#[trigger] cs[i]).1 <= (#[trigger] cs[j]).1 by {
            if i < g.len() {
                assert(gs[0][i] == g[i]);
                if j < g.len() {
                    assert(gs[0][j] == g[j]);
                } else {
                    assert(nonempty_group(rest, lo + 1, r[j - g.len()].1));
                }
            } else {
                assert(cs[i] == r[i - g.len()] && cs[j] == r[j - g.len()]);
            }
        }
        assert forall|k: int| 0 <= k < gs.len() && (#[trigger] gs[k]).len() > 0 implies exists|i: int|
            0 <= i < cs.len() && (#[trigger] cs[i]).1 == lo + k by {
            if k == 0 {
                assert(gs[0][0] == g[0]);
                assert(cs[0] == g[0]);
            } else {
                assert(rest[k - 1] == gs[k]);
                let i = choose|i: int| 0 <= i < r.len() && (#[trigger] r[i]).1 == (lo + 1) + (k - 1);
                assert(cs[g.len() + i] == r[i]);
            }
        }
    }
}

/// When some section has a non-blank body, the chunks come section by
/// section in order, each from a section with a non-blank body, and every
/// such section has at least one chunk.
#[verifier::spinoff_prover]
#[verifier::rlimit(40)]
pub proof fn lemma_build_chunks_sections(secs: Seq<(Option<Seq<char>>, Seq<char>)>, max: int)
    requires
        exists|k: int| 0 <= k < secs.len() && trim(#[trigger] secs[k].1).len() > 0,
    ensures
        forall|i: int|
            0 <= i < build_chunks_spec(secs, max).len() ==> {
                let k = (#[trigger] build_chunks_spec(secs, max)[i]).1;
                0 <= k < secs.len() && trim(secs[k].1).len() > 0
            },
        forall|i: int, j: int|
            0 <= i <= j < build_chunks_spec(secs, max).len() ==> (#[trigger] build_chunks_spec(secs, max)[i]).1
                <= (#[trigger] build_chunks_spec(secs, max)[j]).1,
        forall|k: int|
            0 <= k < secs.len() && trim(#[trigger] secs[k].1).len() > 0 ==> exists|i: int|
                0 <= i < build_chunks_spec(secs, max).len() && (#[trigger] build_chunks_spec(secs, max)[i]).1 == k,
{
    let last_idx = secs.len() - 1;
    let per = Seq::new(secs.len(), |k: int| section_chunks(secs[k].1, k, last_idx, max));
    assert forall|k: int, j: int| 0 <= k < per.len() && 0 <= j < per[k].len() implies (#[trigger] per[k][j]).1
        == 0 + k by {
        assert(per[k] == section_chunks(secs[k].1, k, last_idx, max));
    }
    lemma_groups_order(per, 0);
    let k0 = choose|k: int| 0 <= k < secs.len() && trim(#[trigger] secs[k].1).len() > 0;
    assert(per[k0].len() > 0);
    lemma_flatten_len_pos(per, k0);
    let cs = per.flatten();
    assert(build_chunks_spec(secs, max) == cs);
    assert forall|i: int| 0 <= i < cs.len() implies {
        let k = (#[trigger] cs[i]).1;
        0 <= k < secs.len() && trim(secs[k].1).len() > 0
    } by {
        assert(nonempty_group(per, 0, cs[i].1));
        let k = cs[i].1;
        assert(per[k] == section_chunks(secs[k].1, k, last_idx, max));
    }
    assert forall|k: int| 0 <= k < secs.len() && trim(#[trigger] secs[k].1).len() > 0 implies exists|i: int|
        0 <= i < cs.len() && (#[trigger] cs[i]).1 == k by {
        assert(per[k] == section_chunks(secs[k].1, k, last_idx, max));
        assert(sub_chunk_spec(secs[k].1, max).len() > 0);
        assert(per[k].len() > 0);
    }
}

/// The chunks of section `k`.
pub open spec fn in_section(k: int) -> spec_fn((Seq<char>, int, bool)) -> bool {
    |c: (Seq<char>, int, bool)| c.1 == k
}

/// The texts of chunks.
pub open spec fn chunk_texts(cs: Seq<(Seq<char>, int, bool)>) -> Seq<Seq<char>> {
    cs.map_values(|c: (Seq<char>, int, bool)| c.0)
}

proof fn lemma_filter_all<A>(s: Seq<A>, p: spec_fn(A) -> bool)
    requires
        forall|i: int| 0 <= i < s.len() ==> p(#[trigger] s[i]),
    ensures
        s.filter(p) == s,
    decreases s.len(),
{
    reveal(Seq::filter);
    if s.len() > 0 {
        lemma_filter_all(s.drop_last(), p);
        assert(s.drop_last().push(s.last()) =~= s);
    }
}

proof fn lemma_filter_none<A>(s: Seq<A>, p: spec_fn(A) -> bool)
    requires
        forall|i: int| 0 <= i < s.len() ==> !p(#[trigger] s[i]),
    ensures
        s.filter(p) == Seq::<A>::empty(),
    decreases s.len(),
{
    reveal(Seq::filter);
    if s.len() > 0 {
        lemma_filter_none(s.drop_last(), p);
    }
}

#[verifier::spinoff_prover]
#[verifier::rlimit(40)]
proof fn lemma_groups_filter(gs: Seq<Seq<(Seq<char>, int, bool)>>, lo: int, k: int)
    requires
        forall|g: int, j: int| 0 <= g < gs.len() && 0 <= j < gs[g].len() ==> (#[trigger] gs[g][j]).1 == lo + g,
    ensures
        gs.flatten().filter(in_section(k)) == (if lo <= k < lo + gs.len() {
            gs[k - lo]
        } else {
            Seq::<(Seq<char>, int, bool)>::empty()
        }),
    decreases gs.len(),
{
    if gs.len() == 0 {
        lemma_filter_none(gs.flatten(), in_section(k));
    } else {
        let rest = gs.drop_first();
        assert forall|g: int, j: int| 0 <= g < rest.len() && 0 <= j < rest[g].len() implies (#[trigger] rest[g][j]).1
            == (lo + 1) + g by {
            assert(rest[g] == gs[g + 1]);
        }
        lemma_groups_filter(rest, lo + 1, k);
        let g0 = gs[0];
        assert(gs.flatten() == g0 + rest.flatten());
        Seq::filter_distributes_over_add(g0, rest.flatten(), in_section(k));
        assert forall|j: int| 0 <= j < g0.len() implies (#[trigger] g0[j]).1 == lo by {
            assert(gs[0][j] == g0[j]);
        }
        if k == lo {
            lemma_filter_all(g0, in_section(k));
            assert(g0.filter(in_section(k)) + Seq::<(Seq<char>, int, bool)>::empty() =~= g0);
        } else {
            lemma_filter_none(g0, in_section(k));
            if lo + 1 <= k < lo + gs.len() {
                assert(rest[k - lo - 1] == gs[k - lo]);
            }
            assert(Seq::<(Seq<char>, int, bool)>::empty() + rest.flatten().filter(in_section(k)) =~= rest.flatten().filter(
                in_section(k),
            ));
        }
    }
}

/// When some section has a non-blank body, the chunks of each section, in
/// order, carry exactly its `sub_chunk` pieces; a section with a blank
/// body has none.
#[verifier::spinoff_prover]
#[verifier::rlimit(40)]
pub proof fn lemma_build_chunks_texts(secs: Seq<(Option<Seq<char>>, Seq<char>)>, max: int)
    requires
        exists|k: int| 0 <= k < secs.len() && trim(#[trigger] secs[k].1).len() > 0,
    ensures
        forall|k: int|
            0 <= k < secs.len() ==> chunk_texts(#[trigger] build_chunks_spec(secs, max).filter(in_section(k))) == (if trim(
                secs[k].1,
            ).len() > 0 {
                sub_chunk_spec(secs[k].1, max)
            } else {
                Seq::<Seq<char>>::empty()
            }),
{
    let last_idx = secs.len() - 1;
    let per = Seq::new(secs.len(), |k: int| section_chunks(secs[k].1, k, last_idx, max));
    assert forall|g: int, j: int| 0 <= g < per.len() && 0 <= j < per[g].len() implies (#[trigger] per[g][j]).1 == 0 + g by {
        assert(per[g] == section_chunks(secs[g].1, g, last_idx, max));
    }
    let k0 = choose|k: int| 0 <= k < secs.len() && trim(#[trigger] secs[k].1).len() > 0;
    assert(per[k0].len() > 0);
    lemma_flatten_len_pos(per, k0);
    assert(build_chunks_spec(secs, max) == per.flatten());
    assert forall|k: int| 0 <= k < secs.len() implies chunk_texts(
        #[trigger] build_chunks_spec(secs, max).filter(in_section(k)),
    ) == (if trim(secs[k].1).len() > 0 {
        sub_chunk_spec(secs[k].1, max)
    } else {
        Seq::<Seq<char>>::empty()
    }) by {
        lemma_groups_filter(per, 0, k);
        assert(per[k] == section_chunks(secs[k].1, k, last_idx, max));
        if trim(secs[k].1).len() > 0 {
            assert(chunk_texts(per[k]) =~= sub_chunk_spec(secs[k].1, max));
        } else {
            assert(chunk_texts(per[k]) =~= Seq::<Seq<char>>::empty());
        }
    }
}

proof fn lemma_flatten_len_pos<A>(s: Seq<Seq<A>>, k: int)
    requires
        0 <= k < s.len(),
        s[k].len() > 0,
    ensures
        s.flatten().len() > 0,
    decreases s.len(),
{
    if k > 0 {
        lemma_flatten_len_pos(s.drop_first(), k - 1);
    }
}

proof fn lemma_last_ws_before_lt(s: Seq<char>, p: int)
    ensures
        last_ws_before(s, p) matches Some(c) ==> 0 <= c < p,
    decreases p,
{
    if p > 0 && !is_ws(s[p - 1]) {
        lemma_last_ws_before_lt(s, p - 1);
    }
}

proof fn lemma_prefix_within_fits(s: Seq<char>, max: int)
    requires
        max >= 0,
    ensures
        0 <= prefix_within(s, max) <= s.len(),
        byte_len(s.take(prefix_within(s, max))) <= max,
    decreases s.len(),
{
    if byte_len(s) <= max || s.len() == 0 {
        assert(s.take(s.len() as int) =~= s);
    } else {
        lemma_prefix_within_fits(s.drop_last(), max);
        let p = prefix_within(s.drop_last(), max);
        assert(s.drop_last().take(p) =~= s.take(p));
    }
}

/// A piece cut off an over-long fragment has at most
/// `MAX_SENTENCE_CHARS` characters before its closing ". ".
proof fn lemma_hard_cut_fits(rem: Seq<char>)
    ensures
        0 <= hard_cut(rem) <= rem.len(),
        trim_end(rem.take(hard_cut(rem))).len() <= MAX_SENTENCE_CHARS,
{
    let m = MAX_SENTENCE_CHARS as int;
    let pw = prefix_within(rem, m);
    lemma_prefix_within_fits(rem, m);
    lemma_last_ws_before_lt(rem, pw);
    let cut = hard_cut(rem);
    if cut <= pw {
        lemma_byte_len_prefix(rem.take(pw), cut);
        assert(rem.take(pw).take(cut) =~= rem.take(cut));
        lemma_byte_len_bounds(rem.take(cut));
    }
    lemma_trim_end_len(rem.take(cut));
}

proof fn lemma_hard_loop_fits(rem: Seq<char>)
    ensures
        forall|i: int| 0 <= i < hard_loop(rem).len() ==> (#[trigger] hard_loop(rem)[i]).len() <= MAX_SENTENCE_CHARS + 2,
    decreases rem.len(),
{
    if byte_len(rem) <= MAX_SENTENCE_CHARS {
        lemma_byte_len_bounds(rem);
    } else {
        let cut = hard_cut(rem);
        let next = trim_start(rem.skip(cut));
        if 0 <= cut <= rem.len() && next.len() < rem.len() {
            lemma_hard_cut_fits(rem);
            lemma_hard_loop_fits(next);
            let first = dot_space(trim_end(rem.take(cut)));
            assert(hard_loop(rem) == seq![first] + hard_loop(next));
            assert forall|i: int| 0 <= i < hard_loop(rem).len() implies (#[trigger] hard_loop(rem)[i]).len()
                <= MAX_SENTENCE_CHARS + 2 by {
                if i > 0 {
                    assert(hard_loop(rem)[i] == hard_loop(next)[i - 1]);
                }
            }
        }
    }
}

proof fn lemma_split_long_fits(sentence: Seq<char>)
    ensures
        forall|i: int| 0 <= i < split_long_spec(sentence).len() ==> (#[trigger] split_long_spec(sentence)[i]).len()
            <= MAX_SENTENCE_CHARS + 2,
{
    if byte_len(sentence) <= MAX_SENTENCE_CHARS {
        lemma_byte_len_bounds(sentence);
    } else {
        let per = long_pieces(sentence).map_values(|p: Seq<char>| hard_split_spec(p));
        assert forall|i: int| 0 <= i < per.flatten().len() implies (#[trigger] per.flatten()[i]).len()
            <= MAX_SENTENCE_CHARS + 2 by {
            lemma_flatten_member(per, i);
            let (k, j) = choose|k: int, j: int| 0 <= k < per.len() && 0 <= j < per[k].len()
                && per.flatten()[i] == per[k][j];
            let p = long_pieces(sentence)[k];
            assert(per[k] == hard_split_spec(p));
            if byte_len(p) <= MAX_SENTENCE_CHARS {
                lemma_byte_len_bounds(p);
            } else {
                lemma_hard_loop_fits(p);
            }
        }
    }
}

/// Every sentence handed to the synthesizer has at most
/// `MAX_SENTENCE_CHARS` characters plus the ". " that closes a piece cut
/// from a longer sentence.
pub proof fn lemma_sentences_fit(t: Seq<char>)
    ensures
        forall|i: int| 0 <= i < sentences_spec(t).len() ==> (#[trigger] sentences_spec(t)[i]).len()
            <= MAX_SENTENCE_CHARS + 2,
{
    let raws = raw_sentences(t, 0, true);
    let per = raws.map_values(|s: Seq<char>| split_long_spec(s));
    assert forall|i: int| 0 <= i < per.flatten().len() implies (#[trigger] per.flatten()[i]).len()
        <= MAX_SENTENCE_CHARS + 2 by {
        lemma_flatten_member(per, i);
        let (k, j) = choose|k: int, j: int| 0 <= k < per.len() && 0 <= j < per[k].len()
            && per.flatten()[i] == per[k][j];
        assert(per[k] == split_long_spec(raws[k]));
        lemma_split_long_fits(raws[k]);
    }
}

/// `sub_chunk` packs the sentences of a text greedily, in order: each
/// chunk is a run of whole consecutive sentences (or the text itself, when
/// grouping yields nothing); the chunks put back together are the
/// sentences put back together; a chunk is closed only when the next
/// sentence would push it past `max` bytes; a chunk over `max` bytes is a
/// single sentence.
pub proof fn lemma_sub_chunk_packs(text: Seq<char>, max: int)
    ensures
        sub_chunk_spec(text, max) == seq![text] || forall|i: int|
            0 <= i < sub_chunk_spec(text, max).len() ==> is_run(
                sentences_spec(text),
                #[trigger] sub_chunk_spec(text, max)[i],
            ),
        sentences_spec(text).flatten().len() > 0 ==> sub_chunk_spec(text, max).flatten()
            == sentences_spec(text).flatten(),
        sentences_spec(text).flatten().len() == 0 ==> sub_chunk_spec(text, max).flatten() == text
            || sub_chunk_spec(text, max).flatten().len() == 0,
        forall|k: int|
            0 <= k < sub_chunk_spec(text, max).len() - 1 ==> starts_overflowing(
                sentences_spec(text),
                #[trigger] sub_chunk_spec(text, max)[k],
                sub_chunk_spec(text, max)[k + 1],
                max,
            ),
        forall|i: int|
            0 <= i < sub_chunk_spec(text, max).len() ==> byte_len(#[trigger] sub_chunk_spec(text, max)[i])
                <= max || sub_chunk_spec(text, max) == seq![text] || exists|j: int|
                0 <= j < sentences_spec(text).len() && sub_chunk_spec(text, max)[i]
                    == sentences_spec(text)[j],
{
    let ss = sentences_spec(text);
    lemma_group_chunks_concat(ss, max);
    lemma_group_chunks_greedy(ss, max);
    lemma_group_chunks_bound(ss, max);
    lemma_group_chunks_whole_sentences(ss, max);
    if group_chunks(ss, max).len() == 0 {
        seq![text].lemma_flatten_one_element();
    }
}

// ---------------------------------------------------------------------------
// Synthesized audio.
// ---------------------------------------------------------------------------

/// The bytes that the `base64` crate's standard engine decodes from `s`;
/// `None` when `s` is not valid padded base64.
pub uninterp spec fn base64_decoded(s: Seq<char>) -> Option<Seq<u8>>;

/// `base64::engine::general_purpose::STANDARD.decode(s)`, its error taken
/// to `None`; the contract names the result `base64_decoded(s)`.
#[verifier::external_body]
fn decode_base64(s: &str) -> (r: Option<Vec<u8>>)
    ensures
        match r {
            Some(v) => base64_decoded(s@) == Some(v@),
            None => base64_decoded(s@) is None,
        },
{
    base64::engine::general_purpose::STANDARD.decode(s).ok()
}

/// The message of audio that does not decode.
pub const AUDIO_DECODE_ERROR: &'static str = "Failed to decode Google TTS audio";

/// The MP3 bytes of a synthesis answer's base64 `audioContent`.
pub fn decode_audio_content(audio_content: &str) -> (r: Result<Vec<u8>, String>)
    ensures
        r is Ok <==> base64_decoded(audio_content@) is Some,
        r matches Ok(v) ==> base64_decoded(audio_content@) == Some(v@),
        r matches Err(m) ==> m@ == AUDIO_DECODE_ERROR@,
{
    match decode_base64(audio_content) {
        Some(v) => Ok(v),
        None => Err(crate::text::owned(AUDIO_DECODE_ERROR)),
    }
}

} // verus!
