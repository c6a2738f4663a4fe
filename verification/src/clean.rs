//! Text cleanup planning: locating the sections of a paper from an outline,
//! splitting long sections into chunks, and the prompts and decisions of
//! the cleanup calls.
use vstd::prelude::*;
use crate::text::{byte_len, byte_len_of, chars_of, find, lemma_find, lemma_rfind, occurs_at, opt_int, push_str, rfind, str_views, string_of, trim, trim_newlines, trim_start, trim_start_by, trim_end_by, strip_pred, is_ws, split_on};
use crate::tts::prefix_within;
use crate::document::opt_view;

verus! {

broadcast use vstd::seq_lib::group_seq_properties;

// ---------------------------------------------------------------------------
// Anchors.
// ---------------------------------------------------------------------------

/// First (or, with `last`, last) occurrence of `p` in `h`.
pub open spec fn locate(h: Seq<char>, p: Seq<char>, last: bool) -> Option<int> {
    if last {
        rfind(h, p)
    } else {
        find(h, p)
    }
}

/// The first `n` characters of the anchor without its leading whitespace
/// (all of it when shorter).
pub open spec fn anchor_prefix(a: Seq<char>, n: int) -> Seq<char> {
    let t = trim_start(a);
    t.take(if n < t.len() {
        n
    } else {
        t.len() as int
    })
}

/// The first `n` characters of the anchor (without leading whitespace),
/// tried when they take at least 10 bytes.
pub open spec fn prefix_try(h: Seq<char>, a: Seq<char>, n: int, last: bool) -> Option<int> {
    let t = trim_start(a);
    let pre = t.take(if n < t.len() {
        n
    } else {
        t.len() as int
    });
    if byte_len(pre) < 10 {
        None
    } else {
        locate(h, pre, last)
    }
}

/// Position of `a` in `h`; when the whole anchor is absent, of its first
/// 60, 40, 25 or 15 characters, in that order.
pub open spec fn anchor_find(h: Seq<char>, a: Seq<char>, last: bool) -> Option<int> {
    match locate(h, a, last) {
        Some(o) => Some(o),
        None => match prefix_try(h, a, 60, last) {
            Some(o) => Some(o),
            None => match prefix_try(h, a, 40, last) {
                Some(o) => Some(o),
                None => match prefix_try(h, a, 25, last) {
                    Some(o) => Some(o),
                    None => prefix_try(h, a, 15, last),
                },
            },
        },
    }
}

/// `locate` on `v[lo..hi]`.
fn locate_exec(v: &Vec<char>, lo: usize, hi: usize, p: &Vec<char>, last: bool) -> (r: Option<usize>)
    requires
        lo <= hi <= v@.len(),
    ensures
        opt_int(r) == locate(v@.subrange(lo as int, hi as int), p@, last),
        r matches Some(k) ==> k + p@.len() <= hi - lo,
{
    if last {
        crate::text::rfind_exec(v, lo, hi, p)
    } else {
        crate::text::find_exec(v, lo, hi, p)
    }
}

/// `prefix_try` on `v[lo..hi]`.
fn prefix_try_exec(v: &Vec<char>, lo: usize, hi: usize, a: &Vec<char>, n: usize, last: bool) -> (r:
    Option<usize>)
    requires
        lo <= hi <= v@.len(),
        byte_len(a@) <= usize::MAX,
    ensures
        opt_int(r) == prefix_try(v@.subrange(lo as int, hi as int), a@, n as int, last),
        r matches Some(k) ==> k <= hi - lo,
{
    let ts = crate::text::trim_start_index(a, 0, a.len(), false);
    proof {
        assert(a@.subrange(0, a@.len() as int) =~= a@);
    }
    let m = if n < a.len() - ts {
        n
    } else {
        a.len() - ts
    };
    let pre_end = ts + m;
    let pre_bytes = crate::text::byte_len_of(a, ts, pre_end);
    let pre = crate::text::sub_chars(a, ts, pre_end);
    proof {
        assert(a@.subrange(ts as int, a@.len() as int).take(m as int) =~= a@.subrange(ts as int, pre_end as int));
    }
    if pre_bytes < 10 {
        None
    } else {
        locate_exec(v, lo, hi, &pre, last)
    }
}

/// `anchor_find` on `v[lo..hi]`.
fn anchor_find_exec(v: &Vec<char>, lo: usize, hi: usize, a: &Vec<char>, last: bool) -> (r: Option<usize>)
    requires
        lo <= hi <= v@.len(),
        byte_len(a@) <= usize::MAX,
    ensures
        opt_int(r) == anchor_find(v@.subrange(lo as int, hi as int), a@, last),
        r matches Some(k) ==> k <= hi - lo,
{
    if let Some(o) = locate_exec(v, lo, hi, a, last) {
        return Some(o);
    }
    if let Some(o) = prefix_try_exec(v, lo, hi, a, 60, last) {
        return Some(o);
    }
    if let Some(o) = prefix_try_exec(v, lo, hi, a, 40, last) {
        return Some(o);
    }
    if let Some(o) = prefix_try_exec(v, lo, hi, a, 25, last) {
        return Some(o);
    }
    prefix_try_exec(v, lo, hi, a, 15, last)
}

/// What the anchor search finds is a real match: of the whole anchor, or
/// of its first 60, 40, 25 or 15 characters (without leading whitespace)
/// when these take at least 10 bytes. Where the whole anchor occurs, its
/// first (with `last`, its last) occurrence is what is found.
pub proof fn lemma_anchor_find_matches(h: Seq<char>, a: Seq<char>, last: bool)
    ensures
        anchor_find(h, a, last) matches Some(k) ==> occurs_at(h, a, k) || exists|n: int|
            (n == 60 || n == 40 || n == 25 || n == 15) && byte_len(anchor_prefix(a, n)) >= 10
                && #[trigger] occurs_at(h, anchor_prefix(a, n), k),
        (exists|j: int| occurs_at(h, a, j)) ==> (anchor_find(h, a, last) matches Some(k) && occurs_at(
            h,
            a,
            k,
        ) && (!last ==> forall|j: int| 0 <= j < k ==> !occurs_at(h, a, j)) && (last ==> forall|j: int|
            k < j ==> !occurs_at(h, a, j))),
{
    lemma_find(h, a);
    lemma_rfind(h, a);
    if locate(h, a, last) is None {
        let ns = seq![60int, 40, 25, 15];
        assert forall|i: int| 0 <= i < 4 implies (#[trigger] prefix_try(h, a, ns[i], last)) matches Some(k)
            ==> byte_len(anchor_prefix(a, ns[i])) >= 10 && occurs_at(h, anchor_prefix(a, ns[i]), k) by {
            lemma_find(h, anchor_prefix(a, ns[i]));
            lemma_rfind(h, anchor_prefix(a, ns[i]));
        }
        assert(prefix_try(h, a, ns[0], last) == prefix_try(h, a, 60, last));
        assert(prefix_try(h, a, ns[1], last) == prefix_try(h, a, 40, last));
        assert(prefix_try(h, a, ns[2], last) == prefix_try(h, a, 25, last));
        assert(prefix_try(h, a, ns[3], last) == prefix_try(h, a, 15, last));
    }
}

/// Byte offset of character index `k` of `h`.
pub open spec fn byte_offset(h: Seq<char>, k: int) -> int {
    byte_len(h.take(k)) as int
}

/// The byte offset of an anchor position.
pub open spec fn anchor_byte_offset(h: Seq<char>, a: Seq<char>, last: bool) -> Option<int> {
    match anchor_find(h, a, last) {
        Some(k) => Some(byte_offset(h, k)),
        None => None,
    }
}

/// Finds `anchor` in `haystack` (first or, with `last`, last occurrence),
/// falling back to progressively shorter prefixes of the anchor; returns a
/// byte offset.
pub fn find_anchor_with(haystack: &str, anchor: &str, last: bool) -> (r: Option<usize>)
    ensures
        opt_int(r) == anchor_byte_offset(haystack@, anchor@, last),
{
    let v = chars_of(haystack);
    let a = chars_of(anchor);
    proof {
        assert(v@.subrange(0, v@.len() as int) =~= v@);
    }
    match anchor_find_exec(&v, 0, v.len(), &a, last) {
        Some(k) => {
            proof {
                assert(v@.subrange(0, k as int) =~= v@.take(k as int));
            }
            Some(crate::text::byte_len_of(&v, 0, k))
        },
        None => None,
    }
}

/// Byte offset of the first match of `anchor` (or of a prefix of it).
pub fn find_anchor(haystack: &str, anchor: &str) -> (r: Option<usize>)
    ensures
        opt_int(r) == anchor_byte_offset(haystack@, anchor@, false),
{
    find_anchor_with(haystack, anchor, false)
}

/// Byte offset of the last match of `anchor` (or of a prefix of it).
pub fn rfind_anchor(haystack: &str, anchor: &str) -> (r: Option<usize>)
    ensures
        opt_int(r) == anchor_byte_offset(haystack@, anchor@, true),
{
    find_anchor_with(haystack, anchor, true)
}


// ---------------------------------------------------------------------------
// Locating sections.
// ---------------------------------------------------------------------------

/// A top-level section of an outline: its title and a verbatim phrase where
/// its body begins.
pub struct OutlineSection {
    pub title: String,
    pub start_anchor: String,
}

/// The outline of a paper returned by the outline call.
pub struct Outline {
    pub intro_line: Option<String>,
    pub sections: Vec<OutlineSection>,
    pub main_body_end_anchor: Option<String>,
}

/// (title, anchor) of each outline section.
pub open spec fn outline_secs(o: &Outline) -> Seq<(Seq<char>, Seq<char>)> {
    o.sections@.map_values(|s: OutlineSection| (s.title@, s.start_anchor@))
}

/// Why the sections of a text could not be located.
pub enum LocateError {
    /// The outline lists no section.
    NoSections,
    /// Neither the anchor nor a prefix of it occurs after the previous
    /// section.
    AnchorNotFound { title: String, anchor: String },
    /// A located section is shorter than `MIN_SECTION_CHARS` bytes once
    /// trimmed, which means the anchors matched a table of contents.
    TinySection { title: String, chars: usize },
}

/// A section body shorter than this (in bytes, trimmed) means the anchors
/// matched a table of contents.
pub const MIN_SECTION_CHARS: usize = 300;

/// Character index at which the first `b` bytes of `s` end, when that is a
/// character boundary.
pub open spec fn bytes_to_chars(s: Seq<char>, b: int) -> Option<int>
    decreases s.len(),
{
    if b == 0 {
        Some(0)
    } else if b < 0 || s.len() == 0 {
        None
    } else {
        match bytes_to_chars(s.drop_first(), b - crate::text::utf8_width(s[0])) {
            Some(k) => Some(k + 1),
            None => None,
        }
    }
}

/// Progress of the forward walk over the outline sections.
pub enum StartsState {
    /// Section starts (character index, title) so far and the cursor, in
    /// bytes, where the next search begins.
    Found(Seq<(int, Seq<char>)>, int),
    /// The anchor of section `k` was not found.
    Missing(int),
    /// The cursor fell inside a character (slicing there panics).
    Unsafe,
}

/// Forward walk: each section's anchor is searched after the previous
/// match, and the cursor advances past the matched anchor.
pub open spec fn locate_starts(raw: Seq<char>, secs: Seq<(Seq<char>, Seq<char>)>) -> StartsState
    decreases secs.len(),
{
    if secs.len() == 0 {
        StartsState::Found(seq![], 0)
    } else {
        match locate_starts(raw, secs.drop_last()) {
            StartsState::Found(st, cb) => match bytes_to_chars(raw, cb) {
                None => StartsState::Unsafe,
                Some(cc) => {
                    let (title, anchor) = secs.last();
                    match anchor_find(raw.skip(cc), anchor, false) {
                        None => StartsState::Missing(secs.len() - 1),
                        Some(rel) => {
                            let abs = cc + rel;
                            let rest = byte_len(raw.skip(abs)) as int;
                            let adv = if (byte_len(anchor) as int) < rest {
                                byte_len(anchor) as int
                            } else {
                                rest
                            };
                            StartsState::Found(st.push((abs, title)), byte_offset(raw, abs) + adv)
                        },
                    }
                },
            },
            other => other,
        }
    }
}

/// Where the located sections begin and end: the first section's start
/// and the end of the main body.
pub open spec fn located_span(
    raw: Seq<char>,
    secs: Seq<(Seq<char>, Seq<char>)>,
    end_anchor: Option<Seq<char>>,
) -> (int, int) {
    match locate_starts(raw, secs) {
        StartsState::Found(st, _) => (st[0].0, body_end(raw, end_anchor, st.last().0)),
        _ => (0, 0),
    }
}

/// Outcome of `locate_sections`.
pub enum LocateOutcome {
    NoSections,
    Missing(int),
    Unsafe,
    Tiny(Seq<char>, int),
    Sliced(Seq<(Seq<char>, Seq<char>)>),
}

/// Index of the first slice, at or after `i`, whose trimmed body is shorter
/// than `MIN_SECTION_CHARS` bytes.
pub open spec fn first_tiny(slices: Seq<(Seq<char>, Seq<char>)>, i: int) -> Option<int>
    decreases slices.len() - i,
{
    if i < 0 || i >= slices.len() {
        None
    } else if byte_len(trim(slices[i].1)) < MIN_SECTION_CHARS {
        Some(i)
    } else {
        first_tiny(slices, i + 1)
    }
}

/// Where the main body ends: the last match of the end anchor when it lies
/// after the last section start, the end of the text otherwise.
pub open spec fn body_end(raw: Seq<char>, end_anchor: Option<Seq<char>>, last_start: int) -> int {
    match end_anchor {
        Some(a) => match anchor_find(raw, a, true) {
            Some(o) => if o > last_start {
                o
            } else {
                raw.len() as int
            },
            None => raw.len() as int,
        },
        None => raw.len() as int,
    }
}

/// The slices between consecutive section starts, the last one up to `end`.
pub open spec fn slices_of(raw: Seq<char>, st: Seq<(int, Seq<char>)>, end: int) -> Seq<
    (Seq<char>, Seq<char>),
> {
    Seq::new(
        st.len(),
        |i: int|
            (st[i].1, raw.subrange(
                st[i].0,
                if i + 1 < st.len() {
                    st[i + 1].0
                } else {
                    end
                },
            )),
    )
}

/// `locate_sections`: split the raw text into (title, slice) pairs.
pub open spec fn locate_spec(
    raw: Seq<char>,
    secs: Seq<(Seq<char>, Seq<char>)>,
    end_anchor: Option<Seq<char>>,
) -> LocateOutcome {
    if secs.len() == 0 {
        LocateOutcome::NoSections
    } else {
        match locate_starts(raw, secs) {
            StartsState::Missing(k) => LocateOutcome::Missing(k),
            StartsState::Unsafe => LocateOutcome::Unsafe,
            StartsState::Found(st, _) => {
                let end = body_end(raw, end_anchor, st.last().0);
                let slices = slices_of(raw, st, end);
                match first_tiny(slices, 0) {
                    Some(i) => LocateOutcome::Tiny(slices[i].0, byte_len(trim(slices[i].1)) as int),
                    None => LocateOutcome::Sliced(slices),
                }
            },
        }
    }
}

proof fn lemma_starts_absorb(raw: Seq<char>, secs: Seq<(Seq<char>, Seq<char>)>, k: int)
    requires
        0 <= k <= secs.len(),
        !(locate_starts(raw, secs.take(k)) is Found),
    ensures
        locate_starts(raw, secs) == locate_starts(raw, secs.take(k)),
    decreases secs.len() - k,
{
    if k == secs.len() {
        assert(secs.take(k) =~= secs);
    } else {
        assert(secs.drop_last().take(k) =~= secs.take(k));
        lemma_starts_absorb(raw, secs.drop_last(), k);
    }
}

proof fn lemma_starts_step(raw: Seq<char>, secs: Seq<(Seq<char>, Seq<char>)>, k: int)
    requires
        0 <= k < secs.len(),
    ensures
        secs.take(k + 1).drop_last() == secs.take(k),
        secs.take(k + 1).last() == secs[k],
{
    assert(secs.take(k + 1).drop_last() =~= secs.take(k));
}

/// `bytes_to_chars(v@, b)`.
fn bytes_to_chars_exec(v: &Vec<char>, b: usize) -> (r: Option<usize>)
    ensures
        opt_int(r) == bytes_to_chars(v@, b as int),
        r matches Some(k) ==> k <= v@.len() && byte_offset(v@, k as int) == b,
{
    let mut k: usize = 0;
    let mut acc: usize = 0;
    proof {
        assert(v@.skip(0) =~= v@);
        assert(v@.take(0) =~= Seq::<char>::empty());
    }
    while k < v.len() && acc < b
        invariant
            k <= v@.len(),
            acc <= b,
            acc == byte_len(v@.take(k as int)),
            bytes_to_chars(v@, b as int) == match bytes_to_chars(v@.skip(k as int), b - acc) {
                Some(j) => Some(j + k),
                None => None,
            },
        decreases v@.len() - k,
    {
        let w = crate::text::char_width(v[k]);
        proof {
            assert(v@.skip(k as int).drop_first() =~= v@.skip(k + 1));
            assert(v@.take(k + 1) =~= v@.take(k as int).push(v@[k as int]));
            crate::text::lemma_byte_len_push(v@.take(k as int), v@[k as int]);
        }
        if w > b - acc {
            proof {
                lemma_bytes_to_chars_neg(v@.skip(k + 1), b - acc - w);
            }
            return None;
        }
        acc = acc + w;
        k += 1;
    }
    if acc == b {
        Some(k)
    } else {
        None
    }
}

proof fn lemma_bytes_to_chars_neg(s: Seq<char>, b: int)
    requires
        b < 0,
    ensures
        bytes_to_chars(s, b) is None,
{
}


/// Views of (index, title) starts.
pub open spec fn start_views(st: Seq<(usize, String)>) -> Seq<(int, Seq<char>)> {
    st.map_values(|x: (usize, String)| (x.0 as int, x.1@))
}

/// Views of (title, text) pairs.
pub open spec fn pair_views(v: Seq<(String, String)>) -> Seq<(Seq<char>, Seq<char>)> {
    v.map_values(|x: (String, String)| (x.0@, x.1@))
}

proof fn lemma_byte_offset_mono(s: Seq<char>, a: int, b: int)
    requires
        0 <= a <= b <= s.len(),
    ensures
        byte_offset(s, a) + (b - a) <= byte_offset(s, b),
{
    crate::text::lemma_byte_len_concat(s.take(a), s.subrange(a, b));
    assert(s.take(a) + s.subrange(a, b) =~= s.take(b));
    crate::text::lemma_byte_len_bounds(s.subrange(a, b));
}

/// The forward walk over the outline sections (exec form of
/// `locate_starts`); `Err(Some(k))` when the anchor of section `k` is
/// missing, `Err(None)` when the cursor falls inside a character.
#[verifier::rlimit(40)]
fn walk_starts(v: &Vec<char>, secs: &Vec<OutlineSection>, Ghost(all): Ghost<Seq<(Seq<char>, Seq<char>)>>) -> (r: Result<(Vec<(usize, String)>, usize), Option<usize>>)
    requires
        byte_len(v@) <= usize::MAX,
        all == secs@.map_values(|s: OutlineSection| (s.title@, s.start_anchor@)),
    ensures
        match r {
            Ok((st, cb)) => {
                &&& locate_starts(v@, all) == StartsState::Found(start_views(st@), cb as int)
                &&& st@.len() == secs@.len()
                &&& forall|i: int, j: int| 0 <= i <= j < st@.len() ==> st@[i].0 <= st@[j].0
                &&& forall|i: int| 0 <= i < st@.len() ==> (#[trigger] st@[i]).0 <= v@.len()
            },
            Err(Some(k)) => locate_starts(v@, all) == StartsState::Missing(k as int) && k < secs@.len(),
            Err(None) => locate_starts(v@, all) is Unsafe,
        },
{
    let mut st: Vec<(usize, String)> = Vec::new();
    let mut cb: usize = 0;
    let mut k: usize = 0;
    proof {
        assert(all.take(0) =~= Seq::<(Seq<char>, Seq<char>)>::empty());
        assert(start_views(st@) =~= Seq::<(int, Seq<char>)>::empty());
    }
    while k < secs.len()
        invariant
            k <= secs@.len() == all.len(),
            byte_len(v@) <= usize::MAX,
            all == secs@.map_values(|s: OutlineSection| (s.title@, s.start_anchor@)),
            locate_starts(v@, all.take(k as int)) == StartsState::Found(start_views(st@), cb as int),
            st@.len() == k,
            forall|i: int, j: int| 0 <= i <= j < st@.len() ==> st@[i].0 <= st@[j].0,
            forall|i: int| 0 <= i < st@.len() ==> (#[trigger] st@[i]).0 <= v@.len(),
            st@.len() > 0 ==> byte_offset(v@, st@.last().0 as int) <= cb,
            cb <= byte_len(v@),
        decreases secs@.len() - k,
    {
        proof {
            lemma_starts_step(v@, all, k as int);
        }
        let cc = match bytes_to_chars_exec(v, cb) {
            Some(c) => c,
            None => {
                proof {
                    lemma_starts_absorb(v@, all, k + 1);
                }
                return Err(None);
            },
        };
        let a = chars_of(secs[k].start_anchor.as_str());
        proof {
            assert(v@.subrange(cc as int, v@.len() as int) =~= v@.skip(cc as int));
            if st@.len() > 0 {
                let l = st@.last().0 as int;
                if l > cc {
                    lemma_byte_offset_mono(v@, cc as int, l);
                }
            }
        }
        match anchor_find_exec(v, cc, v.len(), &a, false) {
            None => {
                proof {
                    lemma_starts_absorb(v@, all, k + 1);
                }
                return Err(Some(k));
            },
            Some(rel) => {
                let abs = cc + rel;
                let ab = crate::text::byte_len_of(v, 0, abs);
                let rest = crate::text::byte_len_of(v, abs, v.len());
                let alen = crate::text::byte_len_of(&a, 0, a.len());
                proof {
                    assert(v@.subrange(0, abs as int) =~= v@.take(abs as int));
                    assert(v@.subrange(abs as int, v@.len() as int) =~= v@.skip(abs as int));
                    assert(a@.subrange(0, a@.len() as int) =~= a@);
                    crate::text::lemma_byte_len_prefix(v@, abs as int);
                }
                let adv = if alen < rest {
                    alen
                } else {
                    rest
                };
                let title = secs[k].title.clone();
                proof {
                    assert(start_views(st@.push((abs, title))) =~= start_views(st@).push(
                        (abs as int, title@),
                    ));
                }
                st.push((abs, title));
                cb = ab + adv;
            },
        }
        k += 1;
    }
    proof {
        assert(all.take(all.len() as int) =~= all);
    }
    Ok((st, cb))
}


/// Cuts `v` at the section starts, the last slice ending at `end`, and
/// checks that no trimmed slice is shorter than `MIN_SECTION_CHARS` bytes.
fn cut_slices(v: &Vec<char>, st: &Vec<(usize, String)>, end: usize) -> (r: Result<
    Vec<(String, String)>,
    LocateError,
>)
    requires
        byte_len(v@) <= usize::MAX,
        st@.len() > 0,
        forall|a: int, b: int| 0 <= a <= b < st@.len() ==> st@[a].0 <= st@[b].0,
        st@[st@.len() - 1].0 <= end <= v@.len(),
    ensures
        ({
            let slices = slices_of(v@, start_views(st@), end as int);
            match first_tiny(slices, 0) {
                Some(i) => r matches Err(LocateError::TinySection { title, chars }) && title@
                    == slices[i].0 && chars == byte_len(trim(slices[i].1)),
                None => r matches Ok(out) && pair_views(out@) == slices,
            }
        }),
{
    let ghost sv = start_views(st@);
    let ghost slices = slices_of(v@, sv, end as int);
    let n = st.len();
    let mut out: Vec<(String, String)> = Vec::new();
    let mut i: usize = 0;
    while i < n
        invariant
            i <= n == st@.len() == sv.len(),
            n > 0,
            byte_len(v@) <= usize::MAX,
            sv == start_views(st@),
            st@[n - 1].0 <= end <= v@.len(),
            forall|a: int, b: int| 0 <= a <= b < st@.len() ==> st@[a].0 <= st@[b].0,
            slices == slices_of(v@, sv, end as int),
            pair_views(out@) == slices.take(i as int),
            first_tiny(slices, 0) == first_tiny(slices, i as int),
        decreases n - i,
    {
        let a = st[i].0;
        let b = if i < n - 1 {
            st[i + 1].0
        } else {
            end
        };
        proof {
            assert(slices[i as int].1 == v@.subrange(a as int, b as int));
            assert(slices[i as int].0 == st@[i as int].1@);
        }
        let (ta, tb) = crate::text::trim_bounds(v, a, b);
        let tbytes = crate::text::byte_len_of(v, ta, tb);
        let title = st[i].1.clone();
        if tbytes < MIN_SECTION_CHARS {
            return Err(LocateError::TinySection { title, chars: tbytes });
        }
        let text = string_of(v, a, b);
        proof {
            assert(pair_views(out@.push((title, text))) =~= pair_views(out@).push((title@, text@)));
            assert(slices.take(i + 1) =~= slices.take(i as int).push(slices[i as int]));
        }
        out.push((title, text));
        i += 1;
    }
    proof {
        assert(slices.take(n as int) =~= slices);
    }
    Ok(out)
}

/// Splits the raw text into (title, slice) pairs using the outline's
/// anchors: sections are found in order, each after the previous one; the
/// body ends at the end anchor when that lies after the last section start.
pub fn locate_sections(raw_text: &str, outline: &Outline) -> (r: Result<Vec<(String, String)>, LocateError>)
    requires
        !(locate_spec(raw_text@, outline_secs(outline), opt_view(outline.main_body_end_anchor))
            is Unsafe),
    ensures
        match locate_spec(raw_text@, outline_secs(outline), opt_view(outline.main_body_end_anchor)) {
            LocateOutcome::NoSections => r matches Err(LocateError::NoSections),
            LocateOutcome::Missing(k) => r matches Err(LocateError::AnchorNotFound { title, anchor })
                && title@ == outline_secs(outline)[k].0 && anchor@ == outline_secs(outline)[k].1,
            LocateOutcome::Tiny(t, n) => r matches Err(LocateError::TinySection { title, chars })
                && title@ == t && chars == n,
            LocateOutcome::Sliced(sl) => r matches Ok(v) && pair_views(v@) == sl && slice_texts(
                sl,
            ).flatten() == raw_text@.subrange(
                located_span(raw_text@, outline_secs(outline), opt_view(outline.main_body_end_anchor)).0,
                located_span(raw_text@, outline_secs(outline), opt_view(outline.main_body_end_anchor)).1,
            ),
            LocateOutcome::Unsafe => false,
        },
{
    let ghost all = outline_secs(outline);
    let ghost end_anchor = opt_view(outline.main_body_end_anchor);
    if outline.sections.len() == 0 {
        return Err(LocateError::NoSections);
    }
    let v = chars_of(raw_text);
    let (st, _cb) = match walk_starts(&v, &outline.sections, Ghost(all)) {
        Ok(x) => x,
        Err(None) => {
            // Excluded by the precondition.
            return Err(LocateError::NoSections);
        },
        Err(Some(k)) => {
            let title = outline.sections[k].title.clone();
            let anchor = outline.sections[k].start_anchor.clone();
            return Err(LocateError::AnchorNotFound { title, anchor });
        },
    };
    let ghost sv = start_views(st@);
    let n = st.len();
    proof {
        assert(sv.len() == all.len());
    }
    let last_start = st[n - 1].0;
    let end: usize = match &outline.main_body_end_anchor {
        Some(a) => {
            let av = chars_of(a.as_str());
            proof {
                assert(v@.subrange(0, v@.len() as int) =~= v@);
            }
            match anchor_find_exec(&v, 0, v.len(), &av, true) {
                Some(o) => if o > last_start {
                    o
                } else {
                    v.len()
                },
                None => v.len(),
            }
        },
        None => v.len(),
    };
    assert(end == body_end(v@, end_anchor, sv.last().0));
    proof {
        assert forall|a: int, b: int| 0 <= a <= b < sv.len() implies sv[a].0 <= sv[b].0 by {
            assert(sv[a].0 == st@[a].0 && sv[b].0 == st@[b].0);
        }
        lemma_slices_cover(v@, sv, end as int);
    }
    cut_slices(&v, &st, end)
}

// ---------------------------------------------------------------------------
// Splitting sections into chunks.
// ---------------------------------------------------------------------------

/// Target maximum size, in bytes, of a chunk sent to the cleanup model.
pub const TARGET_CHUNK_CHARS: usize = 25000;

/// Characters of the previous chunk's tail passed along as context.
pub const PREV_TAIL_CHARS: usize = 400;

/// Where a window of an over-long paragraph is cut: after its last `". "`,
/// else after its last newline, else at its end.
pub open spec fn sentence_cut(w: Seq<char>) -> int {
    match rfind(w, seq!['.', ' ']) {
        Some(i) => i + 2,
        None => match rfind(w, seq!['\n']) {
            Some(i) => i + 1,
            None => w.len() as int,
        },
    }
}

pub proof fn lemma_prefix_within_le(s: Seq<char>, max: int)
    ensures
        0 <= prefix_within(s, max) <= s.len(),
    decreases s.len(),
{
    if !(byte_len(s) <= max || s.len() == 0) {
        lemma_prefix_within_le(s.drop_last(), max);
    }
}

pub proof fn lemma_trim_start_len(s: Seq<char>, nl: bool)
    ensures
        trim_start_by(s, nl).len() <= s.len(),
    decreases s.len(),
{
    if s.len() > 0 && crate::text::strip_pred(nl, s[0]) {
        lemma_trim_start_len(s.drop_first(), nl);
    }
}

proof fn lemma_prefix_within_take(s: Seq<char>, max: int)
    ensures
        prefix_within(s, max) > 0 ==> byte_len(s.take(prefix_within(s, max))) <= max,
    decreases s.len(),
{
    if byte_len(s) <= max || s.len() == 0 {
        assert(s.take(s.len() as int) =~= s);
    } else {
        lemma_prefix_within_take(s.drop_last(), max);
        lemma_prefix_within_le(s.drop_last(), max);
        let p = prefix_within(s.drop_last(), max);
        assert(s.drop_last().take(p) =~= s.take(p));
    }
}

/// The window of a target of at least 4 bytes holds at least one
/// character.
proof fn lemma_prefix_within_pos(s: Seq<char>, max: int)
    requires
        max >= 4,
        s.len() > 0,
    ensures
        prefix_within(s, max) > 0,
    decreases s.len(),
{
    if !(byte_len(s) <= max) {
        if s.len() == 1 {
            assert(s.drop_last().len() == 0);
            assert(byte_len(s) == byte_len(s.drop_last()) + crate::text::utf8_width(s.last()));
        } else {
            assert(s.drop_last()[0] == s[0]);
            lemma_prefix_within_pos(s.drop_last(), max);
        }
    }
}

pub proof fn lemma_sentence_cut(w: Seq<char>)
    requires
        w.len() > 0,
    ensures
        1 <= sentence_cut(w) <= w.len(),
{
    crate::text::lemma_rfind(w, seq!['.', ' ']);
    crate::text::lemma_rfind(w, seq!['\n']);
}

/// The pieces of an over-long paragraph, each cut at a sentence boundary
/// within the first `target` bytes (the window snapped down to a character
/// boundary); `None` only when that window holds no character, which
/// cannot happen for a target of at least 4 bytes.
#[verifier::opaque]
pub open spec fn sentence_groups(rem: Seq<char>, target: int) -> Option<Seq<Seq<char>>>
    decreases rem.len(),
{
    if byte_len(rem) <= target {
        if rem.len() == 0 {
            Some(seq![])
        } else {
            Some(seq![trim(rem)])
        }
    } else {
        let k = prefix_within(rem, target);
        if k == 0 {
            None
        } else {
            let c = sentence_cut(rem.take(k));
            proof {
                lemma_prefix_within_le(rem, target);
                lemma_sentence_cut(rem.take(k));
                lemma_trim_start_len(rem.skip(c), false);
            }
            match sentence_groups(trim_start(rem.skip(c)), target) {
                Some(g) => Some(seq![trim(rem.take(c))] + g),
                None => None,
            }
        }
    }
}

/// `sentence_cut(v[lo..hi])`.
fn sentence_cut_exec(v: &Vec<char>, lo: usize, hi: usize) -> (c: usize)
    requires
        lo < hi <= v@.len(),
    ensures
        c == sentence_cut(v@.subrange(lo as int, hi as int)),
        1 <= c <= hi - lo,
{
    let mut dot: Vec<char> = Vec::new();
    dot.push('.');
    dot.push(' ');
    let mut nl: Vec<char> = Vec::new();
    nl.push('\n');
    proof {
        assert(dot@ =~= seq!['.', ' ']);
        assert(nl@ =~= seq!['\n']);
    }
    match crate::text::rfind_exec(v, lo, hi, &dot) {
        Some(i) => i + 2,
        None => match crate::text::rfind_exec(v, lo, hi, &nl) {
            Some(i) => i + 1,
            None => hi - lo,
        },
    }
}

/// `a` followed by the pieces in `x`, if any.
pub open spec fn opt_prepend(a: Seq<Seq<char>>, x: Option<Seq<Seq<char>>>) -> Option<Seq<Seq<char>>> {
    match x {
        Some(g) => Some(a + g),
        None => None,
    }
}

proof fn lemma_groups_step(rem: Seq<char>, t: int, k: int, c: int)
    requires
        byte_len(rem) > t,
        k == prefix_within(rem, t),
        0 < k,
        c == sentence_cut(rem.take(k)),
    ensures
        sentence_groups(rem, t) == opt_prepend(
            seq![trim(rem.take(c))],
            sentence_groups(trim_start(rem.skip(c)), t),
        ),
{
    reveal(sentence_groups);
}

proof fn lemma_groups_stuck(rem: Seq<char>, t: int)
    requires
        byte_len(rem) > t,
        prefix_within(rem, t) == 0,
    ensures
        sentence_groups(rem, t) is None,
{
    reveal(sentence_groups);
}

proof fn lemma_groups_last(rem: Seq<char>, t: int)
    requires
        byte_len(rem) <= t,
    ensures
        sentence_groups(rem, t) == (if rem.len() == 0 {
            Some(Seq::<Seq<char>>::empty())
        } else {
            Some(seq![trim(rem)])
        }),
{
    reveal(sentence_groups);
}

proof fn lemma_opt_prepend_assoc(a: Seq<Seq<char>>, b: Seq<Seq<char>>, x: Option<Seq<Seq<char>>>)
    ensures
        opt_prepend(a, opt_prepend(b, x)) == opt_prepend(a + b, x),
{
    match x {
        Some(g) => {
            assert(a + (b + g) =~= (a + b) + g);
        },
        None => {},
    }
}

/// Greedy split of `v[lo..hi]` at sentence boundaries into pieces of at
/// most `target` bytes (exec form of `sentence_groups`).
#[verifier::spinoff_prover]
fn split_by_sentences(v: &Vec<char>, lo: usize, hi: usize, target: usize) -> (r: Option<Vec<String>>)
    requires
        lo <= hi <= v@.len(),
        byte_len(v@) <= usize::MAX,
    ensures
        match sentence_groups(v@.subrange(lo as int, hi as int), target as int) {
            Some(g) => r matches Some(out) && str_views(out@) == g,
            None => r is None,
        },
{
    let ghost whole = sentence_groups(v@.subrange(lo as int, hi as int), target as int);
    let mut pieces: Vec<String> = Vec::new();
    let mut cur = lo;
    proof {
        assert(str_views(pieces@) =~= Seq::<Seq<char>>::empty());
        lemma_opt_prepend_assoc(seq![], seq![], whole);
        assert(Seq::<Seq<char>>::empty() + Seq::<Seq<char>>::empty() =~= Seq::<Seq<char>>::empty());
        match whole {
            Some(g) => {
                assert(Seq::<Seq<char>>::empty() + g =~= g);
            },
            None => {},
        }
    }
    while byte_len_of(v, cur, hi) > target
        invariant
            lo <= cur <= hi <= v@.len(),
            byte_len(v@) <= usize::MAX,
            whole == sentence_groups(v@.subrange(lo as int, hi as int), target as int),
            whole == opt_prepend(
                str_views(pieces@),
                sentence_groups(v@.subrange(cur as int, hi as int), target as int),
            ),
        decreases hi - cur,
    {
        let ghost rem = v@.subrange(cur as int, hi as int);
        let (k, _kb) = crate::tts::prefix_within_exec(v, cur, hi, target);
        if k == 0 {
            proof {
                lemma_groups_stuck(rem, target as int);
            }
            return None;
        }
        proof {
            assert(rem.take(k as int) =~= v@.subrange(cur as int, cur + k));
        }
        let c = sentence_cut_exec(v, cur, cur + k);
        let piece = crate::text::trimmed_string(v, cur, cur + c);
        let next = crate::text::trim_start_index(v, cur + c, hi, false);
        proof {
            assert(rem.take(c as int) =~= v@.subrange(cur as int, cur + c));
            assert(rem.skip(c as int) =~= v@.subrange(cur + c, hi as int));
            lemma_groups_step(rem, target as int, k as int, c as int);
            lemma_opt_prepend_assoc(
                str_views(pieces@),
                seq![piece@],
                sentence_groups(v@.subrange(next as int, hi as int), target as int),
            );
            assert(str_views(pieces@.push(piece)) =~= str_views(pieces@) + seq![piece@]);
        }
        pieces.push(piece);
        cur = next;
    }
    proof {
        lemma_groups_last(v@.subrange(cur as int, hi as int), target as int);
    }
    if cur < hi {
        let piece = crate::text::trimmed_string(v, cur, hi);
        proof {
            assert(str_views(pieces@.push(piece)) =~= str_views(pieces@) + seq![piece@]);
        }
        pieces.push(piece);
    } else {
        proof {
            assert(str_views(pieces@) + Seq::<Seq<char>>::empty() =~= str_views(pieces@));
        }
    }
    Some(pieces)
}

/// One paragraph of the section splitter: the finished pieces and the
/// chunk being accumulated, after reading the paragraph `para0`; `None`
/// once a paragraph could not be split (see `sentence_groups`).
pub open spec fn para_step(
    st: Option<(Seq<Seq<char>>, Seq<char>)>,
    para0: Seq<char>,
    target: int,
) -> Option<(Seq<Seq<char>>, Seq<char>)> {
    match st {
        None => None,
        Some((pieces, cur)) => {
            let para = trim_newlines(para0);
            if para.len() == 0 {
                Some((pieces, cur))
            } else if byte_len(para) > target {
                let flushed = if cur.len() == 0 {
                    pieces
                } else {
                    pieces.push(trim(cur))
                };
                match sentence_groups(para, target) {
                    Some(g) => Some((flushed + g, seq![])),
                    None => None,
                }
            } else {
                let flush = cur.len() > 0 && byte_len(cur) + byte_len(para) + 2 > target;
                let p1 = if flush {
                    pieces.push(trim(cur))
                } else {
                    pieces
                };
                let c1 = if flush {
                    seq![]
                } else {
                    cur
                };
                Some((
                    p1,
                    if c1.len() == 0 {
                        para
                    } else {
                        c1 + seq!['\n', '\n'] + para
                    },
                ))
            }
        },
    }
}

/// The splitter's state after the paragraphs `paras`.
pub open spec fn para_fold(paras: Seq<Seq<char>>, target: int) -> Option<(Seq<Seq<char>>, Seq<char>)>
    decreases paras.len(),
{
    if paras.len() == 0 {
        Some((seq![], seq![]))
    } else {
        para_step(para_fold(paras.drop_last(), target), paras.last(), target)
    }
}

/// The pieces of a section: the trimmed section when it fits in `target`
/// bytes; otherwise its paragraphs (separated by blank lines) greedily
/// joined up to `target` bytes, over-long paragraphs split at sentence
/// boundaries, empty pieces dropped. `None` when a sentence split makes
/// no progress, which `lemma_sections_raw_some` rules out for the planning
/// target.
pub open spec fn section_pieces(section: Seq<char>, target: int) -> Option<Seq<Seq<char>>> {
    if byte_len(section) <= target {
        Some(seq![trim(section)])
    } else {
        match para_fold(split_on(section, seq!['\n', '\n']), target) {
            Some((pieces, cur)) => Some(
                drop_empty(
                    if cur.len() == 0 {
                        pieces
                    } else {
                        pieces.push(trim(cur))
                    },
                ),
            ),
            None => None,
        }
    }
}

proof fn lemma_para_fold_none(paras: Seq<Seq<char>>, target: int, k: int)
    requires
        0 <= k <= paras.len(),
        para_fold(paras.take(k), target) is None,
    ensures
        para_fold(paras, target) is None,
    decreases paras.len() - k,
{
    if k == paras.len() {
        assert(paras.take(k) =~= paras);
    } else {
        assert(paras.drop_last().take(k) =~= paras.take(k));
        lemma_para_fold_none(paras.drop_last(), target, k);
    }
}

proof fn lemma_byte_len_zero(s: Seq<char>)
    ensures
        (byte_len(s) == 0) == (s.len() == 0),
{
    crate::text::lemma_byte_len_bounds(s);
}

/// `para_step` on the paragraph `v[a..b]`.
#[verifier::rlimit(40)]
fn para_step_exec(
    v: &Vec<char>,
    a: usize,
    b: usize,
    target: usize,
    pieces: Vec<String>,
    cur: String,
    cur_bytes: usize,
) -> (r: Option<(Vec<String>, String, usize)>)
    requires
        a <= b <= v@.len(),
        byte_len(v@) <= usize::MAX,
        cur_bytes == byte_len(cur@),
        cur_bytes <= target,
    ensures
        match para_step(Some((str_views(pieces@), cur@)), v@.subrange(a as int, b as int), target as int) {
            None => r is None,
            Some((p, c)) => r matches Some((p2, c2, cb2)) && str_views(p2@) == p && c2@ == c && cb2
                == byte_len(c) && cb2 <= target,
        },
{
    let mut pieces = pieces;
    let mut cur = cur;
    let pa = crate::text::trim_start_index(v, a, b, true);
    let pb = crate::text::trim_end_index(v, pa, b, true);
    let ghost para = v@.subrange(pa as int, pb as int);
    proof {
        assert(para == trim_newlines(v@.subrange(a as int, b as int)));
        lemma_byte_len_zero(cur@);
    }
    if pa == pb {
        return Some((pieces, cur, cur_bytes));
    }
    let pbytes = byte_len_of(v, pa, pb);
    if pbytes > target {
        if cur_bytes > 0 {
            let t = crate::text::trim_str(cur.as_str());
            proof {
                assert(str_views(pieces@.push(t)) =~= str_views(pieces@).push(t@));
            }
            pieces.push(t);
        }
        match split_by_sentences(v, pa, pb, target) {
            None => None,
            Some(g) => {
                let mut g = g;
                let ghost before = pieces@;
                let ghost gv = g@;
                pieces.append(&mut g);
                proof {
                    assert(str_views(pieces@) =~= str_views(before) + str_views(gv));
                }
                let empty = String::new();
                proof {
                    assert(empty@ =~= Seq::<char>::empty());
                }
                Some((pieces, empty, 0))
            },
        }
    } else {
        let flush = cur_bytes > 0 && (cur_bytes as u128) + (pbytes as u128) + 2 > (target as u128);
        if flush {
            let t = crate::text::trim_str(cur.as_str());
            proof {
                assert(str_views(pieces@.push(t)) =~= str_views(pieces@).push(t@));
            }
            pieces.push(t);
            cur = String::new();
            proof {
                assert(cur@ =~= Seq::<char>::empty());
            }
        }
        let mut nb: usize = if flush {
            0
        } else {
            cur_bytes
        };
        if nb > 0 {
            let ghost c0 = cur@;
            push_str(&mut cur, "\n\n");
            proof {
                reveal_strlit("\n\n");
                assert("\n\n"@ =~= seq!['\n', '\n']);
                crate::text::lemma_byte_len_concat(c0, seq!['\n', '\n']);
                assert(byte_len(seq!['\n', '\n']) == 2) by {
                    reveal_with_fuel(byte_len, 3);
                }
            }
            nb = nb + 2;
        }
        let ghost before = cur@;
        crate::text::push_range(&mut cur, v, pa, pb);
        proof {
            crate::text::lemma_byte_len_concat(before, para);
        }
        Some((pieces, cur, nb + pbytes))
    }
}

/// `s` without its empty strings.
pub open spec fn drop_empty(s: Seq<Seq<char>>) -> Seq<Seq<char>>
    decreases s.len(),
{
    if s.len() == 0 {
        s
    } else if s.last().len() > 0 {
        drop_empty(s.drop_last()).push(s.last())
    } else {
        drop_empty(s.drop_last())
    }
}

/// The non-empty strings of `list`, in order.
fn keep_nonempty(list: &Vec<String>) -> (r: Vec<String>)
    ensures
        str_views(r@) == drop_empty(str_views(list@)),
{
    let ghost lv = str_views(list@);
    let mut out: Vec<String> = Vec::new();
    let mut i: usize = 0;
    proof {
        assert(lv.take(0) =~= Seq::<Seq<char>>::empty());
        assert(str_views(out@) =~= Seq::<Seq<char>>::empty());
    }
    while i < list.len()
        invariant
            i <= list@.len(),
            lv == str_views(list@),
            str_views(out@) == drop_empty(lv.take(i as int)),
        decreases list@.len() - i,
    {
        proof {
            assert(lv.take(i + 1).drop_last() =~= lv.take(i as int));
            assert(lv.take(i + 1).last() == list@[i as int]@);
        }
        if !list[i].as_str().is_empty() {
            let s = list[i].clone();
            proof {
                assert(str_views(out@.push(s)) =~= str_views(out@).push(s@));
            }
            out.push(s);
        }
        i += 1;
    }
    proof {
        assert(lv.take(list@.len() as int) =~= lv);
    }
    out
}

/// Splits `v[lo..hi]` into pieces of at most `target` bytes at paragraph
/// boundaries, then sentence boundaries (exec form of `section_pieces`).
fn split_section(v: &Vec<char>, lo: usize, hi: usize, target: usize) -> (r: Option<Vec<String>>)
    requires
        lo <= hi <= v@.len(),
        byte_len(v@) <= usize::MAX,
    ensures
        match section_pieces(v@.subrange(lo as int, hi as int), target as int) {
            Some(p) => r matches Some(out) && str_views(out@) == p,
            None => r is None,
        },
{
    let total = byte_len_of(v, lo, hi);
    if total <= target {
        let mut one: Vec<String> = Vec::new();
        let t = crate::text::trimmed_string(v, lo, hi);
        one.push(t);
        proof {
            assert(str_views(one@) =~= seq![t@]);
        }
        return Some(one);
    }
    let mut sep: Vec<char> = Vec::new();
    sep.push('\n');
    sep.push('\n');
    proof {
        assert(sep@ =~= seq!['\n', '\n']);
    }
    let rs = crate::text::split_ranges(v, lo, hi, &sep);
    let ghost paras = crate::text::range_views(v@, rs@);
    let mut pieces: Vec<String> = Vec::new();
    let mut cur = String::new();
    let mut cb: usize = 0;
    let mut k: usize = 0;
    proof {
        assert(paras.take(0) =~= Seq::<Seq<char>>::empty());
        assert(str_views(pieces@) =~= Seq::<Seq<char>>::empty());
        assert(cur@ =~= Seq::<char>::empty());
        reveal_with_fuel(byte_len, 1);
    }
    while k < rs.len()
        invariant
            k <= rs@.len(),
            lo <= hi <= v@.len(),
            byte_len(v@) <= usize::MAX,
            paras == crate::text::range_views(v@, rs@),
            paras == split_on(v@.subrange(lo as int, hi as int), seq!['\n', '\n']),
            byte_len(v@.subrange(lo as int, hi as int)) > target,
            forall|j: int| 0 <= j < rs@.len() ==> lo <= (#[trigger] rs@[j]).0 <= rs@[j].1 <= hi,
            para_fold(paras.take(k as int), target as int) == Some((str_views(pieces@), cur@)),
            cb == byte_len(cur@),
            cb <= target,
        decreases rs@.len() - k,
    {
        let (a, b) = rs[k];
        proof {
            assert(paras.take(k + 1).drop_last() =~= paras.take(k as int));
            assert(paras.take(k + 1).last() == v@.subrange(a as int, b as int));
        }
        match para_step_exec(v, a, b, target, pieces, cur, cb) {
            None => {
                proof {
                    lemma_para_fold_none(paras, target as int, k + 1);
                }
                return None;
            },
            Some((p, c, n)) => {
                pieces = p;
                cur = c;
                cb = n;
            },
        }
        k += 1;
    }
    proof {
        assert(paras.take(rs@.len() as int) =~= paras);
        lemma_byte_len_zero(cur@);
    }
    if cb > 0 {
        let t = crate::text::trim_str(cur.as_str());
        proof {
            assert(str_views(pieces@.push(t)) =~= str_views(pieces@).push(t@));
        }
        pieces.push(t);
    }
    Some(keep_nonempty(&pieces))
}

/// Whether `locate_sections` can run on these inputs: false exactly when
/// the anchor walk would slice the text inside a multi-byte character.
pub fn sections_locatable(raw_text: &str, outline: &Outline) -> (b: bool)
    ensures
        b == !(locate_spec(raw_text@, outline_secs(outline), opt_view(outline.main_body_end_anchor))
            is Unsafe),
{
    if outline.sections.len() == 0 {
        return true;
    }
    let v = chars_of(raw_text);
    let ghost all = outline_secs(outline);
    match walk_starts(&v, &outline.sections, Ghost(all)) {
        Err(None) => false,
        _ => true,
    }
}

/// The role of a chunk in the cleaned document.
#[derive(Clone, Copy, Debug, PartialEq, Eq, Structural)]
pub enum Role {
    Open,
    Continue,
    Close,
}

/// A piece of a section sent to the cleanup model.
pub struct Chunk {
    pub title: String,
    pub text: String,
    pub is_section_start: bool,
    pub role: Role,
    pub prev_tail: Option<String>,
}

/// The last `n` characters of `s`, trimmed.
pub open spec fn tail_spec(s: Seq<char>, n: int) -> Seq<char> {
    if s.len() <= n {
        trim(s)
    } else {
        trim(s.skip(s.len() - n))
    }
}

/// The last `n_chars` characters of `s`, trimmed.
pub fn tail(s: &str, n_chars: usize) -> (r: String)
    ensures
        r@ == tail_spec(s@, n_chars as int),
{
    let v = chars_of(s);
    let total = v.len();
    proof {
        assert(v@.subrange(0, total as int) =~= v@);
        if total > n_chars {
            assert(v@.subrange(total - n_chars, total as int) =~= v@.skip(total - n_chars));
        }
    }
    if total <= n_chars {
        crate::text::trimmed_string(&v, 0, total)
    } else {
        crate::text::trimmed_string(&v, total - n_chars, total)
    }
}

/// The pieces of a section, each with its title and whether it opens the
/// section.
pub open spec fn titled(title: Seq<char>, p: Seq<Seq<char>>) -> Seq<(Seq<char>, Seq<char>, bool)> {
    Seq::new(p.len(), |j: int| (title, p[j], j == 0))
}

/// The pieces of all sections, in order (never `None`: see
/// `lemma_sections_raw_some`).
pub open spec fn sections_raw(secs: Seq<(Seq<char>, Seq<char>)>) -> Option<Seq<(Seq<char>, Seq<char>, bool)>>
    decreases secs.len(),
{
    if secs.len() == 0 {
        Some(seq![])
    } else {
        match sections_raw(secs.drop_last()) {
            Some(a) => match section_pieces(secs.last().1, TARGET_CHUNK_CHARS as int) {
                Some(p) => Some(a + titled(secs.last().0, p)),
                None => None,
            },
            None => None,
        }
    }
}

/// Role of chunk `i` out of `n`.
pub open spec fn role_at(i: int, n: int) -> Role {
    if i == 0 {
        Role::Open
    } else if i + 1 == n {
        Role::Close
    } else {
        Role::Continue
    }
}

/// Context passed with piece `i`: the tail of the previous piece, unless
/// piece `i` opens a section.
pub open spec fn prev_tail_at(raw: Seq<(Seq<char>, Seq<char>, bool)>, i: int) -> Option<Seq<char>> {
    if raw[i].2 || i == 0 {
        None
    } else {
        Some(tail_spec(raw[i - 1].1, PREV_TAIL_CHARS as int))
    }
}

/// Chunk `c` is the `i`-th of the pieces `raw`.
pub open spec fn chunk_is(c: Chunk, raw: Seq<(Seq<char>, Seq<char>, bool)>, i: int) -> bool {
    &&& c.title@ == raw[i].0
    &&& c.text@ == raw[i].1
    &&& c.is_section_start == raw[i].2
    &&& c.role == role_at(i, raw.len() as int)
    &&& opt_view(c.prev_tail) == prev_tail_at(raw, i)
}

proof fn lemma_sections_raw_none(secs: Seq<(Seq<char>, Seq<char>)>, k: int)
    requires
        0 <= k <= secs.len(),
        sections_raw(secs.take(k)) is None,
    ensures
        sections_raw(secs) is None,
    decreases secs.len() - k,
{
    if k == secs.len() {
        assert(secs.take(k) =~= secs);
    } else {
        assert(secs.drop_last().take(k) =~= secs.take(k));
        lemma_sections_raw_none(secs.drop_last(), k);
    }
}

/// The (title, piece, opens section) list of all sections, or `None`.
#[verifier::rlimit(40)]
fn raw_pieces(sections: &Vec<(String, String)>) -> (r: Option<Vec<(String, String, bool)>>)
    ensures
        match sections_raw(pair_views(sections@)) {
            Some(raw) => r matches Some(out) && out@.len() == raw.len() && forall|i: int|
                0 <= i < raw.len() ==> (#[trigger] out@[i]).0@ == raw[i].0 && out@[i].1@ == raw[i].1
                    && out@[i].2 == raw[i].2,
            None => r is None,
        },
{
    let ghost secs = pair_views(sections@);
    let mut out: Vec<(String, String, bool)> = Vec::new();
    let mut k: usize = 0;
    proof {
        assert(secs.take(0) =~= Seq::<(Seq<char>, Seq<char>)>::empty());
    }
    while k < sections.len()
        invariant
            k <= sections@.len(),
            secs == pair_views(sections@),
            sections_raw(secs.take(k as int)) matches Some(raw) && out@.len() == raw.len() && forall|i: int|
                0 <= i < raw.len() ==> (#[trigger] out@[i]).0@ == raw[i].0 && out@[i].1@ == raw[i].1
                    && out@[i].2 == raw[i].2,
        decreases sections@.len() - k,
    {
        proof {
            assert(secs.take(k + 1).drop_last() =~= secs.take(k as int));
            assert(secs.take(k + 1).last() == (sections@[k as int].0@, sections@[k as int].1@));
        }
        let v = chars_of(sections[k].1.as_str());
        proof {
            assert(v@.subrange(0, v@.len() as int) =~= v@);
        }
        let pieces = match split_section(&v, 0, v.len(), TARGET_CHUNK_CHARS) {
            Some(p) => p,
            None => {
                proof {
                    lemma_sections_raw_none(secs, k + 1);
                }
                return None;
            },
        };
        let ghost before = out@;
        let ghost raw0 = sections_raw(secs.take(k as int))->Some_0;
        let ghost t = titled(sections@[k as int].0@, str_views(pieces@));
        let mut j: usize = 0;
        while j < pieces.len()
            invariant
                k < sections@.len(),
                j <= pieces@.len(),
                t == titled(sections@[k as int].0@, str_views(pieces@)),
                before.len() == raw0.len(),
                out@.len() == before.len() + j,
                forall|i: int|
                    0 <= i < raw0.len() ==> (#[trigger] out@[i]).0@ == raw0[i].0 && out@[i].1@ == raw0[i].1
                        && out@[i].2 == raw0[i].2,
                forall|i: int|
                    0 <= i < j ==> (#[trigger] out@[before.len() + i]).0@ == t[i].0 && out@[before.len() + i].1@
                        == t[i].1 && out@[before.len() + i].2 == t[i].2,
            decreases pieces@.len() - j,
        {
            let title = sections[k].0.clone();
            let piece = pieces[j].clone();
            out.push((title, piece, j == 0));
            j += 1;
        }
        proof {
            let raw1 = raw0 + t;
            assert(sections_raw(secs.take(k + 1)) == Some(raw1));
            assert forall|i: int| 0 <= i < raw1.len() implies (#[trigger] out@[i]).0@ == raw1[i].0
                && out@[i].1@ == raw1[i].1 && out@[i].2 == raw1[i].2 by {
                if i >= raw0.len() {
                    assert(out@[before.len() + (i - raw0.len())] == out@[i]);
                }
            }
        }
        k += 1;
    }
    proof {
        assert(secs.take(sections@.len() as int) =~= secs);
    }
    Some(out)
}

proof fn lemma_groups_some(rem: Seq<char>, t: int)
    requires
        t >= 4,
    ensures
        sentence_groups(rem, t) is Some,
    decreases rem.len(),
{
    reveal(sentence_groups);
    if byte_len(rem) > t {
        if rem.len() == 0 {
            assert(byte_len(rem) == 0);
        }
        lemma_prefix_within_pos(rem, t);
        let k = prefix_within(rem, t);
        let c = sentence_cut(rem.take(k));
        lemma_prefix_within_le(rem, t);
        lemma_sentence_cut(rem.take(k));
        lemma_trim_start_len(rem.skip(c), false);
        lemma_groups_some(trim_start(rem.skip(c)), t);
    }
}

proof fn lemma_para_fold_some(paras: Seq<Seq<char>>, t: int)
    requires
        t >= 4,
    ensures
        para_fold(paras, t) is Some,
    decreases paras.len(),
{
    if paras.len() > 0 {
        lemma_para_fold_some(paras.drop_last(), t);
        lemma_groups_some(trim_newlines(paras.last()), t);
    }
}

/// Every list of sections can be planned: the sentence split of an
/// over-long paragraph always makes progress.
proof fn lemma_sections_raw_some(secs: Seq<(Seq<char>, Seq<char>)>)
    ensures
        sections_raw(secs) is Some,
    decreases secs.len(),
{
    if secs.len() > 0 {
        lemma_sections_raw_some(secs.drop_last());
        lemma_para_fold_some(split_on(secs.last().1, seq!['\n', '\n']), TARGET_CHUNK_CHARS as int);
    }
}

/// Every planned piece fits in `TARGET_CHUNK_CHARS` bytes and carries the
/// title of a section; the first piece starts a section.
pub proof fn lemma_planned_pieces_fit(secs: Seq<(Seq<char>, Seq<char>)>)
    ensures
        sections_raw(secs) matches Some(raw) ==> (forall|i: int|
            0 <= i < raw.len() ==> byte_len((#[trigger] raw[i]).1) <= TARGET_CHUNK_CHARS && exists|k: int|
                0 <= k < secs.len() && raw[i].0 == secs[k].0) && (raw.len() > 0 ==> raw[0].2),
    decreases secs.len(),
{
    if secs.len() > 0 {
        let init = secs.drop_last();
        lemma_planned_pieces_fit(init);
        lemma_section_pieces_within(secs.last().1, TARGET_CHUNK_CHARS as int);
        if let Some(a) = sections_raw(init) {
            if let Some(p) = section_pieces(secs.last().1, TARGET_CHUNK_CHARS as int) {
                let raw = a + titled(secs.last().0, p);
                assert forall|i: int| 0 <= i < raw.len() implies byte_len((#[trigger] raw[i]).1)
                    <= TARGET_CHUNK_CHARS && exists|k: int| 0 <= k < secs.len() && raw[i].0 == secs[k].0 by {
                    if i < a.len() {
                        assert(raw[i] == a[i]);
                        let k = choose|k: int| 0 <= k < init.len() && a[i].0 == init[k].0;
                        assert(secs[k] == init[k]);
                    } else {
                        assert(raw[i] == (secs.last().0, p[i - a.len()], i - a.len() == 0));
                        assert(secs[secs.len() - 1] == secs.last());
                    }
                }
            }
        }
    }
}

/// Plans the cleanup chunks: each section is split into pieces of at most
/// `TARGET_CHUNK_CHARS` bytes; the first chunk opens the document, the
/// last closes it, and a chunk that continues a section carries the tail
/// of the previous chunk as context.
pub fn plan_chunks(sections: Vec<(String, String)>) -> (r: Vec<Chunk>)
    ensures
        ({
            let raw = sections_raw(pair_views(sections@))->Some_0;
            &&& r@.len() == raw.len()
            &&& forall|i: int| 0 <= i < raw.len() ==> chunk_is(#[trigger] r@[i], raw, i)
        }),
{
    proof {
        lemma_sections_raw_some(pair_views(sections@));
    }
    let ghost rv = sections_raw(pair_views(sections@))->Some_0;
    let raw = match raw_pieces(&sections) {
        Some(x) => x,
        None => {
            proof {
                assert(false);
            }
            return Vec::new();
        },
    };
    let n = raw.len();
    let mut chunks: Vec<Chunk> = Vec::new();
    let mut i: usize = 0;
    while i < n
        invariant
            i <= n == raw@.len() == rv.len(),
            forall|j: int| 0 <= j < rv.len() ==> (#[trigger] raw@[j]).0@ == rv[j].0 && raw@[j].1@ == rv[j].1
                && raw@[j].2 == rv[j].2,
            chunks@.len() == i,
            forall|j: int| 0 <= j < i ==> chunk_is(#[trigger] chunks@[j], rv, j),
        decreases n - i,
    {
        let role = if i == 0 {
            Role::Open
        } else if i == n - 1 {
            Role::Close
        } else {
            Role::Continue
        };
        let is_start = raw[i].2;
        let prev_tail = if is_start || i == 0 {
            None
        } else {
            Some(tail(raw[i - 1].1.as_str(), PREV_TAIL_CHARS))
        };
        let c = Chunk {
            title: raw[i].0.clone(),
            text: raw[i].1.clone(),
            is_section_start: is_start,
            role,
            prev_tail,
        };
        proof {
            assert(chunk_is(c, rv, i as int));
        }
        chunks.push(c);
        i += 1;
    }
    chunks
}

// ---------------------------------------------------------------------------
// Prompts and per-call decisions.
// ---------------------------------------------------------------------------

/// System prompt for cleaning a web article in one call.
pub const ARTICLE_SYSTEM_PROMPT: &'static str = r#"You are preparing a web article for text-to-speech conversion.
Transform the provided text so it reads naturally when spoken aloud.

Rules:
- Remove any remaining navigation text, share buttons, author bios,
  newsletter signup prompts, or other non-article content.
- Fix encoding artifacts. Curly quotes and em-dashes are fine.
- Keep the article's natural structure and flow.
- Do not summarize or omit any article content.
- Do not add commentary.
- Output only the cleaned article text, nothing else."#;

/// Extra rule for long articles: mark the major sections with headers.
pub const ARTICLE_HEADER_RULE: &'static str = r#"
- This is a long article. Mark each major section with a markdown header line
  of the form `## Section Title` on its own line, blank line before and after.
  Use the article's own section names when present. Do not add subsection
  headers (no `###`). If the article has no clear section structure, omit
  headers entirely."#;

/// Articles with more words than this get section headers.
pub const LONG_ARTICLE_WORD_THRESHOLD: usize = 5000;

/// System prompt for cleaning an academic paper in one call.
pub const ACADEMIC_SYSTEM_PROMPT: &'static str = r#"You are preparing an academic paper for text-to-speech conversion.
Transform the provided text so it reads naturally when spoken aloud.

Rules:
- Remove all citation markers: [1], [23], (Smith et al., 2019), etc.
- Remove figure and table references: "as shown in Figure 3" → omit entirely.
- Rewrite inline equations as spoken English:
    \frac{a}{b} → "a over b"
    x^2 → "x squared"
    \sum_{i=1}^{n} → "the sum from i equals 1 to n of"
    For complex equations, describe what they compute rather than reading symbol-by-symbol.
- Expand abbreviations on first use if the expansion aids comprehension.
- Replace "in the next section" / "as mentioned above" with brief inline context.
- Remove LaTeX artifacts, section numbering (e.g. "3.2 Method"), footnote markers.
- Omit the bibliography / references section entirely.
- Omit appendices, supplementary material, and acknowledgments (everything after the conclusion).
- Keep all substantive content from the main body — do not summarize or omit findings, methods, or discussion.
- Mark each major section with a markdown header line of the form
  `## Section Title` on its own line, blank line before and after. Use the
  paper's own section names (e.g. "Abstract", "Introduction", "Methods",
  "Results", "Discussion", "Conclusion"). Do not include the numbering.
  Do not add subsection headers (no `###`). If the paper has no clear
  section structure, omit headers entirely.
- Output only the cleaned text, nothing else."#;

/// System prompt for the outline call.
pub const OUTLINE_SYSTEM_PROMPT: &'static str = r#"You are analyzing an academic paper to prepare it for chunked text-to-speech cleanup. You will not rewrite the text; you only identify section boundaries and write a short spoken introduction.

Return a single JSON object with these fields:

- "intro_line": a single natural sentence that will be spoken as the opening of the podcast, naming the paper title, the publication venue if discernible, and a brief summary of the authors. Examples:
    "We're looking at 'Attention Is All You Need', published at NeurIPS 2017, by Ashish Vaswani and seven co-authors from Google Brain."
    "Today's paper is 'Spanner: Google's Globally-Distributed Database', from OSDI 2012, by a team of Google engineers."
  If author or venue info is missing, omit that part naturally. If there is not enough information to produce any useful intro, return null.

- "sections": an array of objects, one per MAJOR TOP-LEVEL section of the paper's main body (Abstract, Introduction, Methods, Results, Discussion, Conclusion, etc.). Do NOT include subsections like "2.3 Geometry" or "Section 4.1" — only top-level sections. Each object has:
    - "title": the section's own name, capitalized, with numbering stripped (e.g. "Introduction", not "1. Introduction").
    - "start_anchor": an EXACT substring copied verbatim from the input, 25-80 characters long, from a SINGLE LINE of the input — no embedded newlines or tabs. It must uniquely locate where the section's REAL PROSE BODY begins in the raw text. If the document has a table of contents, index, or list of figures at the start, your anchor MUST NOT come from there — pick a phrase from the actual flowing body paragraph of the section, which appears later in the document. A short heading like "Part 2: Fixing government" is a bad anchor because it likely appears in both the TOC and the body; prefer a distinctive phrase from the first or second body sentence. COPY CHARACTER-BY-CHARACTER; do not paraphrase, reformat whitespace, or correct encoding artifacts. If nothing 25 characters long is verbatim, use the longest verbatim fragment you can find (minimum 15 characters).

- "main_body_end_anchor": an EXACT substring (25-80 chars), single-line, copied from the first line of the bibliography / references / appendix / acknowledgments — whatever marks the end of the paper's main readable content. Everything at and after this anchor will be dropped. If the paper has no such trailing content, return null.

Output ONLY the JSON object, no markdown fences, no commentary."#;

/// Rules shared by every per-chunk cleanup prompt.
pub const CHUNK_ACADEMIC_RULES: &'static str = r#"Rules:
- Remove all citation markers: [1], [23], (Smith et al., 2019), etc.
- Remove figure and table references: "as shown in Figure 3" → omit entirely.
- Rewrite inline equations as spoken English:
    \frac{a}{b} → "a over b"
    x^2 → "x squared"
    \sum_{i=1}^{n} → "the sum from i equals 1 to n of"
    For complex equations, describe what they compute rather than reading symbol-by-symbol.
- Expand abbreviations on first use if the expansion aids comprehension.
- Replace "in the next section" / "as mentioned above" with brief inline context.
- Remove LaTeX artifacts, section numbering, footnote markers.
- Keep all substantive content — do not summarize or omit findings, methods, or discussion.
- Do NOT emit a section heading line. The section title is inserted separately by the caller.
- Output only the cleaned section text, nothing else."#;

/// True for "arxiv" and "pdf" sources, which take the chunked path.
pub open spec fn academic(source_type: Seq<char>) -> bool {
    source_type == "arxiv"@ || source_type == "pdf"@
}

/// Whether a source type is academic ("arxiv" or "pdf").
pub fn is_academic(source_type: &str) -> (b: bool)
    ensures
        b == academic(source_type@),
{
    crate::text::str_eq(source_type, "arxiv") || crate::text::str_eq(source_type, "pdf")
}

/// System prompt of the single-call cleanup.
pub open spec fn single_prompt(source_type: Seq<char>, words: nat) -> Seq<char> {
    if academic(source_type) {
        ACADEMIC_SYSTEM_PROMPT@
    } else if words > LONG_ARTICLE_WORD_THRESHOLD {
        ARTICLE_SYSTEM_PROMPT@ + ARTICLE_HEADER_RULE@
    } else {
        ARTICLE_SYSTEM_PROMPT@
    }
}

/// The system prompt for cleaning `raw_text` in one call: the academic
/// prompt for papers; for articles, the article prompt, with the header
/// rule when the article has more than `LONG_ARTICLE_WORD_THRESHOLD` words.
pub fn single_system_prompt(source_type: &str, raw_text: &str) -> (r: String)
    ensures
        r@ == single_prompt(source_type@, crate::text::word_count(raw_text@)),
{
    let mut s = String::new();
    if is_academic(source_type) {
        push_str(&mut s, ACADEMIC_SYSTEM_PROMPT);
    } else {
        push_str(&mut s, ARTICLE_SYSTEM_PROMPT);
        if crate::text::count_words(raw_text) > LONG_ARTICLE_WORD_THRESHOLD {
            push_str(&mut s, ARTICLE_HEADER_RULE);
        }
    }
    proof {
        assert(Seq::<char>::empty() + ACADEMIC_SYSTEM_PROMPT@ =~= ACADEMIC_SYSTEM_PROMPT@);
        assert(Seq::<char>::empty() + ARTICLE_SYSTEM_PROMPT@ =~= ARTICLE_SYSTEM_PROMPT@);
    }
    s
}

/// Opening of the prompt for the first chunk.
pub const OPEN_PREFACE: &'static str = "You are cleaning the opening of an academic paper for text-to-speech. A spoken introduction naming the paper's title, venue, and authors is prepended separately by the caller \u{2014} do NOT restate the title or author list. Just clean this text so it flows naturally from that introduction.";

/// Opening of the prompt for a middle chunk.
pub const CONTINUE_PREFACE: &'static str = "You are cleaning a middle portion of an academic paper for text-to-speech. Assume listeners have heard earlier content and will hear later content. Do not add a preamble, recap, or sign-off.";

/// Opening of the prompt for the last chunk.
pub const CLOSE_PREFACE: &'static str = "You are cleaning the final portion of an academic paper's main body for text-to-speech. End on the text's natural final sentence \u{2014} do not add an outro or sign-off, but do not cut off mid-thought. This is the last spoken content, so it should close cleanly.";

/// The preface of a chunk prompt for a role.
pub open spec fn preface(role: Role) -> Seq<char> {
    match role {
        Role::Open => OPEN_PREFACE@,
        Role::Continue => CONTINUE_PREFACE@,
        Role::Close => CLOSE_PREFACE@,
    }
}

/// System prompt of a per-chunk cleanup: the preface for the chunk's role,
/// a blank line, then the shared rules.
pub fn chunk_system_prompt(role: Role) -> (r: String)
    ensures
        r@ == preface(role) + "\n\n"@ + CHUNK_ACADEMIC_RULES@,
{
    let mut s = String::new();
    match role {
        Role::Open => push_str(&mut s, OPEN_PREFACE),
        Role::Continue => push_str(&mut s, CONTINUE_PREFACE),
        Role::Close => push_str(&mut s, CLOSE_PREFACE),
    }
    push_str(&mut s, "\n\n");
    push_str(&mut s, CHUNK_ACADEMIC_RULES);
    proof {
        assert(Seq::<char>::empty() + preface(role) =~= preface(role));
    }
    s
}

/// The model tiers the cleanup uses.
#[derive(Clone, Copy, Debug, PartialEq, Eq, Structural)]
pub enum CleanModel {
    /// The stronger model: single-call cleanup and math-heavy chunks.
    Sonnet,
    /// The faster model: the outline and ordinary chunks.
    Haiku,
}

/// The mathematical symbols counted by the math-density test (including
/// the Greek letters U+0391..=U+03C9).
pub open spec fn is_math_symbol(c: char) -> bool {
    ||| c == '\u{2211}' || c == '\u{222B}' || c == '\u{2202}' || c == '\u{2207}'
    ||| c == '\u{221E}' || c == '\u{2264}' || c == '\u{2265}' || c == '\u{2260}'
    ||| c == '\u{2248}' || c == '\u{2192}' || c == '\u{21D2}' || c == '\u{2286}'
    ||| c == '\u{2287}' || c == '\u{2208}' || c == '\u{2209}' || c == '\u{2200}'
    ||| c == '\u{2203}' || c == '\u{22C5}' || c == '\u{00D7}' || c == '\u{00B1}'
    ||| 0x0391 <= (c as u32) <= 0x03C9
}

/// Backslashes plus mathematical symbols in `s`.
pub open spec fn math_marks(s: Seq<char>) -> nat
    decreases s.len(),
{
    if s.len() == 0 {
        0
    } else {
        math_marks(s.drop_last()) + if s.last() == '\\' || is_math_symbol(s.last()) {
            1nat
        } else {
            0nat
        }
    }
}

/// More than 15 backslashes or math symbols per 1000 words (at least one
/// word is counted).
pub open spec fn math_heavy(s: Seq<char>) -> bool {
    let words = if crate::text::word_count(s) == 0 {
        1
    } else {
        crate::text::word_count(s)
    };
    200 * math_marks(s) > 3 * words
}

fn is_math_symbol_exec(c: char) -> (b: bool)
    ensures
        b == is_math_symbol(c),
{
    let u = c as u32;
    c == '\u{2211}' || c == '\u{222B}' || c == '\u{2202}' || c == '\u{2207}' || c == '\u{221E}'
        || c == '\u{2264}' || c == '\u{2265}' || c == '\u{2260}' || c == '\u{2248}' || c
        == '\u{2192}' || c == '\u{21D2}' || c == '\u{2286}' || c == '\u{2287}' || c == '\u{2208}'
        || c == '\u{2209}' || c == '\u{2200}' || c == '\u{2203}' || c == '\u{22C5}' || c
        == '\u{00D7}' || c == '\u{00B1}' || (0x0391 <= u && u <= 0x03C9)
}

/// Whether text is dense in LaTeX commands and math symbols: more than 15
/// per 1000 words.
pub fn is_math_heavy(text: &str) -> (b: bool)
    ensures
        b == math_heavy(text@),
{
    let v = chars_of(text);
    let mut marks: usize = 0;
    let mut i: usize = 0;
    proof {
        assert(v@.take(0) =~= Seq::<char>::empty());
    }
    while i < v.len()
        invariant
            i <= v@.len(),
            v@ == text@,
            marks == math_marks(v@.take(i as int)),
            marks <= i,
        decreases v@.len() - i,
    {
        proof {
            assert(v@.take(i + 1).drop_last() =~= v@.take(i as int));
        }
        if v[i] == '\\' || is_math_symbol_exec(v[i]) {
            marks = marks + 1;
        }
        i += 1;
    }
    proof {
        assert(v@.take(v@.len() as int) =~= v@);
    }
    let w = crate::text::count_words(text);
    let words: usize = if w == 0 {
        1
    } else {
        w
    };
    (marks as u128) * 200 > (words as u128) * 3
}

/// The model for one chunk: the stronger one for math-heavy text.
pub fn chunk_model(text: &str) -> (m: CleanModel)
    ensures
        m == (if math_heavy(text@) {
            CleanModel::Sonnet
        } else {
            CleanModel::Haiku
        }),
{
    if is_math_heavy(text) {
        CleanModel::Sonnet
    } else {
        CleanModel::Haiku
    }
}

/// `s` without the suffix `p`, when it ends with it.
pub open spec fn strip_suffix(s: Seq<char>, p: Seq<char>) -> Option<Seq<char>> {
    if crate::text::ends_with(s, p) {
        Some(s.take(s.len() - p.len()))
    } else {
        None
    }
}

/// The JSON body of a model reply: trimmed, without a leading "```json"
/// or "```" fence and a trailing "```" fence, trimmed again.
pub open spec fn fence_body(s: Seq<char>) -> Seq<char> {
    let b = trim(s);
    let b1 = match crate::text::strip_prefix(b, "```json"@) {
        Some(r) => r,
        None => match crate::text::strip_prefix(b, "```"@) {
            Some(r) => r,
            None => b,
        },
    };
    let b2 = match strip_suffix(b1, "```"@) {
        Some(r) => r,
        None => b1,
    };
    trim(b2)
}

/// Removes markdown code fences around a JSON reply.
#[verifier::spinoff_prover]
#[verifier::rlimit(30)]
pub fn strip_json_fences(text: &str) -> (r: String)
    ensures
        r@ == fence_body(text@),
{
    let v = chars_of(text);
    proof {
        assert(v@.subrange(0, v@.len() as int) =~= v@);
    }
    let (a, b) = crate::text::trim_bounds(&v, 0, v.len());
    let ghost bs = v@.subrange(a as int, b as int);
    let fj = chars_of("```json");
    let f = chars_of("```");
    let lo = if crate::text::starts_with_exec(&v, a, b, &fj) {
        proof {
            assert(bs.skip(fj@.len() as int) =~= v@.subrange(a + fj@.len(), b as int));
        }
        a + fj.len()
    } else if crate::text::starts_with_exec(&v, a, b, &f) {
        proof {
            assert(bs.skip(f@.len() as int) =~= v@.subrange(a + f@.len(), b as int));
        }
        a + f.len()
    } else {
        a
    };
    let ghost b1 = v@.subrange(lo as int, b as int);
    assert(b1 == match crate::text::strip_prefix(trim(text@), "```json"@) {
        Some(r) => r,
        None => match crate::text::strip_prefix(trim(text@), "```"@) {
            Some(r) => r,
            None => trim(text@),
        },
    });
    let hi = if crate::text::ends_with_exec(&v, lo, b, &f) {
        proof {
            assert(b1.take(b1.len() - f@.len()) =~= v@.subrange(lo as int, b - f@.len()));
        }
        b - f.len()
    } else {
        b
    };
    crate::text::trimmed_string(&v, lo, hi)
}

/// Start of the user message that carries the previous chunk's tail.
pub const PREV_CONTEXT_HEAD: &'static str = "Previous chunk ended with (context only, do not repeat):\n---\n";

/// Between the previous chunk's tail and the chunk text.
pub const PREV_CONTEXT_TAIL: &'static str = "\n---\n\nClean the following text, continuing seamlessly from the previous chunk:\n\n";

/// The user message of a chunk cleanup.
pub open spec fn chunk_message(prev_tail: Option<Seq<char>>, text: Seq<char>) -> Seq<char> {
    match prev_tail {
        Some(t) => if t.len() > 0 {
            PREV_CONTEXT_HEAD@ + t + PREV_CONTEXT_TAIL@ + text
        } else {
            text
        },
        None => text,
    }
}

/// The user message for a chunk: its text, preceded by the previous
/// chunk's tail as context when there is one.
pub fn chunk_user_message(chunk: &Chunk) -> (r: String)
    ensures
        r@ == chunk_message(opt_view(chunk.prev_tail), chunk.text@),
{
    let mut s = String::new();
    match &chunk.prev_tail {
        Some(t) => {
            if !t.as_str().is_empty() {
                push_str(&mut s, PREV_CONTEXT_HEAD);
                push_str(&mut s, t.as_str());
                push_str(&mut s, PREV_CONTEXT_TAIL);
            }
        },
        None => {},
    }
    push_str(&mut s, chunk.text.as_str());
    proof {
        assert(Seq::<char>::empty() + chunk.text@ =~= chunk.text@);
        assert(Seq::<char>::empty() + PREV_CONTEXT_HEAD@ =~= PREV_CONTEXT_HEAD@);
    }
    s
}

/// Output-token budget for a chunk: a third of the input length plus 2048,
/// clamped to 4096..=32768.
pub open spec fn max_tokens_spec(input_chars: usize) -> u32 {
    let e = (input_chars / 3) as u32 + 2048;
    if e < 4096 {
        4096
    } else if e > 32768 {
        32768
    } else {
        e as u32
    }
}

/// Computes max_tokens for a chunk from the length of its message.
pub fn max_output_tokens_for(input_chars: usize) -> (r: u32)
    requires
        (input_chars / 3) as u32 + 2048 <= u32::MAX,
    ensures
        r == max_tokens_spec(input_chars),
{
    let estimated = (input_chars / 3) as u32 + 2048;
    if estimated < 4096 {
        4096
    } else if estimated > 32768 {
        32768
    } else {
        estimated
    }
}

/// An error message that names a gateway error or a timeout.
pub open spec fn transient(msg: Seq<char>) -> bool {
    ||| crate::text::contains(msg, "502"@)
    ||| crate::text::contains(msg, "503"@)
    ||| crate::text::contains(msg, "504"@)
    ||| crate::text::contains(msg, "timed out"@)
    ||| crate::text::contains(msg, "timeout"@)
}

/// Whether a failed chunk cleanup is retried: once, on a transient error.
pub fn retry_chunk(attempt: u32, err_msg: &str) -> (b: bool)
    ensures
        b == (attempt == 0 && transient(err_msg@)),
{
    attempt == 0 && (crate::text::str_contains(err_msg, "502") || crate::text::str_contains(
        err_msg,
        "503",
    ) || crate::text::str_contains(err_msg, "504") || crate::text::str_contains(
        err_msg,
        "timed out",
    ) || crate::text::str_contains(err_msg, "timeout"))
}

/// The spoken introduction, trimmed and followed by a blank line, when it
/// is not blank.
pub open spec fn intro_part(intro: Option<Seq<char>>) -> Seq<char> {
    match intro {
        Some(i) => if trim(i).len() > 0 {
            trim(i) + "\n\n"@
        } else {
            seq![]
        },
        None => seq![],
    }
}

/// One cleaned chunk in the output: its trimmed text followed by a blank
/// line, preceded by a `## title` header when it opens a section; nothing
/// when the text is blank.
pub open spec fn chunk_part(c: (Seq<char>, Seq<char>, bool)) -> Seq<char> {
    let body = trim(c.1);
    if body.len() == 0 {
        seq![]
    } else if c.2 {
        "## "@ + c.0 + "\n\n"@ + body + "\n\n"@
    } else {
        body + "\n\n"@
    }
}

/// The parts of all cleaned chunks, in order.
pub open spec fn chunk_parts(items: Seq<(Seq<char>, Seq<char>, bool)>) -> Seq<char>
    decreases items.len(),
{
    if items.len() == 0 {
        seq![]
    } else {
        chunk_parts(items.drop_last()) + chunk_part(items.last())
    }
}

/// Views of (title, cleaned text, opens section) triples.
pub open spec fn triple_views(v: Seq<(String, String, bool)>) -> Seq<(Seq<char>, Seq<char>, bool)> {
    v.map_values(|x: (String, String, bool)| (x.0@, x.1@, x.2))
}

/// The cleaned document: the introduction, then the chunks in order, with
/// the trailing whitespace removed.
pub open spec fn assembled(intro: Option<Seq<char>>, items: Seq<(Seq<char>, Seq<char>, bool)>) -> Seq<char> {
    crate::text::trim_end(intro_part(intro) + chunk_parts(items))
}

/// Joins the cleaned chunks (title, text, opens section), in plan order,
/// after the outline's introduction line.
pub fn assemble_cleaned(intro_line: Option<&str>, cleaned: &Vec<(String, String, bool)>) -> (r: String)
    ensures
        r@ == assembled(
            match intro_line {
                Some(i) => Some(i@),
                None => None,
            },
            triple_views(cleaned@),
        ),
{
    let ghost items = triple_views(cleaned@);
    let ghost intro = match intro_line {
        Some(i) => Some(i@),
        None => None::<Seq<char>>,
    };
    let mut out = String::new();
    match intro_line {
        Some(i) => {
            let t = crate::text::trim_str(i);
            if !t.as_str().is_empty() {
                push_str(&mut out, t.as_str());
                push_str(&mut out, "\n\n");
            }
        },
        None => {},
    }
    proof {
        assert(out@ =~= intro_part(intro));
        assert(items.take(0) =~= Seq::<(Seq<char>, Seq<char>, bool)>::empty());
    }
    let mut k: usize = 0;
    while k < cleaned.len()
        invariant
            k <= cleaned@.len(),
            items == triple_views(cleaned@),
            out@ == intro_part(intro) + chunk_parts(items.take(k as int)),
        decreases cleaned@.len() - k,
    {
        proof {
            assert(items.take(k + 1).drop_last() =~= items.take(k as int));
            assert(items.take(k + 1).last() == items[k as int]);
        }
        let body = crate::text::trim_str(cleaned[k].1.as_str());
        let ghost before = out@;
        if !body.as_str().is_empty() {
            if cleaned[k].2 {
                push_str(&mut out, "## ");
                push_str(&mut out, cleaned[k].0.as_str());
                push_str(&mut out, "\n\n");
            }
            push_str(&mut out, body.as_str());
            push_str(&mut out, "\n\n");
        }
        proof {
            let part = chunk_part(items[k as int]);
            assert(out@ =~= before + part);
            assert(intro_part(intro) + chunk_parts(items.take(k + 1)) =~= intro_part(intro)
                + chunk_parts(items.take(k as int)) + part);
        }
        k += 1;
    }
    proof {
        assert(items.take(cleaned@.len() as int) =~= items);
    }
    let v = chars_of(out.as_str());
    let e = crate::text::trim_end_index(&v, 0, v.len(), false);
    proof {
        assert(v@.subrange(0, v@.len() as int) =~= v@);
    }
    string_of(&v, 0, e)
}

/// Every piece is at most `target` bytes.
pub open spec fn all_within(ps: Seq<Seq<char>>, target: int) -> bool {
    forall|i: int| 0 <= i < ps.len() ==> byte_len(#[trigger] ps[i]) <= target
}

proof fn lemma_groups_within(rem: Seq<char>, target: int)
    ensures
        sentence_groups(rem, target) matches Some(g) ==> all_within(g, target),
    decreases rem.len(),
{
    reveal(sentence_groups);
    if byte_len(rem) <= target {
        if rem.len() > 0 {
            crate::text::lemma_trim_byte_len(rem);
        }
    } else {
        let k = prefix_within(rem, target);
        if k != 0 {
            let c = sentence_cut(rem.take(k));
            lemma_prefix_within_le(rem, target);
            lemma_prefix_within_take(rem, target);
            lemma_sentence_cut(rem.take(k));
            lemma_trim_start_len(rem.skip(c), false);
            lemma_groups_within(trim_start(rem.skip(c)), target);
            crate::text::lemma_trim_byte_len(rem.take(c));
            crate::text::lemma_byte_len_prefix(rem.take(k), c);
            assert(rem.take(k).take(c) =~= rem.take(c));
            match sentence_groups(trim_start(rem.skip(c)), target) {
                Some(g) => {
                    let all = seq![trim(rem.take(c))] + g;
                    assert forall|i: int| 0 <= i < all.len() implies byte_len(#[trigger] all[i]) <= target by {
                        if i > 0 {
                            assert(all[i] == g[i - 1]);
                        }
                    }
                },
                None => {},
            }
        }
    }
}

proof fn lemma_para_fold_within(paras: Seq<Seq<char>>, target: int)
    ensures
        para_fold(paras, target) matches Some((ps, cur)) ==> all_within(ps, target) && (cur.len() == 0
            || byte_len(cur) <= target),
    decreases paras.len(),
{
    if paras.len() > 0 {
        lemma_para_fold_within(paras.drop_last(), target);
        match para_fold(paras.drop_last(), target) {
            None => {},
            Some((pieces, cur)) => {
                let para = trim_newlines(paras.last());
                crate::text::lemma_trim_byte_len(cur);
                if para.len() > 0 {
                    if byte_len(para) > target {
                        lemma_groups_within(para, target);
                        let flushed = if cur.len() == 0 {
                            pieces
                        } else {
                            pieces.push(trim(cur))
                        };
                        assert(all_within(flushed, target)) by {
                            if cur.len() > 0 {
                                assert forall|i: int| 0 <= i < flushed.len() implies byte_len(
                                    #[trigger] flushed[i],
                                ) <= target by {
                                    if i < pieces.len() {
                                        assert(flushed[i] == pieces[i]);
                                    }
                                }
                            }
                        }
                        match sentence_groups(para, target) {
                            Some(g) => {
                                let all = flushed + g;
                                assert forall|i: int| 0 <= i < all.len() implies byte_len(#[trigger] all[i])
                                    <= target by {
                                    if i < flushed.len() {
                                        assert(all[i] == flushed[i]);
                                    } else {
                                        assert(all[i] == g[i - flushed.len()]);
                                    }
                                }
                            },
                            None => {},
                        }
                    } else {
                        let flush = cur.len() > 0 && byte_len(cur) + byte_len(para) + 2 > target;
                        if flush {
                            let p1 = pieces.push(trim(cur));
                            assert forall|i: int| 0 <= i < p1.len() implies byte_len(#[trigger] p1[i]) <= target by {
                                if i < pieces.len() {
                                    assert(p1[i] == pieces[i]);
                                }
                            }
                        } else if cur.len() > 0 {
                            crate::text::lemma_byte_len_concat(cur, seq!['\n', '\n']);
                            crate::text::lemma_byte_len_concat(cur + seq!['\n', '\n'], para);
                            assert(byte_len(seq!['\n', '\n']) == 2) by {
                                reveal_with_fuel(byte_len, 3);
                            }
                        }
                    }
                }
            },
        }
    }
}

proof fn lemma_drop_empty_within(ps: Seq<Seq<char>>, target: int)
    requires
        all_within(ps, target),
    ensures
        all_within(drop_empty(ps), target),
    decreases ps.len(),
{
    if ps.len() > 0 {
        assert(all_within(ps.drop_last(), target)) by {
            assert forall|i: int| 0 <= i < ps.drop_last().len() implies byte_len(
                #[trigger] ps.drop_last()[i],
            ) <= target by {
                assert(ps.drop_last()[i] == ps[i]);
            }
        }
        lemma_drop_empty_within(ps.drop_last(), target);
        if ps.last().len() > 0 {
            let d = drop_empty(ps.drop_last());
            assert forall|i: int| 0 <= i < d.push(ps.last()).len() implies byte_len(
                #[trigger] d.push(ps.last())[i],
            ) <= target by {
                if i < d.len() {
                    assert(d.push(ps.last())[i] == d[i]);
                }
            }
        }
    }
}

/// Every piece a section is split into fits in `target` bytes.
pub proof fn lemma_section_pieces_within(section: Seq<char>, target: int)
    ensures
        section_pieces(section, target) matches Some(ps) ==> all_within(ps, target),
{
    if byte_len(section) <= target {
        crate::text::lemma_trim_byte_len(section);
    } else {
        let paras = split_on(section, seq!['\n', '\n']);
        lemma_para_fold_within(paras, target);
        match para_fold(paras, target) {
            Some((pieces, cur)) => {
                let all = if cur.len() == 0 {
                    pieces
                } else {
                    pieces.push(trim(cur))
                };
                crate::text::lemma_trim_byte_len(cur);
                assert(all_within(all, target)) by {
                    if cur.len() > 0 {
                        assert forall|i: int| 0 <= i < all.len() implies byte_len(#[trigger] all[i]) <= target by {
                            if i < pieces.len() {
                                assert(all[i] == pieces[i]);
                            }
                        }
                    }
                }
                lemma_drop_empty_within(all, target);
            },
            None => {},
        }
    }
}

/// `p` occurs somewhere in `s`.
pub open spec fn occurs_in(s: Seq<char>, p: Seq<char>) -> bool {
    exists|a: int| occurs_at(s, p, a)
}

/// `q` occurs in one of the pieces `ps`.
pub open spec fn in_some_piece(ps: Seq<Seq<char>>, q: Seq<char>) -> bool {
    exists|j: int| 0 <= j < ps.len() && occurs_in(#[trigger] ps[j], q)
}

/// The paragraphs of a section: its parts between blank lines.
pub open spec fn paragraphs(section: Seq<char>) -> Seq<Seq<char>> {
    split_on(section, seq!['\n', '\n'])
}

/// A paragraph that is not blank and fits in `target` bytes.
pub open spec fn whole_paragraph(x: Seq<char>, target: int) -> bool {
    trim(x).len() > 0 && byte_len(x) <= target
}

proof fn lemma_occurs_trans(x: Seq<char>, y: Seq<char>, z: Seq<char>, a: int, b: int)
    requires
        occurs_at(x, y, a),
        occurs_at(y, z, b),
    ensures
        occurs_at(x, z, a + b),
{
    assert forall|t: int| 0 <= t < z.len() implies x.subrange(a + b, a + b + z.len())[t] == z[t] by {
        assert(z[t] == y.subrange(b, b + z.len())[t]);
        assert(y[b + t] == x.subrange(a, a + y.len())[b + t]);
    }
    assert(x.subrange(a + b, a + b + z.len()) =~= z);
}

proof fn lemma_trim_start_by_at(s: Seq<char>, nl: bool) -> (k: int)
    ensures
        0 <= k <= s.len(),
        trim_start_by(s, nl) == s.skip(k),
        forall|j: int| 0 <= j < k ==> strip_pred(nl, #[trigger] s[j]),
        k < s.len() ==> !strip_pred(nl, s[k]),
    decreases s.len(),
{
    if s.len() > 0 && strip_pred(nl, s[0]) {
        let k1 = lemma_trim_start_by_at(s.drop_first(), nl);
        assert(s.drop_first().skip(k1) =~= s.skip(k1 + 1));
        assert forall|j: int| 0 <= j < k1 + 1 implies strip_pred(nl, #[trigger] s[j]) by {
            if j > 0 {
                assert(s[j] == s.drop_first()[j - 1]);
            }
        }
        if k1 + 1 < s.len() {
            assert(s[k1 + 1] == s.drop_first()[k1]);
        }
        k1 + 1
    } else {
        assert(s.skip(0) =~= s);
        0
    }
}

proof fn lemma_trim_end_by_at(s: Seq<char>, nl: bool) -> (e: int)
    ensures
        0 <= e <= s.len(),
        trim_end_by(s, nl) == s.take(e),
        forall|j: int| e <= j < s.len() ==> strip_pred(nl, #[trigger] s[j]),
        e > 0 ==> !strip_pred(nl, s[e - 1]),
    decreases s.len(),
{
    if s.len() > 0 && strip_pred(nl, s.last()) {
        let e1 = lemma_trim_end_by_at(s.drop_last(), nl);
        assert(s.drop_last().take(e1) =~= s.take(e1));
        assert forall|j: int| e1 <= j < s.len() implies strip_pred(nl, #[trigger] s[j]) by {
            if j < s.len() - 1 {
                assert(s[j] == s.drop_last()[j]);
            }
        }
        if e1 > 0 {
            assert(s[e1 - 1] == s.drop_last()[e1 - 1]);
        }
        e1
    } else {
        assert(s.take(s.len() as int) =~= s);
        s.len() as int
    }
}

/// Trimming (whitespace, or newlines only) keeps every run that begins
/// and ends with a non-whitespace character.
proof fn lemma_occurs_after_trim(y: Seq<char>, t: Seq<char>, p: int, nl: bool)
    requires
        occurs_at(y, t, p),
        t.len() > 0,
        !is_ws(t[0]),
        !is_ws(t.last()),
    ensures
        occurs_in(trim_end_by(trim_start_by(y, nl), nl), t),
{
    assert(is_ws('\n'));
    assert(t[0] == y[p]);
    assert(t.last() == y[p + t.len() - 1]);
    let k = lemma_trim_start_by_at(y, nl);
    assert(k <= p);
    let y1 = y.skip(k);
    assert(y1.subrange(p - k, p - k + t.len()) =~= y.subrange(p, p + t.len()));
    let e = lemma_trim_end_by_at(y1, nl);
    assert(y1[p - k + t.len() - 1] == y[p + t.len() - 1]);
    assert(e >= p - k + t.len());
    assert(y1.take(e).subrange(p - k, p - k + t.len()) =~= y1.subrange(p - k, p - k + t.len()));
    assert(occurs_at(y1.take(e), t, p - k));
}

/// A trimmed text is a run of the text; when not empty, it begins and ends
/// with a non-whitespace character.
proof fn lemma_trim_run(x: Seq<char>) -> (c: int)
    ensures
        occurs_at(x, trim(x), c),
        trim(x).len() > 0 ==> !is_ws(trim(x)[0]) && !is_ws(trim(x).last()),
{
    let k = lemma_trim_start_by_at(x, false);
    let x1 = x.skip(k);
    let e = lemma_trim_end_by_at(x1, false);
    assert(trim(x) == x1.take(e));
    assert(x.subrange(k, k + e) =~= x1.take(e));
    if e > 0 {
        assert(x1.take(e)[0] == x1[0]);
        assert(x1[0] == x[k]);
    }
    k
}

/// `trim_newlines(x)` is a run of `x`.
proof fn lemma_trim_newlines_run(x: Seq<char>) -> (a: int)
    ensures
        0 <= a,
        a + trim_newlines(x).len() <= x.len(),
        trim_newlines(x) == x.subrange(a, a + trim_newlines(x).len()),
{
    let k = lemma_trim_start_by_at(x, true);
    let x1 = x.skip(k);
    let e = lemma_trim_end_by_at(x1, true);
    assert(x.subrange(k, k + e) =~= x1.take(e));
    k
}

/// The pieces `split_on` cuts a text into are runs of it.
proof fn lemma_split_on_runs(s: Seq<char>, sep: Seq<char>)
    requires
        sep.len() > 0,
    ensures
        forall|k: int| 0 <= k < split_on(s, sep).len() ==> occurs_in(s, #[trigger] split_on(s, sep)[k]),
    decreases s.len(),
{
    lemma_find(s, sep);
    match find(s, sep) {
        Some(i) => {
            let rest = s.skip(i + sep.len());
            lemma_split_on_runs(rest, sep);
            let ps = split_on(s, sep);
            assert(ps == seq![s.take(i)] + split_on(rest, sep));
            assert forall|k: int| 0 <= k < ps.len() implies occurs_in(s, #[trigger] ps[k]) by {
                if k == 0 {
                    assert(s.subrange(0, i) =~= s.take(i));
                    assert(occurs_at(s, ps[0], 0));
                } else {
                    assert(ps[k] == split_on(rest, sep)[k - 1]);
                    let a = choose|a: int| occurs_at(rest, ps[k], a);
                    assert(s.subrange(i + sep.len(), i + sep.len() + rest.len()) =~= rest);
                    lemma_occurs_trans(s, rest, ps[k], i + sep.len(), a);
                }
            }
        },
        None => {
            assert(s.subrange(0, s.len() as int) =~= s);
            assert(occurs_at(s, split_on(s, sep)[0], 0));
        },
    }
}

/// `drop_empty` keeps every non-empty element.
proof fn lemma_drop_empty_keeps(s: Seq<Seq<char>>, j: int) -> (j2: int)
    requires
        0 <= j < s.len(),
        s[j].len() > 0,
    ensures
        0 <= j2 < drop_empty(s).len(),
        drop_empty(s)[j2] == s[j],
    decreases s.len(),
{
    let d = drop_empty(s.drop_last());
    if j < s.len() - 1 {
        assert(s.drop_last()[j] == s[j]);
        let j2 = lemma_drop_empty_keeps(s.drop_last(), j);
        if s.last().len() > 0 {
            assert(drop_empty(s) == d.push(s.last()));
            assert(drop_empty(s)[j2] == d[j2]);
        } else {
            assert(drop_empty(s) == d);
        }
        j2
    } else {
        assert(s.last() == s[j]);
        assert(drop_empty(s) == d.push(s.last()));
        d.len() as int
    }
}

/// The paragraph text the splitter works on (without its leading and
/// trailing newlines) holds the trimmed paragraph and is no longer.
proof fn lemma_para_run(x: Seq<char>) -> (b: int)
    requires
        trim(x).len() > 0,
    ensures
        trim_newlines(x).len() > 0,
        byte_len(trim_newlines(x)) <= byte_len(x),
        occurs_at(trim_newlines(x), trim(x), b),
{
    let q = trim(x);
    let para = trim_newlines(x);
    let c = lemma_trim_run(x);
    lemma_occurs_after_trim(x, q, c, true);
    let b = choose|b: int| occurs_at(para, q, b);
    let a0 = lemma_trim_newlines_run(x);
    crate::text::lemma_byte_len_subrange(x, a0, a0 + para.len());
    b
}

proof fn lemma_para_step_keeps(pieces: Seq<Seq<char>>, cur: Seq<char>, x: Seq<char>, target: int, q: Seq<char>)
    requires
        para_step(Some((pieces, cur)), x, target) is Some,
        q.len() > 0,
        !is_ws(q[0]),
        !is_ws(q.last()),
        in_some_piece(pieces, q) || occurs_in(cur, q),
    ensures
        ({
            let (p2, c2) = para_step(Some((pieces, cur)), x, target)->Some_0;
            in_some_piece(p2, q) || occurs_in(c2, q)
        }),
{
    let (p2, c2) = para_step(Some((pieces, cur)), x, target)->Some_0;
    let para = trim_newlines(x);
    if in_some_piece(pieces, q) {
        let j = choose|j: int| 0 <= j < pieces.len() && occurs_in(#[trigger] pieces[j], q);
        if para.len() > 0 {
            assert(p2[j] == pieces[j]);
            assert(in_some_piece(p2, q));
        }
    } else {
        let a = choose|a: int| occurs_at(cur, q, a);
        assert(cur.len() > 0);
        if para.len() == 0 {
        } else if byte_len(para) > target {
            lemma_occurs_after_trim(cur, q, a, false);
            assert(p2[pieces.len() as int] == trim(cur));
            assert(in_some_piece(p2, q));
        } else {
            let flush = byte_len(cur) + byte_len(para) + 2 > target;
            if flush {
                lemma_occurs_after_trim(cur, q, a, false);
                assert(p2[pieces.len() as int] == trim(cur));
                assert(in_some_piece(p2, q));
            } else {
                assert(c2 == cur + seq!['\n', '\n'] + para);
                assert(c2.subrange(a, a + q.len()) =~= cur.subrange(a, a + q.len()));
                assert(occurs_at(c2, q, a));
            }
        }
    }
}

#[verifier::spinoff_prover]
proof fn lemma_para_step_adds(pieces: Seq<Seq<char>>, cur: Seq<char>, x: Seq<char>, target: int)
    requires
        para_step(Some((pieces, cur)), x, target) is Some,
        whole_paragraph(x, target),
    ensures
        ({
            let (p2, c2) = para_step(Some((pieces, cur)), x, target)->Some_0;
            occurs_in(c2, trim(x))
        }),
{
    let q = trim(x);
    let para = trim_newlines(x);
    let b = lemma_para_run(x);
    let (p2, c2) = para_step(Some((pieces, cur)), x, target)->Some_0;
    let flush = cur.len() > 0 && byte_len(cur) + byte_len(para) + 2 > target;
    let c1 = if flush {
        Seq::<char>::empty()
    } else {
        cur
    };
    if c1.len() == 0 {
        assert(c2 == para);
        assert(occurs_at(c2, q, b));
    } else {
        assert(c2 == c1 + seq!['\n', '\n'] + para);
        let pre = c2.len() - para.len();
        assert(c2.subrange(pre, c2.len() as int) =~= para);
        assert(occurs_at(c2, para, pre));
        lemma_occurs_trans(c2, para, q, pre, b);
    }
}

proof fn lemma_para_fold_keeps(paras: Seq<Seq<char>>, target: int)
    ensures
        para_fold(paras, target) matches Some((pieces, cur)) ==> forall|k: int|
            0 <= k < paras.len() && whole_paragraph(#[trigger] paras[k], target) ==> in_some_piece(pieces, trim(paras[k]))
                || occurs_in(cur, trim(paras[k])),
    decreases paras.len(),
{
    if paras.len() > 0 {
        let init = paras.drop_last();
        lemma_para_fold_keeps(init, target);
        if let Some((pieces, cur)) = para_fold(paras, target) {
            let (p0, c0) = para_fold(init, target)->Some_0;
            assert forall|k: int| 0 <= k < paras.len() && whole_paragraph(#[trigger] paras[k], target) implies in_some_piece(
                pieces,
                trim(paras[k]),
            ) || occurs_in(cur, trim(paras[k])) by {
                let c = lemma_trim_run(paras[k]);
                if k < init.len() {
                    assert(init[k] == paras[k]);
                    lemma_para_step_keeps(p0, c0, paras.last(), target, trim(paras[k]));
                } else {
                    assert(paras[k] == paras.last());
                    lemma_para_step_adds(p0, c0, paras.last(), target);
                }
            }
        }
    }
}

/// Splitting a section loses no paragraph: every paragraph of the section
/// (paragraphs are separated by blank lines) that is not blank and fits in
/// `target` bytes occurs, trimmed, inside one of the pieces.
pub proof fn lemma_section_pieces_keep_paragraphs(section: Seq<char>, target: int)
    ensures
        section_pieces(section, target) matches Some(ps) ==> forall|k: int|
            0 <= k < paragraphs(section).len() && whole_paragraph(#[trigger] paragraphs(section)[k], target)
                ==> in_some_piece(ps, trim(paragraphs(section)[k])),
{
    let paras = paragraphs(section);
    lemma_split_on_runs(section, seq!['\n', '\n']);
    if let Some(ps) = section_pieces(section, target) {
        assert forall|k: int| 0 <= k < paras.len() && whole_paragraph(#[trigger] paras[k], target) implies in_some_piece(
            ps,
            trim(paras[k]),
        ) by {
            let x = paras[k];
            let q = trim(x);
            let c = lemma_trim_run(x);
            if byte_len(section) <= target {
                let a = choose|a: int| occurs_at(section, x, a);
                lemma_occurs_trans(section, x, q, a, c);
                lemma_occurs_after_trim(section, q, a + c, false);
                assert(ps[0] == trim(section));
                assert(in_some_piece(ps, q));
            } else {
                lemma_para_fold_keeps(paras, target);
                let (pieces, cur) = para_fold(paras, target)->Some_0;
                let all = if cur.len() == 0 {
                    pieces
                } else {
                    pieces.push(trim(cur))
                };
                assert(ps == drop_empty(all));
                if in_some_piece(pieces, q) {
                    let j = choose|j: int| 0 <= j < pieces.len() && occurs_in(#[trigger] pieces[j], q);
                    assert(all[j] == pieces[j]);
                    let a = choose|a: int| occurs_at(pieces[j], q, a);
                    let j2 = lemma_drop_empty_keeps(all, j);
                    assert(occurs_in(ps[j2], q));
                } else {
                    let a = choose|a: int| occurs_at(cur, q, a);
                    lemma_occurs_after_trim(cur, q, a, false);
                    let j = pieces.len() as int;
                    assert(all[j] == trim(cur));
                    let b = choose|b: int| occurs_at(trim(cur), q, b);
                    let j2 = lemma_drop_empty_keeps(all, j);
                    assert(occurs_in(ps[j2], q));
                }
            }
        }
    }
}

/// `s` holds only whitespace.
pub open spec fn blank(s: Seq<char>) -> bool {
    forall|i: int| 0 <= i < s.len() ==> is_ws(#[trigger] s[i])
}

/// `rem` is the texts `gs`, in order, with only whitespace before, between
/// and after them.
pub open spec fn spaced_out(rem: Seq<char>, gs: Seq<Seq<char>>) -> bool
    decreases gs.len(),
{
    if gs.len() == 0 {
        blank(rem)
    } else {
        exists|a: int|
            0 <= a && a + gs[0].len() <= rem.len() && blank(rem.take(a)) && #[trigger] rem.subrange(a, a + gs[0].len())
                == gs[0] && spaced_out(rem.skip(a + gs[0].len()), gs.drop_first())
    }
}

proof fn lemma_spaced_out_prepend(x: Seq<char>, y: Seq<char>, gs: Seq<Seq<char>>)
    requires
        blank(x),
        spaced_out(y, gs),
    ensures
        spaced_out(x + y, gs),
{
    let z = x + y;
    if gs.len() == 0 {
        assert forall|i: int| 0 <= i < z.len() implies is_ws(#[trigger] z[i]) by {
            if i < x.len() {
                assert(z[i] == x[i]);
            } else {
                assert(z[i] == y[i - x.len()]);
            }
        }
    } else {
        let a = choose|a: int|
            0 <= a && a + gs[0].len() <= y.len() && blank(y.take(a)) && #[trigger] y.subrange(a, a + gs[0].len()) == gs[0]
                && spaced_out(y.skip(a + gs[0].len()), gs.drop_first());
        let b = x.len() + a;
        assert(z.take(b) =~= x + y.take(a));
        assert forall|i: int| 0 <= i < z.take(b).len() implies is_ws(#[trigger] z.take(b)[i]) by {
            if i < x.len() {
                assert(z.take(b)[i] == x[i]);
            } else {
                assert(z.take(b)[i] == y.take(a)[i - x.len()]);
            }
        }
        assert(z.subrange(b, b + gs[0].len()) =~= y.subrange(a, a + gs[0].len()));
        assert(z.skip(b + gs[0].len()) =~= y.skip(a + gs[0].len()));
    }
}

/// A text is its trimmed self with only whitespace around it.
proof fn lemma_spaced_out_trim(x: Seq<char>)
    ensures
        trim(x).len() > 0 ==> spaced_out(x, seq![trim(x)]),
        trim(x).len() == 0 ==> blank(x),
{
    let k = lemma_trim_start_by_at(x, false);
    let x1 = x.skip(k);
    let e = lemma_trim_end_by_at(x1, false);
    let t = trim(x);
    assert(t == x1.take(e));
    assert forall|i: int| 0 <= i < x.take(k).len() implies is_ws(#[trigger] x.take(k)[i]) by {
        assert(x.take(k)[i] == x[i]);
        assert(strip_pred(false, x[i]));
    }
    let tail = x.skip(k + e);
    assert forall|i: int| 0 <= i < tail.len() implies is_ws(#[trigger] tail[i]) by {
        assert(tail[i] == x1[e + i]);
        assert(strip_pred(false, x1[e + i]));
    }
    if t.len() > 0 {
        assert(x.subrange(k, k + t.len()) =~= t);
        let gs = seq![t];
        assert(gs.drop_first() =~= Seq::<Seq<char>>::empty());
        assert(spaced_out(tail, gs.drop_first()));
        assert(x.subrange(k, k + gs[0].len()) == gs[0]);
    } else {
        assert(x =~= x.take(k) + tail);
        lemma_spaced_out_prepend(x.take(k), tail, seq![]);
    }
}

/// A cut text `head + after` is spaced out into `trim(head)` and the
/// groups of `after` once its leading whitespace is dropped.
proof fn lemma_spaced_out_cut(head: Seq<char>, after: Seq<char>, g2: Seq<Seq<char>>)
    requires
        spaced_out(trim_start(after), g2),
    ensures
        spaced_out(head + after, seq![trim(head)] + g2),
{
    let m = lemma_trim_start_by_at(after, false);
    let rest2 = trim_start(after);
    assert forall|i: int| 0 <= i < after.take(m).len() implies is_ws(#[trigger] after.take(m)[i]) by {
        assert(after.take(m)[i] == after[i]);
        assert(strip_pred(false, after[i]));
    }
    assert(after =~= after.take(m) + rest2);
    lemma_spaced_out_prepend(after.take(m), rest2, g2);
    let kh = lemma_trim_start_by_at(head, false);
    let h1 = head.skip(kh);
    let eh = lemma_trim_end_by_at(h1, false);
    let t = trim(head);
    assert(t == h1.take(eh));
    let htail = head.skip(kh + eh);
    assert forall|i: int| 0 <= i < htail.len() implies is_ws(#[trigger] htail[i]) by {
        assert(htail[i] == h1[eh + i]);
        assert(strip_pred(false, h1[eh + i]));
    }
    lemma_spaced_out_prepend(htail, after, g2);
    let whole = head + after;
    let g = seq![t] + g2;
    assert(whole.skip(kh + t.len()) =~= htail + after);
    assert forall|i: int| 0 <= i < whole.take(kh).len() implies is_ws(#[trigger] whole.take(kh)[i]) by {
        assert(whole.take(kh)[i] == head[i]);
        assert(strip_pred(false, head[i]));
    }
    assert(whole.subrange(kh, kh + t.len()) =~= t);
    assert(g[0] == t);
    assert(g.drop_first() =~= g2);
    assert(whole.subrange(kh, kh + g[0].len()) == g[0]);
}

/// The sentence groups of an over-long paragraph lose no text: the
/// paragraph is the groups, in order, with only whitespace between them.
#[verifier::spinoff_prover]
pub proof fn lemma_sentence_groups_cover(rem: Seq<char>, target: int)
    ensures
        sentence_groups(rem, target) matches Some(g) ==> spaced_out(rem, g),
    decreases rem.len(),
{
    reveal(sentence_groups);
    if byte_len(rem) <= target {
        lemma_spaced_out_trim(rem);
        if rem.len() > 0 && trim(rem).len() == 0 {
            let gs = seq![trim(rem)];
            assert(rem.take(0) =~= Seq::<char>::empty());
            assert(rem.subrange(0, 0) =~= gs[0]);
            assert(rem.skip(0) =~= rem);
            assert(gs.drop_first() =~= Seq::<Seq<char>>::empty());
            assert(spaced_out(rem.skip(0int + gs[0].len()), gs.drop_first()));
        }
    } else {
        let k = prefix_within(rem, target);
        if k != 0 {
            lemma_prefix_within_le(rem, target);
            lemma_sentence_cut(rem.take(k));
            let c = sentence_cut(rem.take(k));
            let after = rem.skip(c);
            lemma_trim_start_len(after, false);
            lemma_sentence_groups_cover(trim_start(after), target);
            if let Some(g2) = sentence_groups(trim_start(after), target) {
                assert(sentence_groups(rem, target) == Some(seq![trim(rem.take(c))] + g2));
                lemma_spaced_out_cut(rem.take(c), after, g2);
                assert(rem.take(c) + after =~= rem);
            }
        }
    }
}

/// Every non-empty text of `g` is one of the pieces `ps`.
pub open spec fn groups_in(ps: Seq<Seq<char>>, g: Seq<Seq<char>>) -> bool {
    forall|i: int| 0 <= i < g.len() && (#[trigger] g[i]).len() > 0 ==> exists|j: int| 0 <= j < ps.len() && ps[j] == g[i]
}

/// The paragraph `x` is over `target` bytes, and its sentence groups are
/// all among the pieces `ps`.
pub open spec fn long_paragraph_kept(ps: Seq<Seq<char>>, x: Seq<char>, target: int) -> bool {
    match sentence_groups(trim_newlines(x), target) {
        Some(g) => groups_in(ps, g),
        None => false,
    }
}

proof fn lemma_para_step_prefix(pieces: Seq<Seq<char>>, cur: Seq<char>, x: Seq<char>, target: int)
    requires
        para_step(Some((pieces, cur)), x, target) is Some,
    ensures
        ({
            let p2 = para_step(Some((pieces, cur)), x, target)->Some_0.0;
            pieces.len() <= p2.len() && forall|j: int| 0 <= j < pieces.len() ==> p2[j] == pieces[j]
        }),
{
}

proof fn lemma_groups_in_grow(ps: Seq<Seq<char>>, p2: Seq<Seq<char>>, g: Seq<Seq<char>>)
    requires
        groups_in(ps, g),
        ps.len() <= p2.len(),
        forall|j: int| 0 <= j < ps.len() ==> p2[j] == ps[j],
    ensures
        groups_in(p2, g),
{
    assert forall|i: int| 0 <= i < g.len() && (#[trigger] g[i]).len() > 0 implies exists|j: int|
        0 <= j < p2.len() && p2[j] == g[i] by {
        let j = choose|j: int| 0 <= j < ps.len() && ps[j] == g[i];
        assert(p2[j] == ps[j]);
    }
}

proof fn lemma_para_fold_keeps_groups(paras: Seq<Seq<char>>, target: int)
    requires
        target >= 0,
    ensures
        para_fold(paras, target) matches Some((pieces, cur)) ==> forall|k: int|
            0 <= k < paras.len() && byte_len(trim_newlines(#[trigger] paras[k])) > target ==> long_paragraph_kept(
                pieces,
                paras[k],
                target,
            ),
    decreases paras.len(),
{
    if paras.len() > 0 {
        let init = paras.drop_last();
        lemma_para_fold_keeps_groups(init, target);
        if let Some((pieces, cur)) = para_fold(paras, target) {
            let (p0, c0) = para_fold(init, target)->Some_0;
            lemma_para_step_prefix(p0, c0, paras.last(), target);
            assert forall|k: int| 0 <= k < paras.len() && byte_len(trim_newlines(#[trigger] paras[k])) > target implies long_paragraph_kept(
                pieces,
                paras[k],
                target,
            ) by {
                if k < init.len() {
                    assert(init[k] == paras[k]);
                    let g = sentence_groups(trim_newlines(paras[k]), target)->Some_0;
                    lemma_groups_in_grow(p0, pieces, g);
                } else {
                    assert(paras[k] == paras.last());
                    let para = trim_newlines(paras[k]);
                    if para.len() == 0 {
                        assert(para =~= Seq::<char>::empty());
                        assert(byte_len(para) == 0);
                    }
                    assert(para.len() > 0);
                    let flushed = if c0.len() == 0 {
                        p0
                    } else {
                        p0.push(trim(c0))
                    };
                    let g = sentence_groups(para, target)->Some_0;
                    assert(pieces == flushed + g);
                    assert forall|i: int| 0 <= i < g.len() && (#[trigger] g[i]).len() > 0 implies exists|j: int|
                        0 <= j < pieces.len() && pieces[j] == g[i] by {
                        assert(pieces[flushed.len() + i] == g[i]);
                    }
                }
            }
        }
    }
}

/// An over-long paragraph of a section (over `target` bytes once its
/// surrounding newlines are dropped) reaches the pieces whole: every one of
/// its sentence groups is a piece (and those groups are the paragraph up
/// to whitespace, `lemma_sentence_groups_cover`).
pub proof fn lemma_section_pieces_keep_long_paragraphs(section: Seq<char>, target: int)
    requires
        target >= 0,
    ensures
        section_pieces(section, target) matches Some(ps) ==> byte_len(section) > target ==> forall|k: int|
            0 <= k < paragraphs(section).len() && byte_len(trim_newlines(#[trigger] paragraphs(section)[k])) > target
                ==> long_paragraph_kept(ps, paragraphs(section)[k], target),
{
    let paras = paragraphs(section);
    if let Some(ps) = section_pieces(section, target) {
        if byte_len(section) > target {
            lemma_para_fold_keeps_groups(paras, target);
            let (pieces, cur) = para_fold(paras, target)->Some_0;
            let all = if cur.len() == 0 {
                pieces
            } else {
                pieces.push(trim(cur))
            };
            assert(ps == drop_empty(all));
            assert forall|k: int| 0 <= k < paras.len() && byte_len(trim_newlines(#[trigger] paras[k])) > target implies long_paragraph_kept(
                ps,
                paras[k],
                target,
            ) by {
                let g = sentence_groups(trim_newlines(paras[k]), target)->Some_0;
                assert forall|i: int| 0 <= i < g.len() && (#[trigger] g[i]).len() > 0 implies exists|j: int|
                    0 <= j < ps.len() && ps[j] == g[i] by {
                    let j = choose|j: int| 0 <= j < pieces.len() && pieces[j] == g[i];
                    assert(all[j] == pieces[j]);
                    let j2 = lemma_drop_empty_keeps(all, j);
                }
            }
        }
    }
}

/// The texts of (title, text) pairs.
pub open spec fn slice_texts(sl: Seq<(Seq<char>, Seq<char>)>) -> Seq<Seq<char>> {
    sl.map_values(|p: (Seq<char>, Seq<char>)| p.1)
}

proof fn lemma_starts_titles(raw: Seq<char>, secs: Seq<(Seq<char>, Seq<char>)>)
    ensures
        locate_starts(raw, secs) matches StartsState::Found(st, _) ==> st.len() == secs.len() && forall|i: int|
            0 <= i < st.len() ==> (#[trigger] st[i]).1 == secs[i].0,
    decreases secs.len(),
{
    if secs.len() > 0 {
        lemma_starts_titles(raw, secs.drop_last());
    }
}

proof fn lemma_first_tiny_none(slices: Seq<(Seq<char>, Seq<char>)>, i: int)
    requires
        0 <= i,
        first_tiny(slices, i) is None,
    ensures
        forall|j: int| i <= j < slices.len() ==> byte_len(trim(#[trigger] slices[j].1)) >= MIN_SECTION_CHARS,
    decreases slices.len() - i,
{
    if i < slices.len() {
        lemma_first_tiny_none(slices, i + 1);
    }
}

/// When every section is found and none is too short, there is one slice
/// per outline section, in the outline's order and under its title, and
/// each slice has at least `MIN_SECTION_CHARS` bytes once trimmed.
pub proof fn lemma_located_sections(
    raw: Seq<char>,
    secs: Seq<(Seq<char>, Seq<char>)>,
    end_anchor: Option<Seq<char>>,
)
    ensures
        locate_spec(raw, secs, end_anchor) matches LocateOutcome::Sliced(sl) ==> sl.len() == secs.len()
            && forall|i: int|
            0 <= i < sl.len() ==> (#[trigger] sl[i]).0 == secs[i].0 && byte_len(trim(sl[i].1))
                >= MIN_SECTION_CHARS,
{
    lemma_starts_titles(raw, secs);
    if secs.len() > 0 {
        if let StartsState::Found(st, _) = locate_starts(raw, secs) {
            let end = body_end(raw, end_anchor, st.last().0);
            let slices = slices_of(raw, st, end);
            if first_tiny(slices, 0) is None {
                lemma_first_tiny_none(slices, 0);
            }
        }
    }
}

/// Cutting at ordered starts loses and repeats nothing: the slices,
/// joined, are the text from the first start to the end.
pub proof fn lemma_slices_cover(raw: Seq<char>, st: Seq<(int, Seq<char>)>, end: int)
    requires
        st.len() > 0,
        0 <= st[0].0,
        forall|a: int, b: int| 0 <= a <= b < st.len() ==> st[a].0 <= st[b].0,
        st.last().0 <= end <= raw.len(),
    ensures
        slice_texts(slices_of(raw, st, end)).flatten() == raw.subrange(st[0].0, end),
    decreases st.len(),
{
    let sl = slice_texts(slices_of(raw, st, end));
    if st.len() == 1 {
        sl.lemma_flatten_one_element();
    } else {
        let rest = st.drop_first();
        assert(rest.last() == st.last());
        assert forall|a: int, b: int| 0 <= a <= b < rest.len() implies rest[a].0 <= rest[b].0 by {
            assert(rest[a] == st[a + 1] && rest[b] == st[b + 1]);
        }
        lemma_slices_cover(raw, rest, end);
        assert(sl.drop_first() =~= slice_texts(slices_of(raw, rest, end)));
        assert(sl.first() == raw.subrange(st[0].0, st[1].0));
        assert(raw.subrange(st[0].0, st[1].0) + raw.subrange(st[1].0, end) =~= raw.subrange(
            st[0].0,
            end,
        ));
    }
}

} // verus!
