//! Helpers of the scraping stage: arXiv identifiers, PDF detection and the
//! plain-text rendering of LaTeXML documents.
use vstd::prelude::*;
use crate::text::{chars_of, find, owned, push_char, push_str, string_of, trim, words, join};

verus! {

broadcast use vstd::seq_lib::group_seq_properties;

/// Characters of `rest` up to (excluding) the first `/` or `?`.
pub open spec fn take_until_sep(rest: Seq<char>) -> Seq<char>
    decreases rest.len(),
{
    if rest.len() == 0 || rest[0] == '/' || rest[0] == '?' {
        seq![]
    } else {
        seq![rest[0]] + take_until_sep(rest.drop_first())
    }
}

/// `s` without the suffix `.pdf`, when it has it.
pub open spec fn strip_pdf_suffix(s: Seq<char>) -> Seq<char> {
    if crate::text::ends_with(s, ".pdf"@) {
        s.take(s.len() - 4)
    } else {
        s
    }
}

/// The identifier after the first occurrence of `pat` in `url`.
pub open spec fn id_after(url: Seq<char>, pat: Seq<char>, strip_pdf: bool) -> Option<Seq<char>> {
    match find(url, pat) {
        Some(i) => {
            let id = take_until_sep(url.skip(i + pat.len()));
            let id = if strip_pdf {
                strip_pdf_suffix(id)
            } else {
                id
            };
            if id.len() > 0 {
                Some(id)
            } else {
                None
            }
        },
        None => None,
    }
}

/// The first non-empty identifier found after one of `pats`, tried in order.
pub open spec fn first_id(url: Seq<char>, pats: Seq<Seq<char>>, strip_pdf: bool) -> Option<Seq<char>>
    decreases pats.len(),
{
    if pats.len() == 0 {
        None
    } else {
        match id_after(url, pats[0], strip_pdf) {
            Some(id) => Some(id),
            None => first_id(url, pats.drop_first(), strip_pdf),
        }
    }
}

/// URL prefixes after which an arXiv identifier follows.
pub open spec fn arxiv_patterns() -> Seq<Seq<char>> {
    seq![
        "arxiv.org/abs/"@,
        "arxiv.org/html/"@,
        "arxiv.org/pdf/"@,
        "ar5iv.org/abs/"@,
        "ar5iv.org/html/"@,
    ]
}

/// Option of a string, viewed.
pub open spec fn opt_str(o: Option<String>) -> Option<Seq<char>> {
    match o {
        Some(s) => Some(s@),
        None => None,
    }
}

/// End of the identifier that starts at `start`.
fn scan_id_end(url: &Vec<char>, start: usize) -> (e: usize)
    requires
        start <= url@.len(),
    ensures
        start <= e <= url@.len(),
        url@.subrange(start as int, e as int) == take_until_sep(url@.skip(start as int)),
{
    let mut e = start;
    while e < url.len() && url[e] != '/' && url[e] != '?'
        invariant
            start <= e <= url@.len(),
            forall|j: int| start <= j < e ==> url@[j] != '/' && url@[j] != '?',
        decreases url@.len() - e,
    {
        e += 1;
    }
    proof {
        lemma_take_until_sep(url@.skip(start as int), e - start);
        assert(url@.skip(start as int).take(e - start) =~= url@.subrange(start as int, e as int));
    }
    e
}

/// End of `url[start..e]` once a `.pdf` suffix is removed.
fn strip_pdf_end(url: &Vec<char>, start: usize, e: usize) -> (end: usize)
    requires
        start <= e <= url@.len(),
    ensures
        start <= end <= e,
        url@.subrange(start as int, end as int) == strip_pdf_suffix(url@.subrange(start as int, e as int)),
{
    let suffix = chars_of(".pdf");
    proof {
        reveal_strlit(".pdf");
    }
    if crate::text::ends_with_exec(url, start, e, &suffix) {
        proof {
            assert(url@.subrange(start as int, e as int).take(e - start - 4) =~= url@.subrange(
                start as int,
                e - 4,
            ));
        }
        e - 4
    } else {
        e
    }
}

/// `id_after` on the characters of a URL.
pub(crate) fn id_after_exec(url: &Vec<char>, pat: &str, strip_pdf: bool) -> (r: Option<String>)
    ensures
        opt_str(r) == id_after(url@, pat@, strip_pdf),
{
    let p = chars_of(pat);
    proof {
        assert(url@.subrange(0, url@.len() as int) =~= url@);
    }
    match crate::text::find_exec(url, 0, url.len(), &p) {
        Some(i) => {
            let start = i + p.len();
            let e = scan_id_end(url, start);
            let end = if strip_pdf {
                strip_pdf_end(url, start, e)
            } else {
                e
            };
            if end == start {
                None
            } else {
                Some(string_of(url, start, end))
            }
        },
        None => None,
    }
}

proof fn lemma_take_until_sep(rest: Seq<char>, k: int)
    requires
        0 <= k <= rest.len(),
        forall|j: int| 0 <= j < k ==> rest[j] != '/' && rest[j] != '?',
        k == rest.len() || rest[k] == '/' || rest[k] == '?',
    ensures
        take_until_sep(rest) == rest.take(k),
    decreases k,
{
    if k == 0 {
        assert(rest.take(0) =~= Seq::<char>::empty());
    } else {
        assert forall|j: int| 0 <= j < k - 1 implies rest.drop_first()[j] != '/' && rest.drop_first()[j] != '?' by {
            assert(rest.drop_first()[j] == rest[j + 1]);
        }
        lemma_take_until_sep(rest.drop_first(), k - 1);
        assert(seq![rest[0]] + rest.drop_first().take(k - 1) =~= rest.take(k));
    }
}

/// The arXiv identifier of an arXiv (or ar5iv) URL, without a `.pdf`
/// suffix; `None` when the URL holds none.
pub fn extract_arxiv_id(url: &str) -> (r: Option<String>)
    ensures
        opt_str(r) == first_id(url@, arxiv_patterns(), true),
{
    let v = chars_of(url);
    let ghost pats = arxiv_patterns();
    proof {
        reveal_with_fuel(first_id, 6);
        assert(pats.drop_first() =~= seq!["arxiv.org/html/"@, "arxiv.org/pdf/"@, "ar5iv.org/abs/"@, "ar5iv.org/html/"@]);
        assert(pats.drop_first().drop_first() =~= seq!["arxiv.org/pdf/"@, "ar5iv.org/abs/"@, "ar5iv.org/html/"@]);
        assert(pats.drop_first().drop_first().drop_first() =~= seq!["ar5iv.org/abs/"@, "ar5iv.org/html/"@]);
        assert(pats.drop_first().drop_first().drop_first().drop_first() =~= seq!["ar5iv.org/html/"@]);
        assert(pats.drop_first().drop_first().drop_first().drop_first().drop_first() =~= Seq::<Seq<char>>::empty());
    }
    if let Some(id) = id_after_exec(&v, "arxiv.org/abs/", true) {
        return Some(id);
    }
    if let Some(id) = id_after_exec(&v, "arxiv.org/html/", true) {
        return Some(id);
    }
    if let Some(id) = id_after_exec(&v, "arxiv.org/pdf/", true) {
        return Some(id);
    }
    if let Some(id) = id_after_exec(&v, "ar5iv.org/abs/", true) {
        return Some(id);
    }
    id_after_exec(&v, "ar5iv.org/html/", true)
}


/// Result of fetching a URL expected to be an article: readable HTML, or a
/// PDF body for the PDF extractor.
pub enum ArticleFetch {
    Html { title: String, text: String },
    Pdf(Vec<u8>),
}

// ---------------------------------------------------------------------------
// PDF detection.
// ---------------------------------------------------------------------------

/// Characters of `s` up to (excluding) the first `?` or `#`.
pub open spec fn before_query(s: Seq<char>) -> Seq<char>
    decreases s.len(),
{
    if s.len() == 0 || s[0] == '?' || s[0] == '#' {
        seq![]
    } else {
        seq![s[0]] + before_query(s.drop_first())
    }
}

proof fn lemma_before_query(s: Seq<char>, k: int)
    requires
        0 <= k <= s.len(),
        forall|j: int| 0 <= j < k ==> s[j] != '?' && s[j] != '#',
        k == s.len() || s[k] == '?' || s[k] == '#',
    ensures
        before_query(s) == s.take(k),
    decreases k,
{
    if k == 0 {
        assert(s.take(0) =~= Seq::<char>::empty());
    } else {
        assert forall|j: int| 0 <= j < k - 1 implies s.drop_first()[j] != '?' && s.drop_first()[j] != '#' by {
            assert(s.drop_first()[j] == s[j + 1]);
        }
        lemma_before_query(s.drop_first(), k - 1);
        assert(seq![s[0]] + s.drop_first().take(k - 1) =~= s.take(k));
    }
}

/// The path of a URL (before any query or fragment) ends in `.pdf`, in any
/// ASCII case.
pub open spec fn looks_like_pdf(url: Seq<char>) -> bool {
    crate::text::ends_with(crate::text::ascii_lowercase(before_query(url)), ".pdf"@)
}

/// Whether a URL points at a PDF by its extension.
pub fn url_looks_like_pdf(url: &str) -> (b: bool)
    ensures
        b == looks_like_pdf(url@),
{
    let v = chars_of(url);
    let mut e: usize = 0;
    while e < v.len() && v[e] != '?' && v[e] != '#'
        invariant
            e <= v@.len(),
            forall|j: int| 0 <= j < e ==> v@[j] != '?' && v@[j] != '#',
        decreases v@.len() - e,
    {
        e += 1;
    }
    proof {
        lemma_before_query(v@, e as int);
        assert(v@.take(e as int) =~= v@.subrange(0, e as int));
    }
    let path = string_of(&v, 0, e);
    let lower = crate::text::to_ascii_lowercase(path.as_str());
    crate::text::str_ends_with(lower.as_str(), ".pdf")
}

/// A Content-Type that, trimmed and in ASCII lowercase, starts with
/// `application/pdf`.
pub open spec fn pdf_content_type(ct: Seq<char>) -> bool {
    crate::text::starts_with(crate::text::ascii_lowercase(trim(ct)), "application/pdf"@)
}

/// Whether a fetched article is a PDF: by the final URL's extension, or by
/// its Content-Type header (when that is readable text).
pub fn is_pdf_response(final_url: &str, content_type: Option<&str>) -> (b: bool)
    ensures
        b == (looks_like_pdf(final_url@) || (content_type matches Some(ct) && pdf_content_type(ct@))),
{
    if url_looks_like_pdf(final_url) {
        return true;
    }
    match content_type {
        Some(ct) => {
            let t = crate::text::trim_str(ct);
            let lower = crate::text::to_ascii_lowercase(t.as_str());
            crate::text::str_starts_with(lower.as_str(), "application/pdf")
        },
        None => false,
    }
}

// ---------------------------------------------------------------------------
// arXiv.
// ---------------------------------------------------------------------------

/// `s` with every newline replaced by a space.
pub open spec fn newlines_to_spaces(s: Seq<char>) -> Seq<char> {
    s.map_values(|c: char| if c == '\n' {
        ' '
    } else {
        c
    })
}

/// The title of the first `<entry>` of an arXiv API response: the text
/// between the first `<title>` and the next `</title>` after the entry
/// starts, trimmed, newlines turned into spaces.
pub open spec fn arxiv_title(xml: Seq<char>) -> Option<Seq<char>> {
    match find(xml, "<entry>"@) {
        None => None,
        Some(e) => {
            let after = xml.skip(e);
            match find(after, "<title>"@) {
                None => None,
                Some(t) => {
                    let start = t + 7;
                    match find(after.skip(start), "</title>"@) {
                        None => None,
                        Some(len) => Some(newlines_to_spaces(trim(after.subrange(start, start + len)))),
                    }
                },
            }
        },
    }
}

/// Reads the paper title out of an arXiv API (Atom) response.
#[verifier::spinoff_prover]
#[verifier::rlimit(40)]
pub fn parse_arxiv_title(xml: &str) -> (r: Option<String>)
    ensures
        opt_str(r) == arxiv_title(xml@),
{
    let v = chars_of(xml);
    let entry = chars_of("<entry>");
    let open = chars_of("<title>");
    let close = chars_of("</title>");
    proof {
        reveal_strlit("<title>");
        assert(v@.subrange(0, v@.len() as int) =~= v@);
    }
    let e = match crate::text::find_exec(&v, 0, v.len(), &entry) {
        Some(e) => e,
        None => {
            return None;
        },
    };
    let ghost after = v@.skip(e as int);
    proof {
        assert(v@.subrange(e as int, v@.len() as int) =~= after);
    }
    let t = match crate::text::find_exec(&v, e, v.len(), &open) {
        Some(t) => t,
        None => {
            return None;
        },
    };
    let start = e + t + 7;
    proof {
        assert(v@.subrange(start as int, v@.len() as int) =~= after.skip(t + 7));
    }
    let len = match crate::text::find_exec(&v, start, v.len(), &close) {
        Some(l) => l,
        None => {
            return None;
        },
    };
    let title = crate::text::trimmed_string(&v, start, start + len);
    proof {
        assert(v@.subrange(start as int, start + len) =~= after.subrange(t + 7, t + 7 + len));
    }
    let tv = chars_of(title.as_str());
    let mut out = String::new();
    let mut i: usize = 0;
    while i < tv.len()
        invariant
            i <= tv@.len(),
            tv@ == title@,
            out@ == newlines_to_spaces(tv@.take(i as int)),
        decreases tv@.len() - i,
    {
        proof {
            assert(newlines_to_spaces(tv@.take(i + 1)) =~= newlines_to_spaces(tv@.take(i as int)).push(
                if tv@[i as int] == '\n' {
                    ' '
                } else {
                    tv@[i as int]
                },
            ));
        }
        if tv[i] == '\n' {
            push_char(&mut out, ' ');
        } else {
            push_char(&mut out, tv[i]);
        }
        i += 1;
    }
    proof {
        assert(tv@.take(tv@.len() as int) =~= tv@);
    }
    Some(out)
}

/// The title of a scraped arXiv paper: the API's title when there is one,
/// else the HTML title, else `arXiv:<id>`.
pub open spec fn arxiv_title_choice(api: Option<Seq<char>>, html_title: Seq<char>, id: Seq<char>) -> Seq<char> {
    match api {
        Some(t) => t,
        None => if html_title.len() == 0 {
            "arXiv:"@ + id
        } else {
            html_title
        },
    }
}

/// Chooses the title of a scraped arXiv paper.
pub fn choose_arxiv_title(api_title: Option<String>, html_title: String, arxiv_id: &str) -> (r: String)
    ensures
        r@ == arxiv_title_choice(opt_str(api_title), html_title@, arxiv_id@),
{
    match api_title {
        Some(t) => t,
        None => {
            if html_title.as_str().is_empty() {
                let mut s = String::new();
                push_str(&mut s, "arXiv:");
                push_str(&mut s, arxiv_id);
                proof {
                    assert(s@ =~= "arXiv:"@ + arxiv_id@);
                }
                s
            } else {
                html_title
            }
        },
    }
}

/// Scraped papers with less text than this (in bytes, trimmed) are refused.
pub const MIN_PAPER_BYTES: usize = 500;

/// Whether scraped text is suspiciously short.
pub fn content_too_short(text: &str) -> (b: bool)
    ensures
        b == (crate::text::byte_len(trim(text@)) < MIN_PAPER_BYTES),
{
    let t = crate::text::trim_str(text);
    crate::text::str_byte_len(t.as_str()) < MIN_PAPER_BYTES
}

/// Marker of a failed LaTeXML conversion in an HTML rendering.
pub fn html_conversion_failed(html: &str) -> (b: bool)
    ensures
        b == crate::text::contains(html@, "Conversion to HTML had a Fatal error"@),
{
    crate::text::str_contains(html, "Conversion to HTML had a Fatal error")
}

/// `prefix` followed by `id`.
fn prefixed(prefix: &str, id: &str) -> (r: String)
    ensures
        r@ == prefix@ + id@,
{
    let mut s = String::new();
    push_str(&mut s, prefix);
    push_str(&mut s, id);
    proof {
        assert(s@ =~= prefix@ + id@);
    }
    s
}

/// The canonical HTML rendering of an arXiv paper.
pub fn arxiv_html_url(id: &str) -> (r: String)
    ensures
        r@ == "https://arxiv.org/html/"@ + id@,
{
    prefixed("https://arxiv.org/html/", id)
}

/// The ar5iv rendering of an arXiv paper.
pub fn ar5iv_url(id: &str) -> (r: String)
    ensures
        r@ == "https://ar5iv.org/abs/"@ + id@,
{
    prefixed("https://ar5iv.org/abs/", id)
}

/// The arXiv API query for a paper's metadata.
pub fn arxiv_api_url(id: &str) -> (r: String)
    ensures
        r@ == "https://export.arxiv.org/api/query?id_list="@ + id@,
{
    prefixed("https://export.arxiv.org/api/query?id_list=", id)
}

/// The title of a readable extraction: the page's title, or the URL when
/// it has none.
pub fn readable_title(product_title: String, url: &str) -> (r: String)
    ensures
        r@ == (if product_title@.len() == 0 {
            url@
        } else {
            product_title@
        }),
{
    if product_title.as_str().is_empty() {
        owned(url)
    } else {
        product_title
    }
}

// ---------------------------------------------------------------------------
// Blank lines.
// ---------------------------------------------------------------------------

/// `str::lines`, up to trailing whitespace of each line (which the users
/// here trim anyway): the pieces between newlines, without an empty last
/// piece.
pub open spec fn str_lines(s: Seq<char>) -> Seq<Seq<char>> {
    let parts = crate::text::split_on(s, seq!['\n']);
    if parts.len() > 0 && parts.last().len() == 0 {
        parts.drop_last()
    } else {
        parts
    }
}

/// One line of `collapse_blank_lines`: the output so far and whether the
/// previous line was blank.
pub open spec fn collapse_step(st: (Seq<char>, bool), line: Seq<char>) -> (Seq<char>, bool) {
    let t = crate::text::trim_end(line);
    if t.len() == 0 {
        (
            if st.1 {
                st.0
            } else {
                st.0.push('\n')
            },
            true,
        )
    } else {
        (st.0 + t + seq!['\n'], false)
    }
}

/// The output after the lines `lines`.
pub open spec fn collapse_fold(lines: Seq<Seq<char>>) -> (Seq<char>, bool)
    decreases lines.len(),
{
    if lines.len() == 0 {
        (seq![], false)
    } else {
        collapse_step(collapse_fold(lines.drop_last()), lines.last())
    }
}

/// Lines with trailing whitespace removed, runs of blank lines reduced to
/// one, the whole trimmed.
pub open spec fn collapsed(s: Seq<char>) -> Seq<char> {
    trim(collapse_fold(str_lines(s)).0)
}

/// Collapses runs of blank lines into one blank line.
pub fn collapse_blank_lines(s: &str) -> (r: String)
    ensures
        r@ == collapsed(s@),
{
    let v = chars_of(s);
    let mut nl: Vec<char> = Vec::new();
    nl.push('\n');
    proof {
        assert(nl@ =~= seq!['\n']);
        assert(v@.subrange(0, v@.len() as int) =~= v@);
    }
    let rs0 = crate::text::split_ranges(&v, 0, v.len(), &nl);
    let mut n = rs0.len();
    if n > 0 && rs0[n - 1].0 == rs0[n - 1].1 {
        n = n - 1;
    }
    let ghost lines = str_lines(s@);
    proof {
        let parts = crate::text::range_views(v@, rs0@);
        assert(parts.len() == rs0@.len());
        if rs0@.len() > 0 {
            assert(parts.last() == v@.subrange(rs0@.last().0 as int, rs0@.last().1 as int));
        }
        assert(lines == parts.take(n as int));
    }
    let mut out = String::new();
    let mut prev_blank = false;
    let mut k: usize = 0;
    proof {
        assert(lines.take(0) =~= Seq::<Seq<char>>::empty());
    }
    while k < n
        invariant
            k <= n <= rs0@.len(),
            lines == crate::text::range_views(v@, rs0@).take(n as int),
            forall|j: int| 0 <= j < rs0@.len() ==> (#[trigger] rs0@[j]).0 <= rs0@[j].1 <= v@.len(),
            (out@, prev_blank) == collapse_fold(lines.take(k as int)),
        decreases n - k,
    {
        proof {
            assert(lines.take(k + 1).drop_last() =~= lines.take(k as int));
            assert(lines.take(k + 1).last() == v@.subrange(rs0@[k as int].0 as int, rs0@[k as int].1 as int));
        }
        let (a, b) = rs0[k];
        let e = crate::text::trim_end_index(&v, a, b, false);
        if e == a {
            if !prev_blank {
                push_char(&mut out, '\n');
            }
            prev_blank = true;
        } else {
            crate::text::push_range(&mut out, &v, a, e);
            push_char(&mut out, '\n');
            prev_blank = false;
        }
        k += 1;
    }
    proof {
        assert(lines.take(n as int) =~= lines);
    }
    crate::text::trim_str(out.as_str())
}

// ---------------------------------------------------------------------------
// LaTeXML rendering.
// ---------------------------------------------------------------------------

/// One step of a depth-first walk of an HTML tree: entering a text node,
/// an element (its name and its `class` and `alttext` attributes) or any
/// other node, or leaving a node.
pub enum HtmlEvent {
    Text(String),
    Open { name: String, class: Option<String>, alttext: Option<String> },
    OpenOther,
    Close,
}

/// An event as plain values: a tag (0 text, 1 element, 2 other node,
/// 3 leave), the text or element name, and the element's `class` and
/// `alttext`.
pub type EventView = (u8, Seq<char>, Option<Seq<char>>, Option<Seq<char>>);

/// The plain view of an event.
pub open spec fn event_view(e: HtmlEvent) -> EventView {
    match e {
        HtmlEvent::Text(t) => (0u8, t@, None, None),
        HtmlEvent::Open { name, class, alttext } => (1u8, name@, opt_str(class), opt_str(alttext)),
        HtmlEvent::OpenOther => (2u8, seq![], None, None),
        HtmlEvent::Close => (3u8, seq![], None, None),
    }
}

/// Plain views of events.
pub open spec fn event_views(v: Seq<HtmlEvent>) -> Seq<EventView> {
    v.map_values(|e: HtmlEvent| event_view(e))
}

/// Optional events, viewed.
pub open spec fn opt_events(o: Option<Vec<HtmlEvent>>) -> Option<Seq<EventView>> {
    match o {
        Some(v) => Some(event_views(v@)),
        None => None,
    }
}

/// How many nodes are open after a walk's events: entering a node (text,
/// element or other) opens one, leaving closes one.
pub open spec fn walk_depth(evs: Seq<EventView>) -> int
    decreases evs.len(),
{
    if evs.len() == 0 {
        0
    } else {
        walk_depth(evs.drop_last()) + if evs.last().0 == 3 {
            -1int
        } else {
            1int
        }
    }
}

/// The shape of a depth-first walk of one subtree: the root is left only
/// at the end, every node entered is left once, and a text node, which has
/// no children, is left right after it is entered.
pub open spec fn balanced_walk(evs: Seq<EventView>) -> bool {
    &&& evs.len() > 0
    &&& walk_depth(evs) == 0
    &&& forall|k: int| 0 < k < evs.len() ==> #[trigger] walk_depth(evs.take(k)) > 0
    &&& forall|i: int| 0 <= i < evs.len() && (#[trigger] evs[i]).0 == 0 ==> i + 1 < evs.len() && evs[i + 1].0 == 3
}

/// The walk of the first `article.ltx_document` element of an HTML page,
/// as `scraper` parses it; `None` when there is no such element.
pub uninterp spec fn latexml_events_of(html: Seq<char>) -> Option<Seq<EventView>>;

/// The concatenated text of the first `h1.ltx_title_document` element, as
/// `scraper` parses the page; `None` when there is none.
pub uninterp spec fn latexml_title_of(html: Seq<char>) -> Option<Seq<char>>;

/// Parses a page with `scraper::Html::parse_document`, selects its first
/// `article.ltx_document` and lists the edges of `traverse()` over it,
/// each converted to an event. The contract names the result and states
/// the shape `traverse()` gives: an `Open` and a later `Close` edge for
/// every node of the subtree, nested, the root's first and last.
#[verifier::external_body]
pub(crate) fn latexml_article_events(html: &str) -> (r: Option<Vec<HtmlEvent>>)
    ensures
        opt_events(r) == latexml_events_of(html@),
        r matches Some(v) ==> balanced_walk(event_views(v@)),
{
    let doc = scraper::Html::parse_document(html);
    let article = doc.select(&scraper::Selector::parse("article.ltx_document").ok()?).next()?;
    Some(article.traverse().map(|edge| match edge {
        ego_tree::iter::Edge::Open(n) => match n.value() {
            scraper::Node::Text(t) => HtmlEvent::Text(t.to_string()),
            scraper::Node::Element(e) => HtmlEvent::Open { name: e.name().into(), class: e.attr("class").map(Into::into), alttext: e.attr("alttext").map(Into::into) },
            _ => HtmlEvent::OpenOther,
        },
        ego_tree::iter::Edge::Close(_) => HtmlEvent::Close,
    }).collect())
}

/// Parses a page with `scraper::Html::parse_document` and collects the
/// text (`ElementRef::text`) of its first `h1.ltx_title_document`. The
/// contract names the result.
#[verifier::external_body]
pub(crate) fn latexml_title_text(html: &str) -> (r: Option<String>)
    ensures
        opt_str(r) == latexml_title_of(html@),
{
    let doc = scraper::Html::parse_document(html);
    let sel = scraper::Selector::parse("h1.ltx_title_document").ok()?;
    doc.select(&sel).next().map(|e| e.text().collect::<String>())
}

/// A space after the output unless it is empty or ends in whitespace.
pub open spec fn with_space(out: Seq<char>) -> Seq<char> {
    if out.len() > 0 && !crate::text::is_ws(out.last()) {
        out.push(' ')
    } else {
        out
    }
}

/// The output without its trailing spaces.
pub open spec fn drop_spaces(out: Seq<char>) -> Seq<char>
    decreases out.len(),
{
    if out.len() > 0 && out.last() == ' ' {
        drop_spaces(out.drop_last())
    } else {
        out
    }
}

/// The number of newlines the output ends with.
pub open spec fn trailing_newlines(out: Seq<char>) -> nat
    decreases out.len(),
{
    if out.len() > 0 && out.last() == '\n' {
        1 + trailing_newlines(out.drop_last())
    } else {
        0
    }
}

/// The output ending in a blank line (trailing spaces dropped, newlines
/// added up to two); an empty output stays empty.
pub open spec fn with_blank_line(out: Seq<char>) -> Seq<char> {
    if out.len() == 0 {
        out
    } else {
        let o = drop_spaces(out);
        let n = trailing_newlines(o);
        if n >= 2 {
            o
        } else if n == 1 {
            o.push('\n')
        } else {
            o.push('\n').push('\n')
        }
    }
}

/// The words of a text node appended to the output, separated by single
/// spaces (a space before the first word when the text starts with
/// whitespace).
pub open spec fn with_words(out: Seq<char>, ws: Seq<Seq<char>>, space_first: bool) -> Seq<char>
    decreases ws.len(),
{
    if ws.len() == 0 {
        out
    } else {
        let prev = with_words(out, ws.drop_last(), space_first);
        (if ws.len() > 1 || space_first {
            with_space(prev)
        } else {
            prev
        }) + ws.last()
    }
}

/// A text node appended to the output: its words, and a space after them
/// when the text ends with whitespace.
pub open spec fn with_text(out: Seq<char>, t: Seq<char>) -> Seq<char> {
    let o = with_words(out, words(t), t.len() > 0 && crate::text::is_ws(t[0]));
    if t.len() > 0 && crate::text::is_ws(t.last()) {
        with_space(o)
    } else {
        o
    }
}

/// Elements left out with their contents: bibliography, citations,
/// figures, tables, navigation and other page furniture.
pub open spec fn is_noise(name: Seq<char>, class: Seq<char>) -> bool {
    ||| crate::text::contains(class, "ltx_bibliography"@)
    ||| crate::text::contains(class, "ltx_biblist"@)
    ||| crate::text::contains(class, "ltx_bibitem"@)
    ||| crate::text::contains(class, "ltx_ERROR"@)
    ||| crate::text::contains(class, "ltx_pagination"@)
    ||| crate::text::contains(class, "ltx_authors"@)
    ||| crate::text::contains(class, "ltx_dates"@)
    ||| crate::text::contains(class, "ltx_classification"@)
    ||| name == "cite"@ || name == "nav"@ || name == "footer"@ || name == "script"@
    ||| name == "style"@ || name == "figure"@ || name == "table"@
}

/// Elements set off by blank lines: headings, paragraphs, sections and
/// other blocks.
pub open spec fn is_block(name: Seq<char>, class: Seq<char>) -> bool {
    ||| name == "h1"@ || name == "h2"@ || name == "h3"@ || name == "h4"@ || name == "h5"@
    ||| name == "h6"@ || name == "p"@ || name == "section"@ || name == "article"@
    ||| name == "div"@ || name == "li"@ || name == "blockquote"@
    ||| crate::text::contains(class, "ltx_para"@)
    ||| crate::text::contains(class, "ltx_paragraph"@)
    ||| crate::text::contains(class, "ltx_section"@)
    ||| crate::text::contains(class, "ltx_subsection"@)
    ||| crate::text::contains(class, "ltx_abstract"@)
}

/// Rendering state: the output, whether each open element is a block,
/// and how deep the walk is inside a skipped subtree.
pub type RenderState = (Seq<char>, Seq<bool>, nat);

/// One event of the rendering. Every node, text included, is entered and
/// then left. Inside a skipped subtree only the depth changes. Noise
/// elements and other nodes are skipped; a math element contributes its
/// `alttext` between spaces and is skipped; a text node contributes its
/// words; blocks are set off by blank lines before and after their
/// contents.
pub open spec fn render_step(st: RenderState, ev: EventView) -> RenderState {
    let (out, frames, skip) = st;
    if skip > 0 {
        if ev.0 == 0 || ev.0 == 1 || ev.0 == 2 {
            (out, frames, skip + 1)
        } else {
            (out, frames, (skip - 1) as nat)
        }
    } else if ev.0 == 0 {
        (with_text(out, ev.1), frames.push(false), 0)
    } else if ev.0 == 2 {
        (out, frames, 1)
    } else if ev.0 == 1 {
        let class = match ev.2 {
            Some(c) => c,
            None => seq![],
        };
        if is_noise(ev.1, class) {
            (out, frames, 1)
        } else if ev.1 == "math"@ {
            (
                match ev.3 {
                    Some(a) => with_space(with_space(out) + a),
                    None => out,
                },
                frames,
                1,
            )
        } else {
            let b = is_block(ev.1, class);
            (
                if b {
                    with_blank_line(out)
                } else {
                    out
                },
                frames.push(b),
                0,
            )
        }
    } else if frames.len() == 0 {
        st
    } else {
        (
            if frames.last() {
                with_blank_line(out)
            } else {
                out
            },
            frames.drop_last(),
            0,
        )
    }
}

/// The rendering state after a sequence of events.
pub open spec fn render_fold(evs: Seq<EventView>) -> RenderState
    decreases evs.len(),
{
    if evs.len() == 0 {
        (seq![], seq![], 0)
    } else {
        render_step(render_fold(evs.drop_last()), evs.last())
    }
}

/// Appends a space unless the output is empty or ends in whitespace.
pub fn ensure_space(out: &mut Vec<char>)
    ensures
        final(out)@ == with_space(old(out)@),
{
    let n = out.len();
    if n > 0 && !crate::text::is_whitespace(out[n - 1]) {
        out.push(' ');
    }
}

/// Ends the output with exactly a blank line (unless it is empty).
pub fn ensure_blank_line(out: &mut Vec<char>)
    ensures
        final(out)@ == with_blank_line(old(out)@),
{
    if out.len() == 0 {
        return;
    }
    while out.len() > 0 && out[out.len() - 1] == ' '
        invariant
            drop_spaces(out@) == drop_spaces(old(out)@),
            old(out)@.len() > 0,
        decreases out@.len(),
    {
        out.pop();
    }
    let n = out.len();
    proof {
        assert(out@ == drop_spaces(out@));
    }
    let nl: usize = if n > 0 && out[n - 1] == '\n' {
        if n > 1 && out[n - 2] == '\n' {
            2
        } else {
            1
        }
    } else {
        0
    };
    proof {
        reveal_with_fuel(trailing_newlines, 3);
        if n > 0 && out@[n - 1] == '\n' {
            assert(out@.drop_last().len() == n - 1);
            if n > 1 {
                assert(out@.drop_last().last() == out@[n - 2]);
            }
        }
        assert(nl == (if trailing_newlines(out@) >= 2 {
            2
        } else {
            trailing_newlines(out@)
        }));
    }
    if nl == 1 {
        out.push('\n');
    } else if nl == 0 {
        out.push('\n');
        out.push('\n');
    }
}

/// Appends the rendering of a text node.
fn push_text(out: &mut Vec<char>, t: &str)
    ensures
        final(out)@ == with_text(old(out)@, t@),
{
    let v = chars_of(t);
    let rs = crate::text::word_ranges(&v, 0, v.len());
    proof {
        assert(v@.subrange(0, v@.len() as int) =~= v@);
    }
    let ghost ws = crate::text::range_views(v@, rs@);
    let space_first = v.len() > 0 && crate::text::is_whitespace(v[0]);
    let mut k: usize = 0;
    proof {
        assert(ws.take(0) =~= Seq::<Seq<char>>::empty());
    }
    while k < rs.len()
        invariant
            k <= rs@.len(),
            ws == crate::text::range_views(v@, rs@),
            forall|j: int| 0 <= j < rs@.len() ==> (#[trigger] rs@[j]).0 <= rs@[j].1 <= v@.len(),
            out@ == with_words(old(out)@, ws.take(k as int), space_first),
        decreases rs@.len() - k,
    {
        proof {
            assert(ws.take(k + 1).drop_last() =~= ws.take(k as int));
            assert(ws.take(k + 1).last() == v@.subrange(rs@[k as int].0 as int, rs@[k as int].1 as int));
        }
        if k > 0 || space_first {
            ensure_space(out);
        }
        let (a, b) = rs[k];
        let ghost before = out@;
        let mut i = a;
        while i < b
            invariant
                a <= i <= b <= v@.len(),
                out@ == before + v@.subrange(a as int, i as int),
            decreases b - i,
        {
            proof {
                assert(v@.subrange(a as int, i + 1) =~= v@.subrange(a as int, i as int).push(v@[i as int]));
            }
            out.push(v[i]);
            i += 1;
        }
        k += 1;
    }
    proof {
        assert(ws.take(rs@.len() as int) =~= ws);
    }
    if v.len() > 0 && crate::text::is_whitespace(v[v.len() - 1]) {
        ensure_space(out);
    }
}

/// `is_noise` on an element.
fn noise_exec(name: &str, class: &str) -> (b: bool)
    ensures
        b == is_noise(name@, class@),
{
    let sc = |p: &str| -> (r: bool)
        ensures
            r == crate::text::contains(class@, p@),
        { crate::text::str_contains(class, p) };
    sc("ltx_bibliography") || sc("ltx_biblist") || sc("ltx_bibitem") || sc("ltx_ERROR") || sc(
        "ltx_pagination",
    ) || sc("ltx_authors") || sc("ltx_dates") || sc("ltx_classification") || crate::text::str_eq(
        name,
        "cite",
    ) || crate::text::str_eq(name, "nav") || crate::text::str_eq(name, "footer")
        || crate::text::str_eq(name, "script") || crate::text::str_eq(name, "style")
        || crate::text::str_eq(name, "figure") || crate::text::str_eq(name, "table")
}

/// `is_block` on an element.
fn block_exec(name: &str, class: &str) -> (b: bool)
    ensures
        b == is_block(name@, class@),
{
    let eq = |p: &str| -> (r: bool)
        ensures
            r == (name@ == p@),
        { crate::text::str_eq(name, p) };
    eq("h1") || eq("h2") || eq("h3") || eq("h4") || eq("h5") || eq("h6") || eq("p") || eq("section")
        || eq("article") || eq("div") || eq("li") || eq("blockquote") || crate::text::str_contains(
        class,
        "ltx_para",
    ) || crate::text::str_contains(class, "ltx_paragraph") || crate::text::str_contains(
        class,
        "ltx_section",
    ) || crate::text::str_contains(class, "ltx_subsection") || crate::text::str_contains(
        class,
        "ltx_abstract",
    )
}

/// Applies one event to the rendering state (exec form of `render_step`).
fn render_event(out: &mut Vec<char>, frames: &mut Vec<bool>, skip: usize, ev: &HtmlEvent) -> (new_skip: usize)
    requires
        skip < usize::MAX,
    ensures
        (final(out)@, final(frames)@, new_skip as nat) == render_step(
            (old(out)@, old(frames)@, skip as nat),
            event_view(*ev),
        ),
{
    if skip > 0 {
        return match ev {
            HtmlEvent::Open { .. } => skip + 1,
            HtmlEvent::OpenOther => skip + 1,
            HtmlEvent::Close => skip - 1,
            HtmlEvent::Text(_) => skip + 1,
        };
    }
    match ev {
        HtmlEvent::Text(t) => {
            push_text(out, t.as_str());
            frames.push(false);
            0
        },
        HtmlEvent::OpenOther => 1,
        HtmlEvent::Open { name, class, alttext } => {
            let cls: &str = match class {
                Some(c) => c.as_str(),
                None => "",
            };
            proof {
                reveal_strlit("");
                assert(""@ =~= Seq::<char>::empty());
            }
            if noise_exec(name.as_str(), cls) {
                return 1;
            }
            if crate::text::str_eq(name.as_str(), "math") {
                match alttext {
                    Some(a) => {
                        ensure_space(out);
                        let av = chars_of(a.as_str());
                        let ghost before = out@;
                        let mut i: usize = 0;
                        while i < av.len()
                            invariant
                                i <= av@.len(),
                                out@ == before + av@.take(i as int),
                            decreases av@.len() - i,
                        {
                            proof {
                                assert(av@.take(i + 1) =~= av@.take(i as int).push(av@[i as int]));
                            }
                            out.push(av[i]);
                            i += 1;
                        }
                        proof {
                            assert(av@.take(av@.len() as int) =~= av@);
                        }
                        ensure_space(out);
                    },
                    None => {},
                }
                return 1;
            }
            let b = block_exec(name.as_str(), cls);
            if b {
                ensure_blank_line(out);
            }
            frames.push(b);
            0
        },
        HtmlEvent::Close => {
            let n = frames.len();
            if n == 0 {
                return 0;
            }
            let b = frames[n - 1];
            frames.pop();
            if b {
                ensure_blank_line(out);
            }
            0
        },
    }
}

/// Renders the walk of a LaTeXML article into text (exec form of
/// `render_fold`).
pub fn render_latexml(events: &Vec<HtmlEvent>) -> (r: String)
    ensures
        r@ == render_fold(event_views(events@)).0,
{
    let ghost evs = event_views(events@);
    let mut out: Vec<char> = Vec::new();
    let mut frames: Vec<bool> = Vec::new();
    let mut skip: usize = 0;
    let mut i: usize = 0;
    proof {
        assert(evs.take(0) =~= Seq::<EventView>::empty());
    }
    while i < events.len()
        invariant
            i <= events@.len(),
            evs == event_views(events@),
            skip <= i,
            (out@, frames@, skip as nat) == render_fold(evs.take(i as int)),
        decreases events@.len() - i,
    {
        proof {
            assert(evs.take(i + 1).drop_last() =~= evs.take(i as int));
            assert(evs.take(i + 1).last() == event_view(events@[i as int]));
        }
        skip = render_event(&mut out, &mut frames, skip, &events[i]);
        i += 1;
    }
    proof {
        assert(evs.take(events@.len() as int) =~= evs);
    }
    string_of(&out, 0, out.len())
}

/// What `extract_latexml` gives: the title with its whitespace normalized
/// and the rendered article with blank lines collapsed; `None` without an
/// article element.
pub open spec fn latexml_extract(html: Seq<char>) -> Option<(Seq<char>, Seq<char>)> {
    match latexml_events_of(html) {
        None => None,
        Some(evs) => {
            let title = match latexml_title_of(html) {
                Some(t) => t,
                None => seq![],
            };
            Some((join(words(title), seq![' ']), collapsed(render_fold(evs).0)))
        },
    }
}

/// Title and text of a LaTeXML page (arxiv.org/html, ar5iv), walking the
/// article directly; `None` when the page is not LaTeXML output.
pub fn extract_latexml(html: &str) -> (r: Option<(String, String)>)
    ensures
        match r {
            Some((t, x)) => latexml_extract(html@) == Some((t@, x@)),
            None => latexml_extract(html@) is None,
        },
{
    let events = latexml_article_events(html)?;
    let title_text = match latexml_title_text(html) {
        Some(t) => t,
        None => String::new(),
    };
    let title = crate::text::normalize_whitespace(title_text.as_str());
    let rendered = render_latexml(&events);
    let text = collapse_blank_lines(rendered.as_str());
    Some((title, text))
}


// ---------------------------------------------------------------------------
// Readable articles.
// ---------------------------------------------------------------------------

/// Why readable text could not be extracted.
pub enum ReadableError {
    /// The page URL does not parse.
    InvalidUrl,
    /// The readability extractor failed.
    Extraction,
}

/// (title, text) that `readability::extractor::extract` finds in `html`,
/// taken as the page at `url`; `None` when it fails.
pub uninterp spec fn readability_of(html: Seq<char>, url: Seq<char>) -> Option<(Seq<char>, Seq<char>)>;

/// Whether `url::Url::parse` accepts `url`.
pub uninterp spec fn url_parses(url: Seq<char>) -> bool;

/// Parses `url_str` with `url::Url::parse` and runs
/// `readability::extractor::extract` on the page bytes; returns the
/// product's title and text. The contract names the results.
#[verifier::external_body]
pub(crate) fn readability_extract(html: &str, url_str: &str) -> (r: Result<(String, String), ReadableError>)
    ensures
        match r {
            Ok((t, x)) => url_parses(url_str@) && readability_of(html@, url_str@) == Some((t@, x@)),
            Err(ReadableError::InvalidUrl) => !url_parses(url_str@),
            Err(ReadableError::Extraction) => url_parses(url_str@) && readability_of(html@, url_str@) is None,
        },
{
    let url = url::Url::parse(url_str).map_err(|_| ReadableError::InvalidUrl)?;
    let mut cursor = std::io::Cursor::new(html.as_bytes());
    let product = readability::extractor::extract(&mut cursor, &url).map_err(|_| ReadableError::Extraction)?;
    Ok((product.title, product.text))
}

/// Readable title and text of an article page; the URL stands in for a
/// missing title.
pub fn extract_readable(html: &str, url_str: &str) -> (r: Result<(String, String), ReadableError>)
    ensures
        match r {
            Ok((t, x)) => url_parses(url_str@) && (readability_of(html@, url_str@) matches Some((pt, px))
                && x@ == px && t@ == (if pt.len() == 0 {
                url_str@
            } else {
                pt
            })),
            Err(ReadableError::InvalidUrl) => !url_parses(url_str@),
            Err(ReadableError::Extraction) => url_parses(url_str@) && readability_of(html@, url_str@) is None,
        },
{
    let (title, text) = readability_extract(html, url_str)?;
    Ok((readable_title(title, url_str), text))
}

/// The document a scrape yields.
pub fn scraped_document(title: String, raw_text: String, source_type: &str) -> (d: crate::document::Document)
    ensures
        crate::document::opt_view(d.title) == Some(title@),
        d.source_type@ == source_type@,
        crate::document::opt_view(d.raw_text) == Some(raw_text@),
        d.cleaned_text is None,
        d.transcript is None,
        d.word_count is None,
{
    crate::document::Document {
        title: Some(title),
        source_type: owned(source_type),
        raw_text: Some(raw_text),
        cleaned_text: None,
        transcript: None,
        word_count: None,
    }
}

/// No `/` or `?` in the text.
pub open spec fn no_separator(s: Seq<char>) -> bool {
    forall|i: int| 0 <= i < s.len() ==> s[i] != '/' && s[i] != '?'
}

proof fn lemma_take_until_sep_clean(rest: Seq<char>)
    ensures
        no_separator(take_until_sep(rest)),
    decreases rest.len(),
{
    if !(rest.len() == 0 || rest[0] == '/' || rest[0] == '?') {
        lemma_take_until_sep_clean(rest.drop_first());
        let t = take_until_sep(rest.drop_first());
        assert forall|i: int| 0 <= i < (seq![rest[0]] + t).len() implies (seq![rest[0]] + t)[i] != '/'
            && (seq![rest[0]] + t)[i] != '?' by {
            if i > 0 {
                assert((seq![rest[0]] + t)[i] == t[i - 1]);
            }
        }
    }
}

proof fn lemma_first_id_clean(url: Seq<char>, pats: Seq<Seq<char>>, strip_pdf: bool)
    ensures
        first_id(url, pats, strip_pdf) matches Some(id) ==> id.len() > 0 && no_separator(id),
    decreases pats.len(),
{
    if pats.len() > 0 {
        match find(url, pats[0]) {
            Some(i) => {
                let id = take_until_sep(url.skip(i + pats[0].len()));
                lemma_take_until_sep_clean(url.skip(i + pats[0].len()));
                if strip_pdf {
                    reveal_strlit(".pdf");
                    let s = strip_pdf_suffix(id);
                    assert forall|k: int| 0 <= k < s.len() implies s[k] != '/' && s[k] != '?' by {
                        assert(s[k] == id[k]);
                    }
                }
            },
            None => {},
        }
        lemma_first_id_clean(url, pats.drop_first(), strip_pdf);
    }
}

/// `r` is `raw` with one trailing `.pdf` removed, when `raw` has one.
pub open spec fn pdf_stripped(raw: Seq<char>, r: Seq<char>) -> bool {
    if crate::text::ends_with(raw, ".pdf"@) {
        r + ".pdf"@ == raw
    } else {
        r == raw
    }
}

/// `pat` occurs in `url`, and `r` is the part after its first occurrence up
/// to the next `/` or `?`, less one trailing `.pdf`.
pub open spec fn stripped_segment_after(url: Seq<char>, pat: Seq<char>, r: Seq<char>) -> bool {
    match find(url, pat) {
        Some(i) => pdf_stripped(take_until_sep(url.skip(i + pat.len())), r),
        None => false,
    }
}

/// The identifier after a pattern is the part of the URL after its first
/// occurrence up to the next `/` or `?`, less one trailing `.pdf` when
/// stripping is asked for; there is one exactly when that is not empty.
pub proof fn lemma_id_after_segment(url: Seq<char>, pat: Seq<char>, strip_pdf: bool)
    ensures
        find(url, pat) is None ==> id_after(url, pat, strip_pdf) is None,
        find(url, pat) matches Some(i) ==> {
            let raw = take_until_sep(url.skip(i + pat.len()));
            &&& id_after(url, pat, strip_pdf) matches Some(r) ==> r.len() > 0 && (if strip_pdf {
                pdf_stripped(raw, r)
            } else {
                r == raw
            })
            &&& id_after(url, pat, strip_pdf) is None ==> (raw.len() == 0 || (strip_pdf && raw == ".pdf"@))
        },
{
    reveal_strlit(".pdf");
    if let Some(i) = find(url, pat) {
        let raw = take_until_sep(url.skip(i + pat.len()));
        if strip_pdf && crate::text::ends_with(raw, ".pdf"@) {
            let r = raw.take(raw.len() - 4);
            assert(r + ".pdf"@ =~= raw);
            if r.len() == 0 {
                assert(raw =~= ".pdf"@);
            }
        }
    }
}

/// The arXiv identifier of a URL comes from the first of the arXiv URL
/// patterns that yields one (none before it does), and is the segment
/// after that pattern with one trailing `.pdf` removed.
pub proof fn lemma_arxiv_id_segment(url: Seq<char>)
    ensures
        first_id(url, arxiv_patterns(), true) matches Some(r) ==> exists|k: int|
            0 <= k < arxiv_patterns().len() && stripped_segment_after(url, #[trigger] arxiv_patterns()[k], r)
                && forall|k2: int| 0 <= k2 < k ==> (#[trigger] id_after(url, arxiv_patterns()[k2], true)) is None,
        first_id(url, arxiv_patterns(), true) is None ==> forall|k: int|
            0 <= k < arxiv_patterns().len() ==> (#[trigger] id_after(url, arxiv_patterns()[k], true)) is None,
{
    lemma_first_id_segment(url, arxiv_patterns());
}

proof fn lemma_first_id_segment(url: Seq<char>, pats: Seq<Seq<char>>)
    ensures
        first_id(url, pats, true) matches Some(r) ==> exists|k: int|
            0 <= k < pats.len() && stripped_segment_after(url, #[trigger] pats[k], r) && forall|k2: int|
                0 <= k2 < k ==> (#[trigger] id_after(url, pats[k2], true)) is None,
        first_id(url, pats, true) is None ==> forall|k: int|
            0 <= k < pats.len() ==> (#[trigger] id_after(url, pats[k], true)) is None,
    decreases pats.len(),
{
    if pats.len() > 0 {
        lemma_id_after_segment(url, pats[0], true);
        let rest = pats.drop_first();
        lemma_first_id_segment(url, rest);
        if let Some(r) = first_id(url, pats, true) {
            if id_after(url, pats[0], true) is None {
                let k = choose|k: int|
                    0 <= k < rest.len() && stripped_segment_after(url, #[trigger] rest[k], r) && forall|k2: int|
                        0 <= k2 < k ==> (#[trigger] id_after(url, rest[k2], true)) is None;
                assert(pats[k + 1] == rest[k]);
                assert forall|k2: int| 0 <= k2 < k + 1 implies (#[trigger] id_after(url, pats[k2], true)) is None by {
                    if k2 > 0 {
                        assert(pats[k2] == rest[k2 - 1]);
                    }
                }
            } else {
                assert(stripped_segment_after(url, pats[0], r));
            }
        } else {
            assert forall|k: int| 0 <= k < pats.len() implies (#[trigger] id_after(url, pats[k], true)) is None by {
                if k > 0 {
                    assert(pats[k] == rest[k - 1]);
                }
            }
        }
    }
}

/// The segment after a pattern runs from there up to the first `/` or `?`,
/// or to the end.
pub proof fn lemma_segment_until_separator(rest: Seq<char>)
    ensures
        take_until_sep(rest).len() <= rest.len(),
        take_until_sep(rest) == rest.take(take_until_sep(rest).len() as int),
        no_separator(take_until_sep(rest)),
        take_until_sep(rest).len() < rest.len() ==> rest[take_until_sep(rest).len() as int] == '/' || rest[take_until_sep(
            rest,
        ).len() as int] == '?',
    decreases rest.len(),
{
    lemma_take_until_sep_clean(rest);
    if !(rest.len() == 0 || rest[0] == '/' || rest[0] == '?') {
        let t = rest.drop_first();
        lemma_segment_until_separator(t);
        let s1 = take_until_sep(t);
        assert(take_until_sep(rest) == seq![rest[0]] + s1);
        assert(seq![rest[0]] + t.take(s1.len() as int) =~= rest.take(s1.len() + 1int));
        if s1.len() < t.len() {
            assert(rest[s1.len() + 1int] == t[s1.len() as int]);
        }
    } else {
        assert(rest.take(0) =~= Seq::<char>::empty());
    }
}

/// An arXiv identifier read from a URL is never empty and never holds a
/// path or query separator.
pub proof fn lemma_arxiv_id_clean(url: Seq<char>)
    ensures
        first_id(url, arxiv_patterns(), true) matches Some(id) ==> id.len() > 0 && no_separator(id),
{
    lemma_first_id_clean(url, arxiv_patterns(), true);
}

/// No three newlines in a row: at most one blank line between two lines.
pub open spec fn no_blank_run(s: Seq<char>) -> bool {
    forall|i: int|
        0 <= i && i + 2 < s.len() ==> !(#[trigger] s[i] == '\n' && s[i + 1] == '\n' && s[i + 2] == '\n')
}

proof fn lemma_split_pieces_newline_free(s: Seq<char>)
    ensures
        forall|k: int, j: int|
            0 <= k < crate::text::split_on(s, seq!['\n']).len() && 0 <= j < crate::text::split_on(
                s,
                seq!['\n'],
            )[k].len() ==> #[trigger] crate::text::split_on(s, seq!['\n'])[k][j] != '\n',
    decreases s.len(),
{
    let nl = seq!['\n'];
    crate::text::lemma_find(s, nl);
    let parts = crate::text::split_on(s, nl);
    assert forall|j: int| 0 <= j < s.len() && s[j] == '\n' implies crate::text::occurs_at(s, nl, j) by {
        assert(s.subrange(j, j + 1) =~= nl);
    }
    match crate::text::find(s, nl) {
        Some(i) => {
            if 0 <= i && i + 1 <= s.len() {
                lemma_split_pieces_newline_free(s.skip(i + 1));
                let rest = crate::text::split_on(s.skip(i + 1), nl);
                assert(parts == seq![s.take(i)] + rest);
                assert forall|k: int, j: int| 0 <= k < parts.len() && 0 <= j < parts[k].len() implies #[trigger] parts[k][j]
                    != '\n' by {
                    if k > 0 {
                        assert(parts[k] == rest[k - 1]);
                    } else {
                        assert(parts[k][j] == s[j]);
                    }
                }
            }
        },
        None => {},
    }
}

proof fn lemma_trim_end_is_prefix(s: Seq<char>, nl: bool)
    ensures
        crate::text::trim_end_by(s, nl) == s.take(crate::text::trim_end_by(s, nl).len() as int),
        crate::text::trim_end_by(s, nl).len() <= s.len(),
    decreases s.len(),
{
    if s.len() > 0 && crate::text::strip_pred(nl, s.last()) {
        lemma_trim_end_is_prefix(s.drop_last(), nl);
        let t = crate::text::trim_end_by(s.drop_last(), nl);
        assert(s.drop_last().take(t.len() as int) =~= s.take(t.len() as int));
    } else {
        assert(s.take(s.len() as int) =~= s);
    }
}

proof fn lemma_trim_start_is_suffix(s: Seq<char>, nl: bool)
    ensures
        crate::text::trim_start_by(s, nl) == s.skip(s.len() - crate::text::trim_start_by(s, nl).len()),
        crate::text::trim_start_by(s, nl).len() <= s.len(),
    decreases s.len(),
{
    if s.len() > 0 && crate::text::strip_pred(nl, s[0]) {
        lemma_trim_start_is_suffix(s.drop_first(), nl);
        let t = crate::text::trim_start_by(s.drop_first(), nl);
        assert(s.drop_first().skip(s.drop_first().len() - t.len()) =~= s.skip(s.len() - t.len()));
    } else {
        assert(s.skip(0) =~= s);
    }
}

proof fn lemma_collapse_fold_inv(lines: Seq<Seq<char>>)
    requires
        forall|k: int, j: int| 0 <= k < lines.len() && 0 <= j < lines[k].len() ==> #[trigger] lines[k][j] != '\n',
    ensures
        ({
            let (out, blank) = collapse_fold(lines);
            &&& no_blank_run(out)
            &&& out.len() >= 2 && out[out.len() - 1] == '\n' && out[out.len() - 2] == '\n' ==> blank
        }),
    decreases lines.len(),
{
    if lines.len() > 0 {
        let prev = lines.drop_last();
        assert forall|k: int, j: int| 0 <= k < prev.len() && 0 <= j < prev[k].len() implies #[trigger] prev[k][j]
            != '\n' by {
            assert(prev[k] == lines[k]);
        }
        lemma_collapse_fold_inv(prev);
        let (out, blank) = collapse_fold(prev);
        let line = lines.last();
        let t = crate::text::trim_end(line);
        lemma_trim_end_is_prefix(line, false);
        assert forall|j: int| 0 <= j < t.len() implies t[j] != '\n' by {
            assert(t[j] == line[j]);
            assert(line == lines[lines.len() - 1]);
        }
        if t.len() == 0 {
            if !blank {
                let o2 = out.push('\n');
                assert forall|i: int| 0 <= i && i + 2 < o2.len() implies !(#[trigger] o2[i] == '\n' && o2[i + 1]
                    == '\n' && o2[i + 2] == '\n') by {
                    if i + 2 < out.len() {
                        assert(o2[i] == out[i] && o2[i + 1] == out[i + 1] && o2[i + 2] == out[i + 2]);
                    }
                }
            }
        } else {
            let o2 = out + t + seq!['\n'];
            assert forall|i: int| 0 <= i && i + 2 < o2.len() implies !(#[trigger] o2[i] == '\n' && o2[i + 1]
                == '\n' && o2[i + 2] == '\n') by {
                if i + 2 < out.len() {
                    assert(o2[i] == out[i] && o2[i + 1] == out[i + 1] && o2[i + 2] == out[i + 2]);
                } else if i + 2 < out.len() + t.len() {
                    assert(o2[i + 2] == t[i + 2 - out.len()]);
                } else {
                    assert(o2[i + 1] == t[i + 1 - out.len()]);
                }
            }
            assert(o2[o2.len() - 2] == t[t.len() - 1]);
        }
    }
}

/// Collapsing blank lines leaves at most one blank line between two lines
/// of text: the result never holds three newlines in a row.
pub proof fn lemma_collapsed_no_blank_run(s: Seq<char>)
    ensures
        no_blank_run(collapsed(s)),
{
    let nl = seq!['\n'];
    let parts = crate::text::split_on(s, nl);
    lemma_split_pieces_newline_free(s);
    let lines = str_lines(s);
    assert forall|k: int, j: int| 0 <= k < lines.len() && 0 <= j < lines[k].len() implies #[trigger] lines[k][j]
        != '\n' by {
        assert(lines[k] == parts[k]);
    }
    lemma_collapse_fold_inv(lines);
    let out = collapse_fold(lines).0;
    let a = crate::text::trim_start(out);
    lemma_trim_start_is_suffix(out, false);
    lemma_trim_end_is_prefix(a, false);
    let r = collapsed(s);
    let off = out.len() - a.len();
    assert forall|i: int| 0 <= i && i + 2 < r.len() implies !(#[trigger] r[i] == '\n' && r[i + 1] == '\n' && r[i
        + 2] == '\n') by {
        assert(r[i] == out[i + off] && r[i + 1] == out[i + 1 + off] && r[i + 2] == out[i + 2 + off]);
    }
}

} // verus!
