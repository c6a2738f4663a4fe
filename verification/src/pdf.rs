//! PDF text extraction: the prompts and requests of the extraction calls,
//! the page files, and how per-page results become a document.
use vstd::prelude::*;
use base64::Engine;
use crate::anthropic::{ContentBlock, ImageSource, Message, MessageContent};
use crate::document::{opt_view, Document, Usage};
use crate::text::{
    chars_of, decimal, find, join, owned, push_decimal, push_str, str_views, strip_prefix, trim,
    trim_start, zero_pad,
};

verus! {

/// System prompt for extracting the text of one rendered page.
pub const PAGE_SYSTEM_PROMPT: &'static str = r#"You are extracting text from a page of a PDF document for text-to-speech conversion.

Rules:
- Extract all text content in reading order (top-to-bottom, respecting column layout).
- For two-column layouts, complete the left column before the right column.
- Ignore page numbers, headers, footers, and running titles.
- Ignore figure captions and table captions — replace with "[Figure omitted]" or "[Table omitted]".
- Skip the bibliography / references section entirely.
- Skip appendices and supplementary material (anything after the conclusion, including sections titled "Appendix", "Supplementary", "Acknowledgments", etc.).
- If a page contains only bibliography or appendix content, output an empty result.
- Preserve paragraph breaks.
- Output only the extracted text, nothing else."#;

/// Prompt for extracting a whole PDF in one Gemini call.
pub const GEMINI_PDF_PROMPT: &'static str = r#"Extract all text from this academic paper for text-to-speech conversion.

Rules:
- Extract all text content in reading order (top-to-bottom, respecting column layout).
- For two-column layouts, complete the left column before the right column.
- Ignore page numbers, headers, footers, and running titles.
- Ignore figure captions and table captions — replace with "[Figure omitted]" or "[Table omitted]".
- Preserve paragraph breaks between pages.
- Output only the extracted text, nothing else.

At the very start of your output, on the first line only, write the paper's title prefixed with "TITLE: ". Then a blank line, then the full extracted text."#;

/// System prompt for extracting a whole PDF document in one call.
pub const DOCUMENT_SYSTEM_PROMPT: &'static str = r#"You are extracting text from a PDF document for text-to-speech conversion.

Rules:
- Extract all text content in reading order (top-to-bottom, respecting column layout).
- For two-column layouts, complete the left column before the right column.
- Ignore page numbers, headers, footers, and running titles.
- Ignore figure captions and table captions — replace with "[Figure omitted]" or "[Table omitted]".
- Preserve paragraph breaks.
- Output only the extracted text, nothing else."#;

/// Title of a PDF whose title could not be found.
pub const UNTITLED_PDF: &'static str = "Untitled PDF";

/// Resolutions at which pages are rendered, tried in this order when a page
/// is blocked by the content filter.
pub const RETRY_DPIS: [u32; 2] = [200, 150];

// ---------------------------------------------------------------------------
// Title prefix of a Gemini extraction.
// ---------------------------------------------------------------------------

/// Splits `TITLE: <title>\n<text>` into the trimmed title and the text
/// without its leading whitespace; anything else has no title.
pub open spec fn title_and_text(full: Seq<char>) -> (Seq<char>, Seq<char>) {
    match strip_prefix(full, "TITLE: "@) {
        Some(rest) => match find(rest, seq!['\n']) {
            Some(i) => (trim(rest.take(i)), trim_start(rest.skip(i))),
            None => (UNTITLED_PDF@, full),
        },
        None => (UNTITLED_PDF@, full),
    }
}

/// Parses the `TITLE: ` line that starts a Gemini extraction.
pub fn parse_title_and_text(full: &str) -> (r: (String, String))
    ensures
        (r.0@, r.1@) == title_and_text(full@),
{
    match crate::text::str_strip_prefix(full, "TITLE: ") {
        Some(rest) => {
            let v = chars_of(rest.as_str());
            let mut nl: Vec<char> = Vec::new();
            nl.push('\n');
            proof {
                assert(nl@ =~= seq!['\n']);
                assert(v@.subrange(0, v@.len() as int) =~= v@);
            }
            match crate::text::find_exec(&v, 0, v.len(), &nl) {
                Some(i) => {
                    let title = crate::text::trimmed_string(&v, 0, i);
                    let start = crate::text::trim_start_index(&v, i, v.len(), false);
                    let text = crate::text::string_of(&v, start, v.len());
                    proof {
                        assert(v@.subrange(0, i as int) =~= v@.take(i as int));
                        assert(v@.subrange(i as int, v@.len() as int) =~= v@.skip(i as int));
                    }
                    (title, text)
                },
                None => (owned(UNTITLED_PDF), owned(full)),
            }
        },
        None => (owned(UNTITLED_PDF), owned(full)),
    }
}

// ---------------------------------------------------------------------------
// Rendered page files.
// ---------------------------------------------------------------------------

/// The file of page `page` in `dir` when page numbers have `width` digits.
pub open spec fn page_file(dir: Seq<char>, page: nat, width: int) -> Seq<char> {
    dir + "/page-"@ + zero_pad(decimal(page), width) + ".jpg"@
}

/// `format!("{dir}/page-{page_num:0width$}.jpg")`.
pub fn page_path(dir: &str, page_num: usize, width: usize) -> (r: String)
    ensures
        r@ == page_file(dir@, page_num as nat, width as int),
{
    let mut r = String::new();
    push_str(&mut r, dir);
    push_str(&mut r, "/page-");
    crate::text::push_zero_padded(&mut r, page_num as u64, width);
    push_str(&mut r, ".jpg");
    proof {
        assert(r@ =~= page_file(dir@, page_num as nat, width as int));
    }
    r
}

/// The names a rendered page may have: page numbers padded to 2, 3 or 4
/// digits, in that order; the first is used when none exists.
pub fn page_path_candidates(dir: &str, page_num: usize) -> (r: Vec<String>)
    ensures
        str_views(r@) == seq![
            page_file(dir@, page_num as nat, 2),
            page_file(dir@, page_num as nat, 3),
            page_file(dir@, page_num as nat, 4),
        ],
{
    let mut r: Vec<String> = Vec::new();
    r.push(page_path(dir, page_num, 2));
    r.push(page_path(dir, page_num, 3));
    r.push(page_path(dir, page_num, 4));
    proof {
        assert(str_views(r@) =~= seq![
            page_file(dir@, page_num as nat, 2),
            page_file(dir@, page_num as nat, 3),
            page_file(dir@, page_num as nat, 4),
        ]);
    }
    r
}

// ---------------------------------------------------------------------------
// Requests.
// ---------------------------------------------------------------------------

/// The character of a 6-bit value in the standard base64 alphabet.
pub open spec fn base64_char(v: int) -> char {
    if v < 26 {
        (('A' as int) + v) as char
    } else if v < 52 {
        (('a' as int) + (v - 26)) as char
    } else if v < 62 {
        (('0' as int) + (v - 52)) as char
    } else if v == 62 {
        '+'
    } else {
        '/'
    }
}

/// The standard base64 encoding of `b` (RFC 4648, with `=` padding):
/// every 3 bytes become 4 characters of 6 bits each.
pub open spec fn base64_standard(b: Seq<u8>) -> Seq<char>
    decreases b.len(),
{
    let x = if b.len() > 0 { b[0] as int } else { 0 };
    let y = if b.len() > 1 { b[1] as int } else { 0 };
    let z = if b.len() > 2 { b[2] as int } else { 0 };
    if b.len() == 0 {
        seq![]
    } else if b.len() == 1 {
        seq![base64_char(x / 4), base64_char((x % 4) * 16), '=', '=']
    } else if b.len() == 2 {
        seq![base64_char(x / 4), base64_char((x % 4) * 16 + y / 16), base64_char((y % 16) * 4), '=']
    } else {
        seq![
            base64_char(x / 4),
            base64_char((x % 4) * 16 + y / 16),
            base64_char((y % 16) * 4 + z / 64),
            base64_char(z % 64),
        ] + base64_standard(b.skip(3))
    }
}

/// Length of the padded base64 encoding of `n` bytes.
pub open spec fn base64_len(n: nat) -> nat {
    4 * (n / 3) + if n % 3 > 0 {
        4nat
    } else {
        0nat
    }
}

/// The encoding has four characters for every started group of three
/// bytes.
pub proof fn lemma_base64_len(b: Seq<u8>)
    ensures
        base64_standard(b).len() == base64_len(b.len()),
    decreases b.len(),
{
    if b.len() > 2 {
        lemma_base64_len(b.skip(3));
        assert(b.skip(3).len() == b.len() - 3);
        assert((b.len() - 3) as nat / 3 == b.len() / 3 - 1);
        assert((b.len() - 3) as nat % 3 == b.len() % 3);
    }
}

/// `base64::engine::general_purpose::STANDARD.encode(bytes)`: the
/// standard alphabet with padding (RFC 4648). The crate panics when the
/// encoded length overflows `usize`; that input is excluded. Its length is
/// `encoded_len`'s, and the same engine's `decode` gives the bytes back.
#[verifier::external_body]
pub(crate) fn encode_base64(bytes: &[u8]) -> (r: String)
    requires
        base64_len(bytes@.len()) <= usize::MAX,
    ensures
        r@ == base64_standard(bytes@),
        crate::tts::base64_decoded(r@) == Some(bytes@),
{
    base64::engine::general_purpose::STANDARD.encode(bytes)
}

/// `b` is a base64 image block with this media type and data.
pub open spec fn image_block(b: ContentBlock, media_type: Seq<char>, data: Seq<char>) -> bool {
    match b {
        ContentBlock::Image { kind, source } => kind@ == "image"@ && source.kind@ == "base64"@
            && source.media_type@ == media_type && source.data@ == data,
        _ => false,
    }
}

/// `b` is a text block with this text.
pub open spec fn text_block(b: ContentBlock, text: Seq<char>) -> bool {
    match b {
        ContentBlock::Text { kind, text: t } => kind@ == "text"@ && t@ == text,
        _ => false,
    }
}

/// `m` is a user message of an image block followed by a text block.
pub open spec fn image_request(m: Message, media_type: Seq<char>, data: Seq<char>, text: Seq<char>) -> bool {
    &&& m.role@ == "user"@
    &&& match m.content {
        MessageContent::Blocks(bs) => bs@.len() == 2 && image_block(bs@[0], media_type, data)
            && text_block(bs@[1], text),
        _ => false,
    }
}

/// The request text for page `page_num`.
pub open spec fn page_request_text(page_num: nat) -> Seq<char> {
    "Extract all text from page "@ + decimal(page_num) + " of this document."@
}

/// Builds the message for page `page_num` from its JPEG image, sent as
/// base64.
pub fn page_message(jpeg: &[u8], page_num: usize) -> (m: Message)
    requires
        base64_len(jpeg@.len()) <= usize::MAX,
    ensures
        image_request(m, "image/jpeg"@, base64_standard(jpeg@), page_request_text(page_num as nat)),
{
    let data = encode_base64(jpeg);
    let mut text = String::new();
    push_str(&mut text, "Extract all text from page ");
    push_decimal(&mut text, page_num as u64);
    push_str(&mut text, " of this document.");
    proof {
        assert(text@ =~= "Extract all text from page "@ + decimal(page_num as nat) + " of this document."@);
    }
    let ghost d = data@;
    let mut blocks: Vec<ContentBlock> = Vec::new();
    blocks.push(
        ContentBlock::Image {
            kind: owned("image"),
            source: ImageSource { kind: owned("base64"), media_type: owned("image/jpeg"), data },
        },
    );
    blocks.push(ContentBlock::Text { kind: owned("text"), text });
    Message { role: owned("user"), content: MessageContent::Blocks(blocks) }
}

/// The user message asking for the text of a whole PDF document, sent as
/// base64.
pub fn document_message(pdf: &[u8]) -> (m: Message)
    requires
        base64_len(pdf@.len()) <= usize::MAX,
    ensures
        image_request(m, "application/pdf"@, base64_standard(pdf@), "Extract all text from this PDF document."@),
{
    let data = encode_base64(pdf);
    let mut blocks: Vec<ContentBlock> = Vec::new();
    blocks.push(
        ContentBlock::Image {
            kind: owned("image"),
            source: ImageSource {
                kind: owned("base64"),
                media_type: owned("application/pdf"),
                data,
            },
        },
    );
    blocks.push(
        ContentBlock::Text { kind: owned("text"), text: owned("Extract all text from this PDF document.") },
    );
    Message { role: owned("user"), content: MessageContent::Blocks(blocks) }
}

/// A failed page request whose body mentions content filtering is skipped
/// (and tried again at the next resolution) rather than failing.
pub fn is_content_filtered(body: &str) -> (b: bool)
    ensures
        b == crate::text::contains(body@, "content filtering"@),
{
    crate::text::str_contains(body, "content filtering")
}

// ---------------------------------------------------------------------------
// Pages to document.
// ---------------------------------------------------------------------------

/// What one extraction attempt of a page gave.
pub struct PageResult {
    pub text: String,
    pub skipped: bool,
    pub input_tokens: u32,
    pub output_tokens: u32,
}

/// Whether a page is tried again at the next resolution: it was skipped
/// and a resolution is left.
pub fn retry_page(result: &PageResult, next_dpi_left: bool) -> (b: bool)
    ensures
        b == (result.skipped && next_dpi_left),
{
    result.skipped && next_dpi_left
}

/// Tokens spent over attempts.
pub open spec fn tokens_in(a: Seq<PageResult>) -> nat
    decreases a.len(),
{
    if a.len() == 0 {
        0
    } else {
        tokens_in(a.drop_last()) + a.last().input_tokens as nat
    }
}

/// Tokens produced over attempts.
pub open spec fn tokens_out(a: Seq<PageResult>) -> nat
    decreases a.len(),
{
    if a.len() == 0 {
        0
    } else {
        tokens_out(a.drop_last()) + a.last().output_tokens as nat
    }
}

/// A page after all its attempts: the text of the last attempt (empty when
/// it was skipped) and the tokens of all attempts.
pub struct PageText {
    pub text: String,
    pub input_tokens: u32,
    pub output_tokens: u32,
}

/// Combines the attempts of one page, in the order they were made.
pub fn page_outcome(attempts: &Vec<PageResult>) -> (r: PageText)
    requires
        attempts@.len() > 0,
        tokens_in(attempts@) <= u32::MAX,
        tokens_out(attempts@) <= u32::MAX,
    ensures
        r.text@ == attempts@.last().text@,
        r.input_tokens == tokens_in(attempts@),
        r.output_tokens == tokens_out(attempts@),
{
    let mut tin: u32 = 0;
    let mut tout: u32 = 0;
    let mut k: usize = 0;
    proof {
        assert(attempts@.take(0) =~= Seq::<PageResult>::empty());
    }
    while k < attempts.len()
        invariant
            k <= attempts@.len(),
            tokens_in(attempts@) <= u32::MAX,
            tokens_out(attempts@) <= u32::MAX,
            tin == tokens_in(attempts@.take(k as int)),
            tout == tokens_out(attempts@.take(k as int)),
        decreases attempts@.len() - k,
    {
        proof {
            assert(attempts@.take(k + 1).drop_last() =~= attempts@.take(k as int));
            lemma_tokens_prefix(attempts@, k + 1);
        }
        tin = tin + attempts[k].input_tokens;
        tout = tout + attempts[k].output_tokens;
        k += 1;
    }
    proof {
        assert(attempts@.take(attempts@.len() as int) =~= attempts@);
    }
    let last = &attempts[attempts.len() - 1];
    PageText { text: last.text.clone(), input_tokens: tin, output_tokens: tout }
}

proof fn lemma_tokens_prefix(a: Seq<PageResult>, k: int)
    requires
        0 <= k <= a.len(),
    ensures
        tokens_in(a.take(k)) <= tokens_in(a),
        tokens_out(a.take(k)) <= tokens_out(a),
    decreases a.len() - k,
{
    if k < a.len() {
        assert(a.drop_last().take(k) =~= a.take(k));
        lemma_tokens_prefix(a.drop_last(), k);
    } else {
        assert(a.take(k) =~= a);
    }
}

/// Name under which page extraction usage is recorded.
pub const PAGE_PROVIDER: &'static str = "anthropic";

/// The texts of the pages that have any, in page order.
pub open spec fn nonempty_texts(pages: Seq<PageText>) -> Seq<Seq<char>>
    decreases pages.len(),
{
    if pages.len() == 0 {
        seq![]
    } else if pages.last().text@.len() > 0 {
        nonempty_texts(pages.drop_last()).push(pages.last().text@)
    } else {
        nonempty_texts(pages.drop_last())
    }
}

/// (input, output) tokens of the pages that used any, in page order.
pub open spec fn page_usages(pages: Seq<PageText>) -> Seq<(u32, u32)>
    decreases pages.len(),
{
    if pages.len() == 0 {
        seq![]
    } else if pages.last().input_tokens + pages.last().output_tokens > 0 {
        page_usages(pages.drop_last()).push((pages.last().input_tokens, pages.last().output_tokens))
    } else {
        page_usages(pages.drop_last())
    }
}

/// Why a PDF yielded no document.
pub enum PdfError {
    /// No page had any text.
    EmptyText,
}

/// Joins the pages (in page order) into the raw text, blank lines between
/// non-empty pages, with one usage record per page that used tokens;
/// fails when there is no text.
pub fn assemble_pages(pages: &Vec<PageText>, model: &str) -> (r: Result<(String, Vec<Usage>), PdfError>)
    requires
        forall|i: int| 0 <= i < pages@.len() ==> (#[trigger] pages@[i]).input_tokens
            + pages@[i].output_tokens <= u32::MAX,
    ensures
        match r {
            Ok((text, usages)) => {
                &&& text@ == join(nonempty_texts(pages@), "\n\n"@)
                &&& text@.len() > 0
                &&& usages@.len() == page_usages(pages@).len()
                &&& forall|i: int| 0 <= i < usages@.len() ==> {
                    &&& (#[trigger] usages@[i]).provider@ == PAGE_PROVIDER@
                    &&& usages@[i].model@ == model@
                    &&& (usages@[i].input_tokens, usages@[i].output_tokens) == page_usages(pages@)[i]
                }
            },
            Err(PdfError::EmptyText) => join(nonempty_texts(pages@), "\n\n"@).len() == 0,
        },
{
    let mut texts: Vec<String> = Vec::new();
    let mut usages: Vec<Usage> = Vec::new();
    let mut k: usize = 0;
    proof {
        assert(pages@.take(0) =~= Seq::<PageText>::empty());
        assert(str_views(texts@) =~= Seq::<Seq<char>>::empty());
    }
    while k < pages.len()
        invariant
            k <= pages@.len(),
            forall|i: int| 0 <= i < pages@.len() ==> (#[trigger] pages@[i]).input_tokens
                + pages@[i].output_tokens <= u32::MAX,
            str_views(texts@) == nonempty_texts(pages@.take(k as int)),
            usages@.len() == page_usages(pages@.take(k as int)).len(),
            forall|i: int| 0 <= i < usages@.len() ==> {
                &&& (#[trigger] usages@[i]).provider@ == PAGE_PROVIDER@
                &&& usages@[i].model@ == model@
                &&& (usages@[i].input_tokens, usages@[i].output_tokens) == page_usages(
                    pages@.take(k as int),
                )[i]
            },
        decreases pages@.len() - k,
    {
        proof {
            assert(pages@.take(k + 1).drop_last() =~= pages@.take(k as int));
            assert(pages@.take(k + 1).last() == pages@[k as int]);
        }
        let p = &pages[k];
        if p.input_tokens + p.output_tokens > 0 {
            usages.push(
                Usage {
                    provider: owned(PAGE_PROVIDER),
                    model: owned(model),
                    input_tokens: p.input_tokens,
                    output_tokens: p.output_tokens,
                },
            );
        }
        if !p.text.as_str().is_empty() {
            let t = p.text.clone();
            proof {
                assert(str_views(texts@.push(t)) =~= str_views(texts@).push(t@));
            }
            texts.push(t);
        }
        k += 1;
    }
    proof {
        assert(pages@.take(pages@.len() as int) =~= pages@);
    }
    let raw = crate::text::join_strings(&texts, "\n\n");
    if raw.as_str().is_empty() {
        return Err(PdfError::EmptyText);
    }
    Ok((raw, usages))
}

/// The question asked to find a document's title.
pub const TITLE_QUESTION: &'static str = "What is the title of this document? Output only the title, nothing else.\n\n";

/// Characters of the text shown when asking for the title.
pub const TITLE_SNIPPET_CHARS: usize = 2000;

/// The title question followed by the first 2000 characters of the text.
pub fn title_prompt(text: &str) -> (r: String)
    ensures
        r@ == TITLE_QUESTION@ + text@.take(
            if text@.len() < TITLE_SNIPPET_CHARS {
                text@.len() as int
            } else {
                TITLE_SNIPPET_CHARS as int
            },
        ),
{
    let v = chars_of(text);
    let n = if v.len() < TITLE_SNIPPET_CHARS {
        v.len()
    } else {
        TITLE_SNIPPET_CHARS
    };
    let mut r = String::new();
    push_str(&mut r, TITLE_QUESTION);
    crate::text::push_range(&mut r, &v, 0, n);
    proof {
        assert(v@.subrange(0, n as int) =~= v@.take(n as int));
        assert(Seq::<char>::empty() + TITLE_QUESTION@ =~= TITLE_QUESTION@);
    }
    r
}

/// The document a PDF extraction yields.
pub fn pdf_document(title: String, raw_text: String) -> (d: Document)
    ensures
        opt_view(d.title) == Some(title@),
        d.source_type@ == "pdf"@,
        opt_view(d.raw_text) == Some(raw_text@),
        d.cleaned_text is None,
        d.transcript is None,
        d.word_count is None,
{
    Document {
        title: Some(title),
        source_type: owned("pdf"),
        raw_text: Some(raw_text),
        cleaned_text: None,
        transcript: None,
        word_count: None,
    }
}

/// Largest PDF sent inline to Gemini, in bytes (50 MiB).
pub const GEMINI_INLINE_LIMIT: usize = 52428800;

/// Whether a PDF is small enough to be sent inline.
pub fn within_inline_limit(len: usize) -> (b: bool)
    ensures
        b == (len <= 50 * 1024 * 1024),
{
    len <= GEMINI_INLINE_LIMIT
}

/// The base64 data of a PDF sent inline to Gemini; `None` when the PDF is
/// over the inline limit.
pub fn gemini_inline_data(pdf: &[u8]) -> (r: Option<String>)
    ensures
        r is Some <==> pdf@.len() <= 50 * 1024 * 1024,
        r matches Some(d) ==> d@ == base64_standard(pdf@),
{
    if !within_inline_limit(pdf.len()) {
        return None;
    }
    assert(base64_len(pdf@.len()) <= usize::MAX);
    Some(encode_base64(pdf))
}

/// The title of an uploaded PDF after extraction: an upload still titled
/// "PDF Upload" takes the extracted title.
pub open spec fn needs_title(current_title: Seq<char>) -> bool {
    current_title == "PDF Upload"@
}

/// Whether the extracted text should be asked for a title.
pub fn upload_needs_title(current_title: &str) -> (b: bool)
    ensures
        b == needs_title(current_title@),
{
    crate::text::str_eq(current_title, "PDF Upload")
}

/// The title in a title answer: the first block's text, else "Untitled
/// PDF", trimmed.
pub fn answered_title(resp: &crate::anthropic::Response) -> (r: String)
    ensures
        r@ == trim(
            if resp.content@.len() > 0 {
                crate::anthropic::block_text(resp.content@[0])
            } else {
                UNTITLED_PDF@
            },
        ),
{
    match resp.text() {
        Some(t) => crate::text::trim_str(t),
        None => crate::text::trim_str(UNTITLED_PDF),
    }
}

} // verus!
