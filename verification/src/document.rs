//! The document that flows through the pipeline stages.
use vstd::prelude::*;

verus! {

/// A document as it moves through extraction, cleaning and summarization.
pub struct Document {
    pub title: Option<String>,
    pub source_type: String,
    pub raw_text: Option<String>,
    pub cleaned_text: Option<String>,
    pub transcript: Option<String>,
    pub word_count: Option<usize>,
}

impl Default for Document {
    fn default() -> (d: Self)
        ensures
            d.title is None,
            d.source_type@ == Seq::<char>::empty(),
            d.raw_text is None,
            d.cleaned_text is None,
            d.transcript is None,
            d.word_count is None,
    {
        Document {
            title: None,
            source_type: String::new(),
            raw_text: None,
            cleaned_text: None,
            transcript: None,
            word_count: None,
        }
    }
}

/// Text of an optional string.
pub open spec fn opt_view(o: Option<String>) -> Option<Seq<char>> {
    match o {
        Some(s) => Some(s@),
        None => None,
    }
}

impl Document {
    /// The text to synthesize: the transcript when there is one, otherwise
    /// the cleaned text.
    pub fn tts_text(&self) -> (r: Option<&str>)
        ensures
            match r {
                Some(t) => match self.transcript {
                    Some(s) => t@ == s@,
                    None => self.cleaned_text matches Some(c) && t@ == c@,
                },
                None => self.transcript is None && self.cleaned_text is None,
            },
    {
        match &self.transcript {
            Some(t) => Some(t.as_str()),
            None => match &self.cleaned_text {
                Some(c) => Some(c.as_str()),
                None => None,
            },
        }
    }
}

/// A copy of an optional string.
pub fn clone_opt(o: &Option<String>) -> (r: Option<String>)
    ensures
        opt_view(r) == opt_view(*o),
{
    match o {
        Some(s) => Some(s.clone()),
        None => None,
    }
}

impl Document {
    /// The document with its cleaned text set, and its word count taken
    /// from that text; the other fields are kept.
    pub fn with_cleaned_text(&self, cleaned_text: String) -> (d: Document)
        ensures
            opt_view(d.title) == opt_view(self.title),
            d.source_type@ == self.source_type@,
            opt_view(d.raw_text) == opt_view(self.raw_text),
            opt_view(d.cleaned_text) == Some(cleaned_text@),
            opt_view(d.transcript) == opt_view(self.transcript),
            d.word_count matches Some(n) && n == crate::text::word_count(cleaned_text@),
    {
        let n = crate::text::count_words(cleaned_text.as_str());
        Document {
            title: clone_opt(&self.title),
            source_type: self.source_type.clone(),
            raw_text: clone_opt(&self.raw_text),
            cleaned_text: Some(cleaned_text),
            transcript: clone_opt(&self.transcript),
            word_count: Some(n),
        }
    }
}

/// Tokens spent on one model call.
pub struct Usage {
    pub provider: String,
    pub model: String,
    pub input_tokens: u32,
    pub output_tokens: u32,
}

} // verus!
