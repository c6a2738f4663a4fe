//! The language-model provider used for cleaning and summarizing.
use vstd::prelude::*;

verus! {

/// Default Gemini model for text tasks.
pub open spec fn gemini_default_model() -> Seq<char> {
    "gemini-flash-latest"@
}

/// A model provider together with its credentials.
pub enum Provider {
    Anthropic { api_key: String },
    Gemini { api_key: String, model: String },
}

impl Provider {
    /// Anthropic's models with the given API key.
    pub fn anthropic(api_key: String) -> (p: Provider)
        ensures
            p matches Provider::Anthropic { api_key: k } && k == api_key,
    {
        Provider::Anthropic { api_key }
    }

    /// Gemini with the given API key and the default model.
    pub fn gemini_default(api_key: String) -> (p: Provider)
        ensures
            p matches Provider::Gemini { api_key: k, model: m } && k == api_key && m@
                == gemini_default_model(),
    {
        Provider::Gemini { api_key, model: crate::text::owned("gemini-flash-latest") }
    }
}

} // verus!
