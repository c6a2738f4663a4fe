//! Message types of the Anthropic messages API.
use vstd::prelude::*;

verus! {

/// A message of a conversation.
pub struct Message {
    pub role: String,
    pub content: MessageContent,
}

/// Message content: plain text or a list of blocks.
pub enum MessageContent {
    Text(String),
    Blocks(Vec<ContentBlock>),
}

/// A block of message content. `kind` is the block's `type` field.
pub enum ContentBlock {
    Image { kind: String, source: ImageSource },
    Text { kind: String, text: String },
}

/// Inline image data.
pub struct ImageSource {
    pub kind: String,
    pub media_type: String,
    pub data: String,
}

/// A response of the messages API.
pub struct Response {
    pub content: Vec<ResponseBlock>,
}

/// A block of a response.
pub enum ResponseBlock {
    Text { text: String },
}

/// Text of a response block.
pub open spec fn block_text(b: ResponseBlock) -> Seq<char> {
    match b {
        ResponseBlock::Text { text } => text@,
    }
}

impl Response {
    /// Text of the first content block, if any.
    pub fn text(&self) -> (r: Option<&str>)
        ensures
            match r {
                Some(t) => self.content@.len() > 0 && t@ == block_text(self.content@[0]),
                None => self.content@.len() == 0,
            },
    {
        if self.content.len() == 0 {
            return None;
        }
        match &self.content[0] {
            ResponseBlock::Text { text } => Some(text.as_str()),
        }
    }
}

} // verus!
