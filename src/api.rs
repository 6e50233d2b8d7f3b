//! Requests to and answers from the remote analysis service.
use vstd::prelude::*;
use crate::error::DecodeError;
use crate::payload::{extract_json_payload, has_braced_span, is_payload_of};
use crate::text::{trim, trimmed};

verus! {

/// An answer of the service: its candidate completions.
#[derive(Debug, Clone)]
pub struct OpenRouterResponse {
    pub choices: Vec<Choice>,
}

#[derive(Debug, Clone)]
pub struct Choice {
    pub message: Message,
}

#[derive(Debug, Clone)]
pub struct Message {
    pub content: String,
}

/// One message of a request.
#[derive(Debug, Clone)]
pub struct RequestMessage {
    pub role: String,
    pub content: String,
}

/// A message from the user with text `content`.
pub fn user_message(content: String) -> (r: RequestMessage)
    ensures
        r.role@ == "user"@,
        r.content@ == content@,
{
    RequestMessage { role: String::from_str("user"), content }
}

impl OpenRouterResponse {
    /// The text of the first choice.
    pub fn first_content(&self) -> (r: Result<String, DecodeError>)
        ensures
            self.choices@.len() == 0 ==> r == Err::<String, DecodeError>(DecodeError::NoChoice),
            self.choices@.len() > 0 ==> r is Ok && r->Ok_0@ == self.choices@[0].message.content@,
    {
        if self.choices.len() == 0 {
            Err(DecodeError::NoChoice)
        } else {
            Ok(self.choices[0].message.content.clone())
        }
    }

    /// The text of the first choice without surrounding white space: a free-form analysis.
    pub fn analysis_text(&self) -> (r: Result<String, DecodeError>)
        ensures
            self.choices@.len() == 0 ==> r == Err::<String, DecodeError>(DecodeError::NoChoice),
            self.choices@.len() > 0 ==> r is Ok && r->Ok_0@ == trimmed(self.choices@[0].message.content@),
    {
        let c = self.first_content()?;
        Ok(trim(c.as_str()))
    }

    /// The JSON object embedded in the text of the first choice.
    pub fn json_payload(&self) -> (r: Result<String, DecodeError>)
        ensures
            self.choices@.len() == 0 ==> r == Err::<String, DecodeError>(DecodeError::NoChoice),
            self.choices@.len() > 0 ==> match r {
                Ok(p) => is_payload_of(self.choices@[0].message.content@, p@),
                Err(e) => e == DecodeError::NoJsonObject && !has_braced_span(
                    self.choices@[0].message.content@,
                ),
            },
    {
        let c = self.first_content()?;
        extract_json_payload(c.as_str())
    }
}

} // verus!
