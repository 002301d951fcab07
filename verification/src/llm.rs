//! The plain parts of the language-model interface the council uses:
//! messages, token usage, and errors.

use vstd::prelude::*;
use crate::text::{push_str, push_decimal, decimal};

verus! {

broadcast use vstd::string::group_string_axioms;

/// One chat message.
#[derive(Debug, Clone, PartialEq, Eq)]
pub struct CompletionMessage {
    pub role: String,
    pub content: String,
}

/// Tokens used by one completion.
#[derive(Debug, Clone, Copy, PartialEq, Eq, Structural)]
pub struct TokenUsage {
    pub prompt_tokens: u32,
    pub completion_tokens: u32,
    pub total_tokens: u32,
}

impl Default for TokenUsage {
    fn default() -> (u: TokenUsage)
        ensures
            u.prompt_tokens == 0 && u.completion_tokens == 0 && u.total_tokens == 0,
    {
        TokenUsage { prompt_tokens: 0, completion_tokens: 0, total_tokens: 0 }
    }
}

/// A failure of a model call.
#[derive(Debug)]
pub enum LlmError {
    Credentials(String),
    Network(String),
    RateLimited { retry_after_ms: u64 },
    Provider(String),
    Stream(String),
    NotImplemented(&'static str),
}

/// The message of an error.
pub open spec fn llm_error_text(e: LlmError) -> Seq<char> {
    match e {
        LlmError::Credentials(m) => "llm credentials error: "@ + m@,
        LlmError::Network(m) => "llm network error: "@ + m@,
        LlmError::RateLimited { retry_after_ms } => "llm rate limited, retry after "@ + decimal(
            retry_after_ms as nat,
        ) + "ms"@,
        LlmError::Provider(m) => "llm provider error: "@ + m@,
        LlmError::Stream(m) => "llm stream error: "@ + m@,
        LlmError::NotImplemented(what) => "llm not implemented: "@ + what@ + " (0 装 PASS; rc 阶段实现)"@,
    }
}

impl LlmError {
    /// The message of this error.
    pub fn to_string(&self) -> (s: String)
        ensures
            s@ == llm_error_text(*self),
    {
        let mut s = String::new();
        match self {
            LlmError::Credentials(m) => {
                push_str(&mut s, "llm credentials error: ");
                push_str(&mut s, m.as_str());
            },
            LlmError::Network(m) => {
                push_str(&mut s, "llm network error: ");
                push_str(&mut s, m.as_str());
            },
            LlmError::RateLimited { retry_after_ms } => {
                push_str(&mut s, "llm rate limited, retry after ");
                push_decimal(&mut s, *retry_after_ms);
                push_str(&mut s, "ms");
            },
            LlmError::Provider(m) => {
                push_str(&mut s, "llm provider error: ");
                push_str(&mut s, m.as_str());
            },
            LlmError::Stream(m) => {
                push_str(&mut s, "llm stream error: ");
                push_str(&mut s, m.as_str());
            },
            LlmError::NotImplemented(what) => {
                push_str(&mut s, "llm not implemented: ");
                push_str(&mut s, what);
                push_str(&mut s, " (0 装 PASS; rc 阶段实现)");
            },
        }
        s
    }
}

/// The factory that has no models: spawning fails as not implemented and
/// the model list is empty.
#[derive(Debug, Clone, Copy, PartialEq, Eq, Structural)]
pub struct NoopLlmFactory;

impl NoopLlmFactory {
    /// Its name, `noop`.
    pub fn name(&self) -> (n: &'static str)
        ensures
            n@ == "noop"@,
    {
        "noop"
    }

    /// The error every spawn returns.
    pub fn spawn_error(&self) -> (e: LlmError)
        ensures
            e matches LlmError::NotImplemented(w) && w@ == "NoopLlmFactory::spawn (0 装 PASS; runtime 注入真 LlmFactory)"@,
    {
        LlmError::NotImplemented("NoopLlmFactory::spawn (0 装 PASS; runtime 注入真 LlmFactory)")
    }

    /// The models it offers: none.
    pub fn available_models(&self) -> (v: Vec<String>)
        ensures
            v@.len() == 0,
    {
        Vec::new()
    }
}

} // verus!
