use vstd::prelude::*;
use crate::syntax::same_text;
use crate::text::{chars_of, ends_with, has_suffix, string_of};

verus! {

/// The completion endpoint's settings.
#[derive(Debug)]
pub struct LlmConfig {
    pub api_key: String,
    pub base_url: String,
    pub model: String,
}

/// What a completion request does.
#[derive(Debug, PartialEq, Eq)]
pub enum CompletionPlan {
    /// Test mode: the fixed reply, with no network call.
    Canned(String),
    /// No key is configured: the request fails.
    NotConfigured,
    /// A request to the chat-completions URL.
    Remote(String),
}

pub open spec fn dummy_key() -> Seq<char> {
    "dummy"@
}

pub open spec fn default_base_url() -> Seq<char> {
    "https://api.openai.com/v1"@
}

pub open spec fn default_model() -> Seq<char> {
    "gpt-4o"@
}

/// The reply of test mode: a fenced object that names `helper` as a call.
pub open spec fn canned_reply() -> Seq<char> {
    "```json\n{\n  \"calls\": [\"helper\"],\n  \"types\": []\n}\n```"@
}

/// The system instruction sent before the prompt.
pub open spec fn system_instruction_text() -> Seq<char> {
    "You are a Rust expert helping to analyze code dependencies. Output only the requested JSON or code, no markdown fencing unless requested."@
}

/// The chat-completions URL under a base URL, with exactly one `/` between them when the
/// base ends with one.
pub open spec fn chat_url_of(base: Seq<char>) -> Seq<char> {
    if ends_with(base, "/"@) {
        base + "chat/completions"@
    } else {
        base + "/chat/completions"@
    }
}

pub open spec fn setting_or(value: Option<String>, default: Seq<char>) -> Seq<char> {
    match value {
        Some(v) => v@,
        None => default,
    }
}

fn text(s: &str) -> (r: String)
    ensures
        r@ == s@,
{
    string_of(chars_of(s).as_slice())
}

fn append(s: &mut String, t: &str)
    ensures
        final(s)@ == old(s)@ + t@,
{
    s.append(t);
}

/// The system instruction sent before the prompt.
pub fn system_instruction() -> (r: String)
    ensures
        r@ == system_instruction_text(),
{
    text(
        "You are a Rust expert helping to analyze code dependencies. Output only the requested JSON or code, no markdown fencing unless requested.",
    )
}

/// The chat-completions URL under `base`.
pub fn chat_url(base: &str) -> (r: String)
    ensures
        r@ == chat_url_of(base@),
{
    let mut s = text(base);
    if has_suffix(&chars_of(base), &chars_of("/")) {
        append(&mut s, "chat/completions");
    } else {
        append(&mut s, "/chat/completions");
    }
    s
}

impl LlmConfig {
    /// The settings with their defaults: key `dummy` (not configured), the OpenAI base URL,
    /// and the model `gpt-4o`.
    pub fn from_settings(api_key: Option<String>, base_url: Option<String>, model: Option<String>) -> (c:
        LlmConfig)
        ensures
            c.api_key@ == setting_or(api_key, dummy_key()),
            c.base_url@ == setting_or(base_url, default_base_url()),
            c.model@ == setting_or(model, default_model()),
    {
        LlmConfig {
            api_key: match api_key {
                Some(k) => k,
                None => text("dummy"),
            },
            base_url: match base_url {
                Some(b) => b,
                None => text("https://api.openai.com/v1"),
            },
            model: match model {
                Some(m) => m,
                None => text("gpt-4o"),
            },
        }
    }

    /// What a completion does: in test mode the fixed reply; without a key a failure;
    /// otherwise a request to the chat-completions URL.
    pub fn plan(&self, test_mode: bool) -> (r: CompletionPlan)
        ensures
            test_mode ==> (r matches CompletionPlan::Canned(s) && s@ == canned_reply()),
            !test_mode && self.api_key@ == dummy_key() ==> r == CompletionPlan::NotConfigured,
            !test_mode && self.api_key@ != dummy_key() ==> (r matches CompletionPlan::Remote(u)
                && u@ == chat_url_of(self.base_url@)),
    {
        if test_mode {
            CompletionPlan::Canned(text("```json\n{\n  \"calls\": [\"helper\"],\n  \"types\": []\n}\n```"))
        } else if same_text(self.api_key.as_str(), "dummy") {
            CompletionPlan::NotConfigured
        } else {
            CompletionPlan::Remote(chat_url(self.base_url.as_str()))
        }
    }
}

} // verus!
