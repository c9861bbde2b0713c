//! The work on one pending translation: the request that is sent to the
//! completion service, and what is made of its reply.
use vstd::prelude::*;
use vstd::string::StrSliceExecFns;
use crate::overrides::line_views;

verus! {

/// The model that is asked for the translations.
pub const MODEL: &'static str = "text-davinci-003";

/// The length, in characters, from which on a prompt is refused. The
/// tokenizer splits a text with a backtracking matcher that keeps one branch
/// for each character of a run and gives up at a million branches; a prompt
/// below this limit stays well clear of that.
pub const PROMPT_LIMIT: usize = 500_000;

/// What `tiktoken_rs::get_completion_max_tokens` returns for a model and a
/// prompt: the number of tokens that are left for the completion, or nothing
/// where the call fails.
pub uninterp spec fn completion_budget(model: Seq<char>, prompt: Seq<char>) -> Option<nat>;

/// Why a translation failed.
#[derive(Clone, PartialEq, Eq, Debug)]
pub enum Failure {
    /// No token budget could be computed for the prompt.
    Budget(String),
    /// The request did not reach the service, or no reply came back.
    Transport(String),
    /// The service replied with an error and this message.
    Service(String),
    /// The service replied without a candidate.
    NoCandidate,
}

/// A failure as a plain value.
pub enum Reason {
    Budget(Seq<char>),
    Transport(Seq<char>),
    Service(Seq<char>),
    NoCandidate,
}

impl View for Failure {
    type V = Reason;

    open spec fn view(&self) -> Reason {
        match self {
            Failure::Budget(message) => Reason::Budget(message@),
            Failure::Transport(message) => Reason::Transport(message@),
            Failure::Service(message) => Reason::Service(message@),
            Failure::NoCandidate => Reason::NoCandidate,
        }
    }
}

/// The words in which a failure is reported.
pub open spec fn reason_text(reason: Reason) -> Seq<char> {
    match reason {
        Reason::Budget(message) => message,
        Reason::Transport(message) => message,
        Reason::Service(message) => message,
        Reason::NoCandidate => "No choice received"@,
    }
}

impl Failure {
    /// The words in which the failure is reported.
    pub fn message(&self) -> (text: String)
        ensures
            text@ == reason_text(self@),
    {
        match self {
            Failure::Budget(message) => message.clone(),
            Failure::Transport(message) => message.clone(),
            Failure::Service(message) => message.clone(),
            Failure::NoCandidate => "No choice received".to_owned(),
        }
    }
}

/// A request to the completion service. The temperature is no field of it:
/// every request is sent with temperature 0.
#[derive(Clone, PartialEq, Eq, Debug)]
pub struct CompletionRequest {
    pub model: String,
    pub prompt: String,
    pub max_tokens: usize,
}

/// A request as a plain value.
pub ghost struct RequestView {
    pub model: Seq<char>,
    pub prompt: Seq<char>,
    pub max_tokens: nat,
}

impl View for CompletionRequest {
    type V = RequestView;

    open spec fn view(&self) -> RequestView {
        RequestView { model: self.model@, prompt: self.prompt@, max_tokens: self.max_tokens as nat }
    }
}

/// What the completion service replied: candidates in its order, or an error
/// with a message.
#[derive(Clone, PartialEq, Eq, Debug)]
pub enum ServiceReply {
    Choices(Vec<String>),
    Error(String),
}

/// A reply as a plain value.
pub enum ReplyView {
    Choices(Seq<Seq<char>>),
    Error(Seq<char>),
}

impl View for ServiceReply {
    type V = ReplyView;

    open spec fn view(&self) -> ReplyView {
        match self {
            ServiceReply::Choices(candidates) => ReplyView::Choices(line_views(candidates@)),
            ServiceReply::Error(message) => ReplyView::Error(message@),
        }
    }
}

/// What became of one pending translation.
#[derive(Clone, PartialEq, Eq, Debug)]
pub enum TranslationOutcome {
    Translated { key: String, text: String },
    Failed { key: String, reason: Failure },
}

/// An outcome as a plain value.
pub enum Settled {
    Translated { key: Seq<char>, text: Seq<char> },
    Failed { key: Seq<char>, reason: Reason },
}

impl View for TranslationOutcome {
    type V = Settled;

    open spec fn view(&self) -> Settled {
        match self {
            TranslationOutcome::Translated { key, text } => Settled::Translated {
                key: key@,
                text: text@,
            },
            TranslationOutcome::Failed { key, reason } => Settled::Failed {
                key: key@,
                reason: reason@,
            },
        }
    }
}

/// The translation that a reply gives: of several candidates the last; a
/// reply without a candidate and a reply with an error give none.
pub open spec fn selection(reply: ReplyView) -> Result<Seq<char>, Reason> {
    match reply {
        ReplyView::Choices(candidates) => if candidates.len() == 0 {
            Err(Reason::NoCandidate)
        } else {
            Ok(candidates.last())
        },
        ReplyView::Error(message) => Err(Reason::Service(message)),
    }
}

/// The outcome for `key` after the exchange with the service ended in
/// `reply`: the service's reply, or the words of a failure of the transport.
pub open spec fn conclusion(key: Seq<char>, reply: Result<ReplyView, Seq<char>>) -> Settled {
    match reply {
        Ok(reply) => match selection(reply) {
            Ok(text) => Settled::Translated { key, text },
            Err(reason) => Settled::Failed { key, reason },
        },
        Err(message) => Settled::Failed { key, reason: Reason::Transport(message) },
    }
}

/// The request for `prompt`, given what the computation of its token budget
/// came to.
pub open spec fn request_of(prompt: Seq<char>, budget: Result<usize, Seq<char>>) -> Result<
    RequestView,
    Reason,
> {
    match budget {
        Ok(max_tokens) => Ok(RequestView { model: MODEL@, prompt, max_tokens: max_tokens as nat }),
        Err(message) => Err(Reason::Budget(message)),
    }
}

/// `tiktoken_rs::get_completion_max_tokens`, which takes the number of tokens
/// of the prompt off the context size of the model. The contract claims that
/// the result depends on the model and the prompt alone, and gives it the
/// name `completion_budget`: a number where the call succeeds, nothing where
/// it fails. The error comes back as its text, of which nothing is claimed.
/// A prompt at or above `PROMPT_LIMIT` is left out: on a long run of
/// characters the tokenizer's matcher can give up, and the call then panics.
#[verifier::external_body]
fn token_budget(model: &str, prompt: &str) -> (r: Result<usize, String>)
    requires
        prompt@.len() < PROMPT_LIMIT,
    ensures
        match r {
            Ok(n) => completion_budget(model@, prompt@) == Some(n as nat),
            Err(_) => completion_budget(model@, prompt@) is None,
        },
{
    tiktoken_rs::get_completion_max_tokens(model, prompt).map_err(|e| format!("{:#}", e))
}

/// Picks the translation that a reply of the service gives.
pub fn select_candidate(reply: ServiceReply) -> (r: Result<String, Failure>)
    ensures
        match r {
            Ok(text) => selection(reply@) == Ok::<Seq<char>, Reason>(text@),
            Err(reason) => selection(reply@) == Err::<Seq<char>, Reason>(reason@),
        },
{
    match reply {
        ServiceReply::Choices(mut candidates) => {
            let ghost all = candidates@;
            match candidates.pop() {
                Some(text) => {
                    assert(line_views(all).last() == text@);
                    Ok(text)
                },
                None => Err(Failure::NoCandidate),
            }
        },
        ServiceReply::Error(message) => Err(Failure::Service(message)),
    }
}

/// Makes the outcome for `key` of what the exchange with the service ended
/// in: the service's reply, or the words of a failure of the transport.
pub fn conclude(key: String, reply: Result<ServiceReply, String>) -> (outcome: TranslationOutcome)
    ensures
        outcome@ == conclusion(
            key@,
            match reply {
                Ok(reply) => Ok(reply@),
                Err(message) => Err(message@),
            },
        ),
{
    match reply {
        Ok(reply) => match select_candidate(reply) {
            Ok(text) => TranslationOutcome::Translated { key, text },
            Err(reason) => TranslationOutcome::Failed { key, reason },
        },
        Err(message) => TranslationOutcome::Failed { key, reason: Failure::Transport(message) },
    }
}

/// Makes the request for `prompt` of what the computation of its token
/// budget came to.
pub fn request_for(prompt: String, budget: Result<usize, String>) -> (r: Result<
    CompletionRequest,
    Failure,
>)
    ensures
        match r {
            Ok(request) => request_of(
                prompt@,
                match budget {
                    Ok(n) => Ok(n),
                    Err(message) => Err(message@),
                },
            ) == Ok::<RequestView, Reason>(request@),
            Err(reason) => request_of(
                prompt@,
                match budget {
                    Ok(n) => Ok(n),
                    Err(message) => Err(message@),
                },
            ) == Err::<RequestView, Reason>(reason@),
        },
{
    match budget {
        Ok(max_tokens) => Ok(CompletionRequest { model: MODEL.to_owned(), prompt, max_tokens }),
        Err(message) => Err(Failure::Budget(message)),
    }
}

/// Prepares the request for `prompt`: computes the token budget that the
/// model leaves for the completion, and puts it into the request. A prompt of
/// `PROMPT_LIMIT` characters or more gets no budget.
pub fn prepare_request(prompt: String) -> (r: Result<CompletionRequest, Failure>)
    ensures
        prompt@.len() >= PROMPT_LIMIT ==> r is Err && r.unwrap_err()@ == Reason::Budget(
            "Prompt too long"@,
        ),
        prompt@.len() < PROMPT_LIMIT ==> match completion_budget(MODEL@, prompt@) {
            Some(n) => r is Ok && r.unwrap()@ == (RequestView {
                model: MODEL@,
                prompt: prompt@,
                max_tokens: n,
            }),
            None => r is Err && r.unwrap_err() is Budget,
        },
{
    if prompt.as_str().unicode_len() >= PROMPT_LIMIT {
        return Err(Failure::Budget("Prompt too long".to_owned()));
    }
    let budget = token_budget(MODEL, prompt.as_str());
    request_for(prompt, budget)
}

} // verus!
