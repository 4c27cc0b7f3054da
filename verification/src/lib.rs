//! ENGINE-0: a deterministic tokenized request lifecycle.
//!
//! The tokenizer, special-token, chat-template, byte-decoding, and UTF-8
//! streaming boundaries are real. `DemoModel` remains a fake candidate source;
//! its integer scores are not logits and no neural computation occurs here.
//!
//! Beside the lifecycle, the crate holds the checked integer side of the
//! numerical substrate: tensor shape, stride and offset arithmetic
//! (`tensor`), kernel and embedding shape checks (`linear`, `embedding`),
//! model parameter shapes (`parameters`), and the sampling generator
//! (`sampling`). `run_laws` and `tokenizer_laws` state what every run and
//! every tokenization guarantees.

pub mod chat;
pub mod cli;
pub mod embedding;
pub mod linear;
pub mod normalization;
pub mod parameters;
pub mod run_laws;
pub mod sampling;
pub mod tensor;
pub mod text;
pub mod tokenizer;
pub mod tokenizer_laws;
pub mod utf8;

use std::time::Instant;

use vstd::prelude::*;
use vstd::utf8::*;

use crate::text::{decimal, push_decimal};
use crate::tokenizer::{
    TokenId, Tokenizer, tokenizer_error_message, TOKEN_BLUE, TOKEN_EOS, TOKEN_GREEN,
};
use crate::utf8::{
    incomplete_sequence_message, invalid_sequence_message, pushed_pending, pushed_text,
    utf8_error_len, utf8_malformed, utf8_valid_up_to, Utf8StreamDecoder,
};

verus! {

/// `std::time::Instant`, a point on the monotonic clock. Proofs see nothing
/// inside it; a lifecycle only carries it to measure elapsed time.
#[verifier::external_type_specification]
#[verifier::external_body]
pub struct ExInstant(Instant);

/// Calls `Instant::now`; the reading depends on the clock, so nothing is
/// claimed of it.
#[verifier::external_body]
fn clock_now() -> Instant {
    Instant::now()
}

/// Calls `Instant::elapsed` and converts the `Duration` to whole nanoseconds
/// with `Duration::as_nanos`; the reading depends on the clock, so nothing is
/// claimed of it.
#[verifier::external_body]
fn nanos_since(started: &Instant) -> u128 {
    started.elapsed().as_nanos()
}

pub type RequestId = u64;

/// A generation request after text has crossed the tokenizer boundary.
#[derive(Debug, Clone, PartialEq, Eq)]
pub struct Request {
    pub id: RequestId,
    pub input_tokens: Vec<TokenId>,
    pub input_bytes: usize,
    pub max_new_tokens: usize,
}

/// A request can run when its input has a token and it may produce one.
pub open spec fn request_valid(request: Request) -> bool {
    request.input_tokens@.len() > 0 && request.max_new_tokens > 0
}

/// Why a request cannot run.
pub open spec fn invalid_request_message(request: Request) -> Seq<char> {
    if request.input_tokens@.len() == 0 {
        "input must encode to at least one token"@
    } else {
        "max_new_tokens must be greater than zero"@
    }
}

impl Request {
    pub fn from_text<T: Tokenizer>(
        id: RequestId,
        input: &[u8],
        max_new_tokens: usize,
        tokenizer: &T,
    ) -> (r: Result<Self, tokenizer::TokenizerError>)
        ensures
            match tokenizer.spec_encode(input@) {
                Ok(ids) => r matches Ok(request) && request.id == id && request.input_tokens@ == ids
                    && request.input_bytes == input@.len() && request.max_new_tokens
                    == max_new_tokens,
                Err(e) => r == Err::<Request, tokenizer::TokenizerError>(e),
            },
    {
        match tokenizer.encode(input) {
            Ok(input_tokens) => Ok(
                Request { id, input_tokens, input_bytes: input.len(), max_new_tokens },
            ),
            Err(e) => Err(e),
        }
    }

    pub fn from_token_ids(
        id: RequestId,
        input_tokens: Vec<TokenId>,
        input_bytes: usize,
        max_new_tokens: usize,
    ) -> (request: Self)
        ensures
            request == (Request { id, input_tokens, input_bytes, max_new_tokens }),
    {
        Request { id, input_tokens, input_bytes, max_new_tokens }
    }

    fn validate(&self) -> (r: Result<(), GenerationError>)
        ensures
            r is Ok <==> request_valid(*self),
            r matches Err(e) ==> e@ == ErrorView::InvalidRequest(invalid_request_message(*self)),
    {
        if self.input_tokens.len() == 0 {
            return Err(
                GenerationError::InvalidRequest(
                    String::from_str("input must encode to at least one token"),
                ),
            );
        }
        if self.max_new_tokens == 0 {
            return Err(
                GenerationError::InvalidRequest(
                    String::from_str("max_new_tokens must be greater than zero"),
                ),
            );
        }
        Ok(())
    }
}

#[derive(Debug, Clone, Copy, PartialEq, Eq, Structural)]
pub enum TokenKind {
    Text,
    EndOfSequence,
}

#[derive(Debug, Clone, Copy, PartialEq, Eq, Structural)]
pub struct Token {
    pub id: TokenId,
    pub kind: TokenKind,
}

impl Token {
    pub fn text(id: TokenId) -> (token: Self)
        ensures
            token == (Token { id, kind: TokenKind::Text }),
    {
        Token { id, kind: TokenKind::Text }
    }

    pub fn end(id: TokenId) -> (token: Self)
        ensures
            token == (Token { id, kind: TokenKind::EndOfSequence }),
    {
        Token { id, kind: TokenKind::EndOfSequence }
    }
}

/// A fake, scored model candidate. The score is not a real neural logit.
#[derive(Debug, Clone, Copy, PartialEq, Eq, Structural)]
pub struct Candidate {
    pub token: Token,
    pub score: i32,
}

impl Candidate {
    pub fn new(token: Token, score: i32) -> (candidate: Self)
        ensures
            candidate == (Candidate { token, score }),
    {
        Candidate { token, score }
    }
}

#[derive(Debug, Clone, PartialEq, Eq)]
pub struct GenerationState {
    generated: Vec<Token>,
}

impl View for GenerationState {
    type V = Seq<Token>;

    closed spec fn view(&self) -> Seq<Token> {
        self.generated@
    }
}

impl GenerationState {
    fn new() -> (state: Self)
        ensures
            state@ == Seq::<Token>::empty(),
    {
        GenerationState { generated: Vec::new() }
    }

    pub fn step(&self) -> (step: usize)
        ensures
            step == self@.len(),
    {
        self.generated.len()
    }

    pub fn generated(&self) -> (tokens: &[Token])
        ensures
            tokens@ == self@,
    {
        self.generated.as_slice()
    }
}

/// A candidate source: the request and the tokens generated so far in,
/// scored candidates or a failure message out.
pub trait Model {
    spec fn spec_candidates(&self, request: Request, generated: Seq<Token>) -> Result<
        Seq<Candidate>,
        Seq<char>,
    >;

    fn candidates(&self, request: &Request, state: &GenerationState) -> (r: Result<
        Vec<Candidate>,
        ModelError,
    >)
        ensures
            match r {
                Ok(candidates) => self.spec_candidates(*request, state@) == Ok::<
                    Seq<Candidate>,
                    Seq<char>,
                >(candidates@),
                Err(error) => self.spec_candidates(*request, state@) == Err::<
                    Seq<Candidate>,
                    Seq<char>,
                >(error@),
            },
    ;
}

/// Chooses the next token among candidates.
pub trait Selector {
    spec fn spec_select(&self, candidates: Seq<Candidate>) -> Result<Token, ErrorView>;

    fn select(&self, candidates: &[Candidate]) -> (r: Result<Token, GenerationError>)
        ensures
            match r {
                Ok(token) => self.spec_select(candidates@) == Ok::<Token, ErrorView>(token),
                Err(error) => self.spec_select(candidates@) == Err::<Token, ErrorView>(error@),
            },
    ;
}

/// The first candidate with the highest score among the first `n`.
pub open spec fn greedy_pick(candidates: Seq<Candidate>, n: int) -> Candidate
    decreases n,
{
    if n <= 1 {
        candidates[0]
    } else {
        let best = greedy_pick(candidates, n - 1);
        if candidates[n - 1].score > best.score {
            candidates[n - 1]
        } else {
            best
        }
    }
}

#[derive(Debug, Default, Clone, Copy)]
pub struct GreedySelector;

impl Selector for GreedySelector {
    open spec fn spec_select(&self, candidates: Seq<Candidate>) -> Result<Token, ErrorView> {
        if candidates.len() == 0 {
            Err(ErrorView::NoCandidates)
        } else {
            Ok(greedy_pick(candidates, candidates.len() as int).token)
        }
    }

    fn select(&self, candidates: &[Candidate]) -> (r: Result<Token, GenerationError>) {
        if candidates.len() == 0 {
            return Err(GenerationError::NoCandidates);
        }
        let mut best = candidates[0];
        let mut i: usize = 1;
        while i < candidates.len()
            invariant
                1 <= i <= candidates@.len(),
                best == greedy_pick(candidates@, i as int),
            decreases candidates@.len() - i,
        {
            if candidates[i].score > best.score {
                best = candidates[i];
            }
            i = i + 1;
        }
        Ok(best.token)
    }
}

/// The deterministic fake source, bound to real token ids.
#[derive(Debug, Clone, Copy)]
pub struct DemoModel {
    fail_at_step: Option<usize>,
}

impl DemoModel {
    /// The step at which this model reports an injected failure.
    pub closed spec fn fail_at(&self) -> Option<usize> {
        self.fail_at_step
    }

    pub fn failing_at(step: usize) -> (model: Self)
        ensures
            model.fail_at() == Some(step),
    {
        DemoModel { fail_at_step: Some(step) }
    }
}

impl Default for DemoModel {
    fn default() -> (model: Self)
        ensures
            model.fail_at() == None::<usize>,
    {
        DemoModel { fail_at_step: None }
    }
}

/// The fixed candidates of the fake model at a step.
pub open spec fn demo_candidates(step: nat) -> Seq<Candidate> {
    if step == 0 {
        seq![
            Candidate { token: Token { id: TokenId(262), kind: TokenKind::Text }, score: 9 },
            Candidate { token: Token { id: TokenId(266), kind: TokenKind::Text }, score: 4 },
            Candidate { token: Token { id: TokenId(1001), kind: TokenKind::EndOfSequence }, score: 1 },
        ]
    } else {
        seq![
            Candidate { token: Token { id: TokenId(1001), kind: TokenKind::EndOfSequence }, score: 10 },
            Candidate { token: Token { id: TokenId(262), kind: TokenKind::Text }, score: 1 },
        ]
    }
}

impl Model for DemoModel {
    open spec fn spec_candidates(&self, request: Request, generated: Seq<Token>) -> Result<
        Seq<Candidate>,
        Seq<char>,
    > {
        if self.fail_at() == Some(generated.len() as usize) {
            Err("injected model failure at step "@ + decimal(generated.len()))
        } else {
            Ok(demo_candidates(generated.len()))
        }
    }

    fn candidates(&self, request: &Request, state: &GenerationState) -> (r: Result<
        Vec<Candidate>,
        ModelError,
    >) {
        let step = state.step();
        match self.fail_at_step {
            Some(fail) => {
                if fail == step {
                    let mut message = String::from_str("injected model failure at step ");
                    push_decimal(&mut message, step as u64);
                    return Err(ModelError { message });
                }
            },
            None => {},
        }
        let mut candidates: Vec<Candidate> = Vec::new();
        if step == 0 {
            candidates.push(Candidate::new(Token::text(TokenId(TOKEN_BLUE)), 9));
            candidates.push(Candidate::new(Token::text(TokenId(TOKEN_GREEN)), 4));
            candidates.push(Candidate::new(Token::end(TokenId(TOKEN_EOS)), 1));
        } else {
            candidates.push(Candidate::new(Token::end(TokenId(TOKEN_EOS)), 10));
            candidates.push(Candidate::new(Token::text(TokenId(TOKEN_BLUE)), 1));
        }
        assert(candidates@ =~= demo_candidates(step as nat));
        Ok(candidates)
    }
}

#[derive(Debug, Clone, PartialEq, Eq)]
pub struct ModelError {
    message: String,
}

impl View for ModelError {
    type V = Seq<char>;

    closed spec fn view(&self) -> Seq<char> {
        self.message@
    }
}

impl ModelError {
    pub fn new(message: String) -> (error: Self)
        ensures
            error@ == message@,
    {
        ModelError { message }
    }

    /// The failure message.
    pub fn to_string(&self) -> (message: String)
        ensures
            message@ == self@,
    {
        self.message.clone()
    }
}

#[derive(Debug, PartialEq, Eq)]
pub enum GenerationError {
    InvalidRequest(String),
    Model(String),
    Tokenizer(String),
    Utf8Stream(String),
    NoCandidates,
    AlreadyTerminal,
}

/// A generation error with its messages as characters.
pub enum ErrorView {
    InvalidRequest(Seq<char>),
    Model(Seq<char>),
    Tokenizer(Seq<char>),
    Utf8Stream(Seq<char>),
    NoCandidates,
    AlreadyTerminal,
}

impl View for GenerationError {
    type V = ErrorView;

    open spec fn view(&self) -> ErrorView {
        match self {
            GenerationError::InvalidRequest(m) => ErrorView::InvalidRequest(m@),
            GenerationError::Model(m) => ErrorView::Model(m@),
            GenerationError::Tokenizer(m) => ErrorView::Tokenizer(m@),
            GenerationError::Utf8Stream(m) => ErrorView::Utf8Stream(m@),
            GenerationError::NoCandidates => ErrorView::NoCandidates,
            GenerationError::AlreadyTerminal => ErrorView::AlreadyTerminal,
        }
    }
}

impl Clone for GenerationError {
    fn clone(&self) -> (copy: Self)
        ensures
            copy == *self,
    {
        match self {
            GenerationError::InvalidRequest(m) => GenerationError::InvalidRequest(m.clone()),
            GenerationError::Model(m) => GenerationError::Model(m.clone()),
            GenerationError::Tokenizer(m) => GenerationError::Tokenizer(m.clone()),
            GenerationError::Utf8Stream(m) => GenerationError::Utf8Stream(m.clone()),
            GenerationError::NoCandidates => GenerationError::NoCandidates,
            GenerationError::AlreadyTerminal => GenerationError::AlreadyTerminal,
        }
    }
}

/// The human-readable message of a generation error.
pub open spec fn generation_error_message(error: ErrorView) -> Seq<char> {
    match error {
        ErrorView::InvalidRequest(m) => "invalid request: "@ + m,
        ErrorView::Model(m) => "model error: "@ + m,
        ErrorView::Tokenizer(m) => "tokenizer error: "@ + m,
        ErrorView::Utf8Stream(m) => "UTF-8 stream error: "@ + m,
        ErrorView::NoCandidates => "model returned no candidates"@,
        ErrorView::AlreadyTerminal => "request already has a terminal outcome"@,
    }
}

impl GenerationError {
    /// The human-readable message of this error.
    pub fn to_string(&self) -> (message: String)
        ensures
            message@ == generation_error_message(self@),
    {
        match self {
            GenerationError::InvalidRequest(m) => String::from_str("invalid request: ").concat(
                m.as_str(),
            ),
            GenerationError::Model(m) => String::from_str("model error: ").concat(m.as_str()),
            GenerationError::Tokenizer(m) => String::from_str("tokenizer error: ").concat(
                m.as_str(),
            ),
            GenerationError::Utf8Stream(m) => String::from_str("UTF-8 stream error: ").concat(
                m.as_str(),
            ),
            GenerationError::NoCandidates => String::from_str("model returned no candidates"),
            GenerationError::AlreadyTerminal => String::from_str(
                "request already has a terminal outcome",
            ),
        }
    }
}

#[derive(Debug, Clone, Copy, PartialEq, Eq, Structural)]
pub enum StopReason {
    EndOfSequence,
    MaxTokens,
}

#[derive(Debug, PartialEq, Eq)]
pub enum TerminalOutcome {
    Completed(StopReason),
    Cancelled,
    Failed(GenerationError),
}

/// A terminal outcome with its messages as characters.
pub enum OutcomeView {
    Completed(StopReason),
    Cancelled,
    Failed(ErrorView),
}

impl View for TerminalOutcome {
    type V = OutcomeView;

    open spec fn view(&self) -> OutcomeView {
        match self {
            TerminalOutcome::Completed(reason) => OutcomeView::Completed(*reason),
            TerminalOutcome::Cancelled => OutcomeView::Cancelled,
            TerminalOutcome::Failed(error) => OutcomeView::Failed(error@),
        }
    }
}

impl Clone for TerminalOutcome {
    fn clone(&self) -> (copy: Self)
        ensures
            copy == *self,
    {
        match self {
            TerminalOutcome::Completed(reason) => TerminalOutcome::Completed(*reason),
            TerminalOutcome::Cancelled => TerminalOutcome::Cancelled,
            TerminalOutcome::Failed(error) => TerminalOutcome::Failed(error.clone()),
        }
    }
}

/// The display form of a terminal outcome.
pub open spec fn outcome_message(outcome: OutcomeView) -> Seq<char> {
    match outcome {
        OutcomeView::Completed(StopReason::EndOfSequence) => "completed:end_of_sequence"@,
        OutcomeView::Completed(StopReason::MaxTokens) => "completed:max_tokens"@,
        OutcomeView::Cancelled => "cancelled"@,
        OutcomeView::Failed(error) => "failed:"@ + generation_error_message(error),
    }
}

impl TerminalOutcome {
    /// The display form of this outcome.
    pub fn to_string(&self) -> (message: String)
        ensures
            message@ == outcome_message(self@),
    {
        match self {
            TerminalOutcome::Completed(StopReason::EndOfSequence) => String::from_str(
                "completed:end_of_sequence",
            ),
            TerminalOutcome::Completed(StopReason::MaxTokens) => String::from_str(
                "completed:max_tokens",
            ),
            TerminalOutcome::Cancelled => String::from_str("cancelled"),
            TerminalOutcome::Failed(error) => String::from_str("failed:").concat(
                error.to_string().as_str(),
            ),
        }
    }
}

/// Token identities and valid text pieces are separate ordered events.
#[derive(Debug, Clone, PartialEq, Eq)]
pub enum StreamEvent {
    Token { request_id: RequestId, index: usize, token: Token },
    Text { request_id: RequestId, through_token_index: usize, text: String },
    Terminal { request_id: RequestId, outcome: TerminalOutcome },
}

/// A stream event with its text as characters.
pub enum EventView {
    Token { request_id: RequestId, index: usize, token: Token },
    Text { request_id: RequestId, through_token_index: usize, text: Seq<char> },
    Terminal { request_id: RequestId, outcome: OutcomeView },
}

impl View for StreamEvent {
    type V = EventView;

    open spec fn view(&self) -> EventView {
        match self {
            StreamEvent::Token { request_id, index, token } => EventView::Token {
                request_id: *request_id,
                index: *index,
                token: *token,
            },
            StreamEvent::Text { request_id, through_token_index, text } => EventView::Text {
                request_id: *request_id,
                through_token_index: *through_token_index,
                text: text@,
            },
            StreamEvent::Terminal { request_id, outcome } => EventView::Terminal {
                request_id: *request_id,
                outcome: outcome@,
            },
        }
    }
}

/// A log of stream events seen through their views.
pub open spec fn events_view(events: Seq<StreamEvent>) -> Seq<EventView> {
    events.map_values(|e: StreamEvent| e@)
}

/// Receives the ordered stream events of requests.
///
/// A sink either keeps every event it is sent, in order, or passes events on
/// (to a console, say) and keeps none; what is said of the kept events holds
/// of sinks of the first kind.
pub trait TokenSink {
    /// Whether this sink keeps the events it is sent.
    open spec fn keeps_events(&self) -> bool {
        false
    }

    /// The events this sink has kept, in order.
    open spec fn spec_sent(&self) -> Seq<StreamEvent> {
        Seq::empty()
    }

    fn send(&mut self, event: StreamEvent)
        ensures
            final(self).keeps_events() == old(self).keeps_events(),
            old(self).keeps_events() ==> final(self).spec_sent() == old(self).spec_sent().push(
                event,
            ),
    ;
}

/// `after` is `before` once `event` has been sent to it.
pub open spec fn sent_after<K: TokenSink>(before: K, after: K, event: StreamEvent) -> bool {
    &&& after.keeps_events() == before.keeps_events()
    &&& before.keeps_events() ==> after.spec_sent() == before.spec_sent().push(event)
}

#[derive(Debug, Default, Clone, PartialEq, Eq)]
pub struct RecordingSink {
    pub events: Vec<StreamEvent>,
}

impl TokenSink for RecordingSink {
    open spec fn keeps_events(&self) -> bool {
        true
    }

    open spec fn spec_sent(&self) -> Seq<StreamEvent> {
        self.events@
    }

    fn send(&mut self, event: StreamEvent) {
        self.events.push(event);
    }
}

/// Decides, from the tokens generated so far, whether to stop a request.
pub trait Cancellation {
    spec fn spec_is_cancelled(&self, generated: Seq<Token>) -> bool;

    fn is_cancelled(&self, state: &GenerationState) -> (r: bool)
        ensures
            r == self.spec_is_cancelled(state@),
    ;
}

#[derive(Debug, Default, Clone, Copy)]
pub struct NeverCancel;

impl Cancellation for NeverCancel {
    open spec fn spec_is_cancelled(&self, generated: Seq<Token>) -> bool {
        false
    }

    fn is_cancelled(&self, state: &GenerationState) -> (r: bool) {
        false
    }
}

#[derive(Debug, Clone, Copy)]
pub struct CancelAtStep(pub usize);

impl Cancellation for CancelAtStep {
    open spec fn spec_is_cancelled(&self, generated: Seq<Token>) -> bool {
        generated.len() >= self.0
    }

    fn is_cancelled(&self, state: &GenerationState) -> (r: bool) {
        state.step() >= self.0
    }
}

#[derive(Debug, Clone, PartialEq, Eq)]
pub enum TraceKind {
    InputEncoded { bytes: usize, token_count: usize },
    Admitted,
    ExecutionStarted,
    ModelInvoked { step: usize },
    TokenSelected { step: usize, token_id: TokenId },
    TokenEmitted { index: usize, token_id: TokenId },
    TokenDecoded { index: usize, token_id: TokenId, bytes: usize },
    Utf8Buffered { pending_bytes: usize },
    TextEmitted { through_token_index: usize, bytes: usize },
    Terminal(TerminalOutcome),
}

/// A trace kind with its outcome seen through its view.
pub enum TraceKindView {
    InputEncoded { bytes: usize, token_count: usize },
    Admitted,
    ExecutionStarted,
    ModelInvoked { step: usize },
    TokenSelected { step: usize, token_id: TokenId },
    TokenEmitted { index: usize, token_id: TokenId },
    TokenDecoded { index: usize, token_id: TokenId, bytes: usize },
    Utf8Buffered { pending_bytes: usize },
    TextEmitted { through_token_index: usize, bytes: usize },
    Terminal(OutcomeView),
}

impl View for TraceKind {
    type V = TraceKindView;

    open spec fn view(&self) -> TraceKindView {
        match self {
            TraceKind::InputEncoded { bytes, token_count } => TraceKindView::InputEncoded {
                bytes: *bytes,
                token_count: *token_count,
            },
            TraceKind::Admitted => TraceKindView::Admitted,
            TraceKind::ExecutionStarted => TraceKindView::ExecutionStarted,
            TraceKind::ModelInvoked { step } => TraceKindView::ModelInvoked { step: *step },
            TraceKind::TokenSelected { step, token_id } => TraceKindView::TokenSelected {
                step: *step,
                token_id: *token_id,
            },
            TraceKind::TokenEmitted { index, token_id } => TraceKindView::TokenEmitted {
                index: *index,
                token_id: *token_id,
            },
            TraceKind::TokenDecoded { index, token_id, bytes } => TraceKindView::TokenDecoded {
                index: *index,
                token_id: *token_id,
                bytes: *bytes,
            },
            TraceKind::Utf8Buffered { pending_bytes } => TraceKindView::Utf8Buffered {
                pending_bytes: *pending_bytes,
            },
            TraceKind::TextEmitted { through_token_index, bytes } => TraceKindView::TextEmitted {
                through_token_index: *through_token_index,
                bytes: *bytes,
            },
            TraceKind::Terminal(outcome) => TraceKindView::Terminal(outcome@),
        }
    }
}

/// One trace record: nanoseconds since the request started, the request,
/// and what happened.
#[derive(Debug, Clone, PartialEq, Eq)]
pub struct TraceEvent {
    pub at: u128,
    pub request_id: RequestId,
    pub kind: TraceKind,
}

/// A trace log seen through the views of its kinds.
pub open spec fn kinds_view(events: Seq<TraceEvent>) -> Seq<TraceKindView> {
    events.map_values(|e: TraceEvent| e.kind@)
}

/// Receives the ordered trace records of requests.
///
/// A sink either keeps every record it is given, in order, or keeps none;
/// what is said of the kept records holds of sinks of the first kind.
pub trait TraceSink {
    /// Whether this sink keeps the records it is given.
    open spec fn keeps_records(&self) -> bool {
        false
    }

    /// The records this sink has kept, in order.
    open spec fn spec_log(&self) -> Seq<TraceEvent> {
        Seq::empty()
    }

    fn record(&mut self, event: TraceEvent)
        ensures
            final(self).keeps_records() == old(self).keeps_records(),
            old(self).keeps_records() ==> final(self).spec_log() == old(self).spec_log().push(
                event,
            ),
    ;
}

/// Discards every trace record.
#[derive(Debug, Default)]
pub struct NoopTrace;

impl TraceSink for NoopTrace {
    fn record(&mut self, event: TraceEvent) {
    }
}

#[derive(Debug, Default, Clone, PartialEq, Eq)]
pub struct RecordingTrace {
    pub events: Vec<TraceEvent>,
}

impl TraceSink for RecordingTrace {
    open spec fn keeps_records(&self) -> bool {
        true
    }

    open spec fn spec_log(&self) -> Seq<TraceEvent> {
        self.events@
    }

    fn record(&mut self, event: TraceEvent) {
        self.events.push(event);
    }
}

/// `a - b`, or zero when `b` is later.
pub open spec fn saturating_diff(a: u128, b: u128) -> u128 {
    if a >= b {
        (a - b) as u128
    } else {
        0
    }
}

/// The difference of two optional readings, when both exist.
pub open spec fn optional_delay(later: Option<u128>, earlier: Option<u128>) -> Option<u128> {
    match (later, earlier) {
        (Some(a), Some(b)) => Some(saturating_diff(a, b)),
        _ => None,
    }
}

fn delay(later: Option<u128>, earlier: Option<u128>) -> (r: Option<u128>)
    ensures
        r == optional_delay(later, earlier),
{
    match (later, earlier) {
        (Some(a), Some(b)) => Some(
            if a >= b {
                a - b
            } else {
                0
            },
        ),
        _ => None,
    }
}

/// Lifecycle readings in nanoseconds since the request started.
#[derive(Debug, Clone, PartialEq, Eq)]
pub struct LifecycleTimings {
    pub admitted_at: Option<u128>,
    pub execution_started_at: Option<u128>,
    pub first_token_ready_at: Option<u128>,
    pub first_text_emitted_at: Option<u128>,
    pub terminal_at: u128,
}

impl LifecycleTimings {
    pub fn queue_delay(&self) -> (r: Option<u128>)
        ensures
            r == optional_delay(self.execution_started_at, self.admitted_at),
    {
        delay(self.execution_started_at, self.admitted_at)
    }

    pub fn time_to_first_token(&self) -> (r: Option<u128>)
        ensures
            r == optional_delay(self.first_token_ready_at, self.admitted_at),
    {
        delay(self.first_token_ready_at, self.admitted_at)
    }

    pub fn time_to_first_text(&self) -> (r: Option<u128>)
        ensures
            r == optional_delay(self.first_text_emitted_at, self.admitted_at),
    {
        delay(self.first_text_emitted_at, self.admitted_at)
    }

    pub fn token_ready_to_text_delay(&self) -> (r: Option<u128>)
        ensures
            r == optional_delay(self.first_text_emitted_at, self.first_token_ready_at),
    {
        delay(self.first_text_emitted_at, self.first_token_ready_at)
    }
}

#[derive(Debug, Clone, PartialEq, Eq)]
pub struct GenerationResult {
    pub request_id: RequestId,
    pub tokens: Vec<Token>,
    pub outcome: TerminalOutcome,
    pub timings: LifecycleTimings,
}


/// `after` is `before` followed by the events whose views are `added`.
pub open spec fn appended_events(
    before: Seq<StreamEvent>,
    after: Seq<StreamEvent>,
    added: Seq<EventView>,
) -> bool {
    &&& after.len() == before.len() + added.len()
    &&& after.take(before.len() as int) == before
    &&& events_view(after.skip(before.len() as int)) == added
}

/// `after` is `before` followed by records of `request_id` whose kinds, seen
/// through their views, are `added`.
pub open spec fn appended_records(
    before: Seq<TraceEvent>,
    after: Seq<TraceEvent>,
    request_id: RequestId,
    added: Seq<TraceKindView>,
) -> bool {
    &&& after.len() == before.len() + added.len()
    &&& after.take(before.len() as int) == before
    &&& kinds_view(after.skip(before.len() as int)) == added
    &&& forall|i: int| before.len() <= i < after.len() ==> #[trigger] after[i].request_id == request_id
}

/// `after` is `before` with one more record of `kind` for `request_id`.
pub open spec fn one_more_record(
    before: Seq<TraceEvent>,
    after: Seq<TraceEvent>,
    request_id: RequestId,
    kind: TraceKind,
) -> bool {
    &&& after.len() == before.len() + 1
    &&& after.drop_last() == before
    &&& after.last().request_id == request_id
    &&& after.last().kind == kind
}

/// `after` is the trace sink `before` once a record of `kind` for
/// `request_id` has been given to it.
pub open spec fn recorded_after<R: TraceSink>(
    before: R,
    after: R,
    request_id: RequestId,
    kind: TraceKind,
) -> bool {
    &&& after.keeps_records() == before.keeps_records()
    &&& before.keeps_records() ==> one_more_record(
        before.spec_log(),
        after.spec_log(),
        request_id,
        kind,
    )
}

/// Since the sink was `start`, it has been sent events whose views are
/// `added`.
pub open spec fn events_since<K: TokenSink>(start: K, now: K, added: Seq<EventView>) -> bool {
    &&& now.keeps_events() == start.keeps_events()
    &&& start.keeps_events() ==> appended_events(start.spec_sent(), now.spec_sent(), added)
}

/// Since the trace sink was `start`, it has been given records of
/// `request_id` whose kinds are `added`.
pub open spec fn records_since<R: TraceSink>(
    start: R,
    now: R,
    request_id: RequestId,
    added: Seq<TraceKindView>,
) -> bool {
    &&& now.keeps_records() == start.keeps_records()
    &&& start.keeps_records() ==> appended_records(
        start.spec_log(),
        now.spec_log(),
        request_id,
        added,
    )
}

proof fn lemma_appended_events_push(
    before: Seq<StreamEvent>,
    after: Seq<StreamEvent>,
    added: Seq<EventView>,
    e: StreamEvent,
)
    requires
        appended_events(before, after, added),
    ensures
        appended_events(before, after.push(e), added.push(e@)),
{
    let n = before.len() as int;
    assert(after.push(e).take(n) =~= after.take(n));
    assert(after.push(e).skip(n) =~= after.skip(n).push(e));
    assert(events_view(after.skip(n).push(e)) =~= events_view(after.skip(n)).push(e@));
}

proof fn lemma_appended_records_push(
    before: Seq<TraceEvent>,
    after: Seq<TraceEvent>,
    next: Seq<TraceEvent>,
    request_id: RequestId,
    added: Seq<TraceKindView>,
    kind: TraceKind,
)
    requires
        appended_records(before, after, request_id, added),
        one_more_record(after, next, request_id, kind),
    ensures
        appended_records(before, next, request_id, added.push(kind@)),
{
    let n = before.len() as int;
    assert(next =~= after.push(next.last()));
    assert(next.take(n) =~= after.take(n));
    assert(next.skip(n) =~= after.skip(n).push(next.last()));
    assert(kinds_view(after.skip(n).push(next.last())) =~= kinds_view(after.skip(n)).push(kind@));
}

proof fn lemma_events_since_start<K: TokenSink>(start: K)
    ensures
        events_since(start, start, Seq::empty()),
{
    let sent = start.spec_sent();
    assert(sent.take(sent.len() as int) =~= sent);
    assert(events_view(sent.skip(sent.len() as int)) =~= Seq::<EventView>::empty());
}

proof fn lemma_records_since_start<R: TraceSink>(start: R, request_id: RequestId)
    ensures
        records_since(start, start, request_id, Seq::empty()),
{
    let log = start.spec_log();
    assert(log.take(log.len() as int) =~= log);
    assert(kinds_view(log.skip(log.len() as int)) =~= Seq::<TraceKindView>::empty());
}

proof fn lemma_events_since_push<K: TokenSink>(
    start: K,
    now: K,
    next: K,
    added: Seq<EventView>,
    e: StreamEvent,
)
    requires
        events_since(start, now, added),
        sent_after(now, next, e),
    ensures
        events_since(start, next, added.push(e@)),
{
    if start.keeps_events() {
        lemma_appended_events_push(start.spec_sent(), now.spec_sent(), added, e);
    }
}

proof fn lemma_records_since_push<R: TraceSink>(
    start: R,
    now: R,
    next: R,
    request_id: RequestId,
    added: Seq<TraceKindView>,
    kind: TraceKind,
)
    requires
        records_since(start, now, request_id, added),
        recorded_after(now, next, request_id, kind),
    ensures
        records_since(start, next, request_id, added.push(kind@)),
{
    if start.keeps_records() {
        lemma_appended_records_push(
            start.spec_log(),
            now.spec_log(),
            next.spec_log(),
            request_id,
            added,
            kind,
        );
    }
}

/// What the lifecycle of a request has recorded, apart from clock readings.
pub struct LifecycleView {
    pub request_id: RequestId,
    pub terminal: bool,
    pub admitted: bool,
    pub execution_started: bool,
    pub token_ready: bool,
    pub text_emitted: bool,
}

/// The clock readings a lifecycle has taken, in nanoseconds since its start.
pub struct LifecycleReadings {
    pub admitted_at: Option<u128>,
    pub execution_started_at: Option<u128>,
    pub first_token_ready_at: Option<u128>,
    pub first_text_emitted_at: Option<u128>,
}

/// The lifecycle of one request: it owns the only terminal transition and
/// blocks every emission after it.
#[derive(Debug)]
pub struct Lifecycle {
    request_id: RequestId,
    started: Instant,
    terminal: bool,
    admitted_at: Option<u128>,
    execution_started_at: Option<u128>,
    first_token_ready_at: Option<u128>,
    first_text_emitted_at: Option<u128>,
}

impl View for Lifecycle {
    type V = LifecycleView;

    closed spec fn view(&self) -> LifecycleView {
        LifecycleView {
            request_id: self.request_id,
            terminal: self.terminal,
            admitted: self.admitted_at is Some,
            execution_started: self.execution_started_at is Some,
            token_ready: self.first_token_ready_at is Some,
            text_emitted: self.first_text_emitted_at is Some,
        }
    }
}

impl Lifecycle {
    /// The clock readings taken so far; each is `Some` exactly where the
    /// view's matching flag is set.
    pub closed spec fn readings(&self) -> LifecycleReadings {
        LifecycleReadings {
            admitted_at: self.admitted_at,
            execution_started_at: self.execution_started_at,
            first_token_ready_at: self.first_token_ready_at,
            first_text_emitted_at: self.first_text_emitted_at,
        }
    }

    /// A reading is present exactly where the view says the moment has come.
    pub proof fn lemma_readings_match_view(&self)
        ensures
            self.readings().admitted_at is Some <==> self@.admitted,
            self.readings().execution_started_at is Some <==> self@.execution_started,
            self.readings().first_token_ready_at is Some <==> self@.token_ready,
            self.readings().first_text_emitted_at is Some <==> self@.text_emitted,
    {
    }

    pub fn new(request_id: RequestId, started: Instant) -> (lifecycle: Self)
        ensures
            lifecycle.readings() == (LifecycleReadings {
                admitted_at: None,
                execution_started_at: None,
                first_token_ready_at: None,
                first_text_emitted_at: None,
            }),
            lifecycle@ == (LifecycleView {
                request_id,
                terminal: false,
                admitted: false,
                execution_started: false,
                token_ready: false,
                text_emitted: false,
            }),
    {
        Lifecycle {
            request_id,
            started,
            terminal: false,
            admitted_at: None,
            execution_started_at: None,
            first_token_ready_at: None,
            first_text_emitted_at: None,
        }
    }

    /// Records a trace event unless the request is already terminal.
    pub fn trace<R: TraceSink>(&self, trace: &mut R, kind: TraceKind)
        ensures
            self@.terminal ==> *final(trace) == *old(trace),
            !self@.terminal ==> recorded_after(*old(trace), *final(trace), self@.request_id, kind),
    {
        if self.terminal {
            return ;
        }
        let at = nanos_since(&self.started);
        trace.record(TraceEvent { at, request_id: self.request_id, kind });
        proof {
            if old(trace).keeps_records() {
                assert(trace.spec_log().drop_last() =~= old(trace).spec_log());
            }
        }
    }

    /// Sends a token event and traces it, unless the request is terminal.
    pub fn emit_token<K: TokenSink, R: TraceSink>(
        &self,
        sink: &mut K,
        trace: &mut R,
        index: usize,
        token: Token,
    )
        ensures
            self@.terminal ==> *final(sink) == *old(sink) && *final(trace) == *old(trace),
            !self@.terminal ==> sent_after(
                *old(sink),
                *final(sink),
                StreamEvent::Token { request_id: self@.request_id, index, token },
            ) && recorded_after(
                *old(trace),
                *final(trace),
                self@.request_id,
                TraceKind::TokenEmitted { index, token_id: token.id },
            ),
    {
        if self.terminal {
            return ;
        }
        sink.send(StreamEvent::Token { request_id: self.request_id, index, token });
        self.trace(trace, TraceKind::TokenEmitted { index, token_id: token.id });
    }

    /// Sends a non-empty text event and traces it, unless the request is
    /// terminal; the first such event sets the first-text reading.
    pub fn emit_text<K: TokenSink, R: TraceSink>(
        &mut self,
        sink: &mut K,
        trace: &mut R,
        through_token_index: usize,
        text: String,
    )
        ensures
            old(self)@.terminal || text@.len() == 0 ==> *final(sink) == *old(sink) && *final(trace)
                == *old(trace) && final(self)@ == old(self)@ && final(self).readings()
                == old(self).readings(),
            !(old(self)@.terminal || text@.len() == 0) ==> {
                &&& sent_after(
                    *old(sink),
                    *final(sink),
                    StreamEvent::Text { request_id: old(self)@.request_id, through_token_index, text },
                )
                &&& recorded_after(
                    *old(trace),
                    *final(trace),
                    old(self)@.request_id,
                    TraceKind::TextEmitted {
                        through_token_index,
                        bytes: encode_utf8(text@).len() as usize,
                    },
                )
                &&& final(self)@ == (LifecycleView { text_emitted: true, ..old(self)@ })
                &&& final(self).readings().first_text_emitted_at is Some
                &&& old(self).readings().first_text_emitted_at is Some
                    ==> final(self).readings().first_text_emitted_at
                    == old(self).readings().first_text_emitted_at
                &&& final(self).readings() == (LifecycleReadings {
                    first_text_emitted_at: final(self).readings().first_text_emitted_at,
                    ..old(self).readings()
                })
            },
    {
        if self.terminal || text.as_str().is_empty() {
            return ;
        }
        let bytes = text.as_str().len();
        sink.send(StreamEvent::Text { request_id: self.request_id, through_token_index, text });
        if self.first_text_emitted_at.is_none() {
            self.first_text_emitted_at = Some(nanos_since(&self.started));
        }
        self.trace(trace, TraceKind::TextEmitted { through_token_index, bytes });
    }

    /// The terminal transition: sends the terminal event and records it. A
    /// second transition is refused and changes nothing.
    pub fn finish<K: TokenSink, R: TraceSink>(
        &mut self,
        sink: &mut K,
        trace: &mut R,
        outcome: TerminalOutcome,
    ) -> (r: Result<u128, GenerationError>)
        ensures
            old(self)@.terminal ==> {
                &&& r matches Err(e) && e == GenerationError::AlreadyTerminal
                &&& final(self)@ == old(self)@
                &&& final(self).readings() == old(self).readings()
                &&& *final(sink) == *old(sink)
                &&& *final(trace) == *old(trace)
            },
            !old(self)@.terminal ==> {
                &&& r is Ok
                &&& final(self)@ == (LifecycleView { terminal: true, ..old(self)@ })
                &&& final(self).readings() == old(self).readings()
                &&& sent_after(
                    *old(sink),
                    *final(sink),
                    StreamEvent::Terminal { request_id: old(self)@.request_id, outcome },
                )
                &&& recorded_after(
                    *old(trace),
                    *final(trace),
                    old(self)@.request_id,
                    TraceKind::Terminal(outcome),
                )
            },
    {
        if self.terminal {
            return Err(GenerationError::AlreadyTerminal);
        }
        sink.send(StreamEvent::Terminal { request_id: self.request_id, outcome: outcome.clone() });
        let at = nanos_since(&self.started);
        trace.record(TraceEvent { at, request_id: self.request_id, kind: TraceKind::Terminal(outcome) });
        proof {
            if old(trace).keeps_records() {
                assert(trace.spec_log().drop_last() =~= old(trace).spec_log());
            }
        }
        self.terminal = true;
        Ok(nanos_since(&self.started))
    }

    /// Ends the request with `outcome` and collects what it produced.
    pub fn result<K: TokenSink, R: TraceSink>(
        self,
        sink: &mut K,
        trace: &mut R,
        state: GenerationState,
        outcome: TerminalOutcome,
    ) -> (r: GenerationResult)
        requires
            !self@.terminal,
        ensures
            r.request_id == self@.request_id,
            r.tokens@ == state@,
            r.outcome == outcome,
            r.timings.admitted_at is Some <==> self@.admitted,
            r.timings.execution_started_at is Some <==> self@.execution_started,
            r.timings.first_token_ready_at is Some <==> self@.token_ready,
            r.timings.first_text_emitted_at is Some <==> self@.text_emitted,
            r.timings.admitted_at == self.readings().admitted_at,
            r.timings.execution_started_at == self.readings().execution_started_at,
            r.timings.first_token_ready_at == self.readings().first_token_ready_at,
            r.timings.first_text_emitted_at == self.readings().first_text_emitted_at,
            sent_after(
                *old(sink),
                *final(sink),
                StreamEvent::Terminal { request_id: self@.request_id, outcome },
            ),
            recorded_after(*old(trace), *final(trace), self@.request_id, TraceKind::Terminal(outcome)),
    {
        let mut lifecycle = self;
        let terminal_at = lifecycle.finish(sink, trace, outcome.clone()).unwrap();
        GenerationResult {
            request_id: lifecycle.request_id,
            tokens: state.generated,
            outcome,
            timings: LifecycleTimings {
                admitted_at: lifecycle.admitted_at,
                execution_started_at: lifecycle.execution_started_at,
                first_token_ready_at: lifecycle.first_token_ready_at,
                first_text_emitted_at: lifecycle.first_text_emitted_at,
                terminal_at,
            },
        }
    }
}

/// What a run has produced after some steps, apart from clock readings.
pub struct RunState {
    /// The tokens accepted so far.
    pub generated: Seq<Token>,
    /// Bytes of an unfinished scalar held by the decoder.
    pub pending: Seq<u8>,
    /// The stream events sent so far, seen through their views.
    pub events: Seq<EventView>,
    /// The trace kinds recorded so far, seen through their views.
    pub trace: Seq<TraceKindView>,
    /// Whether a first token has been made ready.
    pub token_ready: bool,
    /// Whether a first text event has been sent.
    pub text_emitted: bool,
}

impl RunState {
    pub open spec fn traced(self, kind: TraceKindView) -> RunState {
        RunState { trace: self.trace.push(kind), ..self }
    }

    pub open spec fn sent(self, event: EventView) -> RunState {
        RunState { events: self.events.push(event), ..self }
    }
}

/// The state of a valid request right after admission.
pub open spec fn admitted_state(request: Request) -> RunState {
    RunState {
        generated: Seq::empty(),
        pending: Seq::empty(),
        events: Seq::empty(),
        trace: seq![
            TraceKindView::InputEncoded {
                bytes: request.input_bytes,
                token_count: request.input_tokens@.len() as usize,
            },
            TraceKindView::Admitted,
            TraceKindView::ExecutionStarted,
        ],
        token_ready: false,
        text_emitted: false,
    }
}

/// One turn of the generation loop either goes on or stops with an outcome.
pub enum StepOutcome {
    Continue(RunState),
    Stop(RunState, OutcomeView),
}

/// How a stream ends once no more tokens come: unfinished scalar bytes turn
/// a completion into a UTF-8 failure.
pub open spec fn completion(reason: StopReason, pending: Seq<u8>) -> OutcomeView {
    if pending.len() == 0 {
        OutcomeView::Completed(reason)
    } else {
        OutcomeView::Failed(ErrorView::Utf8Stream(incomplete_sequence_message(pending)))
    }
}

/// The rest of a turn once the bytes of the token at `index` are known:
/// they go through the UTF-8 decoder, and complete text is sent.
pub open spec fn absorb_bytes(
    request_id: RequestId,
    s: RunState,
    index: usize,
    bytes: Seq<u8>,
) -> StepOutcome {
    let buf = s.pending + bytes;
    if utf8_malformed(buf) {
        StepOutcome::Stop(
            RunState { pending: buf, ..s },
            OutcomeView::Failed(
                ErrorView::Utf8Stream(
                    invalid_sequence_message(
                        utf8_valid_up_to(buf) as usize,
                        utf8_error_len(buf),
                        buf,
                    ),
                ),
            ),
        )
    } else {
        let pending = pushed_pending(buf);
        let s1 = RunState { pending, ..s }.traced(
            TraceKindView::Utf8Buffered { pending_bytes: pending.len() as usize },
        );
        match pushed_text(buf) {
            Some(text) => if text.len() > 0 {
                StepOutcome::Continue(
                    RunState {
                        text_emitted: true,
                        ..s1.sent(
                            EventView::Text { request_id, through_token_index: index, text },
                        )
                    }.traced(
                        TraceKindView::TextEmitted {
                            through_token_index: index,
                            bytes: encode_utf8(text).len() as usize,
                        },
                    ),
                )
            } else {
                StepOutcome::Continue(s1)
            },
            None => StepOutcome::Continue(s1),
        }
    }
}

/// The rest of a turn once `token` has been selected: an end token stops
/// the run, any other is accepted, sent, and decoded.
pub open spec fn accept_token<T: Tokenizer>(
    tokenizer: T,
    request_id: RequestId,
    s: RunState,
    token: Token,
) -> StepOutcome {
    if token.kind == TokenKind::EndOfSequence {
        StepOutcome::Stop(s, completion(StopReason::EndOfSequence, s.pending))
    } else {
        let index = s.generated.len() as usize;
        let s1 = RunState {
            generated: s.generated.push(token),
            token_ready: true,
            ..s.sent(EventView::Token { request_id, index, token })
        }.traced(TraceKindView::TokenEmitted { index, token_id: token.id });
        match tokenizer.spec_decode_token(token.id) {
            Err(e) => StepOutcome::Stop(
                s1,
                OutcomeView::Failed(ErrorView::Tokenizer(tokenizer_error_message(e))),
            ),
            Ok(bytes) => absorb_bytes(
                request_id,
                s1.traced(
                    TraceKindView::TokenDecoded {
                        index,
                        token_id: token.id,
                        bytes: bytes.len() as usize,
                    },
                ),
                index,
                bytes,
            ),
        }
    }
}

/// One turn of the generation loop of `request` from state `s`.
pub open spec fn run_step<M: Model, S: Selector, T: Tokenizer, C: Cancellation>(
    model: M,
    selector: S,
    tokenizer: T,
    cancellation: C,
    request: Request,
    s: RunState,
) -> StepOutcome {
    if cancellation.spec_is_cancelled(s.generated) {
        StepOutcome::Stop(s, OutcomeView::Cancelled)
    } else if s.generated.len() >= request.max_new_tokens {
        StepOutcome::Stop(s, completion(StopReason::MaxTokens, s.pending))
    } else {
        let step = s.generated.len() as usize;
        let s1 = s.traced(TraceKindView::ModelInvoked { step });
        match model.spec_candidates(request, s.generated) {
            Err(message) => StepOutcome::Stop(s1, OutcomeView::Failed(ErrorView::Model(message))),
            Ok(candidates) => match selector.spec_select(candidates) {
                Err(error) => StepOutcome::Stop(s1, OutcomeView::Failed(error)),
                Ok(token) => accept_token(
                    tokenizer,
                    request.id,
                    s1.traced(TraceKindView::TokenSelected { step, token_id: token.id }),
                    token,
                ),
            },
        }
    }
}

/// A turn that goes on has accepted exactly one token below the limit.
pub proof fn lemma_step_advances<M: Model, S: Selector, T: Tokenizer, C: Cancellation>(
    model: M,
    selector: S,
    tokenizer: T,
    cancellation: C,
    request: Request,
    s: RunState,
)
    ensures
        run_step(model, selector, tokenizer, cancellation, request, s) matches StepOutcome::Continue(
            t,
        ) ==> s.generated.len() < request.max_new_tokens && t.generated.len()
            == s.generated.len() + 1,
{
}

/// The generation loop of `request` from state `s`: the final state and the
/// outcome.
pub open spec fn run_from<M: Model, S: Selector, T: Tokenizer, C: Cancellation>(
    model: M,
    selector: S,
    tokenizer: T,
    cancellation: C,
    request: Request,
    s: RunState,
) -> (RunState, OutcomeView)
    decreases request.max_new_tokens - s.generated.len(),
{
    match run_step(model, selector, tokenizer, cancellation, request, s) {
        StepOutcome::Stop(t, outcome) => (t, outcome),
        StepOutcome::Continue(t) => {
            proof {
                lemma_step_advances(model, selector, tokenizer, cancellation, request, s);
            }
            run_from(model, selector, tokenizer, cancellation, request, t)
        },
    }
}

/// Everything a request produces before its terminal event, and its outcome.
pub open spec fn generation<M: Model, S: Selector, T: Tokenizer, C: Cancellation>(
    model: M,
    selector: S,
    tokenizer: T,
    cancellation: C,
    request: Request,
) -> (RunState, OutcomeView) {
    if !request_valid(request) {
        (
            RunState {
                generated: Seq::empty(),
                pending: Seq::empty(),
                events: Seq::empty(),
                trace: Seq::empty(),
                token_ready: false,
                text_emitted: false,
            },
            OutcomeView::Failed(ErrorView::InvalidRequest(invalid_request_message(request))),
        )
    } else {
        run_from(model, selector, tokenizer, cancellation, request, admitted_state(request))
    }
}


/// The state a turn ends in, whether or not the run goes on.
pub open spec fn step_state(step: StepOutcome) -> RunState {
    match step {
        StepOutcome::Continue(t) => t,
        StepOutcome::Stop(t, _) => t,
    }
}

/// The executable state of a running request agrees with run state `s`,
/// where `sent0` and `log0` are what the sinks held before the request.
spec fn agrees<K: TokenSink, R: TraceSink>(
    s: RunState,
    state: GenerationState,
    decoder: Utf8StreamDecoder,
    lifecycle: LifecycleView,
    sink: K,
    trace: R,
    sink0: K,
    trace0: R,
) -> bool {
    &&& s.generated == state@
    &&& s.pending == decoder@
    &&& !lifecycle.terminal
    &&& lifecycle.token_ready == s.token_ready
    &&& lifecycle.text_emitted == s.text_emitted
    &&& events_since(sink0, sink, s.events)
    &&& records_since(trace0, trace, lifecycle.request_id, s.trace)
}

fn completed_or_utf8_error(reason: StopReason, decoder: &Utf8StreamDecoder) -> (r: TerminalOutcome)
    ensures
        r@ == completion(reason, decoder@),
{
    match decoder.finish() {
        Ok(()) => TerminalOutcome::Completed(reason),
        Err(error) => TerminalOutcome::Failed(GenerationError::Utf8Stream(error.to_string())),
    }
}

/// Runs requests against a candidate source, a selector, and a tokenizer.
#[derive(Debug, Clone)]
pub struct Runtime<M, S, T> {
    model: M,
    selector: S,
    tokenizer: T,
}

impl<M: Model, S: Selector, T: Tokenizer> Runtime<M, S, T> {
    pub closed spec fn model_of(&self) -> M {
        self.model
    }

    pub closed spec fn selector_of(&self) -> S {
        self.selector
    }

    pub closed spec fn tokenizer_of(&self) -> T {
        self.tokenizer
    }

    pub fn new(model: M, selector: S, tokenizer: T) -> (runtime: Self)
        ensures
            runtime.model_of() == model,
            runtime.selector_of() == selector,
            runtime.tokenizer_of() == tokenizer,
    {
        Runtime { model, selector, tokenizer }
    }

    /// Runs `request` to its single terminal outcome, streaming token and
    /// text events to `sink` and lifecycle records to `trace`.
    pub fn generate<C: Cancellation, K: TokenSink, R: TraceSink>(
        &self,
        request: Request,
        cancellation: &C,
        sink: &mut K,
        trace: &mut R,
    ) -> (r: GenerationResult)
        ensures
            ({
                let (run, outcome) = generation(
                    self.model_of(),
                    self.selector_of(),
                    self.tokenizer_of(),
                    *cancellation,
                    request,
                );
                &&& r.request_id == request.id
                &&& r.tokens@ == run.generated
                &&& r.outcome@ == outcome
                &&& events_since(
                    *old(sink),
                    *final(sink),
                    run.events.push(EventView::Terminal { request_id: request.id, outcome }),
                )
                &&& records_since(
                    *old(trace),
                    *final(trace),
                    request.id,
                    run.trace.push(TraceKindView::Terminal(outcome)),
                )
                &&& r.timings.admitted_at is Some <==> request_valid(request)
                &&& r.timings.execution_started_at is Some <==> request_valid(request)
                &&& r.timings.first_token_ready_at is Some <==> run.token_ready
                &&& r.timings.first_text_emitted_at is Some <==> run.text_emitted
            }),
    {
        let started = clock_now();
        let mut lifecycle = Lifecycle::new(request.id, started);
        let mut state = GenerationState::new();
        let mut decoder = Utf8StreamDecoder::new();
        let ghost sink0 = *sink;
        let ghost trace0 = *trace;
        let ghost whole = generation(self.model, self.selector, self.tokenizer, *cancellation, request);
        proof {
            lemma_events_since_start(sink0);
            lemma_records_since_start(trace0, request.id);
        }
        match request.validate() {
            Err(error) => {
                let outcome = TerminalOutcome::Failed(error);
                let ghost sink_before = *sink;
                let ghost trace_before = *trace;
                let r = lifecycle.result(sink, trace, state, outcome);
                proof {
                    lemma_events_since_push(sink0, sink_before, *sink, whole.0.events,
                        StreamEvent::Terminal { request_id: request.id, outcome: r.outcome });
                    lemma_records_since_push(trace0, trace_before, *trace, request.id,
                        whole.0.trace, TraceKind::Terminal(r.outcome));
                }
                return r;
            },
            Ok(()) => {},
        }
        let kind = TraceKind::InputEncoded {
            bytes: request.input_bytes,
            token_count: request.input_tokens.len(),
        };
        let ghost trace_before = *trace;
        lifecycle.trace(trace, kind);
        proof {
            lemma_records_since_push(trace0, trace_before, *trace, request.id, Seq::empty(), kind);
            assert(Seq::<TraceKindView>::empty().push(kind@) =~= seq![kind@]);
        }
        let ghost trace_before = *trace;
        lifecycle.trace(trace, TraceKind::Admitted);
        proof {
            lemma_records_since_push(trace0, trace_before, *trace, request.id,
                seq![kind@], TraceKind::Admitted);
            assert(seq![kind@].push(TraceKindView::Admitted) =~= seq![kind@, TraceKindView::Admitted]);
        }
        lifecycle.admitted_at = Some(nanos_since(&lifecycle.started));
        let ghost trace_before = *trace;
        lifecycle.trace(trace, TraceKind::ExecutionStarted);
        proof {
            lemma_records_since_push(trace0, trace_before, *trace, request.id,
                seq![kind@, TraceKindView::Admitted], TraceKind::ExecutionStarted);
        }
        lifecycle.execution_started_at = Some(nanos_since(&lifecycle.started));
        let ghost init = admitted_state(request);
        let ghost mut s = init;
        proof {
            assert(seq![kind@, TraceKindView::Admitted].push(TraceKindView::ExecutionStarted)
                =~= init.trace);
        }
        let mut outcome = TerminalOutcome::Cancelled;
        loop
            invariant_except_break
                run_from(self.model, self.selector, self.tokenizer, *cancellation, request, s)
                    == run_from(self.model, self.selector, self.tokenizer, *cancellation, request, init),
            invariant
                agrees(s, state, decoder, lifecycle@, *sink, *trace, sink0, trace0),
                lifecycle@.request_id == request.id,
                lifecycle@.admitted,
                lifecycle@.execution_started,
                request_valid(request),
                whole == run_from(self.model, self.selector, self.tokenizer, *cancellation, request, init),
            ensures
                whole == (s, outcome@),
            decreases request.max_new_tokens - state@.len(),
        {
            let ghost before = s;
            let turn = self.advance(
                &request,
                cancellation,
                &mut state,
                &mut decoder,
                &mut lifecycle,
                sink,
                trace,
                Ghost(s),
                Ghost(sink0),
                Ghost(trace0),
            );
            proof {
                s = step_state(run_step(self.model, self.selector, self.tokenizer, *cancellation, request, before));
                lemma_step_advances(self.model, self.selector, self.tokenizer, *cancellation, request, before);
            }
            match turn {
                Some(end) => {
                    outcome = end;
                    break ;
                },
                None => {},
            }
        }
        let ghost sink_before = *sink;
        let ghost trace_before = *trace;
        let r = lifecycle.result(sink, trace, state, outcome);
        proof {
            lemma_events_since_push(sink0, sink_before, *sink, s.events,
                StreamEvent::Terminal { request_id: request.id, outcome: r.outcome });
            lemma_records_since_push(trace0, trace_before, *trace, request.id, s.trace,
                TraceKind::Terminal(r.outcome));
        }
        r
    }

    /// One turn of the generation loop.
    fn advance<C: Cancellation, K: TokenSink, R: TraceSink>(
        &self,
        request: &Request,
        cancellation: &C,
        state: &mut GenerationState,
        decoder: &mut Utf8StreamDecoder,
        lifecycle: &mut Lifecycle,
        sink: &mut K,
        trace: &mut R,
        Ghost(s): Ghost<RunState>,
        Ghost(sink0): Ghost<K>,
        Ghost(trace0): Ghost<R>,
    ) -> (r: Option<TerminalOutcome>)
        requires
            agrees(s, *old(state), *old(decoder), old(lifecycle)@, *old(sink), *old(trace), sink0, trace0),
            old(lifecycle)@.request_id == request.id,
        ensures
            final(lifecycle)@.request_id == request.id,
            final(lifecycle)@.admitted == old(lifecycle)@.admitted,
            final(lifecycle)@.execution_started == old(lifecycle)@.execution_started,
            agrees(
                step_state(run_step(self.model, self.selector, self.tokenizer, *cancellation, *request, s)),
                *final(state),
                *final(decoder),
                final(lifecycle)@,
                *final(sink),
                *final(trace),
                sink0,
                trace0,
            ),
            match run_step(self.model, self.selector, self.tokenizer, *cancellation, *request, s) {
                StepOutcome::Stop(_, outcome) => r matches Some(o) && o@ == outcome,
                StepOutcome::Continue(_) => r is None,
            },
    {
        if cancellation.is_cancelled(state) {
            return Some(TerminalOutcome::Cancelled);
        }
        if state.step() >= request.max_new_tokens {
            return Some(completed_or_utf8_error(StopReason::MaxTokens, decoder));
        }
        let step = state.step();
        let ghost trace_before = *trace;
        lifecycle.trace(trace, TraceKind::ModelInvoked { step });
        proof {
            lemma_records_since_push(trace0, trace_before, *trace, request.id, s.trace,
                TraceKind::ModelInvoked { step });
        }
        let candidates = match self.model.candidates(request, state) {
            Ok(candidates) => candidates,
            Err(error) => {
                return Some(TerminalOutcome::Failed(GenerationError::Model(error.message)));
            },
        };
        let selected = match self.selector.select(candidates.as_slice()) {
            Ok(token) => token,
            Err(error) => {
                return Some(TerminalOutcome::Failed(error));
            },
        };
        let ghost s1 = s.traced(TraceKindView::ModelInvoked { step });
        let ghost trace_before = *trace;
        lifecycle.trace(trace, TraceKind::TokenSelected { step, token_id: selected.id });
        proof {
            lemma_records_since_push(trace0, trace_before, *trace, request.id, s1.trace,
                TraceKind::TokenSelected { step, token_id: selected.id });
        }
        if selected.kind == TokenKind::EndOfSequence {
            return Some(completed_or_utf8_error(StopReason::EndOfSequence, decoder));
        }
        if lifecycle.first_token_ready_at.is_none() {
            lifecycle.first_token_ready_at = Some(nanos_since(&lifecycle.started));
        }
        let index = state.generated.len();
        state.generated.push(selected);
        let ghost sink_before = *sink;
        let ghost trace_before = *trace;
        let ghost s2 = s1.traced(TraceKindView::TokenSelected { step, token_id: selected.id });
        lifecycle.emit_token(sink, trace, index, selected);
        proof {
            lemma_events_since_push(sink0, sink_before, *sink, s2.events,
                StreamEvent::Token { request_id: request.id, index, token: selected });
            lemma_records_since_push(trace0, trace_before, *trace, request.id, s2.trace,
                TraceKind::TokenEmitted { index, token_id: selected.id });
        }
        let bytes = match self.tokenizer.decode_token(selected.id) {
            Ok(bytes) => bytes,
            Err(error) => {
                return Some(TerminalOutcome::Failed(GenerationError::Tokenizer(error.to_string())));
            },
        };
        let ghost trace_before = *trace;
        let ghost s3 = RunState {
            generated: s2.generated.push(selected),
            token_ready: true,
            ..s2.sent(EventView::Token { request_id: request.id, index, token: selected })
        }.traced(TraceKindView::TokenEmitted { index, token_id: selected.id });
        lifecycle.trace(trace, TraceKind::TokenDecoded { index, token_id: selected.id, bytes: bytes.len() });
        proof {
            lemma_records_since_push(trace0, trace_before, *trace, request.id, s3.trace,
                TraceKind::TokenDecoded { index, token_id: selected.id, bytes: bytes.len() });
        }
        let text = match decoder.push(bytes.as_slice()) {
            Ok(text) => text,
            Err(error) => {
                return Some(TerminalOutcome::Failed(GenerationError::Utf8Stream(error.to_string())));
            },
        };
        let ghost trace_before = *trace;
        let ghost s4 = s3.traced(TraceKindView::TokenDecoded { index, token_id: selected.id, bytes: bytes.len() });
        let pending_bytes = decoder.pending_bytes().len();
        lifecycle.trace(trace, TraceKind::Utf8Buffered { pending_bytes });
        proof {
            lemma_records_since_push(trace0, trace_before, *trace, request.id,
                RunState { pending: decoder@, ..s4 }.trace,
                TraceKind::Utf8Buffered { pending_bytes });
        }
        match text {
            Some(text) => {
                let ghost sink_before = *sink;
                let ghost trace_before = *trace;
                let ghost s5 = RunState { pending: decoder@, ..s4 }.traced(
                    TraceKindView::Utf8Buffered { pending_bytes });
                let ghost t = text@;
                let ghost n = encode_utf8(text@).len() as usize;
                lifecycle.emit_text(sink, trace, index, text);
                proof {
                    if t.len() > 0 {
                        lemma_events_since_push(sink0, sink_before, *sink, s5.events,
                            StreamEvent::Text { request_id: request.id, through_token_index: index, text });
                        lemma_records_since_push(trace0, trace_before, *trace, request.id,
                            s5.trace,
                            TraceKind::TextEmitted { through_token_index: index, bytes: n });
                    }
                }
            },
            None => {},
        }
        None
    }
}

} // verus!
