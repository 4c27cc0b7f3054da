use vstd::seq::Seq;

use engine0::tokenizer::{
    SpecialToken, TinyBpeTokenizer, TokenId, Tokenizer, TokenizerError, TokenizerIdentity,
    TOKEN_BLUE, TOKEN_EOS, TOKEN_GREEN, TOKEN_LOWER,
};
use engine0::{
    CancelAtStep, Candidate, DemoModel, GenerationError, GenerationState, GreedySelector,
    LifecycleTimings, Model, ModelError, NeverCancel, NoopTrace, RecordingSink, RecordingTrace,
    Request, Runtime, Selector, StopReason, StreamEvent, TerminalOutcome, Token, TraceKind,
};

fn teaching_runtime(model: DemoModel) -> Runtime<DemoModel, GreedySelector, TinyBpeTokenizer> {
    Runtime::new(model, GreedySelector, TinyBpeTokenizer::teaching())
}

fn lower_request(id: u64, max: usize) -> Request {
    Request::from_text(id, b"lower", max, &TinyBpeTokenizer::teaching()).unwrap()
}

#[test]
fn request_from_text_records_bytes_and_token_ids() {
    let request = lower_request(1, 4);
    assert_eq!(request.id, 1);
    assert_eq!(request.input_tokens, vec![TokenId(TOKEN_LOWER)]);
    assert_eq!(request.input_bytes, 5);
    assert_eq!(request.max_new_tokens, 4);
}

#[test]
fn demo_model_streams_blue_then_stops_on_the_end_token() {
    let runtime = teaching_runtime(DemoModel::default());
    let mut sink = RecordingSink::default();
    let mut trace = RecordingTrace::default();
    let result = runtime.generate(lower_request(2, 8), &NeverCancel, &mut sink, &mut trace);
    assert_eq!(result.request_id, 2);
    assert_eq!(result.tokens, vec![Token::text(TokenId(TOKEN_BLUE))]);
    assert_eq!(
        result.outcome,
        TerminalOutcome::Completed(StopReason::EndOfSequence)
    );
    assert_eq!(
        sink.events,
        vec![
            StreamEvent::Token {
                request_id: 2,
                index: 0,
                token: Token::text(TokenId(TOKEN_BLUE)),
            },
            StreamEvent::Text {
                request_id: 2,
                through_token_index: 0,
                text: "blue".to_string(),
            },
            StreamEvent::Terminal {
                request_id: 2,
                outcome: TerminalOutcome::Completed(StopReason::EndOfSequence),
            },
        ]
    );
    assert!(matches!(
        trace.events[4].kind,
        TraceKind::TokenSelected { step: 0, token_id } if token_id == TokenId(TOKEN_BLUE)
    ));
    assert!(matches!(
        trace.events[trace.events.len() - 2].kind,
        TraceKind::TokenSelected { step: 1, token_id } if token_id == TokenId(TOKEN_EOS)
    ));
}

#[test]
fn injected_failure_is_the_single_terminal_outcome() {
    let runtime = teaching_runtime(DemoModel::failing_at(1));
    let mut sink = RecordingSink::default();
    let mut trace = RecordingTrace::default();
    let result = runtime.generate(lower_request(3, 8), &NeverCancel, &mut sink, &mut trace);
    assert_eq!(result.tokens, vec![Token::text(TokenId(TOKEN_BLUE))]);
    assert_eq!(
        result.outcome,
        TerminalOutcome::Failed(GenerationError::Model(
            "injected model failure at step 1".to_string()
        ))
    );
    assert_eq!(
        result.outcome.to_string(),
        "failed:model error: injected model failure at step 1"
    );
    assert_eq!(sink.events.len(), 3);
    assert!(matches!(
        sink.events.last(),
        Some(StreamEvent::Terminal { .. })
    ));
}

#[test]
fn cancel_before_the_first_token_sends_only_the_terminal() {
    let runtime = teaching_runtime(DemoModel::default());
    let mut sink = RecordingSink::default();
    let mut trace = RecordingTrace::default();
    let result = runtime.generate(lower_request(4, 8), &CancelAtStep(0), &mut sink, &mut trace);
    assert!(result.tokens.is_empty());
    assert_eq!(result.outcome, TerminalOutcome::Cancelled);
    assert_eq!(
        sink.events,
        vec![StreamEvent::Terminal {
            request_id: 4,
            outcome: TerminalOutcome::Cancelled
        }]
    );
    assert!(result.timings.admitted_at.is_some());
    assert!(result.timings.first_token_ready_at.is_none());
    assert!(result.timings.first_text_emitted_at.is_none());
}

#[test]
fn zero_token_budget_is_an_invalid_request() {
    let runtime = teaching_runtime(DemoModel::default());
    let mut sink = RecordingSink::default();
    let mut trace = RecordingTrace::default();
    let result = runtime.generate(lower_request(5, 0), &NeverCancel, &mut sink, &mut trace);
    assert_eq!(
        result.outcome,
        TerminalOutcome::Failed(GenerationError::InvalidRequest(
            "max_new_tokens must be greater than zero".to_string()
        ))
    );
    assert!(result.timings.admitted_at.is_none());
    assert!(result.timings.execution_started_at.is_none());
    assert_eq!(sink.events.len(), 1);
    assert_eq!(trace.events.len(), 1);
}

#[test]
fn empty_input_message_names_the_missing_token() {
    let runtime = teaching_runtime(DemoModel::default());
    let mut sink = RecordingSink::default();
    let mut trace = RecordingTrace::default();
    let request = Request::from_token_ids(6, Vec::new(), 0, 4);
    let result = runtime.generate(request, &NeverCancel, &mut sink, &mut trace);
    assert_eq!(
        result.outcome.to_string(),
        "failed:invalid request: input must encode to at least one token"
    );
}

#[test]
fn noop_trace_sink_accepts_every_record() {
    let runtime = teaching_runtime(DemoModel::default());
    let mut sink = RecordingSink::default();
    let mut trace = NoopTrace;
    let result = runtime.generate(lower_request(7, 8), &NeverCancel, &mut sink, &mut trace);
    assert_eq!(
        result.outcome,
        TerminalOutcome::Completed(StopReason::EndOfSequence)
    );
    assert_eq!(sink.events.len(), 3);
}

#[test]
fn greedy_selector_keeps_the_first_of_equal_best_scores() {
    let candidates = [
        Candidate::new(Token::text(TokenId(TOKEN_GREEN)), 4),
        Candidate::new(Token::text(TokenId(TOKEN_BLUE)), 9),
        Candidate::new(Token::end(TokenId(TOKEN_EOS)), 9),
    ];
    assert_eq!(
        GreedySelector.select(&candidates),
        Ok(Token::text(TokenId(TOKEN_BLUE)))
    );
    assert_eq!(GreedySelector.select(&[]), Err(GenerationError::NoCandidates));
}

#[test]
fn lifecycle_delays_saturate_and_need_both_readings() {
    let timings = LifecycleTimings {
        admitted_at: Some(50),
        execution_started_at: Some(30),
        first_token_ready_at: Some(80),
        first_text_emitted_at: Some(95),
        terminal_at: 120,
    };
    assert_eq!(timings.queue_delay(), Some(0));
    assert_eq!(timings.time_to_first_token(), Some(30));
    assert_eq!(timings.time_to_first_text(), Some(45));
    assert_eq!(timings.token_ready_to_text_delay(), Some(15));
    let partial = LifecycleTimings {
        first_text_emitted_at: None,
        ..timings
    };
    assert_eq!(partial.time_to_first_text(), None);
    assert_eq!(partial.token_ready_to_text_delay(), None);
}

#[test]
fn outcome_and_error_messages_name_the_cause() {
    assert_eq!(
        TerminalOutcome::Completed(StopReason::EndOfSequence).to_string(),
        "completed:end_of_sequence"
    );
    assert_eq!(
        TerminalOutcome::Completed(StopReason::MaxTokens).to_string(),
        "completed:max_tokens"
    );
    assert_eq!(TerminalOutcome::Cancelled.to_string(), "cancelled");
    assert_eq!(
        TerminalOutcome::Failed(GenerationError::Utf8Stream("x".to_string())).to_string(),
        "failed:UTF-8 stream error: x"
    );
    assert_eq!(
        GenerationError::Tokenizer("bad".to_string()).to_string(),
        "tokenizer error: bad"
    );
    assert_eq!(
        GenerationError::NoCandidates.to_string(),
        "model returned no candidates"
    );
    assert_eq!(
        GenerationError::AlreadyTerminal.to_string(),
        "request already has a terminal outcome"
    );
    assert_eq!(ModelError::new("boom".to_string()).to_string(), "boom");
}

/// Proposes id 1, then id 2, then the end token.
struct SplitScalarModel;

impl Model for SplitScalarModel {
    fn spec_candidates(
        &self,
        _request: Request,
        _generated: Seq<Token>,
    ) -> Result<Seq<Candidate>, Seq<char>> {
        unreachable!("read by the verifier only")
    }

    fn candidates(
        &self,
        _request: &Request,
        state: &GenerationState,
    ) -> Result<Vec<Candidate>, ModelError> {
        let token = match state.step() {
            0 => Token::text(TokenId(1)),
            1 => Token::text(TokenId(2)),
            _ => Token::end(TokenId(0)),
        };
        Ok(vec![Candidate::new(token, 1)])
    }
}

/// Id 1 holds the first two bytes of `世`, id 2 its last byte.
struct SplitScalarTokenizer;

impl Tokenizer for SplitScalarTokenizer {
    fn spec_identity(&self) -> TokenizerIdentity {
        unreachable!("read by the verifier only")
    }

    fn spec_vocabulary_size(&self) -> usize {
        unreachable!("read by the verifier only")
    }

    fn spec_encode(&self, _input: Seq<u8>) -> Result<Seq<TokenId>, TokenizerError> {
        unreachable!("read by the verifier only")
    }

    fn spec_decode_token(&self, _id: TokenId) -> Result<Seq<u8>, TokenizerError> {
        unreachable!("read by the verifier only")
    }

    fn spec_special_id(&self, _token: SpecialToken) -> Option<TokenId> {
        unreachable!("read by the verifier only")
    }

    fn identity(&self) -> TokenizerIdentity {
        TokenizerIdentity {
            name: "split-scalar",
            revision: "v1",
        }
    }

    fn vocabulary_size(&self) -> usize {
        3
    }

    fn encode(&self, input: &[u8]) -> Result<Vec<TokenId>, TokenizerError> {
        Ok(input.iter().map(|byte| TokenId(u32::from(*byte))).collect())
    }

    fn decode_token(&self, id: TokenId) -> Result<Vec<u8>, TokenizerError> {
        match id.0 {
            1 => Ok(vec![0xe4, 0xb8]),
            2 => Ok(vec![0x96]),
            _ => Err(TokenizerError::InvalidTokenId(id)),
        }
    }

    fn special_id(&self, _token: SpecialToken) -> Option<TokenId> {
        None
    }
}

#[test]
fn a_split_scalar_is_streamed_once_complete_and_text_equals_token_bytes() {
    let runtime = Runtime::new(SplitScalarModel, GreedySelector, SplitScalarTokenizer);
    let mut sink = RecordingSink::default();
    let mut trace = RecordingTrace::default();
    let result = runtime.generate(
        Request::from_token_ids(12, vec![TokenId(7)], 1, 8),
        &NeverCancel,
        &mut sink,
        &mut trace,
    );
    assert_eq!(
        result.outcome,
        TerminalOutcome::Completed(StopReason::EndOfSequence)
    );
    let texts: Vec<&String> = sink
        .events
        .iter()
        .filter_map(|event| match event {
            StreamEvent::Text { text, .. } => Some(text),
            _ => None,
        })
        .collect();
    assert_eq!(texts, vec!["世"]);
    assert!(matches!(
        sink.events[2],
        StreamEvent::Text {
            through_token_index: 1,
            ..
        }
    ));
    assert!(trace
        .events
        .iter()
        .any(|event| event.kind == TraceKind::Utf8Buffered { pending_bytes: 2 }));
    let terminals = sink
        .events
        .iter()
        .filter(|event| matches!(event, StreamEvent::Terminal { .. }))
        .count();
    assert_eq!(terminals, 1);
}

#[test]
fn a_token_without_bytes_fails_the_run_after_it_is_streamed() {
    let runtime = Runtime::new(
        DemoModel::default(),
        GreedySelector,
        engine0::tokenizer::ByteTokenizer,
    );
    let mut sink = RecordingSink::default();
    let mut trace = RecordingTrace::default();
    let request = Request::from_token_ids(13, vec![TokenId(104), TokenId(105)], 2, 4);
    let result = runtime.generate(request, &NeverCancel, &mut sink, &mut trace);
    assert_eq!(result.tokens, vec![Token::text(TokenId(TOKEN_BLUE))]);
    assert_eq!(
        result.outcome,
        TerminalOutcome::Failed(GenerationError::Tokenizer(
            "token id 262 is not in this vocabulary".to_string()
        ))
    );
    assert_eq!(
        sink.events,
        vec![
            StreamEvent::Token {
                request_id: 13,
                index: 0,
                token: Token::text(TokenId(TOKEN_BLUE)),
            },
            StreamEvent::Terminal {
                request_id: 13,
                outcome: TerminalOutcome::Failed(GenerationError::Tokenizer(
                    "token id 262 is not in this vocabulary".to_string()
                )),
            },
        ]
    );
}

/// Offers no candidates at all.
struct SilentModel;

impl Model for SilentModel {
    fn spec_candidates(
        &self,
        _request: Request,
        _generated: Seq<Token>,
    ) -> Result<Seq<Candidate>, Seq<char>> {
        unreachable!("read by the verifier only")
    }

    fn candidates(
        &self,
        _request: &Request,
        _state: &GenerationState,
    ) -> Result<Vec<Candidate>, ModelError> {
        Ok(Vec::new())
    }
}

#[test]
fn no_candidates_is_a_failure_not_an_invented_token() {
    let runtime = Runtime::new(SilentModel, GreedySelector, TinyBpeTokenizer::teaching());
    let mut sink = RecordingSink::default();
    let mut trace = RecordingTrace::default();
    let result = runtime.generate(lower_request(14, 4), &NeverCancel, &mut sink, &mut trace);
    assert!(result.tokens.is_empty());
    assert_eq!(
        result.outcome,
        TerminalOutcome::Failed(GenerationError::NoCandidates)
    );
    assert_eq!(sink.events.len(), 1);
}
