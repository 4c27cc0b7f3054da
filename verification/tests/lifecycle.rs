use std::time::Instant;

use vstd::seq::Seq;

use engine0::tokenizer::{
    SpecialToken, TinyLmTokenizer, TokenId, Tokenizer, TokenizerError, TokenizerIdentity,
    TINY_LM_EOS, TINY_LM_LIKE, TINY_LM_RUST, TOKEN_BLUE,
};
use engine0::{
    CancelAtStep, Candidate, GenerationError, GenerationResult, GenerationState, GreedySelector,
    Lifecycle, Model, ModelError, NeverCancel, RecordingSink, RecordingTrace, Request, Runtime,
    StopReason, StreamEvent, TerminalOutcome, Token, TraceKind,
};

fn request(id: u64, text: &[u8], max: usize) -> Request {
    Request::from_text(id, text, max, &TinyLmTokenizer).expect("four-token fixture encode")
}

fn terminal_count(events: &[StreamEvent]) -> usize {
    events
        .iter()
        .filter(|event| matches!(event, StreamEvent::Terminal { .. }))
        .count()
}

/// Scores every id of the four-token vocabulary the same way at every step;
/// id 0 is the end-of-sequence token.
struct ConstantModel {
    scores: [i32; 4],
}

impl Model for ConstantModel {
    // Specification functions are read by the verifier only; a test double
    // is never verified, so these are never evaluated.
    fn spec_candidates(
        &self,
        _request: Request,
        _generated: Seq<Token>,
    ) -> Result<Seq<Candidate>, Seq<char>> {
        unreachable!("read by the verifier only")
    }

    fn candidates(
        &self,
        _request: &Request,
        _state: &GenerationState,
    ) -> Result<Vec<Candidate>, ModelError> {
        let mut candidates = Vec::new();
        for (index, score) in self.scores.iter().enumerate() {
            let id = TokenId(index as u32);
            let token = if id == TokenId(TINY_LM_EOS) {
                Token::end(id)
            } else {
                Token::text(id)
            };
            candidates.push(Candidate::new(token, *score));
        }
        Ok(candidates)
    }
}

struct FailingModel;

impl Model for FailingModel {
    fn spec_candidates(
        &self,
        _request: Request,
        _generated: Seq<Token>,
    ) -> Result<Seq<Candidate>, Seq<char>> {
        unreachable!("read by the verifier only")
    }

    fn candidates(
        &self,
        _request: &Request,
        _state: &GenerationState,
    ) -> Result<Vec<Candidate>, ModelError> {
        Err(ModelError::new("test failure".to_string()))
    }
}

fn run(
    model: ConstantModel,
    request: Request,
    max_cancel: Option<usize>,
) -> (GenerationResult, RecordingSink, RecordingTrace) {
    let runtime = Runtime::new(model, GreedySelector, TinyLmTokenizer);
    let mut sink = RecordingSink::default();
    let mut trace = RecordingTrace::default();
    let result = match max_cancel {
        Some(step) => runtime.generate(request, &CancelAtStep(step), &mut sink, &mut trace),
        None => runtime.generate(request, &NeverCancel, &mut sink, &mut trace),
    };
    (result, sink, trace)
}

#[test]
fn terminal_transition_can_happen_only_once() {
    let started = Instant::now();
    let mut sink = RecordingSink::default();
    let mut trace = RecordingTrace::default();
    let mut lifecycle = Lifecycle::new(7, started);

    assert!(lifecycle
        .finish(
            &mut sink,
            &mut trace,
            TerminalOutcome::Completed(StopReason::MaxTokens)
        )
        .is_ok());
    assert_eq!(
        lifecycle.finish(&mut sink, &mut trace, TerminalOutcome::Cancelled),
        Err(GenerationError::AlreadyTerminal)
    );
}

#[test]
fn token_text_and_trace_emission_are_blocked_after_terminal() {
    let started = Instant::now();
    let mut sink = RecordingSink::default();
    let mut trace = RecordingTrace::default();
    let mut lifecycle = Lifecycle::new(8, started);
    lifecycle
        .finish(&mut sink, &mut trace, TerminalOutcome::Cancelled)
        .expect("first terminal");
    lifecycle.emit_token(&mut sink, &mut trace, 0, Token::text(TokenId(TOKEN_BLUE)));
    lifecycle.emit_text(&mut sink, &mut trace, 0, "forbidden".to_string());
    lifecycle.trace(&mut trace, TraceKind::ExecutionStarted);

    assert_eq!(sink.events.len(), 1);
    assert_eq!(trace.events.len(), 1);
}

#[test]
fn max_token_stop_is_explicit_and_terminal_is_exactly_once() {
    let (result, sink, _) = run(
        ConstantModel {
            scores: [-1, -1, -1, 2],
        },
        request(3, b"I like", 2),
        None,
    );
    assert_eq!(result.tokens.len(), 2);
    assert_eq!(
        result.outcome,
        TerminalOutcome::Completed(StopReason::MaxTokens)
    );
    assert_eq!(terminal_count(&sink.events), 1);
}

#[test]
fn cancellation_emits_no_later_token_and_one_terminal() {
    let (result, sink, _) = run(
        ConstantModel {
            scores: [-1, -1, -1, 2],
        },
        request(4, b"I like", 8),
        Some(1),
    );
    assert_eq!(result.tokens.len(), 1);
    assert_eq!(result.outcome, TerminalOutcome::Cancelled);
    assert_eq!(terminal_count(&sink.events), 1);
}

#[test]
fn empty_encoded_input_fails_without_admission_or_token() {
    let (result, sink, trace) = run(
        ConstantModel {
            scores: [2, -1, -1, -1],
        },
        request(5, b"", 8),
        None,
    );
    assert!(matches!(
        result.outcome,
        TerminalOutcome::Failed(GenerationError::InvalidRequest(_))
    ));
    assert!(result.tokens.is_empty());
    assert_eq!(terminal_count(&sink.events), 1);
    assert_eq!(trace.events.len(), 1);
}

#[test]
fn model_failure_cannot_also_complete() {
    let runtime = Runtime::new(FailingModel, GreedySelector, TinyLmTokenizer);
    let mut sink = RecordingSink::default();
    let mut trace = RecordingTrace::default();
    let result = runtime.generate(
        request(6, b"I like", 8),
        &NeverCancel,
        &mut sink,
        &mut trace,
    );
    assert!(matches!(
        result.outcome,
        TerminalOutcome::Failed(GenerationError::Model(_))
    ));
    assert_eq!(terminal_count(&sink.events), 1);
}

#[test]
fn repeated_runs_have_identical_semantic_streams() {
    let model = || ConstantModel {
        scores: [-1, -1, -1, 2],
    };
    let (_, first, _) = run(model(), request(7, b"I like", 3), None);
    let (_, second, _) = run(model(), request(7, b"I like", 3), None);
    assert_eq!(first.events, second.events);
}

#[test]
fn terminal_event_is_always_last() {
    let (_, sink, _) = run(
        ConstantModel {
            scores: [-1, -1, -1, 2],
        },
        request(8, b"I like", 3),
        None,
    );
    let terminal_index = sink
        .events
        .iter()
        .position(|event| matches!(event, StreamEvent::Terminal { .. }))
        .expect("terminal event");
    assert_eq!(terminal_index + 1, sink.events.len());
}

/// Decodes listed ids to fixed byte pieces.
#[derive(Clone)]
struct PieceTokenizer {
    pieces: Vec<(TokenId, Vec<u8>)>,
    eos: TokenId,
}

impl Tokenizer for PieceTokenizer {
    fn spec_identity(&self) -> TokenizerIdentity {
        unreachable!("read by the verifier only")
    }

    fn spec_vocabulary_size(&self) -> usize {
        unreachable!("read by the verifier only")
    }

    fn spec_encode(&self, _input: Seq<u8>) -> Result<Seq<TokenId>, TokenizerError> {
        unreachable!("read by the verifier only")
    }

    fn spec_decode_token(&self, _id: TokenId) -> Result<Seq<u8>, TokenizerError> {
        unreachable!("read by the verifier only")
    }

    fn spec_special_id(&self, _token: SpecialToken) -> Option<TokenId> {
        unreachable!("read by the verifier only")
    }

    fn identity(&self) -> TokenizerIdentity {
        TokenizerIdentity {
            name: "test-pieces",
            revision: "v1",
        }
    }

    fn vocabulary_size(&self) -> usize {
        4
    }

    fn encode(&self, input: &[u8]) -> Result<Vec<TokenId>, TokenizerError> {
        Ok(input.iter().map(|byte| TokenId(u32::from(*byte))).collect())
    }

    fn decode_token(&self, id: TokenId) -> Result<Vec<u8>, TokenizerError> {
        self.pieces
            .iter()
            .find(|(candidate, _)| *candidate == id)
            .map(|(_, bytes)| bytes.clone())
            .ok_or(TokenizerError::InvalidTokenId(id))
    }

    fn special_id(&self, token: SpecialToken) -> Option<TokenId> {
        if token == SpecialToken::Eos {
            Some(self.eos)
        } else {
            None
        }
    }
}

#[test]
fn incomplete_utf8_at_successful_stop_becomes_failed_terminal() {
    let partial = TokenId(1);
    let runtime = Runtime::new(
        ConstantModel {
            scores: [-1, 2, -1, -1],
        },
        GreedySelector,
        PieceTokenizer {
            pieces: vec![(partial, vec![0xf0, 0x9f])],
            eos: TokenId(TINY_LM_EOS),
        },
    );
    let mut sink = RecordingSink::default();
    let mut trace = RecordingTrace::default();
    let result = runtime.generate(
        Request::from_token_ids(9, vec![TokenId(TINY_LM_LIKE)], 1, 1),
        &NeverCancel,
        &mut sink,
        &mut trace,
    );
    assert!(matches!(
        result.outcome,
        TerminalOutcome::Failed(GenerationError::Utf8Stream(_))
    ));
    assert_eq!(terminal_count(&sink.events), 1);
}

#[test]
fn eos_is_terminal_and_never_decoded_as_text() {
    let (result, sink, _) = run(
        ConstantModel {
            scores: [2, -1, -1, -1],
        },
        request(10, b"I like", 8),
        None,
    );
    assert!(result.tokens.is_empty());
    assert_eq!(
        result.outcome,
        TerminalOutcome::Completed(StopReason::EndOfSequence)
    );
    assert!(!sink
        .events
        .iter()
        .any(|event| matches!(event, StreamEvent::Text { .. })));
}

#[test]
fn rust_token_streams_its_text_then_limit_stops() {
    let (result, sink, trace) = run(
        ConstantModel {
            scores: [-1, -1, -1, 2],
        },
        request(11, b"I like", 1),
        None,
    );
    assert_eq!(result.tokens, vec![Token::text(TokenId(TINY_LM_RUST))]);
    assert_eq!(
        result.outcome,
        TerminalOutcome::Completed(StopReason::MaxTokens)
    );
    assert_eq!(
        sink.events,
        vec![
            StreamEvent::Token {
                request_id: 11,
                index: 0,
                token: Token::text(TokenId(TINY_LM_RUST)),
            },
            StreamEvent::Text {
                request_id: 11,
                through_token_index: 0,
                text: " Rust".to_string(),
            },
            StreamEvent::Terminal {
                request_id: 11,
                outcome: TerminalOutcome::Completed(StopReason::MaxTokens),
            },
        ]
    );
    let kinds: Vec<&TraceKind> = trace.events.iter().map(|event| &event.kind).collect();
    assert_eq!(
        kinds,
        vec![
            &TraceKind::InputEncoded {
                bytes: 6,
                token_count: 2
            },
            &TraceKind::Admitted,
            &TraceKind::ExecutionStarted,
            &TraceKind::ModelInvoked { step: 0 },
            &TraceKind::TokenSelected {
                step: 0,
                token_id: TokenId(TINY_LM_RUST)
            },
            &TraceKind::TokenEmitted {
                index: 0,
                token_id: TokenId(TINY_LM_RUST)
            },
            &TraceKind::TokenDecoded {
                index: 0,
                token_id: TokenId(TINY_LM_RUST),
                bytes: 5
            },
            &TraceKind::Utf8Buffered { pending_bytes: 0 },
            &TraceKind::TextEmitted {
                through_token_index: 0,
                bytes: 5
            },
            &TraceKind::Terminal(TerminalOutcome::Completed(StopReason::MaxTokens)),
        ]
    );
    assert!(trace.events.iter().all(|event| event.request_id == 11));
    assert!(result.timings.admitted_at.is_some());
    assert!(result.timings.first_token_ready_at.is_some());
    assert!(result.timings.first_text_emitted_at.is_some());
}
