//! What every run of the generation loop guarantees, whatever the model,
//! selector, tokenizer, and cancellation policy.

use vstd::prelude::*;
use vstd::utf8::*;

use crate::tokenizer::{decode_with, TokenId, Tokenizer, TokenizerError};
use crate::utf8::{lemma_valid_up_to, pushed_pending, pushed_text, utf8_malformed, utf8_valid_up_to};
use crate::{
    absorb_bytes, accept_token, admitted_state, completion, generation, invalid_request_message,
    request_valid, run_from, run_step, Cancellation, ErrorView, EventView, Model, OutcomeView,
    Request, RequestId, RunState, Selector, StepOutcome, StopReason, Token, TokenKind,
    TraceKindView,
};

verus! {

/// The token events among `events`, in order, as (index, token) pairs.
pub open spec fn token_events(events: Seq<EventView>) -> Seq<(usize, Token)>
    decreases events.len(),
{
    if events.len() == 0 {
        Seq::empty()
    } else {
        let earlier = token_events(events.drop_last());
        match events.last() {
            EventView::Token { index, token, .. } => earlier.push((index, token)),
            _ => earlier,
        }
    }
}

/// The UTF-8 bytes of the text events among `events`, concatenated in order.
pub open spec fn text_bytes(events: Seq<EventView>) -> Seq<u8>
    decreases events.len(),
{
    if events.len() == 0 {
        Seq::empty()
    } else {
        let earlier = text_bytes(events.drop_last());
        match events.last() {
            EventView::Text { text, .. } => earlier + encode_utf8(text),
            _ => earlier,
        }
    }
}

/// Each token paired with its position.
pub open spec fn numbered(tokens: Seq<Token>) -> Seq<(usize, Token)> {
    Seq::new(tokens.len(), |i: int| (i as usize, tokens[i]))
}

/// The ids of some tokens.
pub open spec fn token_ids(tokens: Seq<Token>) -> Seq<TokenId> {
    tokens.map_values(|t: Token| t.id)
}

/// The ordinary bytes of some tokens under a tokenizer.
pub open spec fn decoded<T: Tokenizer>(tokenizer: T, tokens: Seq<Token>) -> Result<
    Seq<u8>,
    TokenizerError,
> {
    decode_with(|id: TokenId| tokenizer.spec_decode_token(id), token_ids(tokens))
}

/// The request an event belongs to.
pub open spec fn event_request(event: EventView) -> RequestId {
    match event {
        EventView::Token { request_id, .. } => request_id,
        EventView::Text { request_id, .. } => request_id,
        EventView::Terminal { request_id, .. } => request_id,
    }
}

/// What holds of every state a run of `request` passes through.
pub open spec fn run_invariant<C: Cancellation>(
    cancellation: C,
    request: Request,
    s: RunState,
) -> bool {
    &&& forall|i: int| 0 <= i < s.events.len() ==> !(#[trigger] s.events[i] is Terminal)
    &&& forall|i: int|
        0 <= i < s.events.len() ==> event_request(#[trigger] s.events[i]) == request.id
    &&& token_events(s.events) == numbered(s.generated)
    &&& forall|i: int|
        0 <= i < s.generated.len() ==> (#[trigger] s.generated[i]).kind == TokenKind::Text
    &&& s.generated.len() <= request.max_new_tokens
    &&& forall|k: int|
        0 <= k < s.generated.len() ==> !cancellation.spec_is_cancelled(
            #[trigger] s.generated.take(k),
        )
}

/// The text sent so far, followed by the bytes the decoder still holds, is
/// exactly what the accepted tokens decode to.
pub open spec fn text_faithful<T: Tokenizer>(tokenizer: T, s: RunState) -> bool {
    decoded(tokenizer, s.generated) == Ok::<Seq<u8>, TokenizerError>(
        text_bytes(s.events) + s.pending,
    )
}

/// `b` is `a` followed by more items.
pub open spec fn grows<T>(a: Seq<T>, b: Seq<T>) -> bool {
    a.len() <= b.len() && b.take(a.len() as int) == a
}

/// Both streams of `t` continue those of `s`.
pub open spec fn continues(s: RunState, t: RunState) -> bool {
    grows(s.events, t.events) && grows(s.trace, t.trace)
}

proof fn lemma_grows_push<T>(a: Seq<T>, b: Seq<T>, x: T)
    requires
        grows(a, b),
    ensures
        grows(a, b.push(x)),
{
    assert(b.push(x).take(a.len() as int) =~= b.take(a.len() as int));
}

proof fn lemma_grows_trans<T>(a: Seq<T>, b: Seq<T>, c: Seq<T>)
    requires
        grows(a, b),
        grows(b, c),
    ensures
        grows(a, c),
{
    assert(c.take(a.len() as int) =~= c.take(b.len() as int).take(a.len() as int));
}

proof fn lemma_grows_refl<T>(a: Seq<T>)
    ensures
        grows(a, a),
{
    assert(a.take(a.len() as int) =~= a);
}

proof fn lemma_traced_continues(s: RunState, kind: TraceKindView)
    ensures
        continues(s, s.traced(kind)),
{
    lemma_grows_refl(s.events);
    lemma_grows_refl(s.trace);
    lemma_grows_push(s.trace, s.trace, kind);
}

proof fn lemma_sent_continues(s: RunState, event: EventView)
    ensures
        continues(s, s.sent(event)),
{
    lemma_grows_refl(s.events);
    lemma_grows_refl(s.trace);
    lemma_grows_push(s.events, s.events, event);
}

proof fn lemma_continues_trans(a: RunState, b: RunState, c: RunState)
    requires
        continues(a, b),
        continues(b, c),
    ensures
        continues(a, c),
{
    lemma_grows_trans(a.events, b.events, c.events);
    lemma_grows_trans(a.trace, b.trace, c.trace);
}

proof fn lemma_event_pushed(events: Seq<EventView>, e: EventView)
    ensures
        token_events(events.push(e)) == (match e {
            EventView::Token { index, token, .. } => token_events(events).push((index, token)),
            _ => token_events(events),
        }),
        text_bytes(events.push(e)) == (match e {
            EventView::Text { text, .. } => text_bytes(events) + encode_utf8(text),
            _ => text_bytes(events),
        }),
{
    assert(events.push(e).drop_last() =~= events);
}

proof fn lemma_decoded_pushed<T: Tokenizer>(tokenizer: T, tokens: Seq<Token>, token: Token)
    ensures
        decoded(tokenizer, tokens.push(token)) == (match decoded(tokenizer, tokens) {
            Err(e) => Err(e),
            Ok(prefix) => match tokenizer.spec_decode_token(token.id) {
                Err(e) => Err(e),
                Ok(bytes) => Ok(prefix + bytes),
            },
        }),
{
    assert(token_ids(tokens.push(token)).drop_last() =~= token_ids(tokens));
}

/// Decoding a buffer that is not malformed keeps every byte: the emitted text
/// and the new pending bytes together are the buffer.
proof fn lemma_absorb<C: Cancellation>(
    cancellation: C,
    request: Request,
    s: RunState,
    index: usize,
    bytes: Seq<u8>,
)
    requires
        run_invariant(cancellation, request, s),
    ensures
        match absorb_bytes(request.id, s, index, bytes) {
            StepOutcome::Continue(t) => {
                &&& run_invariant(cancellation, request, t)
                &&& continues(s, t)
                &&& t.generated == s.generated
                &&& text_bytes(t.events) + t.pending == text_bytes(s.events) + s.pending + bytes
            },
            StepOutcome::Stop(t, outcome) => {
                &&& run_invariant(cancellation, request, t)
                &&& continues(s, t)
                &&& t.generated == s.generated
                &&& !(outcome is Completed)
                &&& outcome != OutcomeView::Cancelled
            },
        },
{
    let buf = s.pending + bytes;
    lemma_grows_refl(s.events);
    lemma_grows_refl(s.trace);
    if !utf8_malformed(buf) {
        lemma_valid_up_to(buf);
        let v = utf8_valid_up_to(buf);
        let pending = pushed_pending(buf);
        let s1 = RunState { pending, ..s }.traced(
            TraceKindView::Utf8Buffered { pending_bytes: pending.len() as usize },
        );
        lemma_traced_continues(
            RunState { pending, ..s },
            TraceKindView::Utf8Buffered { pending_bytes: pending.len() as usize },
        );
        assert(buf.take(v) + buf.skip(v) =~= buf);
        match pushed_text(buf) {
            Some(text) => {
                decode_utf8_encode_utf8(buf.take(v));
                assert(encode_utf8(text) == buf.take(v));
                if text.len() > 0 {
                    let e = EventView::Text { request_id: request.id, through_token_index: index, text };
                    lemma_event_pushed(s.events, e);
                    let s2 = RunState { text_emitted: true, ..s1.sent(e) };
                    lemma_sent_continues(s1, e);
                    lemma_continues_trans(s, s1, s2);
                    lemma_traced_continues(
                        s2,
                        TraceKindView::TextEmitted {
                            through_token_index: index,
                            bytes: encode_utf8(text).len() as usize,
                        },
                    );
                    lemma_continues_trans(
                        s,
                        s2,
                        s2.traced(
                            TraceKindView::TextEmitted {
                                through_token_index: index,
                                bytes: encode_utf8(text).len() as usize,
                            },
                        ),
                    );
                    assert(text_bytes(s.events) + buf.take(v) + buf.skip(v) =~= text_bytes(s.events)
                        + s.pending + bytes);
                } else {
                    assert(encode_utf8(text) =~= Seq::<u8>::empty());
                }
            },
            None => {
                assert(buf.skip(0) =~= buf);
                assert(text_bytes(s.events) + buf =~= text_bytes(s.events) + s.pending + bytes);
            },
        }
    }
}

/// What one turn keeps, and what its outcome says when it stops.
proof fn lemma_step_keeps<M: Model, S: Selector, T: Tokenizer, C: Cancellation>(
    model: M,
    selector: S,
    tokenizer: T,
    cancellation: C,
    request: Request,
    s: RunState,
)
    requires
        run_invariant(cancellation, request, s),
        text_faithful(tokenizer, s),
    ensures
        match run_step(model, selector, tokenizer, cancellation, request, s) {
            StepOutcome::Continue(t) => run_invariant(cancellation, request, t) && text_faithful(
                tokenizer,
                t,
            ) && continues(s, t),
            StepOutcome::Stop(t, outcome) => {
                &&& run_invariant(cancellation, request, t)
                &&& continues(s, t)
                &&& outcome is Completed ==> text_faithful(tokenizer, t) && t.pending.len() == 0
                &&& outcome == OutcomeView::Cancelled ==> cancellation.spec_is_cancelled(
                    t.generated,
                )
                &&& outcome == OutcomeView::Completed(StopReason::MaxTokens) ==> t.generated.len()
                    == request.max_new_tokens
            },
        },
{
    lemma_grows_refl(s.events);
    lemma_grows_refl(s.trace);
    if cancellation.spec_is_cancelled(s.generated) {
    } else if s.generated.len() >= request.max_new_tokens {
    } else {
        let step = s.generated.len() as usize;
        let s1 = s.traced(crate::TraceKindView::ModelInvoked { step });
        lemma_traced_continues(s, crate::TraceKindView::ModelInvoked { step });
        match model.spec_candidates(request, s.generated) {
            Err(_) => {},
            Ok(candidates) => match selector.spec_select(candidates) {
                Err(_) => {},
                Ok(token) => {
                    let s2 = s1.traced(
                        crate::TraceKindView::TokenSelected { step, token_id: token.id },
                    );
                    lemma_traced_continues(
                        s1,
                        crate::TraceKindView::TokenSelected { step, token_id: token.id },
                    );
                    lemma_continues_trans(s, s1, s2);
                    if token.kind != TokenKind::EndOfSequence {
                        lemma_accept(tokenizer, cancellation, request, s2, token);
                        lemma_continues_trans(
                            s,
                            s2,
                            crate::step_state(accept_token(tokenizer, request.id, s2, token)),
                        );
                    }
                },
            },
        }
    }
}

/// Accepting a text token keeps the run's invariant and its text faithful.
proof fn lemma_accept<T: Tokenizer, C: Cancellation>(
    tokenizer: T,
    cancellation: C,
    request: Request,
    s: RunState,
    token: Token,
)
    requires
        run_invariant(cancellation, request, s),
        text_faithful(tokenizer, s),
        token.kind == TokenKind::Text,
        s.generated.len() < request.max_new_tokens,
        !cancellation.spec_is_cancelled(s.generated),
    ensures
        match accept_token(tokenizer, request.id, s, token) {
            StepOutcome::Continue(t) => run_invariant(cancellation, request, t) && text_faithful(
                tokenizer,
                t,
            ) && continues(s, t),
            StepOutcome::Stop(t, outcome) => {
                &&& run_invariant(cancellation, request, t)
                &&& continues(s, t)
                &&& !(outcome is Completed)
                &&& outcome != OutcomeView::Cancelled
            },
        },
{
    let index = s.generated.len() as usize;
    let e = EventView::Token { request_id: request.id, index, token };
    let s1 = RunState { generated: s.generated.push(token), token_ready: true, ..s.sent(e) }.traced(
        crate::TraceKindView::TokenEmitted { index, token_id: token.id },
    );
    lemma_event_pushed(s.events, e);
    let sent = RunState { generated: s.generated.push(token), token_ready: true, ..s.sent(e) };
    lemma_sent_continues(s, e);
    lemma_traced_continues(sent, crate::TraceKindView::TokenEmitted { index, token_id: token.id });
    lemma_continues_trans(s, sent, s1);
    assert(numbered(s.generated.push(token)) =~= numbered(s.generated).push((index, token)));
    assert forall|k: int| 0 <= k < s1.generated.len() implies !cancellation.spec_is_cancelled(
        #[trigger] s1.generated.take(k),
    ) by {
        if k == s.generated.len() {
            assert(s1.generated.take(k) =~= s.generated);
        } else {
            assert(s1.generated.take(k) =~= s.generated.take(k));
        }
    }
    assert(run_invariant(cancellation, request, s1));
    lemma_decoded_pushed(tokenizer, s.generated, token);
    match tokenizer.spec_decode_token(token.id) {
        Err(_) => {},
        Ok(bytes) => {
            let s2 = s1.traced(
                crate::TraceKindView::TokenDecoded {
                    index,
                    token_id: token.id,
                    bytes: bytes.len() as usize,
                },
            );
            lemma_traced_continues(
                s1,
                crate::TraceKindView::TokenDecoded {
                    index,
                    token_id: token.id,
                    bytes: bytes.len() as usize,
                },
            );
            lemma_absorb(cancellation, request, s2, index, bytes);
            lemma_continues_trans(s, s1, s2);
            lemma_continues_trans(s, s2, crate::step_state(absorb_bytes(request.id, s2, index, bytes)));
        },
    }
}

/// What a whole run keeps, from any state that satisfies the invariant.
proof fn lemma_run_keeps<M: Model, S: Selector, T: Tokenizer, C: Cancellation>(
    model: M,
    selector: S,
    tokenizer: T,
    cancellation: C,
    request: Request,
    s: RunState,
)
    requires
        run_invariant(cancellation, request, s),
        text_faithful(tokenizer, s),
    ensures
        ({
            let (t, outcome) = run_from(model, selector, tokenizer, cancellation, request, s);
            &&& run_invariant(cancellation, request, t)
            &&& continues(s, t)
            &&& outcome is Completed ==> text_faithful(tokenizer, t) && t.pending.len() == 0
            &&& outcome == OutcomeView::Cancelled ==> cancellation.spec_is_cancelled(t.generated)
            &&& outcome == OutcomeView::Completed(StopReason::MaxTokens) ==> t.generated.len()
                == request.max_new_tokens
        }),
    decreases request.max_new_tokens - s.generated.len(),
{
    lemma_step_keeps(model, selector, tokenizer, cancellation, request, s);
    crate::lemma_step_advances(model, selector, tokenizer, cancellation, request, s);
    match run_step(model, selector, tokenizer, cancellation, request, s) {
        StepOutcome::Stop(_, _) => {},
        StepOutcome::Continue(t) => {
            lemma_run_keeps(model, selector, tokenizer, cancellation, request, t);
            lemma_continues_trans(
                s,
                t,
                run_from(model, selector, tokenizer, cancellation, request, t).0,
            );
        },
    }
}

/// What every generation keeps, valid request or not.
proof fn lemma_generation_keeps<M: Model, S: Selector, T: Tokenizer, C: Cancellation>(
    model: M,
    selector: S,
    tokenizer: T,
    cancellation: C,
    request: Request,
)
    ensures
        ({
            let (run, outcome) = generation(model, selector, tokenizer, cancellation, request);
            &&& run_invariant(cancellation, request, run)
            &&& request_valid(request) ==> continues(admitted_state(request), run)
            &&& outcome is Completed ==> text_faithful(tokenizer, run) && run.pending.len() == 0
            &&& outcome == OutcomeView::Cancelled ==> cancellation.spec_is_cancelled(run.generated)
            &&& outcome == OutcomeView::Completed(StopReason::MaxTokens) ==> run.generated.len()
                == request.max_new_tokens
        }),
{
    let init = admitted_state(request);
    assert(numbered(Seq::<Token>::empty()) =~= Seq::<(usize, Token)>::empty());
    assert(token_ids(Seq::<Token>::empty()) =~= Seq::<TokenId>::empty());
    assert(Seq::<u8>::empty() + Seq::<u8>::empty() =~= Seq::<u8>::empty());
    if request_valid(request) {
        lemma_run_keeps(model, selector, tokenizer, cancellation, request, init);
    }
}

/// A run sends no terminal event of its own: the terminal event that
/// `Runtime::generate` sends after the run is the only one, and the last.
pub proof fn law_single_terminal<M: Model, S: Selector, T: Tokenizer, C: Cancellation>(
    model: M,
    selector: S,
    tokenizer: T,
    cancellation: C,
    request: Request,
)
    ensures
        forall|i: int|
            0 <= i < generation(model, selector, tokenizer, cancellation, request).0.events.len()
                ==> !(#[trigger] generation(
                model,
                selector,
                tokenizer,
                cancellation,
                request,
            ).0.events[i] is Terminal),
{
    lemma_generation_keeps(model, selector, tokenizer, cancellation, request);
}

/// Every event of a run belongs to its request, and its token events carry
/// the accepted tokens in order, numbered from zero.
pub proof fn law_token_events_in_order<M: Model, S: Selector, T: Tokenizer, C: Cancellation>(
    model: M,
    selector: S,
    tokenizer: T,
    cancellation: C,
    request: Request,
)
    ensures
        ({
            let run = generation(model, selector, tokenizer, cancellation, request).0;
            &&& token_events(run.events) == numbered(run.generated)
            &&& forall|i: int|
                0 <= i < run.events.len() ==> event_request(#[trigger] run.events[i]) == request.id
        }),
{
    lemma_generation_keeps(model, selector, tokenizer, cancellation, request);
}

/// No end-of-sequence token is ever emitted, and no more tokens are accepted
/// than the request allows.
pub proof fn law_tokens_are_text_within_limit<M: Model, S: Selector, T: Tokenizer, C: Cancellation>(
    model: M,
    selector: S,
    tokenizer: T,
    cancellation: C,
    request: Request,
)
    ensures
        ({
            let run = generation(model, selector, tokenizer, cancellation, request).0;
            &&& forall|i: int|
                0 <= i < run.generated.len() ==> (#[trigger] run.generated[i]).kind
                    == TokenKind::Text
            &&& run.generated.len() <= request.max_new_tokens
        }),
{
    lemma_generation_keeps(model, selector, tokenizer, cancellation, request);
}

/// When a run completes, the text it streamed is exactly the bytes of its
/// tokens: nothing is dropped, replaced, or left buffered.
pub proof fn law_completed_text_is_decoded_tokens<M: Model, S: Selector, T: Tokenizer, C: Cancellation>(
    model: M,
    selector: S,
    tokenizer: T,
    cancellation: C,
    request: Request,
)
    requires
        generation(model, selector, tokenizer, cancellation, request).1 is Completed,
    ensures
        ({
            let run = generation(model, selector, tokenizer, cancellation, request).0;
            decoded(tokenizer, run.generated) == Ok::<Seq<u8>, TokenizerError>(
                text_bytes(run.events),
            )
        }),
{
    lemma_generation_keeps(model, selector, tokenizer, cancellation, request);
    let run = generation(model, selector, tokenizer, cancellation, request).0;
    assert(text_bytes(run.events) + run.pending =~= text_bytes(run.events));
}

/// Cancellation is asked before every token: a cancelled run stopped where
/// the policy first said so, and it said no at every earlier step.
pub proof fn law_cancellation_respected<M: Model, S: Selector, T: Tokenizer, C: Cancellation>(
    model: M,
    selector: S,
    tokenizer: T,
    cancellation: C,
    request: Request,
)
    ensures
        ({
            let (run, outcome) = generation(model, selector, tokenizer, cancellation, request);
            &&& outcome == OutcomeView::Cancelled ==> cancellation.spec_is_cancelled(run.generated)
            &&& forall|k: int|
                0 <= k < run.generated.len() ==> !cancellation.spec_is_cancelled(
                    #[trigger] run.generated.take(k),
                )
        }),
{
    lemma_generation_keeps(model, selector, tokenizer, cancellation, request);
}

/// A run that completes on the token limit has produced exactly that many
/// tokens.
pub proof fn law_max_tokens_exact<M: Model, S: Selector, T: Tokenizer, C: Cancellation>(
    model: M,
    selector: S,
    tokenizer: T,
    cancellation: C,
    request: Request,
)
    ensures
        generation(model, selector, tokenizer, cancellation, request).1 == OutcomeView::Completed(
            StopReason::MaxTokens,
        ) ==> generation(model, selector, tokenizer, cancellation, request).0.generated.len()
            == request.max_new_tokens,
{
    lemma_generation_keeps(model, selector, tokenizer, cancellation, request);
}

/// An admitted request's trace opens with its input encoding, admission,
/// and execution start, in that order; everything after is appended.
pub proof fn law_admitted_trace_opens_with_admission<M: Model, S: Selector, T: Tokenizer, C: Cancellation>(
    model: M,
    selector: S,
    tokenizer: T,
    cancellation: C,
    request: Request,
)
    requires
        request_valid(request),
    ensures
        ({
            let run = generation(model, selector, tokenizer, cancellation, request).0;
            &&& run.trace.len() >= 3
            &&& run.trace[0] == TraceKindView::InputEncoded {
                bytes: request.input_bytes,
                token_count: request.input_tokens@.len() as usize,
            }
            &&& run.trace[1] == TraceKindView::Admitted
            &&& run.trace[2] == TraceKindView::ExecutionStarted
        }),
{
    lemma_generation_keeps(model, selector, tokenizer, cancellation, request);
    let run = generation(model, selector, tokenizer, cancellation, request).0;
    let opening = admitted_state(request).trace;
    assert(run.trace.take(3)[0] == run.trace[0]);
    assert(run.trace.take(3)[1] == run.trace[1]);
    assert(run.trace.take(3)[2] == run.trace[2]);
}

/// A request without input tokens or without room for a token fails before
/// anything is sent, with the reason.
pub proof fn law_invalid_request_fails_first<M: Model, S: Selector, T: Tokenizer, C: Cancellation>(
    model: M,
    selector: S,
    tokenizer: T,
    cancellation: C,
    request: Request,
)
    requires
        !request_valid(request),
    ensures
        ({
            let (run, outcome) = generation(model, selector, tokenizer, cancellation, request);
            &&& outcome == OutcomeView::Failed(ErrorView::InvalidRequest(invalid_request_message(request)))
            &&& run.events.len() == 0
            &&& run.trace.len() == 0
            &&& run.generated.len() == 0
        }),
{
}

} // verus!
