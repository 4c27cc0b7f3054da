//! What the tokenizers and the chat template guarantee for every input.

use vstd::prelude::*;

use crate::chat::{ChatTemplate, Role, SegmentView, TinyChatTemplate};
use crate::tokenizer::{
    byte_ids, decode_ids, decode_with, is_special_id, lemma_decode_with_append, tiny_lm_encode_from,
    tiny_lm_piece, token_decoder, ByteTokenizer, SpecialToken, TinyBpeTokenizer, TinyLmTokenizer,
    TokenId, Tokenizer, TokenizerError,
};

verus! {

/// The byte tokenizer accepts every input, and decoding its ids gives the
/// input back.
pub proof fn law_byte_round_trip(input: Seq<u8>)
    ensures
        ByteTokenizer.spec_encode(input) == Ok::<Seq<TokenId>, TokenizerError>(byte_ids(input)),
        decode_ids(&ByteTokenizer, byte_ids(input)) == Ok::<Seq<u8>, TokenizerError>(input),
    decreases input.len(),
{
    if input.len() > 0 {
        assert(byte_ids(input).drop_last() =~= byte_ids(input.drop_last()));
        law_byte_round_trip(input.drop_last());
        assert(input.drop_last() + seq![input.last()] =~= input);
    } else {
        assert(byte_ids(input) =~= Seq::<TokenId>::empty());
        assert(input =~= Seq::<u8>::empty());
    }
}

proof fn lemma_tiny_lm_from(input: Seq<u8>, pos: int)
    requires
        0 <= pos <= input.len(),
    ensures
        tiny_lm_encode_from(input, pos) matches Ok(ids) ==> {
            &&& decode_ids(&TinyLmTokenizer, ids) == Ok::<Seq<u8>, TokenizerError>(input.skip(pos))
            &&& forall|k: int| 0 <= k < ids.len() ==> 1 <= (#[trigger] ids[k]).0 <= 3
        },
    decreases input.len() - pos,
{
    if pos < input.len() {
        let rest = input.skip(pos);
        let id: u32 = if rest.len() >= 5 && rest.take(5) == tiny_lm_piece(3) {
            3
        } else if rest.len() >= 5 && rest.take(5) == tiny_lm_piece(2) {
            2
        } else if rest[0] == 73 {
            1
        } else {
            0
        };
        if id != 0 {
            let next = pos + tiny_lm_piece(id).len();
            lemma_tiny_lm_from(input, next);
            match tiny_lm_encode_from(input, next) {
                Ok(ids) => {
                    let head = seq![TokenId(id)];
                    assert(head.drop_last() =~= Seq::<TokenId>::empty());
                    assert(head.last() == TokenId(id));
                    assert(decode_with(token_decoder(&TinyLmTokenizer), Seq::<TokenId>::empty())
                        == Ok::<Seq<u8>, TokenizerError>(Seq::<u8>::empty()));
                    assert(token_decoder(&TinyLmTokenizer)(TokenId(id)) == Ok::<
                        Seq<u8>,
                        TokenizerError,
                    >(tiny_lm_piece(id)));
                    assert(decode_ids(&TinyLmTokenizer, head) == Ok::<Seq<u8>, TokenizerError>(
                        Seq::<u8>::empty() + tiny_lm_piece(id),
                    ));
                    lemma_decode_with_append(token_decoder(&TinyLmTokenizer), head, ids);
                    assert(rest.take(tiny_lm_piece(id).len() as int) =~= tiny_lm_piece(id));
                    assert(Seq::<u8>::empty() + tiny_lm_piece(id) + input.skip(next) =~= rest);
                    let all = head + ids;
                    assert forall|k: int| 0 <= k < all.len() implies 1 <= (#[trigger] all[k]).0
                        <= 3 by {
                        if k > 0 {
                            assert(all[k] == ids[k - 1]);
                        }
                    }
                },
                Err(_) => {},
            }
        }
    } else {
        assert(input.skip(pos) =~= Seq::<u8>::empty());
    }
}

/// Every input the four-token vocabulary accepts decodes back to itself, and
/// its ids are ordinary ones: never the end-of-sequence id.
pub proof fn law_tiny_lm_round_trip(input: Seq<u8>)
    ensures
        TinyLmTokenizer.spec_encode(input) matches Ok(ids) ==> {
            &&& decode_ids(&TinyLmTokenizer, ids) == Ok::<Seq<u8>, TokenizerError>(input)
            &&& forall|k: int| 0 <= k < ids.len() ==> 1 <= (#[trigger] ids[k]).0 <= 3
        },
{
    lemma_tiny_lm_from(input, 0);
    assert(input.skip(0) =~= input);
}

/// A special token of the byte-pair tokenizer has no ordinary text bytes.
pub proof fn law_tiny_bpe_specials_have_no_bytes(t: TinyBpeTokenizer, token: SpecialToken)
    ensures
        t.spec_special_id(token) matches Some(id) && t.spec_decode_token(id) == Err::<
            Seq<u8>,
            TokenizerError,
        >(TokenizerError::SpecialTokenHasNoOrdinaryBytes(id)),
{
}

/// The end-of-sequence token of the four-token vocabulary has no ordinary
/// text bytes, and it is the only special token that vocabulary has.
pub proof fn law_tiny_lm_eos_has_no_bytes(token: SpecialToken)
    ensures
        TinyLmTokenizer.spec_special_id(token) is Some <==> token == SpecialToken::Eos,
        TinyLmTokenizer.spec_special_id(token) matches Some(id) ==> TinyLmTokenizer.spec_decode_token(
            id,
        ) == Err::<Seq<u8>, TokenizerError>(TokenizerError::SpecialTokenHasNoOrdinaryBytes(id)),
{
}

/// Asking for a generation prompt adds exactly one assistant control after
/// the same rendering.
pub proof fn law_generation_prompt_is_one_assistant_control(messages: Seq<(Role, Seq<u8>)>)
    ensures
        TinyChatTemplate.spec_render(messages, true) == TinyChatTemplate.spec_render(
            messages,
            false,
        ).push(SegmentView::Special(SpecialToken::Assistant)),
{
    assert(TinyChatTemplate.spec_render(messages, true) =~= TinyChatTemplate.spec_render(
        messages,
        false,
    ).push(SegmentView::Special(SpecialToken::Assistant)));
}

/// A rendering starts with the beginning-of-sequence control, and each
/// message contributes its role control, its content as ordinary text, and
/// an end-of-turn control, in order.
pub proof fn law_rendering_layout(messages: Seq<(Role, Seq<u8>)>, add_generation_prompt: bool)
    ensures
        ({
            let r = TinyChatTemplate.spec_render(messages, add_generation_prompt);
            &&& r.len() == 1 + 3 * messages.len() + (if add_generation_prompt {
                1int
            } else {
                0int
            })
            &&& r[0] == SegmentView::Special(SpecialToken::Bos)
            &&& forall|i: int|
                0 <= i < messages.len() ==> r[1 + 3 * i] == SegmentView::Special(
                    crate::chat::role_special(#[trigger] messages[i].0),
                ) && r[2 + 3 * i] == SegmentView::Text(messages[i].1) && r[3 + 3 * i]
                    == SegmentView::Special(SpecialToken::EndTurn)
        }),
{
    lemma_body_layout(messages);
}

proof fn lemma_body_layout(messages: Seq<(Role, Seq<u8>)>)
    ensures
        ({
            let b = crate::chat::tiny_chat_body(messages);
            &&& b.len() == 3 * messages.len()
            &&& forall|i: int|
                0 <= i < messages.len() ==> b[3 * i] == SegmentView::Special(
                    crate::chat::role_special(#[trigger] messages[i].0),
                ) && b[1 + 3 * i] == SegmentView::Text(messages[i].1) && b[2 + 3 * i]
                    == SegmentView::Special(SpecialToken::EndTurn)
        }),
    decreases messages.len(),
{
    if messages.len() > 0 {
        let earlier = messages.drop_last();
        lemma_body_layout(earlier);
        assert forall|i: int| 0 <= i < earlier.len() implies messages[i] == earlier[i] by {}
    }
}

} // verus!
