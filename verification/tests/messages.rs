use engine0::chat::{ContractError, Message, ModelContract, Role, TinyChatTemplate};
use engine0::text::decimal_string;
use engine0::tokenizer::{ByteTokenizer, SpecialToken, TokenId, TokenizerError};
use engine0::utf8::{Utf8StreamDecoder, Utf8StreamError};

#[test]
fn decimal_rendering_has_no_leading_zeros() {
    assert_eq!(decimal_string(0), "0");
    assert_eq!(decimal_string(7), "7");
    assert_eq!(decimal_string(1007), "1007");
    assert_eq!(decimal_string(u64::MAX), "18446744073709551615");
}

#[test]
fn tokenizer_error_messages_name_the_id_or_offset() {
    assert_eq!(
        TokenizerError::InvalidTokenId(TokenId(9999)).to_string(),
        "token id 9999 is not in this vocabulary"
    );
    assert_eq!(
        TokenizerError::SpecialTokenHasNoOrdinaryBytes(TokenId(1006)).to_string(),
        "special token id 1006 has no ordinary text bytes"
    );
    assert_eq!(
        TokenizerError::MissingSpecialToken(SpecialToken::EndTurn).to_string(),
        "tokenizer has no configured EndTurn token"
    );
    assert_eq!(
        TokenizerError::InvalidMergeTable("duplicate rank 0".to_string()).to_string(),
        "invalid BPE merge table: duplicate rank 0"
    );
    assert_eq!(
        TokenizerError::UnsupportedInput { offset: 2 }.to_string(),
        "input at byte offset 2 has no token in this tiny vocabulary"
    );
}

#[test]
fn stream_error_messages_show_the_buffered_bytes() {
    let mut decoder = Utf8StreamDecoder::new();
    let error = decoder.push(&[0xc3, 0x28]).unwrap_err();
    assert_eq!(
        error,
        Utf8StreamError::InvalidSequence {
            valid_up_to: 0,
            error_len: Some(1),
            bytes: vec![0xc3, 0x28],
        }
    );
    assert_eq!(
        error.to_string(),
        "invalid UTF-8 after byte 0 (error length Some(1), buffered [c3, 28])"
    );
    let mut decoder = Utf8StreamDecoder::new();
    decoder.push(&[b'A', 0xf0, 0x9f]).unwrap();
    assert_eq!(
        decoder.finish().unwrap_err().to_string(),
        "incomplete UTF-8 at terminal (buffered [f0, 9f])"
    );
}

#[test]
fn contract_errors_report_expected_and_actual_identities() {
    let error = ModelContract::demo()
        .encode_chat(
            &ByteTokenizer,
            &TinyChatTemplate,
            &[Message::new(Role::User, b"hello")],
            true,
        )
        .unwrap_err();
    assert_eq!(
        error,
        ContractError::TokenizerMismatch {
            expected: "tiny-byte-bpe@chapter-02-v1".to_string(),
            actual: "byte-oracle@chapter-02-v1".to_string(),
        }
    );
    assert_eq!(
        error.to_string(),
        "tokenizer mismatch: expected tiny-byte-bpe@chapter-02-v1, got byte-oracle@chapter-02-v1"
    );
    assert_eq!(
        ContractError::from(TokenizerError::InvalidTokenId(TokenId(5))).to_string(),
        "token id 5 is not in this vocabulary"
    );
    assert_eq!(Role::Assistant.name(), "assistant");
}
