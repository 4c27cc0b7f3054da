//! Byte-oriented tokenizers: a byte oracle, a tiny byte-fallback BPE, and the
//! four-token vocabulary of the numerical model.

use vstd::prelude::*;

use crate::text::{decimal, push_decimal};

verus! {

/// A model-vocabulary identity. The numeric value is meaningful only with the
/// tokenizer artifact and configuration that define it.
#[derive(Debug, Clone, Copy, PartialEq, Eq, PartialOrd, Ord, Hash, Structural)]
pub struct TokenId(pub u32);

#[derive(Debug, Clone, Copy, PartialEq, Eq)]
pub struct TokenizerIdentity {
    pub name: &'static str,
    pub revision: &'static str,
}

#[derive(Debug, Clone, Copy, PartialEq, Eq, PartialOrd, Ord, Hash, Structural)]
pub enum SpecialToken {
    Bos,
    Eos,
    Pad,
    Unk,
    System,
    User,
    Assistant,
    EndTurn,
}

#[derive(Debug, Clone, PartialEq, Eq)]
pub enum TokenizerError {
    InvalidTokenId(TokenId),
    SpecialTokenHasNoOrdinaryBytes(TokenId),
    MissingSpecialToken(SpecialToken),
    InvalidMergeTable(String),
    UnsupportedInput { offset: usize },
}

/// The debug name of a special token.
pub open spec fn special_token_name(token: SpecialToken) -> Seq<char> {
    match token {
        SpecialToken::Bos => "Bos"@,
        SpecialToken::Eos => "Eos"@,
        SpecialToken::Pad => "Pad"@,
        SpecialToken::Unk => "Unk"@,
        SpecialToken::System => "System"@,
        SpecialToken::User => "User"@,
        SpecialToken::Assistant => "Assistant"@,
        SpecialToken::EndTurn => "EndTurn"@,
    }
}

/// The human-readable message of a tokenizer error.
pub open spec fn tokenizer_error_message(error: TokenizerError) -> Seq<char> {
    match error {
        TokenizerError::InvalidTokenId(id) => "token id "@ + decimal(id.0 as nat)
            + " is not in this vocabulary"@,
        TokenizerError::SpecialTokenHasNoOrdinaryBytes(id) => "special token id "@ + decimal(
            id.0 as nat,
        ) + " has no ordinary text bytes"@,
        TokenizerError::MissingSpecialToken(token) => "tokenizer has no configured "@
            + special_token_name(token) + " token"@,
        TokenizerError::InvalidMergeTable(message) => "invalid BPE merge table: "@ + message@,
        TokenizerError::UnsupportedInput { offset } => "input at byte offset "@ + decimal(
            offset as nat,
        ) + " has no token in this tiny vocabulary"@,
    }
}

impl SpecialToken {
    fn debug_name(self) -> (name: &'static str)
        ensures
            name@ == special_token_name(self),
    {
        match self {
            SpecialToken::Bos => "Bos",
            SpecialToken::Eos => "Eos",
            SpecialToken::Pad => "Pad",
            SpecialToken::Unk => "Unk",
            SpecialToken::System => "System",
            SpecialToken::User => "User",
            SpecialToken::Assistant => "Assistant",
            SpecialToken::EndTurn => "EndTurn",
        }
    }
}

impl TokenizerError {
    /// The human-readable message of this error.
    pub fn to_string(&self) -> (message: String)
        ensures
            message@ == tokenizer_error_message(*self),
    {
        match self {
            TokenizerError::InvalidTokenId(id) => {
                let mut m = String::from_str("token id ");
                push_decimal(&mut m, id.0 as u64);
                m.append(" is not in this vocabulary");
                m
            },
            TokenizerError::SpecialTokenHasNoOrdinaryBytes(id) => {
                let mut m = String::from_str("special token id ");
                push_decimal(&mut m, id.0 as u64);
                m.append(" has no ordinary text bytes");
                m
            },
            TokenizerError::MissingSpecialToken(token) => {
                let mut m = String::from_str("tokenizer has no configured ");
                m.append(token.debug_name());
                m.append(" token");
                m
            },
            TokenizerError::InvalidMergeTable(message) => {
                let mut m = String::from_str("invalid BPE merge table: ");
                m.append(message.as_str());
                m
            },
            TokenizerError::UnsupportedInput { offset } => {
                let mut m = String::from_str("input at byte offset ");
                push_decimal(&mut m, *offset as u64);
                m.append(" has no token in this tiny vocabulary");
                m
            },
        }
    }
}

/// A `Result` holding a vector, seen through the vector's contents.
pub open spec fn vec_result<T, E>(r: Result<Vec<T>, E>) -> Result<Seq<T>, E> {
    match r {
        Ok(v) => Ok(v@),
        Err(e) => Err(e),
    }
}

/// Byte-oriented tokenizer boundary. Special insertion is deliberately absent
/// from `encode`: ordinary user bytes cannot become control identities merely
/// by spelling a marker-looking string.
pub trait Tokenizer: Sized {
    spec fn spec_identity(&self) -> TokenizerIdentity;

    spec fn spec_vocabulary_size(&self) -> usize;

    /// The token ids of `input`, or the reason it has none.
    spec fn spec_encode(&self, input: Seq<u8>) -> Result<Seq<TokenId>, TokenizerError>;

    /// The ordinary text bytes of one token.
    spec fn spec_decode_token(&self, id: TokenId) -> Result<Seq<u8>, TokenizerError>;

    spec fn spec_special_id(&self, token: SpecialToken) -> Option<TokenId>;

    fn identity(&self) -> (r: TokenizerIdentity)
        ensures
            r == self.spec_identity(),
    ;

    fn vocabulary_size(&self) -> (r: usize)
        ensures
            r == self.spec_vocabulary_size(),
    ;

    fn encode(&self, input: &[u8]) -> (r: Result<Vec<TokenId>, TokenizerError>)
        ensures
            vec_result(r) == self.spec_encode(input@),
    ;

    fn decode_token(&self, id: TokenId) -> (r: Result<Vec<u8>, TokenizerError>)
        ensures
            vec_result(r) == self.spec_decode_token(id),
    ;

    fn special_id(&self, token: SpecialToken) -> (r: Option<TokenId>)
        ensures
            r == self.spec_special_id(token),
    ;

}

/// Bytes of a token sequence under a per-token decoding: the concatenated
/// bytes of each id, or the error of the first id that has none.
pub open spec fn decode_with(
    decode: spec_fn(TokenId) -> Result<Seq<u8>, TokenizerError>,
    ids: Seq<TokenId>,
) -> Result<Seq<u8>, TokenizerError>
    decreases ids.len(),
{
    if ids.len() == 0 {
        Ok(Seq::empty())
    } else {
        match decode_with(decode, ids.drop_last()) {
            Err(e) => Err(e),
            Ok(prefix) => match decode(ids.last()) {
                Err(e) => Err(e),
                Ok(bytes) => Ok(prefix + bytes),
            },
        }
    }
}

/// The per-token decoding of a tokenizer.
pub open spec fn token_decoder<T: Tokenizer>(t: &T) -> spec_fn(TokenId) -> Result<
    Seq<u8>,
    TokenizerError,
> {
    |id: TokenId| t.spec_decode_token(id)
}

/// Bytes of a token sequence: the concatenated bytes of each id, or the error
/// of the first id that has none.
pub open spec fn decode_ids<T: Tokenizer>(t: &T, ids: Seq<TokenId>) -> Result<
    Seq<u8>,
    TokenizerError,
> {
    decode_with(token_decoder(t), ids)
}

/// A failure in a prefix of the ids is the failure of the whole sequence.
pub proof fn lemma_decode_with_error_extends(decode: spec_fn(TokenId) -> Result<Seq<u8>, TokenizerError>, ids: Seq<TokenId>, n: int)
    requires
        0 <= n <= ids.len(),
        decode_with(decode, ids.take(n)) is Err,
    ensures
        decode_with(decode, ids) == decode_with(decode, ids.take(n)),
    decreases ids.len() - n,
{
    if n < ids.len() {
        assert(ids.take(n + 1).drop_last() =~= ids.take(n));
        lemma_decode_with_error_extends(decode, ids, n + 1);
    } else {
        assert(ids.take(n) =~= ids);
    }
}

/// Decoding of whole token sequences, available on every [`Tokenizer`].
pub trait DecodeTokens: Tokenizer {
    /// Concatenates the bytes of every id, failing at the first id without bytes.
    fn decode(&self, ids: &[TokenId]) -> (r: Result<Vec<u8>, TokenizerError>)
        ensures
            vec_result(r) == decode_ids(self, ids@),
    ;
}

impl<T: Tokenizer> DecodeTokens for T {
    fn decode(&self, ids: &[TokenId]) -> (r: Result<Vec<u8>, TokenizerError>)
    {
        let mut output: Vec<u8> = Vec::new();
        let mut i: usize = 0;
        while i < ids.len()
            invariant
                i <= ids@.len(),
                decode_ids(self, ids@.take(i as int)) == Ok::<Seq<u8>, TokenizerError>(output@),
            decreases ids@.len() - i,
        {
            assert(ids@.take(i + 1).drop_last() =~= ids@.take(i as int));
            match self.decode_token(ids[i]) {
                Ok(bytes) => {
                    let mut bytes = bytes;
                    output.append(&mut bytes);
                },
                Err(e) => {
                    proof {
                        lemma_decode_with_error_extends(token_decoder(self), ids@, (i + 1) as int);
                    }
                    return Err(e);
                },
            }
            i = i + 1;
        }
        assert(ids@.take(ids@.len() as int) =~= ids@);
        Ok(output)
    }
}

/// Decoding a concatenation concatenates the decodings.
pub proof fn lemma_decode_with_append(decode: spec_fn(TokenId) -> Result<Seq<u8>, TokenizerError>, a: Seq<TokenId>, b: Seq<TokenId>)
    requires
        decode_with(decode, a) is Ok,
        decode_with(decode, b) is Ok,
    ensures
        decode_with(decode, a + b) == Ok::<Seq<u8>, TokenizerError>(
            decode_with(decode, a)->Ok_0 + decode_with(decode, b)->Ok_0,
        ),
    decreases b.len(),
{
    if b.len() == 0 {
        assert(a + b =~= a);
        assert(decode_with(decode, a)->Ok_0 + decode_with(decode, b)->Ok_0 =~= decode_with(decode, a)->Ok_0);
    } else {
        assert((a + b).drop_last() =~= a + b.drop_last());
        lemma_decode_with_append(decode, a, b.drop_last());
        assert((a + b).last() == b.last());
        let da = decode_with(decode, a)->Ok_0;
        let db = decode_with(decode, b.drop_last())->Ok_0;
        let last = decode(b.last())->Ok_0;
        assert(da + db + last =~= da + (db + last));
    }
}

/// Byte ids: each byte maps to the token id with the same value.
pub open spec fn byte_ids(input: Seq<u8>) -> Seq<TokenId> {
    input.map_values(|b: u8| TokenId(b as u32))
}

fn encode_bytes(input: &[u8]) -> (ids: Vec<TokenId>)
    ensures
        ids@ == byte_ids(input@),
{
    let mut ids: Vec<TokenId> = Vec::new();
    let mut i: usize = 0;
    while i < input.len()
        invariant
            i <= input@.len(),
            ids@ == byte_ids(input@.take(i as int)),
        decreases input@.len() - i,
    {
        ids.push(TokenId(input[i] as u32));
        i = i + 1;
        assert(byte_ids(input@.take(i as int)) =~= byte_ids(input@.take((i - 1) as int)).push(
            TokenId(input@[i - 1] as u32),
        ));
    }
    assert(input@.take(input@.len() as int) =~= input@);
    ids
}

/// Independent oracle: each byte maps to the token ID with the same value.
#[derive(Debug, Default, Clone, Copy)]
pub struct ByteTokenizer;

impl Tokenizer for ByteTokenizer {
    open spec fn spec_identity(&self) -> TokenizerIdentity {
        TokenizerIdentity { name: "byte-oracle", revision: "chapter-02-v1" }
    }

    open spec fn spec_vocabulary_size(&self) -> usize {
        256
    }

    open spec fn spec_encode(&self, input: Seq<u8>) -> Result<Seq<TokenId>, TokenizerError> {
        Ok(byte_ids(input))
    }

    open spec fn spec_decode_token(&self, id: TokenId) -> Result<Seq<u8>, TokenizerError> {
        if id.0 < 256 {
            Ok(seq![id.0 as u8])
        } else {
            Err(TokenizerError::InvalidTokenId(id))
        }
    }

    open spec fn spec_special_id(&self, token: SpecialToken) -> Option<TokenId> {
        None
    }

    fn identity(&self) -> (r: TokenizerIdentity) {
        TokenizerIdentity { name: "byte-oracle", revision: "chapter-02-v1" }
    }

    fn vocabulary_size(&self) -> (r: usize) {
        256
    }

    fn encode(&self, input: &[u8]) -> (r: Result<Vec<TokenId>, TokenizerError>) {
        Ok(encode_bytes(input))
    }

    fn decode_token(&self, id: TokenId) -> (r: Result<Vec<u8>, TokenizerError>) {
        if id.0 < 256 {
            let byte = id.0 as u8;
            let mut bytes: Vec<u8> = Vec::new();
            bytes.push(byte);
            Ok(bytes)
        } else {
            Err(TokenizerError::InvalidTokenId(id))
        }
    }

    fn special_id(&self, token: SpecialToken) -> (r: Option<TokenId>) {
        None
    }
}

/// Numeric value of the end-of-sequence id of the four-token vocabulary.
pub const TINY_LM_EOS: u32 = 0;

/// Numeric value of the `I` id of the four-token vocabulary.
pub const TINY_LM_I: u32 = 1;

/// Numeric value of the ` like` id of the four-token vocabulary.
pub const TINY_LM_LIKE: u32 = 2;

/// Numeric value of the ` Rust` id of the four-token vocabulary.
pub const TINY_LM_RUST: u32 = 3;

/// The text bytes of each ordinary id of the four-token vocabulary.
pub open spec fn tiny_lm_piece(id: u32) -> Seq<u8> {
    if id == 1 {
        seq![73u8]
    } else if id == 2 {
        seq![32u8, 108, 105, 107, 101]
    } else {
        seq![32u8, 82, 117, 115, 116]
    }
}

/// Encoding of `input` from byte `pos` on: greedy matching of ` Rust`,
/// ` like` and `I`; any other byte is unsupported at its offset.
pub open spec fn tiny_lm_encode_from(input: Seq<u8>, pos: int) -> Result<
    Seq<TokenId>,
    TokenizerError,
>
    decreases input.len() - pos,
{
    if pos < 0 || pos >= input.len() {
        Ok(Seq::empty())
    } else {
        let rest = input.skip(pos);
        let id: u32 = if rest.len() >= 5 && rest.take(5) == tiny_lm_piece(3) {
            3
        } else if rest.len() >= 5 && rest.take(5) == tiny_lm_piece(2) {
            2
        } else if rest[0] == 73 {
            1
        } else {
            0
        };
        if id == 0 {
            Err(TokenizerError::UnsupportedInput { offset: pos as usize })
        } else {
            match tiny_lm_encode_from(input, pos + tiny_lm_piece(id).len()) {
                Ok(ids) => Ok(seq![TokenId(id)] + ids),
                Err(e) => Err(e),
            }
        }
    }
}

/// Prefixes the ids of a successful result.
pub open spec fn prepend_ids(ids: Seq<TokenId>, r: Result<Seq<TokenId>, TokenizerError>) -> Result<
    Seq<TokenId>,
    TokenizerError,
> {
    match r {
        Ok(rest) => Ok(ids + rest),
        Err(e) => Err(e),
    }
}

fn tiny_lm_piece_bytes(id: u32) -> (bytes: Vec<u8>)
    requires
        1 <= id <= 3,
    ensures
        bytes@ == tiny_lm_piece(id),
{
    let mut bytes: Vec<u8> = Vec::new();
    if id == 1 {
        bytes.push(73);
    } else if id == 2 {
        bytes.push(32);
        bytes.push(108);
        bytes.push(105);
        bytes.push(107);
        bytes.push(101);
    } else {
        bytes.push(32);
        bytes.push(82);
        bytes.push(117);
        bytes.push(115);
        bytes.push(116);
    }
    assert(bytes@ =~= tiny_lm_piece(id));
    bytes
}

fn starts_with_at(input: &[u8], pos: usize, word: &Vec<u8>) -> (r: bool)
    requires
        pos <= input@.len(),
    ensures
        r == (input@.skip(pos as int).len() >= word@.len() && input@.skip(pos as int).take(
            word@.len() as int,
        ) == word@),
{
    let ghost rest = input@.skip(pos as int);
    if input.len() - pos < word.len() {
        return false;
    }
    assert(pos + word@.len() <= input@.len());
    let mut i: usize = 0;
    while i < word.len()
        invariant
            i <= word@.len(),
            pos + word@.len() <= input@.len(),
            rest == input@.skip(pos as int),
            forall|j: int| 0 <= j < i ==> rest[j] == word@[j],
        decreases word@.len() - i,
    {
        assert(pos + i < input.len());
        if input[pos + i] != word[i] {
            assert(rest.take(word@.len() as int)[i as int] != word@[i as int]);
            return false;
        }
        i = i + 1;
    }
    assert(rest.take(word@.len() as int) =~= word@);
    true
}

/// The vocabulary paired with the four-row numerical model fixture.
///
/// Leading spaces belong to the `like` and `Rust` pieces, so ordinary text
/// such as `I like Rust` round-trips while each vocabulary identity still
/// names exactly one embedding/logit row.
#[derive(Debug, Default, Clone, Copy)]
pub struct TinyLmTokenizer;

impl Tokenizer for TinyLmTokenizer {
    open spec fn spec_identity(&self) -> TokenizerIdentity {
        TokenizerIdentity { name: "engine1-four-token", revision: "chapter-03-v1" }
    }

    open spec fn spec_vocabulary_size(&self) -> usize {
        4
    }

    open spec fn spec_encode(&self, input: Seq<u8>) -> Result<Seq<TokenId>, TokenizerError> {
        tiny_lm_encode_from(input, 0)
    }

    open spec fn spec_decode_token(&self, id: TokenId) -> Result<Seq<u8>, TokenizerError> {
        if 1 <= id.0 <= 3 {
            Ok(tiny_lm_piece(id.0))
        } else if id.0 == 0 {
            Err(TokenizerError::SpecialTokenHasNoOrdinaryBytes(id))
        } else {
            Err(TokenizerError::InvalidTokenId(id))
        }
    }

    open spec fn spec_special_id(&self, token: SpecialToken) -> Option<TokenId> {
        if token == SpecialToken::Eos {
            Some(TokenId(TINY_LM_EOS))
        } else {
            None
        }
    }

    fn identity(&self) -> (r: TokenizerIdentity) {
        TokenizerIdentity { name: "engine1-four-token", revision: "chapter-03-v1" }
    }

    fn vocabulary_size(&self) -> (r: usize) {
        4
    }

    fn encode(&self, input: &[u8]) -> (r: Result<Vec<TokenId>, TokenizerError>) {
        let rust = tiny_lm_piece_bytes(3);
        let like = tiny_lm_piece_bytes(2);
        let mut ids: Vec<TokenId> = Vec::new();
        let mut pos: usize = 0;
        while pos < input.len()
            invariant
                pos <= input@.len(),
                rust@ == tiny_lm_piece(3),
                like@ == tiny_lm_piece(2),
                tiny_lm_encode_from(input@, 0) == prepend_ids(
                    ids@,
                    tiny_lm_encode_from(input@, pos as int),
                ),
            decreases input@.len() - pos,
        {
            let id: u32 = if starts_with_at(input, pos, &rust) {
                3
            } else if starts_with_at(input, pos, &like) {
                2
            } else if input[pos] == 73 {
                1
            } else {
                0
            };
            if id == 0 {
                return Err(TokenizerError::UnsupportedInput { offset: pos });
            }
            let width: usize = if id == 1 {
                1
            } else {
                5
            };
            assert(tiny_lm_piece(id).len() == width);
            let ghost before = tiny_lm_encode_from(input@, pos as int);
            let ghost old_ids = ids@;
            assert(input@.skip(pos as int)[0] == input@[pos as int]);
            ids.push(TokenId(id));
            pos = pos + width;
            proof {
                let after = tiny_lm_encode_from(input@, pos as int);
                assert(before == prepend_ids(seq![TokenId(id)], after));
                assert(ids@ == old_ids.push(TokenId(id)));
                match after {
                    Ok(rest) => {
                        assert(ids@ + rest =~= old_ids + (seq![TokenId(id)] + rest));
                    },
                    Err(_) => {},
                }
            }
        }
        assert(ids@ + Seq::<TokenId>::empty() =~= ids@);
        Ok(ids)
    }

    fn decode_token(&self, id: TokenId) -> (r: Result<Vec<u8>, TokenizerError>) {
        if 1 <= id.0 && id.0 <= 3 {
            Ok(tiny_lm_piece_bytes(id.0))
        } else if id.0 == 0 {
            Err(TokenizerError::SpecialTokenHasNoOrdinaryBytes(id))
        } else {
            Err(TokenizerError::InvalidTokenId(id))
        }
    }

    fn special_id(&self, token: SpecialToken) -> (r: Option<TokenId>) {
        match token {
            SpecialToken::Eos => Some(TokenId(TINY_LM_EOS)),
            _ => None,
        }
    }
}

/// One byte-pair merge: `left` followed by `right` becomes `result`; lower
/// ranks merge first.
#[derive(Debug, Clone, Copy, PartialEq, Eq, Structural)]
pub struct MergeRule {
    pub left: TokenId,
    pub right: TokenId,
    pub result: TokenId,
    pub rank: usize,
}

impl MergeRule {
    pub fn new(left: u32, right: u32, result: u32, rank: usize) -> (rule: Self)
        ensures
            rule == (MergeRule {
                left: TokenId(left),
                right: TokenId(right),
                result: TokenId(result),
                rank,
            }),
    {
        MergeRule { left: TokenId(left), right: TokenId(right), result: TokenId(result), rank }
    }
}

/// Numeric values of the teaching merge results.
pub const TOKEN_LO: u32 = 256;

pub const TOKEN_LOW: u32 = 257;

pub const TOKEN_ER: u32 = 258;

pub const TOKEN_LOWER: u32 = 259;

pub const TOKEN_BL: u32 = 260;

pub const TOKEN_BLU: u32 = 261;

pub const TOKEN_BLUE: u32 = 262;

pub const TOKEN_GR: u32 = 263;

pub const TOKEN_GRE: u32 = 264;

pub const TOKEN_GREE: u32 = 265;

pub const TOKEN_GREEN: u32 = 266;

/// Numeric values of the reserved special ids.
pub const TOKEN_BOS: u32 = 1000;

pub const TOKEN_EOS: u32 = 1001;

pub const TOKEN_PAD: u32 = 1002;

pub const TOKEN_UNK: u32 = 1003;

pub const TOKEN_SYSTEM: u32 = 1004;

pub const TOKEN_USER: u32 = 1005;

pub const TOKEN_ASSISTANT: u32 = 1006;

pub const TOKEN_END_TURN: u32 = 1007;

/// The reserved id of each special token.
pub open spec fn special_token_id(token: SpecialToken) -> u32 {
    match token {
        SpecialToken::Bos => 1000,
        SpecialToken::Eos => 1001,
        SpecialToken::Pad => 1002,
        SpecialToken::Unk => 1003,
        SpecialToken::System => 1004,
        SpecialToken::User => 1005,
        SpecialToken::Assistant => 1006,
        SpecialToken::EndTurn => 1007,
    }
}

/// Whether `id` is reserved for a special token.
pub open spec fn is_special_id(id: u32) -> bool {
    1000 <= id <= 1007
}

/// The first defect of a merge table, in the order the checks run.
#[derive(Debug, Clone, Copy, PartialEq, Eq)]
pub enum MergeTableFault {
    DuplicatePair { left: TokenId, right: TokenId },
    DuplicateRank { rank: usize },
    InvalidResult { result: TokenId },
    UndefinedLeft { left: TokenId, rank: usize },
    UndefinedRight { right: TokenId, rank: usize },
}

/// The message carried by [`TokenizerError::InvalidMergeTable`] for a fault.
pub open spec fn fault_message(fault: MergeTableFault) -> Seq<char> {
    match fault {
        MergeTableFault::DuplicatePair { left, right } => "duplicate pair ("@ + decimal(
            left.0 as nat,
        ) + ", "@ + decimal(right.0 as nat) + ")"@,
        MergeTableFault::DuplicateRank { rank } => "duplicate rank "@ + decimal(rank as nat),
        MergeTableFault::InvalidResult { result } => "result id "@ + decimal(result.0 as nat)
            + " is reserved, special, or duplicated"@,
        MergeTableFault::UndefinedLeft { left, rank } => "left id "@ + decimal(left.0 as nat)
            + " is undefined at rank "@ + decimal(rank as nat),
        MergeTableFault::UndefinedRight { right, rank } => "right id "@ + decimal(right.0 as nat)
            + " is undefined at rank "@ + decimal(rank as nat),
    }
}

/// Inserts `rule` after every rule of `sorted` whose rank is not greater.
pub open spec fn insert_by_rank(sorted: Seq<MergeRule>, rule: MergeRule) -> Seq<MergeRule>
    decreases sorted.len(),
{
    if sorted.len() == 0 {
        seq![rule]
    } else if sorted.last().rank <= rule.rank {
        sorted.push(rule)
    } else {
        insert_by_rank(sorted.drop_last(), rule).push(sorted.last())
    }
}

/// The rules in rank order; rules of equal rank keep their given order.
pub open spec fn sort_by_rank(rules: Seq<MergeRule>) -> Seq<MergeRule>
    decreases rules.len(),
{
    if rules.len() == 0 {
        rules
    } else {
        insert_by_rank(sort_by_rank(rules.drop_last()), rules.last())
    }
}

pub open spec fn pair_seen(rules: Seq<MergeRule>, i: int) -> bool {
    exists|j: int|
        0 <= j < i && #[trigger] rules[j].left == rules[i].left && rules[j].right == rules[i].right
}

pub open spec fn rank_seen(rules: Seq<MergeRule>, i: int) -> bool {
    exists|j: int| 0 <= j < i && #[trigger] rules[j].rank == rules[i].rank
}

pub open spec fn result_seen(rules: Seq<MergeRule>, i: int) -> bool {
    exists|j: int| 0 <= j < i && #[trigger] rules[j].result == rules[i].result
}

/// Whether `id` is a byte or the result of one of the first `n` rules.
pub open spec fn defined_before(rules: Seq<MergeRule>, n: int, id: TokenId) -> bool {
    id.0 <= 255 || exists|j: int| 0 <= j < n && #[trigger] rules[j].result == id
}

/// The first defect of rule `i` with respect to the rules before it.
pub open spec fn rule_fault(rules: Seq<MergeRule>, i: int) -> Option<MergeTableFault> {
    let rule = rules[i];
    if pair_seen(rules, i) {
        Some(MergeTableFault::DuplicatePair { left: rule.left, right: rule.right })
    } else if rank_seen(rules, i) {
        Some(MergeTableFault::DuplicateRank { rank: rule.rank })
    } else if rule.result.0 <= 255 || is_special_id(rule.result.0) || result_seen(rules, i) {
        Some(MergeTableFault::InvalidResult { result: rule.result })
    } else if !defined_before(rules, i, rule.left) {
        Some(MergeTableFault::UndefinedLeft { left: rule.left, rank: rule.rank })
    } else if !defined_before(rules, i, rule.right) {
        Some(MergeTableFault::UndefinedRight { right: rule.right, rank: rule.rank })
    } else {
        None
    }
}

/// The first defect among the first `n` rules.
pub open spec fn merge_table_fault_upto(rules: Seq<MergeRule>, n: int) -> Option<MergeTableFault>
    decreases n,
{
    if n <= 0 {
        None
    } else {
        match merge_table_fault_upto(rules, n - 1) {
            Some(fault) => Some(fault),
            None => rule_fault(rules, n - 1),
        }
    }
}

/// The first defect of a rank-ordered merge table, if any.
pub open spec fn merge_table_fault(rules: Seq<MergeRule>) -> Option<MergeTableFault> {
    merge_table_fault_upto(rules, rules.len() as int)
}

/// A defect-free table has no defective rule.
pub proof fn lemma_no_fault_no_rule_fault(rules: Seq<MergeRule>, n: int, i: int)
    requires
        merge_table_fault_upto(rules, n) is None,
        0 <= i < n,
    ensures
        rule_fault(rules, i) is None,
    decreases n,
{
    if i < n - 1 {
        lemma_no_fault_no_rule_fault(rules, n - 1, i);
    }
}

/// In a defect-free table results are distinct.
pub proof fn lemma_results_distinct(rules: Seq<MergeRule>, j: int, k: int)
    requires
        merge_table_fault(rules) is None,
        0 <= j < k < rules.len(),
    ensures
        rules[j].result != rules[k].result,
{
    lemma_no_fault_no_rule_fault(rules, rules.len() as int, k);
    assert(!result_seen(rules, k));
}

/// Byte piece of `id` given the pieces of the first `n` rules' results.
pub open spec fn piece_before(rules: Seq<MergeRule>, pieces: Seq<Seq<u8>>, n: int, id: TokenId) -> Seq<
    u8,
> {
    if id.0 <= 255 {
        seq![id.0 as u8]
    } else {
        pieces[choose|j: int| 0 <= j < n && rules[j].result == id]
    }
}

/// Where results are distinct, a result's piece is the piece at its rule.
proof fn lemma_piece_before_at(rules: Seq<MergeRule>, pieces: Seq<Seq<u8>>, n: int, j: int)
    requires
        merge_table_fault(rules) is None,
        0 <= j < n <= rules.len(),
        rules[j].result.0 > 255,
    ensures
        piece_before(rules, pieces, n, rules[j].result) == pieces[j],
{
    let id = rules[j].result;
    let k = choose|k: int| 0 <= k < n && rules[k].result == id;
    assert(0 <= k < n && rules[k].result == id);
    if k < j {
        lemma_results_distinct(rules, k, j);
    } else if j < k {
        lemma_results_distinct(rules, j, k);
    }
}

/// The first rule of the first `n` that merges `a` followed by `b`.
pub open spec fn first_rule_for(rules: Seq<MergeRule>, a: TokenId, b: TokenId, n: int) -> Option<
    MergeRule,
>
    decreases n,
{
    if n <= 0 {
        None
    } else {
        match first_rule_for(rules, a, b, n - 1) {
            Some(rule) => Some(rule),
            None => if rules[n - 1].left == a && rules[n - 1].right == b {
                Some(rules[n - 1])
            } else {
                None
            },
        }
    }
}

/// The pair to merge among positions `0..n`: the lowest rank wins and the
/// leftmost occurrence wins among equal ranks.
pub open spec fn best_merge(rules: Seq<MergeRule>, tokens: Seq<TokenId>, n: int) -> Option<
    (int, MergeRule),
>
    decreases n,
{
    if n <= 0 {
        None
    } else {
        let prev = best_merge(rules, tokens, n - 1);
        match first_rule_for(rules, tokens[n - 1], tokens[n], rules.len() as int) {
            Some(rule) => match prev {
                Some((index, current)) => if rule.rank < current.rank {
                    Some((n - 1, rule))
                } else {
                    prev
                },
                None => Some((n - 1, rule)),
            },
            None => prev,
        }
    }
}

/// `tokens` with the pair at `i` replaced by `id`.
pub open spec fn splice_pair(tokens: Seq<TokenId>, i: int, id: TokenId) -> Seq<TokenId> {
    tokens.take(i).push(id) + tokens.skip(i + 2)
}

/// Repeatedly merges the best pair until no pair has a rule.
pub open spec fn bpe_merge(rules: Seq<MergeRule>, tokens: Seq<TokenId>) -> Seq<TokenId>
    decreases tokens.len(),
{
    if tokens.len() < 2 {
        tokens
    } else {
        match best_merge(rules, tokens, tokens.len() - 1) {
            None => tokens,
            Some((i, rule)) => if 0 <= i < tokens.len() - 1 {
                bpe_merge(rules, splice_pair(tokens, i, rule.result))
            } else {
                tokens
            },
        }
    }
}

proof fn lemma_best_merge_bounds(rules: Seq<MergeRule>, tokens: Seq<TokenId>, n: int)
    ensures
        best_merge(rules, tokens, n) matches Some((i, rule)) ==> 0 <= i < n && first_rule_for(
            rules,
            tokens[i],
            tokens[i + 1],
            rules.len() as int,
        ) == Some(rule),
    decreases n,
{
    if n > 0 {
        lemma_best_merge_bounds(rules, tokens, n - 1);
    }
}

proof fn lemma_first_rule_for_in(rules: Seq<MergeRule>, a: TokenId, b: TokenId, n: int)
    ensures
        first_rule_for(rules, a, b, n) matches Some(rule) ==> exists|j: int|
            0 <= j < n && rules[j] == rule && rule.left == a && rule.right == b,
    decreases n,
{
    if n > 0 {
        lemma_first_rule_for_in(rules, a, b, n - 1);
    }
}

/// Whether rule `q` merges the adjacent pair of `tokens` at `i`.
pub open spec fn rule_merges_at(rules: Seq<MergeRule>, tokens: Seq<TokenId>, i: int, q: int) -> bool {
    &&& 0 <= i
    &&& i + 1 < tokens.len()
    &&& 0 <= q < rules.len()
    &&& rules[q].left == tokens[i]
    &&& rules[q].right == tokens[i + 1]
}

proof fn lemma_first_rule_for_none(rules: Seq<MergeRule>, a: TokenId, b: TokenId, n: int)
    ensures
        first_rule_for(rules, a, b, n) is None ==> forall|q: int|
            0 <= q < n ==> !(#[trigger] rules[q].left == a && rules[q].right == b),
    decreases n,
{
    if n > 0 {
        lemma_first_rule_for_none(rules, a, b, n - 1);
    }
}

/// What the scan over the pairs `0..m` chooses: nothing where no pair has a
/// rule, else a pair of lowest rank, leftmost among those of that rank.
proof fn lemma_best_merge_min(rules: Seq<MergeRule>, tokens: Seq<TokenId>, m: int)
    requires
        0 <= m < tokens.len(),
    ensures
        best_merge(rules, tokens, m) is None ==> forall|j: int|
            0 <= j < m ==> (#[trigger] first_rule_for(
                rules,
                tokens[j],
                tokens[j + 1],
                rules.len() as int,
            )) is None,
        best_merge(rules, tokens, m) matches Some((k, rule)) ==> {
            &&& 0 <= k < m
            &&& first_rule_for(rules, tokens[k], tokens[k + 1], rules.len() as int) == Some(rule)
            &&& forall|j: int|
                0 <= j < m && (#[trigger] first_rule_for(
                    rules,
                    tokens[j],
                    tokens[j + 1],
                    rules.len() as int,
                )) is Some ==> rule.rank <= first_rule_for(
                    rules,
                    tokens[j],
                    tokens[j + 1],
                    rules.len() as int,
                )->Some_0.rank
            &&& forall|j: int|
                0 <= j < k && (#[trigger] first_rule_for(
                    rules,
                    tokens[j],
                    tokens[j + 1],
                    rules.len() as int,
                )) is Some ==> rule.rank < first_rule_for(
                    rules,
                    tokens[j],
                    tokens[j + 1],
                    rules.len() as int,
                )->Some_0.rank
        },
    decreases m,
{
    if m > 0 {
        lemma_best_merge_min(rules, tokens, m - 1);
    }
}

/// In a defect-free table no two rules share a rank or a pair.
proof fn lemma_rules_distinct(rules: Seq<MergeRule>, a: int, b: int)
    requires
        merge_table_fault(rules) is None,
        0 <= a < b < rules.len(),
    ensures
        rules[a].rank != rules[b].rank,
        !(rules[a].left == rules[b].left && rules[a].right == rules[b].right),
{
    lemma_no_fault_no_rule_fault(rules, rules.len() as int, b);
    assert(!rank_seen(rules, b));
    assert(!pair_seen(rules, b));
}

/// Merging picks the lowest rank first: where rule `q` has the lowest rank
/// among the rules of all adjacent pairs, and `i` is its leftmost pair, the
/// result is that of merging the pair at `i` and going on from there.
pub proof fn law_bpe_merges_lowest_rank_first(
    rules: Seq<MergeRule>,
    tokens: Seq<TokenId>,
    i: int,
    q: int,
)
    requires
        merge_table_fault(rules) is None,
        rule_merges_at(rules, tokens, i, q),
        forall|j: int, p: int| #[trigger]
            rule_merges_at(rules, tokens, j, p) ==> rules[q].rank <= rules[p].rank,
        forall|j: int| 0 <= j < i ==> !#[trigger] rule_merges_at(rules, tokens, j, q),
    ensures
        bpe_merge(rules, tokens) == bpe_merge(rules, splice_pair(tokens, i, rules[q].result)),
{
    let len = rules.len() as int;
    let m = tokens.len() - 1;
    lemma_best_merge_min(rules, tokens, m);
    lemma_first_rule_for_none(rules, tokens[i], tokens[i + 1], len);
    assert(rules[q].left == tokens[i] && rules[q].right == tokens[i + 1]);
    let fi = first_rule_for(rules, tokens[i], tokens[i + 1], len)->Some_0;
    lemma_first_rule_for_in(rules, tokens[i], tokens[i + 1], len);
    let q2 = choose|q2: int|
        0 <= q2 < len && rules[q2] == fi && fi.left == tokens[i] && fi.right == tokens[i + 1];
    if q2 < q {
        lemma_rules_distinct(rules, q2, q);
    } else if q < q2 {
        lemma_rules_distinct(rules, q, q2);
    }
    assert(fi == rules[q]);
    let (k, rule) = best_merge(rules, tokens, m)->Some_0;
    lemma_first_rule_for_in(rules, tokens[k], tokens[k + 1], len);
    let q3 = choose|q3: int|
        0 <= q3 < len && rules[q3] == rule && rule.left == tokens[k] && rule.right == tokens[k + 1];
    assert(rule_merges_at(rules, tokens, k, q3));
    assert(rule.rank <= fi.rank);
    if q3 < q {
        lemma_rules_distinct(rules, q3, q);
    } else if q < q3 {
        lemma_rules_distinct(rules, q, q3);
    }
    assert(rule == rules[q]);
    if k < i {
        assert(rule_merges_at(rules, tokens, k, q));
    }
    assert(k == i);
}

/// Merging stops where no adjacent pair has a rule.
pub proof fn law_bpe_stops_when_no_pair_merges(rules: Seq<MergeRule>, tokens: Seq<TokenId>)
    requires
        forall|j: int, p: int| !#[trigger] rule_merges_at(rules, tokens, j, p),
    ensures
        bpe_merge(rules, tokens) == tokens,
{
    if tokens.len() >= 2 {
        let m = tokens.len() - 1;
        lemma_best_merge_min(rules, tokens, m);
        if best_merge(rules, tokens, m) is Some {
            let (k, rule) = best_merge(rules, tokens, m)->Some_0;
            lemma_first_rule_for_in(rules, tokens[k], tokens[k + 1], rules.len() as int);
            let q3 = choose|q3: int|
                0 <= q3 < rules.len() && rules[q3] == rule && rule.left == tokens[k] && rule.right
                    == tokens[k + 1];
            assert(rule_merges_at(rules, tokens, k, q3));
        }
    }
}

/// Merging runs to the end: no adjacent pair of the result has a rule.
pub proof fn law_bpe_result_has_no_mergeable_pair(rules: Seq<MergeRule>, tokens: Seq<TokenId>)
    ensures
        forall|j: int, p: int| !#[trigger] rule_merges_at(rules, bpe_merge(rules, tokens), j, p),
    decreases tokens.len(),
{
    if tokens.len() >= 2 {
        let m = tokens.len() - 1;
        lemma_best_merge_min(rules, tokens, m);
        match best_merge(rules, tokens, m) {
            None => {
                assert forall|j: int, p: int| !#[trigger] rule_merges_at(rules, tokens, j, p) by {
                    if rule_merges_at(rules, tokens, j, p) {
                        lemma_first_rule_for_none(rules, tokens[j], tokens[j + 1], rules.len() as int);
                        assert(first_rule_for(rules, tokens[j], tokens[j + 1], rules.len() as int) is None);
                    }
                }
                assert(bpe_merge(rules, tokens) == tokens);
            },
            Some((k, rule)) => {
                assert(splice_pair(tokens, k, rule.result).len() == tokens.len() - 1);
                law_bpe_result_has_no_mergeable_pair(rules, splice_pair(tokens, k, rule.result));
                assert(bpe_merge(rules, tokens) == bpe_merge(
                    rules,
                    splice_pair(tokens, k, rule.result),
                ));
            },
        }
    }
}

/// A deliberately small byte-fallback BPE. Its quadratic merge scan is easy to
/// inspect and intentionally not presented as a production optimization.
#[derive(Debug)]
pub struct TinyBpeTokenizer {
    merges: Vec<MergeRule>,
    merged: Vec<Vec<u8>>,
}

/// The byte piece of every result, in rule order.
pub open spec fn piece_table(merged: Seq<Vec<u8>>) -> Seq<Seq<u8>> {
    merged.map_values(|v: Vec<u8>| v@)
}

impl TinyBpeTokenizer {
    /// The merge rules in rank order.
    pub closed spec fn merges_view(&self) -> Seq<MergeRule> {
        self.merges@
    }

    /// The byte piece of each rule's result, in rule order.
    pub closed spec fn pieces_view(&self) -> Seq<Seq<u8>> {
        piece_table(self.merged@)
    }

    /// A defect-free, rank-ordered table whose every result piece is the
    /// concatenation of the pieces of its pair.
    #[verifier::type_invariant]
    pub closed spec fn wf(&self) -> bool {
        &&& self.merged@.len() == self.merges@.len()
        &&& merge_table_fault(self.merges@) is None
        &&& forall|i: int|
            #![trigger self.merged@[i]]
            0 <= i < self.merges@.len() ==> self.merged@[i]@ == piece_before(
                self.merges@,
                piece_table(self.merged@),
                i,
                self.merges@[i].left,
            ) + piece_before(self.merges@, piece_table(self.merged@), i, self.merges@[i].right)
    }

    /// The ordinary bytes of `id`: bytes stand for themselves, merge results
    /// for their piece; other ids have none.
    pub open spec fn piece(&self, id: TokenId) -> Option<Seq<u8>> {
        if id.0 <= 255 {
            Some(seq![id.0 as u8])
        } else if exists|j: int| 0 <= j < self.merges_view().len() && self.merges_view()[j].result == id {
            Some(
                self.pieces_view()[choose|j: int|
                    0 <= j < self.merges_view().len() && self.merges_view()[j].result == id],
            )
        } else {
            None
        }
    }
}

/// A copy of a byte vector.
pub fn copy_bytes(bytes: &Vec<u8>) -> (copy: Vec<u8>)
    ensures
        copy@ == bytes@,
{
    let mut copy: Vec<u8> = Vec::new();
    let mut i: usize = 0;
    while i < bytes.len()
        invariant
            i <= bytes@.len(),
            copy@ == bytes@.take(i as int),
        decreases bytes@.len() - i,
    {
        copy.push(bytes[i]);
        i = i + 1;
        assert(copy@ =~= bytes@.take(i as int));
    }
    assert(bytes@.take(bytes@.len() as int) =~= bytes@);
    copy
}

fn copy_rules(rules: &Vec<MergeRule>) -> (copy: Vec<MergeRule>)
    ensures
        copy@ == rules@,
{
    let mut copy: Vec<MergeRule> = Vec::new();
    let mut i: usize = 0;
    while i < rules.len()
        invariant
            i <= rules@.len(),
            copy@ == rules@.take(i as int),
        decreases rules@.len() - i,
    {
        copy.push(rules[i]);
        i = i + 1;
        assert(copy@ =~= rules@.take(i as int));
    }
    assert(rules@.take(rules@.len() as int) =~= rules@);
    copy
}

fn copy_pieces(pieces: &Vec<Vec<u8>>) -> (copy: Vec<Vec<u8>>)
    ensures
        piece_table(copy@) == piece_table(pieces@),
        copy@.len() == pieces@.len(),
        forall|i: int| 0 <= i < pieces@.len() ==> #[trigger] copy@[i]@ == pieces@[i]@,
{
    let mut copy: Vec<Vec<u8>> = Vec::new();
    let mut i: usize = 0;
    while i < pieces.len()
        invariant
            i <= pieces@.len(),
            copy@.len() == i,
            forall|j: int| 0 <= j < i ==> #[trigger] copy@[j]@ == pieces@[j]@,
        decreases pieces@.len() - i,
    {
        copy.push(copy_bytes(&pieces[i]));
        i = i + 1;
    }
    assert(piece_table(copy@) =~= piece_table(pieces@));
    copy
}

impl Clone for TinyBpeTokenizer {
    fn clone(&self) -> (copy: Self)
        ensures
            copy.merges_view() == self.merges_view(),
            copy.pieces_view() == self.pieces_view(),
    {
        proof {
            use_type_invariant(self);
        }
        let copy = TinyBpeTokenizer { merges: copy_rules(&self.merges), merged: copy_pieces(&self.merged) };
        assert(forall|i: int| 0 <= i < copy.merged@.len() ==> #[trigger] copy.merged@[i]@ == self.merged@[i]@);
        copy
    }
}


fn sort_rules_by_rank(merges: Vec<MergeRule>) -> (sorted: Vec<MergeRule>)
    ensures
        sorted@ == sort_by_rank(merges@),
{
    let mut out: Vec<MergeRule> = Vec::new();
    let mut i: usize = 0;
    assert(merges@.take(0) =~= Seq::<MergeRule>::empty());
    while i < merges.len()
        invariant
            i <= merges@.len(),
            out@ == sort_by_rank(merges@.take(i as int)),
        decreases merges@.len() - i,
    {
        let rule = merges[i];
        let mut j = out.len();
        assert(out@.take(j as int) =~= out@);
        assert(out@.skip(j as int) =~= Seq::<MergeRule>::empty());
        assert(insert_by_rank(out@, rule) =~= insert_by_rank(out@.take(j as int), rule) + out@.skip(
            j as int,
        ));
        while j > 0 && out[j - 1].rank > rule.rank
            invariant
                j <= out@.len(),
                i < merges@.len(),
                rule == merges@[i as int],
                out@ == sort_by_rank(merges@.take(i as int)),
                forall|k: int| j <= k < out@.len() ==> #[trigger] out@[k].rank > rule.rank,
                insert_by_rank(out@, rule) == insert_by_rank(out@.take(j as int), rule) + out@.skip(
                    j as int,
                ),
            decreases j,
        {
            proof {
                let t = out@.take(j as int);
                assert(t.drop_last() =~= out@.take(j - 1));
                assert(t.last() == out@[j - 1]);
                assert(insert_by_rank(t, rule) == insert_by_rank(t.drop_last(), rule).push(
                    t.last(),
                ));
                assert(insert_by_rank(out@.take(j - 1), rule).push(out@[j - 1]) + out@.skip(
                    j as int,
                ) =~= insert_by_rank(out@.take(j - 1), rule) + out@.skip(j - 1));
            }
            j = j - 1;
        }
        proof {
            let t = out@.take(j as int);
            if j > 0 {
                assert(t.last() == out@[j - 1]);
            }
            assert(insert_by_rank(t, rule) == t.push(rule));
            assert(t.push(rule) + out@.skip(j as int) =~= out@.insert(j as int, rule));
            assert(merges@.take(i + 1).drop_last() =~= merges@.take(i as int));
            assert(merges@.take(i + 1).last() == rule);
        }
        out.insert(j, rule);
        i = i + 1;
    }
    assert(merges@.take(merges@.len() as int) =~= merges@);
    out
}

fn pair_seen_at(rules: &Vec<MergeRule>, i: usize) -> (r: bool)
    requires
        i < rules@.len(),
    ensures
        r == pair_seen(rules@, i as int),
{
    let mut j: usize = 0;
    while j < i
        invariant
            j <= i < rules@.len(),
            forall|k: int|
                0 <= k < j ==> !(#[trigger] rules@[k].left == rules@[i as int].left
                    && rules@[k].right == rules@[i as int].right),
        decreases i - j,
    {
        if rules[j].left == rules[i].left && rules[j].right == rules[i].right {
            return true;
        }
        j = j + 1;
    }
    false
}

fn rank_seen_at(rules: &Vec<MergeRule>, i: usize) -> (r: bool)
    requires
        i < rules@.len(),
    ensures
        r == rank_seen(rules@, i as int),
{
    let mut j: usize = 0;
    while j < i
        invariant
            j <= i < rules@.len(),
            forall|k: int| 0 <= k < j ==> #[trigger] rules@[k].rank != rules@[i as int].rank,
        decreases i - j,
    {
        if rules[j].rank == rules[i].rank {
            return true;
        }
        j = j + 1;
    }
    false
}

fn result_seen_at(rules: &Vec<MergeRule>, i: usize) -> (r: bool)
    requires
        i < rules@.len(),
    ensures
        r == result_seen(rules@, i as int),
{
    let mut j: usize = 0;
    while j < i
        invariant
            j <= i < rules@.len(),
            forall|k: int| 0 <= k < j ==> #[trigger] rules@[k].result != rules@[i as int].result,
        decreases i - j,
    {
        if rules[j].result == rules[i].result {
            return true;
        }
        j = j + 1;
    }
    false
}

fn defined_before_at(rules: &Vec<MergeRule>, n: usize, id: TokenId) -> (r: bool)
    requires
        n <= rules@.len(),
    ensures
        r == defined_before(rules@, n as int, id),
{
    if id.0 <= 255 {
        return true;
    }
    let mut j: usize = 0;
    while j < n
        invariant
            j <= n <= rules@.len(),
            forall|k: int| 0 <= k < j ==> #[trigger] rules@[k].result != id,
        decreases n - j,
    {
        if rules[j].result == id {
            return true;
        }
        j = j + 1;
    }
    false
}

fn rule_fault_at(rules: &Vec<MergeRule>, i: usize) -> (r: Option<MergeTableFault>)
    requires
        i < rules@.len(),
    ensures
        r == rule_fault(rules@, i as int),
{
    let rule = rules[i];
    if pair_seen_at(rules, i) {
        Some(MergeTableFault::DuplicatePair { left: rule.left, right: rule.right })
    } else if rank_seen_at(rules, i) {
        Some(MergeTableFault::DuplicateRank { rank: rule.rank })
    } else if rule.result.0 <= 255 || (1000 <= rule.result.0 && rule.result.0 <= 1007)
        || result_seen_at(rules, i) {
        Some(MergeTableFault::InvalidResult { result: rule.result })
    } else if !defined_before_at(rules, i, rule.left) {
        Some(MergeTableFault::UndefinedLeft { left: rule.left, rank: rule.rank })
    } else if !defined_before_at(rules, i, rule.right) {
        Some(MergeTableFault::UndefinedRight { right: rule.right, rank: rule.rank })
    } else {
        None
    }
}

fn table_fault(rules: &Vec<MergeRule>) -> (r: Option<MergeTableFault>)
    ensures
        r == merge_table_fault(rules@),
{
    let mut i: usize = 0;
    while i < rules.len()
        invariant
            i <= rules@.len(),
            merge_table_fault_upto(rules@, i as int) is None,
        decreases rules@.len() - i,
    {
        let fault = rule_fault_at(rules, i);
        if fault.is_some() {
            proof {
                lemma_fault_upto_stable(rules@, (i + 1) as int, rules@.len() as int);
            }
            return fault;
        }
        i = i + 1;
    }
    None
}

/// Once some prefix has a defect, every longer prefix reports the same one.
proof fn lemma_fault_upto_stable(rules: Seq<MergeRule>, m: int, n: int)
    requires
        0 <= m <= n,
        merge_table_fault_upto(rules, m) is Some,
    ensures
        merge_table_fault_upto(rules, n) == merge_table_fault_upto(rules, m),
    decreases n - m,
{
    if m < n {
        lemma_fault_upto_stable(rules, m, n - 1);
    }
}

fn fault_message_string(fault: MergeTableFault) -> (message: String)
    ensures
        message@ == fault_message(fault),
{
    match fault {
        MergeTableFault::DuplicatePair { left, right } => {
            let mut m = String::from_str("duplicate pair (");
            push_decimal(&mut m, left.0 as u64);
            m.append(", ");
            push_decimal(&mut m, right.0 as u64);
            m.append(")");
            m
        },
        MergeTableFault::DuplicateRank { rank } => {
            let mut m = String::from_str("duplicate rank ");
            push_decimal(&mut m, rank as u64);
            m
        },
        MergeTableFault::InvalidResult { result } => {
            let mut m = String::from_str("result id ");
            push_decimal(&mut m, result.0 as u64);
            m.append(" is reserved, special, or duplicated");
            m
        },
        MergeTableFault::UndefinedLeft { left, rank } => {
            let mut m = String::from_str("left id ");
            push_decimal(&mut m, left.0 as u64);
            m.append(" is undefined at rank ");
            push_decimal(&mut m, rank as u64);
            m
        },
        MergeTableFault::UndefinedRight { right, rank } => {
            let mut m = String::from_str("right id ");
            push_decimal(&mut m, right.0 as u64);
            m.append(" is undefined at rank ");
            push_decimal(&mut m, rank as u64);
            m
        },
    }
}

/// Pieces that agree below `n` give the same piece to ids defined below `n`.
proof fn lemma_piece_before_agree(
    rules: Seq<MergeRule>,
    p: Seq<Seq<u8>>,
    q: Seq<Seq<u8>>,
    n: int,
    id: TokenId,
)
    requires
        n <= p.len(),
        n <= q.len(),
        forall|j: int| 0 <= j < n ==> p[j] == q[j],
        defined_before(rules, n, id),
    ensures
        piece_before(rules, p, n, id) == piece_before(rules, q, n, id),
{
    if id.0 > 255 {
        let j = choose|j: int| 0 <= j < n && rules[j].result == id;
        assert(0 <= j < n && rules[j].result == id);
    }
}

fn lookup_piece(rules: &Vec<MergeRule>, merged: &Vec<Vec<u8>>, n: usize, id: TokenId) -> (piece: Vec<
    u8,
>)
    requires
        n <= rules@.len(),
        merged@.len() == n,
        merge_table_fault(rules@) is None,
        defined_before(rules@, n as int, id),
    ensures
        piece@ == piece_before(rules@, piece_table(merged@), n as int, id),
{
    if id.0 <= 255 {
        let mut piece: Vec<u8> = Vec::new();
        piece.push(id.0 as u8);
        assert(piece@ =~= seq![id.0 as u8]);
        return piece;
    }
    let mut j: usize = 0;
    while j < n
        invariant
            j <= n <= rules@.len(),
            merged@.len() == n,
            merge_table_fault(rules@) is None,
            id.0 > 255,
            forall|k: int| 0 <= k < j ==> #[trigger] rules@[k].result != id,
        decreases n - j,
    {
        if rules[j].result == id {
            proof {
                lemma_piece_before_at(rules@, piece_table(merged@), n as int, j as int);
            }
            return copy_bytes(&merged[j]);
        }
        j = j + 1;
    }
    Vec::new()
}

fn build_pieces(rules: &Vec<MergeRule>) -> (merged: Vec<Vec<u8>>)
    requires
        merge_table_fault(rules@) is None,
    ensures
        merged@.len() == rules@.len(),
        forall|i: int|
            #![trigger merged@[i]]
            0 <= i < rules@.len() ==> merged@[i]@ == piece_before(
                rules@,
                piece_table(merged@),
                i,
                rules@[i].left,
            ) + piece_before(rules@, piece_table(merged@), i, rules@[i].right),
{
    let mut merged: Vec<Vec<u8>> = Vec::new();
    let mut i: usize = 0;
    while i < rules.len()
        invariant
            i <= rules@.len(),
            merged@.len() == i,
            merge_table_fault(rules@) is None,
            forall|k: int|
                #![trigger merged@[k]]
                0 <= k < i ==> merged@[k]@ == piece_before(
                    rules@,
                    piece_table(merged@),
                    k,
                    rules@[k].left,
                ) + piece_before(rules@, piece_table(merged@), k, rules@[k].right),
        decreases rules@.len() - i,
    {
        proof {
            lemma_no_fault_no_rule_fault(rules@, rules@.len() as int, i as int);
        }
        let mut piece = lookup_piece(rules, &merged, i, rules[i].left);
        let mut right = lookup_piece(rules, &merged, i, rules[i].right);
        piece.append(&mut right);
        let ghost before = piece_table(merged@);
        merged.push(piece);
        proof {
            let after = piece_table(merged@);
            assert forall|k: int| 0 <= k <= i implies #[trigger] merged@[k]@ == piece_before(
                rules@,
                after,
                k,
                rules@[k].left,
            ) + piece_before(rules@, after, k, rules@[k].right) by {
                lemma_no_fault_no_rule_fault(rules@, rules@.len() as int, k);
                assert forall|j: int| 0 <= j < k implies before[j] == after[j] by {}
                lemma_piece_before_agree(rules@, before, after, k, rules@[k].left);
                lemma_piece_before_agree(rules@, before, after, k, rules@[k].right);
            }
        }
        i = i + 1;
    }
    merged
}

/// The built-in teaching merge table.
pub open spec fn teaching_rules() -> Seq<MergeRule> {
    seq![
        MergeRule { left: TokenId(108), right: TokenId(111), result: TokenId(256), rank: 0 },
        MergeRule { left: TokenId(256), right: TokenId(119), result: TokenId(257), rank: 1 },
        MergeRule { left: TokenId(101), right: TokenId(114), result: TokenId(258), rank: 2 },
        MergeRule { left: TokenId(257), right: TokenId(258), result: TokenId(259), rank: 3 },
        MergeRule { left: TokenId(98), right: TokenId(108), result: TokenId(260), rank: 4 },
        MergeRule { left: TokenId(260), right: TokenId(117), result: TokenId(261), rank: 5 },
        MergeRule { left: TokenId(261), right: TokenId(101), result: TokenId(262), rank: 6 },
        MergeRule { left: TokenId(103), right: TokenId(114), result: TokenId(263), rank: 7 },
        MergeRule { left: TokenId(263), right: TokenId(101), result: TokenId(264), rank: 8 },
        MergeRule { left: TokenId(264), right: TokenId(101), result: TokenId(265), rank: 9 },
        MergeRule { left: TokenId(265), right: TokenId(110), result: TokenId(266), rank: 10 },
    ]
}

/// A table already in strictly increasing rank order is its own sort.
proof fn lemma_sorted_is_own_sort(rules: Seq<MergeRule>)
    requires
        forall|i: int, j: int| 0 <= i < j < rules.len() ==> rules[i].rank < rules[j].rank,
    ensures
        sort_by_rank(rules) == rules,
    decreases rules.len(),
{
    if rules.len() > 0 {
        let init = rules.drop_last();
        lemma_sorted_is_own_sort(init);
        if init.len() > 0 {
            assert(init.last().rank < rules.last().rank);
        }
        assert(init.push(rules.last()) =~= rules);
    }
}

proof fn lemma_teaching_rules_valid()
    ensures
        sort_by_rank(teaching_rules()) == teaching_rules(),
        merge_table_fault(teaching_rules()) is None,
{
    let t = teaching_rules();
    assert(forall|i: int| 0 <= i < t.len() ==> #[trigger] t[i].rank == i);
    assert(forall|i: int| 0 <= i < t.len() ==> #[trigger] t[i].result.0 == 256 + i);
    lemma_sorted_is_own_sort(t);
    assert forall|i: int| 0 <= i < t.len() implies #[trigger] rule_fault(t, i) is None by {
        assert(!rank_seen(t, i));
        assert(!result_seen(t, i));
        assert(defined_before(t, i, t[i].left)) by {
            if t[i].left.0 > 255 {
                assert(t[t[i].left.0 - 256].result == t[i].left);
            }
        }
        assert(defined_before(t, i, t[i].right)) by {
            if t[i].right.0 > 255 {
                assert(t[t[i].right.0 - 256].result == t[i].right);
            }
        }
        assert(!pair_seen(t, i));
    }
    lemma_all_rules_fine_no_fault(t, t.len() as int);
}

proof fn lemma_all_rules_fine_no_fault(rules: Seq<MergeRule>, n: int)
    requires
        0 <= n <= rules.len(),
        forall|i: int| 0 <= i < n ==> #[trigger] rule_fault(rules, i) is None,
    ensures
        merge_table_fault_upto(rules, n) is None,
    decreases n,
{
    if n > 0 {
        lemma_all_rules_fine_no_fault(rules, n - 1);
    }
}

impl TinyBpeTokenizer {
    /// The teaching tokenizer: `lower`, `blue` and `green` merge to single ids.
    pub fn teaching() -> (t: Self)
        ensures
            t.merges_view() == teaching_rules(),
            t.results_concatenate(),
    {
        let mut rules: Vec<MergeRule> = Vec::new();
        rules.push(MergeRule::new(108, 111, TOKEN_LO, 0));
        rules.push(MergeRule::new(TOKEN_LO, 119, TOKEN_LOW, 1));
        rules.push(MergeRule::new(101, 114, TOKEN_ER, 2));
        rules.push(MergeRule::new(TOKEN_LOW, TOKEN_ER, TOKEN_LOWER, 3));
        rules.push(MergeRule::new(98, 108, TOKEN_BL, 4));
        rules.push(MergeRule::new(TOKEN_BL, 117, TOKEN_BLU, 5));
        rules.push(MergeRule::new(TOKEN_BLU, 101, TOKEN_BLUE, 6));
        rules.push(MergeRule::new(103, 114, TOKEN_GR, 7));
        rules.push(MergeRule::new(TOKEN_GR, 101, TOKEN_GRE, 8));
        rules.push(MergeRule::new(TOKEN_GRE, 101, TOKEN_GREE, 9));
        rules.push(MergeRule::new(TOKEN_GREE, 110, TOKEN_GREEN, 10));
        assert(rules@ =~= teaching_rules());
        proof {
            lemma_teaching_rules_valid();
        }
        Self::try_new(rules).unwrap()
    }

    /// Validates a merge table, ordered by rank (equal ranks keep their
    /// order), and builds the piece of every result.
    pub fn try_new(merges: Vec<MergeRule>) -> (r: Result<Self, TokenizerError>)
        ensures
            merge_table_fault(sort_by_rank(merges@)) matches Some(fault) ==> (r matches Err(
                TokenizerError::InvalidMergeTable(message),
            ) && message@ == fault_message(fault)),
            merge_table_fault(sort_by_rank(merges@)) is None ==> (r matches Ok(t)
                && t.merges_view() == sort_by_rank(merges@)),
            r matches Ok(t) ==> t.results_concatenate(),
    {
        let ordered = sort_rules_by_rank(merges);
        match table_fault(&ordered) {
            Some(fault) => Err(TokenizerError::InvalidMergeTable(fault_message_string(fault))),
            None => {
                let merged = build_pieces(&ordered);
                let t = TinyBpeTokenizer { merges: ordered, merged };
                proof {
                    use_type_invariant(&t);
                    t.lemma_results_concatenate();
                }
                Ok(t)
            },
        }
    }

    /// The merge rules in rank order.
    pub fn merge_rules(&self) -> (rules: &[MergeRule])
        ensures
            rules@ == self.merges_view(),
    {
        self.merges.as_slice()
    }

    fn lookup_rule(&self, a: TokenId, b: TokenId) -> (r: Option<MergeRule>)
        ensures
            r == first_rule_for(self.merges_view(), a, b, self.merges_view().len() as int),
    {
        let mut j: usize = 0;
        while j < self.merges.len()
            invariant
                j <= self.merges@.len(),
                first_rule_for(self.merges@, a, b, j as int) is None,
            decreases self.merges@.len() - j,
        {
            if self.merges[j].left == a && self.merges[j].right == b {
                proof {
                    lemma_first_rule_for_stable(
                        self.merges@,
                        a,
                        b,
                        (j + 1) as int,
                        self.merges@.len() as int,
                    );
                }
                return Some(self.merges[j]);
            }
            j = j + 1;
        }
        None
    }
}

/// Once found among a prefix, the first matching rule stays the same.
proof fn lemma_first_rule_for_stable(rules: Seq<MergeRule>, a: TokenId, b: TokenId, m: int, n: int)
    requires
        0 <= m <= n,
        first_rule_for(rules, a, b, m) is Some,
    ensures
        first_rule_for(rules, a, b, n) == first_rule_for(rules, a, b, m),
    decreases n - m,
{
    if m < n {
        lemma_first_rule_for_stable(rules, a, b, m, n - 1);
    }
}

/// The best pair seen so far, with its position as an integer.
pub open spec fn best_view(best: Option<(usize, MergeRule)>) -> Option<(int, MergeRule)> {
    match best {
        Some((i, rule)) => Some((i as int, rule)),
        None => None,
    }
}


/// A sequence decodes exactly when every one of its ids does.
pub proof fn lemma_decode_with_ok_iff(decode: spec_fn(TokenId) -> Result<Seq<u8>, TokenizerError>, ids: Seq<TokenId>)
    ensures
        decode_with(decode, ids) is Ok <==> forall|k: int|
            0 <= k < ids.len() ==> #[trigger] decode(ids[k]) is Ok,
    decreases ids.len(),
{
    if ids.len() > 0 {
        lemma_decode_with_ok_iff(decode, ids.drop_last());
        if decode_with(decode, ids) is Ok {
            assert forall|k: int| 0 <= k < ids.len() implies #[trigger] decode(
                ids[k],
            ) is Ok by {
                if k < ids.len() - 1 {
                    assert(ids.drop_last()[k] == ids[k]);
                }
            }
        } else {
            if forall|k: int| 0 <= k < ids.len() ==> #[trigger] decode(ids[k]) is Ok {
                assert forall|k: int|
                    0 <= k < ids.drop_last().len() implies #[trigger] decode(
                    ids.drop_last()[k],
                ) is Ok by {
                    assert(ids.drop_last()[k] == ids[k]);
                }
                assert(decode(ids[ids.len() - 1]) is Ok);
            }
        }
    }
}

/// Replacing an adjacent pair by an id whose bytes are the pair's bytes keeps
/// the decoded bytes.
pub proof fn lemma_decode_splice(decode: spec_fn(TokenId) -> Result<Seq<u8>, TokenizerError>, ids: Seq<TokenId>, i: int, id: TokenId)
    requires
        0 <= i < ids.len() - 1,
        decode_with(decode, ids) is Ok,
        decode(id) == Ok::<Seq<u8>, TokenizerError>(
            decode(ids[i])->Ok_0 + decode(ids[i + 1])->Ok_0,
        ),
    ensures
        decode_with(decode, splice_pair(ids, i, id)) == decode_with(decode, ids),
{
    let a = ids.take(i);
    let pair = seq![ids[i], ids[i + 1]];
    let one = seq![id];
    let b = ids.skip(i + 2);
    assert(ids =~= a + pair + b);
    assert(splice_pair(ids, i, id) =~= a + one + b);
    lemma_decode_with_ok_iff(decode, ids);
    lemma_decode_with_ok_iff(decode, a);
    lemma_decode_with_ok_iff(decode, b);
    lemma_decode_with_ok_iff(decode, pair);
    lemma_decode_with_ok_iff(decode, one);
    assert forall|k: int| 0 <= k < a.len() implies #[trigger] decode(a[k]) is Ok by {
        assert(a[k] == ids[k]);
    }
    assert forall|k: int| 0 <= k < b.len() implies #[trigger] decode(b[k]) is Ok by {
        assert(b[k] == ids[k + i + 2]);
    }
    assert(decode(ids[i]) is Ok);
    assert(decode(ids[i + 1]) is Ok);
    assert(pair.drop_last() =~= seq![ids[i]]);
    assert(seq![ids[i]].drop_last() =~= Seq::<TokenId>::empty());
    assert(one.drop_last() =~= Seq::<TokenId>::empty());
    let dl = decode(ids[i])->Ok_0;
    let dr = decode(ids[i + 1])->Ok_0;
    assert(seq![ids[i]].last() == ids[i]);
    assert(one.last() == id);
    assert(pair.last() == ids[i + 1]);
    assert(decode_with(decode, Seq::<TokenId>::empty()) == Ok::<Seq<u8>, TokenizerError>(
        Seq::empty(),
    ));
    assert(decode_with(decode, seq![ids[i]]) == Ok::<Seq<u8>, TokenizerError>(Seq::empty() + dl));
    assert(Seq::<u8>::empty() + dl =~= dl);
    assert(decode_with(decode, pair) == Ok::<Seq<u8>, TokenizerError>(dl + dr));
    assert(decode_with(decode, one) == Ok::<Seq<u8>, TokenizerError>(Seq::empty() + (dl + dr)));
    assert(Seq::<u8>::empty() + (dl + dr) =~= dl + dr);
    lemma_decode_with_append(decode, a, pair);
    lemma_decode_with_append(decode, a + pair, b);
    lemma_decode_with_append(decode, a, one);
    lemma_decode_with_append(decode, a + one, b);
}

impl TinyBpeTokenizer {
    /// Where the table is well formed, every id defined before rule `j` has
    /// its full-table piece there.
    proof fn lemma_piece_before_is_piece(&self, j: int, id: TokenId)
        requires
            self.wf(),
            0 <= j <= self.merges_view().len(),
            defined_before(self.merges_view(), j, id),
        ensures
            self.piece(id) == Some(piece_before(self.merges_view(), self.pieces_view(), j, id)),
    {
        if id.0 > 255 {
            let rules = self.merges_view();
            let k = choose|k: int| 0 <= k < j && rules[k].result == id;
            assert(0 <= k < j && rules[k].result == id);
            lemma_piece_before_at(rules, self.pieces_view(), j, k);
            let m = choose|m: int| 0 <= m < rules.len() && rules[m].result == id;
            assert(0 <= m < rules.len() && rules[m].result == id);
            if m < k {
                lemma_results_distinct(rules, m, k);
            } else if k < m {
                lemma_results_distinct(rules, k, m);
            }
        }
    }

    /// The ordinary bytes of one token: none for special ids, the piece otherwise.
    pub open spec fn token_bytes(&self, id: TokenId) -> Result<Seq<u8>, TokenizerError> {
        if is_special_id(id.0) {
            Err(TokenizerError::SpecialTokenHasNoOrdinaryBytes(id))
        } else {
            match self.piece(id) {
                Some(bytes) => Ok(bytes),
                None => Err(TokenizerError::InvalidTokenId(id)),
            }
        }
    }

    /// Every rule's result decodes to the bytes of its left id followed by
    /// those of its right id.
    pub open spec fn results_concatenate(&self) -> bool {
        forall|j: int|
            0 <= j < self.merges_view().len() ==> {
                let rule = #[trigger] self.merges_view()[j];
                &&& self.token_bytes(rule.left) is Ok
                &&& self.token_bytes(rule.right) is Ok
                &&& self.token_bytes(rule.result) == Ok::<Seq<u8>, TokenizerError>(
                    self.token_bytes(rule.left)->Ok_0 + self.token_bytes(rule.right)->Ok_0,
                )
            }
    }

    /// A well-formed table's results decode to their pairs' bytes.
    proof fn lemma_results_concatenate(&self)
        requires
            self.wf(),
        ensures
            self.results_concatenate(),
    {
        let rules = self.merges_view();
        assert forall|j: int| 0 <= j < rules.len() implies {
            let rule = #[trigger] rules[j];
            &&& self.token_bytes(rule.left) is Ok
            &&& self.token_bytes(rule.right) is Ok
            &&& self.token_bytes(rule.result) == Ok::<Seq<u8>, TokenizerError>(
                self.token_bytes(rule.left)->Ok_0 + self.token_bytes(rule.right)->Ok_0,
            )
        } by {
            let rule = rules[j];
            self.lemma_result_piece(j);
            lemma_no_fault_no_rule_fault(rules, rules.len() as int, j);
            if rule.left.0 > 255 {
                let k = choose|k: int| 0 <= k < j && #[trigger] rules[k].result == rule.left;
                self.lemma_result_piece(k);
            }
            if rule.right.0 > 255 {
                let k = choose|k: int| 0 <= k < j && #[trigger] rules[k].result == rule.right;
                self.lemma_result_piece(k);
            }
        }
    }

    /// [`Self::token_bytes`] as a per-token decoding.
    pub open spec fn bytes_decoder(&self) -> spec_fn(TokenId) -> Result<Seq<u8>, TokenizerError> {
        |id: TokenId| self.token_bytes(id)
    }

    /// The piece of rule `j`'s result is the concatenation of its pair's pieces.
    proof fn lemma_result_piece(&self, j: int)
        requires
            self.wf(),
            0 <= j < self.merges_view().len(),
        ensures
            ({
                let rule = self.merges_view()[j];
                &&& self.piece(rule.left) is Some
                &&& self.piece(rule.right) is Some
                &&& !is_special_id(rule.result.0)
                &&& self.piece(rule.result) == Some(
                    self.piece(rule.left)->Some_0 + self.piece(rule.right)->Some_0,
                )
            }),
    {
        let rules = self.merges_view();
        let rule = rules[j];
        lemma_no_fault_no_rule_fault(rules, rules.len() as int, j);
        self.lemma_piece_before_is_piece(j, rule.left);
        self.lemma_piece_before_is_piece(j, rule.right);
        assert(defined_before(rules, j + 1, rule.result));
        self.lemma_piece_before_is_piece(j + 1, rule.result);
        lemma_piece_before_at(rules, self.pieces_view(), j + 1, j);
        assert(self.pieces_view()[j] == self.merged@[j]@);
    }

    /// Ids that all decode are not special.
    proof fn lemma_decoded_not_special(&self, ids: Seq<TokenId>)
        requires
            decode_with(self.bytes_decoder(), ids) is Ok,
        ensures
            forall|k: int| 0 <= k < ids.len() ==> !is_special_id(#[trigger] ids[k].0),
    {
        lemma_decode_with_ok_iff(self.bytes_decoder(), ids);
        assert forall|k: int| 0 <= k < ids.len() implies !is_special_id(#[trigger] ids[k].0) by {
            assert(self.bytes_decoder()(ids[k]) is Ok);
        }
    }

    /// Byte ids decode to their bytes.
    proof fn lemma_decode_byte_ids(&self, input: Seq<u8>)
        ensures
            decode_with(self.bytes_decoder(), byte_ids(input)) == Ok::<Seq<u8>, TokenizerError>(
                input,
            ),
        decreases input.len(),
    {
        if input.len() > 0 {
            assert(byte_ids(input).drop_last() =~= byte_ids(input.drop_last()));
            self.lemma_decode_byte_ids(input.drop_last());
            assert(input.drop_last().push(input.last()) =~= input);
            assert(input.drop_last() + seq![input.last()] =~= input);
        } else {
            assert(byte_ids(input) =~= Seq::<TokenId>::empty());
            assert(input =~= Seq::<u8>::empty());
        }
    }
}

impl Tokenizer for TinyBpeTokenizer {
    open spec fn spec_identity(&self) -> TokenizerIdentity {
        TokenizerIdentity { name: "tiny-byte-bpe", revision: "chapter-02-v1" }
    }

    /// Every numeric identity in `0..=1007`, including unused gaps, needs a
    /// row in a compatible logit vector.
    open spec fn spec_vocabulary_size(&self) -> usize {
        1008
    }

    open spec fn spec_encode(&self, input: Seq<u8>) -> Result<Seq<TokenId>, TokenizerError> {
        Ok(bpe_merge(self.merges_view(), byte_ids(input)))
    }

    open spec fn spec_decode_token(&self, id: TokenId) -> Result<Seq<u8>, TokenizerError> {
        self.token_bytes(id)
    }

    open spec fn spec_special_id(&self, token: SpecialToken) -> Option<TokenId> {
        Some(TokenId(special_token_id(token)))
    }

    fn identity(&self) -> (r: TokenizerIdentity) {
        TokenizerIdentity { name: "tiny-byte-bpe", revision: "chapter-02-v1" }
    }

    fn vocabulary_size(&self) -> (r: usize) {
        TOKEN_END_TURN as usize + 1
    }

    /// Byte ids, then repeated merging of the lowest-rank adjacent pair
    /// (leftmost first). Decoding the result gives back `input`, and no
    /// special id is ever produced.
    fn encode(&self, input: &[u8]) -> (r: Result<Vec<TokenId>, TokenizerError>)
        ensures
            r matches Ok(ids) ==> decode_with(self.bytes_decoder(), ids@) == Ok::<
                Seq<u8>,
                TokenizerError,
            >(input@),
            r matches Ok(ids) ==> forall|k: int|
                0 <= k < ids@.len() ==> !is_special_id(#[trigger] ids@[k].0),
    {
        proof {
            use_type_invariant(self);
        }
        let mut tokens = encode_bytes(input);
        let ghost start = tokens@;
        proof {
            self.lemma_decode_byte_ids(input@);
            lemma_decode_with_ok_iff(self.bytes_decoder(), tokens@);
            self.lemma_decoded_not_special(tokens@);
        }
        if tokens.len() < 2 {
            return Ok(tokens);
        }
        loop
            invariant
                self.wf(),
                tokens@.len() >= 1,
                start == byte_ids(input@),
                bpe_merge(self.merges_view(), start) == bpe_merge(self.merges_view(), tokens@),
                decode_with(self.bytes_decoder(), tokens@) == Ok::<Seq<u8>, TokenizerError>(input@),
            decreases tokens@.len(),
        {
            let mut best: Option<(usize, MergeRule)> = None;
            let mut index: usize = 0;
            let pairs = tokens.len() - 1;
            while index < pairs
                invariant
                    index <= pairs,
                    pairs == tokens@.len() - 1,
                    best_view(best) == best_merge(self.merges_view(), tokens@, index as int),
                decreases pairs - index,
            {
                if let Some(rule) = self.lookup_rule(tokens[index], tokens[index + 1]) {
                    let replace = match &best {
                        Some((_, current)) => rule.rank < current.rank,
                        None => true,
                    };
                    if replace {
                        best = Some((index, rule));
                    }
                }
                index = index + 1;
            }
            match best {
                None => {
                    proof {
                        lemma_decode_with_ok_iff(self.bytes_decoder(), tokens@);
                        self.lemma_decoded_not_special(tokens@);
                    }
                    return Ok(tokens);
                },
                Some((i, rule)) => {
                    let ghost before = tokens@;
                    proof {
                        lemma_best_merge_bounds(self.merges_view(), before, (before.len() - 1) as int);
                        lemma_first_rule_for_in(
                            self.merges_view(),
                            before[i as int],
                            before[i + 1],
                            self.merges_view().len() as int,
                        );
                        let j = choose|j: int|
                            0 <= j < self.merges_view().len() && self.merges_view()[j] == rule
                                && rule.left == before[i as int] && rule.right == before[i + 1];
                        self.lemma_result_piece(j);
                        lemma_decode_with_ok_iff(self.bytes_decoder(), before);
                        assert(self.bytes_decoder()(before[i as int]) is Ok);
                        assert(self.bytes_decoder()(before[i + 1]) is Ok);
                        assert(self.bytes_decoder()(rule.result) == Ok::<Seq<u8>, TokenizerError>(
                            self.bytes_decoder()(before[i as int])->Ok_0 + self.bytes_decoder()(
                                before[i + 1],
                            )->Ok_0,
                        ));
                        lemma_decode_splice(self.bytes_decoder(), before, i as int, rule.result);
                    }
                    tokens.set(i, rule.result);
                    tokens.remove(i + 1);
                    assert(tokens@ =~= splice_pair(before, i as int, rule.result));
                },
            }
        }
    }

    fn decode_token(&self, id: TokenId) -> (r: Result<Vec<u8>, TokenizerError>) {
        proof {
            use_type_invariant(self);
        }
        if 1000 <= id.0 && id.0 <= 1007 {
            return Err(TokenizerError::SpecialTokenHasNoOrdinaryBytes(id));
        }
        if id.0 <= 255 {
            let mut piece: Vec<u8> = Vec::new();
            piece.push(id.0 as u8);
            assert(piece@ =~= seq![id.0 as u8]);
            return Ok(piece);
        }
        let mut j: usize = 0;
        while j < self.merges.len()
            invariant
                self.wf(),
                id.0 > 255,
                !is_special_id(id.0),
                j <= self.merges@.len(),
                forall|k: int| 0 <= k < j ==> #[trigger] self.merges@[k].result != id,
            decreases self.merges@.len() - j,
        {
            if self.merges[j].result == id {
                proof {
                    let rules = self.merges_view();
                    assert(rules[j as int].result == id);
                    let m = choose|m: int| 0 <= m < rules.len() && rules[m].result == id;
                    assert(0 <= m < rules.len() && rules[m].result == id);
                    if m < j {
                        lemma_results_distinct(rules, m, j as int);
                    } else if (j as int) < m {
                        lemma_results_distinct(rules, j as int, m);
                    }
                    assert(piece_table(self.merged@)[j as int] == self.merged@[j as int]@);
                    assert(m == j);
                    assert(self.piece(id) == Some(self.pieces_view()[j as int]));
                }
                return Ok(copy_bytes(&self.merged[j]));
            }
            j = j + 1;
        }
        Err(TokenizerError::InvalidTokenId(id))
    }

    fn special_id(&self, token: SpecialToken) -> (r: Option<TokenId>) {
        let id: u32 = match token {
            SpecialToken::Bos => TOKEN_BOS,
            SpecialToken::Eos => TOKEN_EOS,
            SpecialToken::Pad => TOKEN_PAD,
            SpecialToken::Unk => TOKEN_UNK,
            SpecialToken::System => TOKEN_SYSTEM,
            SpecialToken::User => TOKEN_USER,
            SpecialToken::Assistant => TOKEN_ASSISTANT,
            SpecialToken::EndTurn => TOKEN_END_TURN,
        };
        Some(TokenId(id))
    }
}

impl Default for TinyBpeTokenizer {
    fn default() -> (t: Self)
        ensures
            t.merges_view() == teaching_rules(),
            t.results_concatenate(),
    {
        Self::teaching()
    }
}

/// For the byte-pair tokenizer, decoding a sequence is decoding with its
/// per-token bytes; with it, the round trip that `encode` states over those
/// bytes holds of `DecodeTokens::decode`.
pub proof fn lemma_tiny_bpe_decode_ids(t: &TinyBpeTokenizer, ids: Seq<TokenId>)
    ensures
        decode_ids(t, ids) == decode_with(t.bytes_decoder(), ids),
{
    assert(token_decoder(t) =~= t.bytes_decoder());
}

} // verus!
