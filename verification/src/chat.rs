//! Chat templates: structured role/content messages become control ids and
//! ordinary text, and a model contract pins the tokenizer and template.

use vstd::prelude::*;
use vstd::utf8::*;

use crate::text::str_eq;
use crate::tokenizer::{
    tokenizer_error_message, vec_result, SpecialToken, TokenId, Tokenizer, TokenizerError,
};

verus! {

#[derive(Debug, Clone, Copy, PartialEq, Eq, Structural)]
pub enum Role {
    System,
    User,
    Assistant,
}

/// The display name of a role.
pub open spec fn role_name(role: Role) -> Seq<char> {
    match role {
        Role::System => "system"@,
        Role::User => "user"@,
        Role::Assistant => "assistant"@,
    }
}

/// The control token that opens a message of a role.
pub open spec fn role_special(role: Role) -> SpecialToken {
    match role {
        Role::System => SpecialToken::System,
        Role::User => SpecialToken::User,
        Role::Assistant => SpecialToken::Assistant,
    }
}

impl Role {
    pub fn name(self) -> (name: &'static str)
        ensures
            name@ == role_name(self),
    {
        match self {
            Role::System => "system",
            Role::User => "user",
            Role::Assistant => "assistant",
        }
    }

    fn special(self) -> (token: SpecialToken)
        ensures
            token == role_special(self),
    {
        match self {
            Role::System => SpecialToken::System,
            Role::User => SpecialToken::User,
            Role::Assistant => SpecialToken::Assistant,
        }
    }
}

#[derive(Debug, Clone, Copy, PartialEq, Eq)]
pub struct Message<'a> {
    pub role: Role,
    pub content: &'a [u8],
}

impl<'a> Message<'a> {
    pub fn new(role: Role, content: &'a [u8]) -> (message: Self)
        ensures
            message.role == role,
            message.content@ == content@,
    {
        Message { role, content }
    }
}

/// A message seen as its role and content bytes.
pub open spec fn message_view(message: Message<'_>) -> (Role, Seq<u8>) {
    (message.role, message.content@)
}

/// Messages seen as roles and content bytes.
pub open spec fn messages_view(messages: Seq<Message<'_>>) -> Seq<(Role, Seq<u8>)> {
    messages.map_values(|m: Message<'_>| message_view(m))
}

#[derive(Debug, Clone, PartialEq, Eq)]
pub enum TemplateSegment {
    Text(Vec<u8>),
    Special(SpecialToken),
}

/// A template segment with its text as bytes.
pub enum SegmentView {
    Text(Seq<u8>),
    Special(SpecialToken),
}

impl View for TemplateSegment {
    type V = SegmentView;

    open spec fn view(&self) -> SegmentView {
        match self {
            TemplateSegment::Text(bytes) => SegmentView::Text(bytes@),
            TemplateSegment::Special(token) => SegmentView::Special(*token),
        }
    }
}

/// Segments seen through their views.
pub open spec fn segments_view(segments: Seq<TemplateSegment>) -> Seq<SegmentView> {
    segments.map_values(|s: TemplateSegment| s@)
}

pub trait ChatTemplate {
    spec fn spec_identity(&self) -> Seq<char>;

    /// The segments of a conversation.
    spec fn spec_render(&self, messages: Seq<(Role, Seq<u8>)>, add_generation_prompt: bool) -> Seq<
        SegmentView,
    >;

    fn identity(&self) -> (r: &'static str)
        ensures
            r@ == self.spec_identity(),
    ;

    fn render(&self, messages: &[Message<'_>], add_generation_prompt: bool) -> (r: Vec<
        TemplateSegment,
    >)
        ensures
            segments_view(r@) == self.spec_render(messages_view(messages@), add_generation_prompt),
    ;
}

/// Role, content and end-turn segments for each message in order.
pub open spec fn tiny_chat_body(messages: Seq<(Role, Seq<u8>)>) -> Seq<SegmentView>
    decreases messages.len(),
{
    if messages.len() == 0 {
        Seq::empty()
    } else {
        let (role, content) = messages.last();
        tiny_chat_body(messages.drop_last()) + seq![
            SegmentView::Special(role_special(role)),
            SegmentView::Text(content),
            SegmentView::Special(SpecialToken::EndTurn),
        ]
    }
}

/// A tiny structured template: BOS, then role/content/end-turn for each
/// message, followed by an assistant role when generation should begin.
#[derive(Debug, Default, Clone, Copy)]
pub struct TinyChatTemplate;

impl ChatTemplate for TinyChatTemplate {
    open spec fn spec_identity(&self) -> Seq<char> {
        "tiny-chat-v1"@
    }

    open spec fn spec_render(&self, messages: Seq<(Role, Seq<u8>)>, add_generation_prompt: bool) -> Seq<
        SegmentView,
    > {
        seq![SegmentView::Special(SpecialToken::Bos)] + tiny_chat_body(messages) + if add_generation_prompt {
            seq![SegmentView::Special(SpecialToken::Assistant)]
        } else {
            Seq::empty()
        }
    }

    fn identity(&self) -> (r: &'static str) {
        "tiny-chat-v1"
    }

    fn render(&self, messages: &[Message<'_>], add_generation_prompt: bool) -> (r: Vec<
        TemplateSegment,
    >) {
        let mut output: Vec<TemplateSegment> = Vec::new();
        output.push(TemplateSegment::Special(SpecialToken::Bos));
        let ghost head = seq![SegmentView::Special(SpecialToken::Bos)];
        let mut i: usize = 0;
        while i < messages.len()
            invariant
                i <= messages@.len(),
                segments_view(output@) == head + tiny_chat_body(
                    messages_view(messages@.take(i as int)),
                ),
            decreases messages@.len() - i,
        {
            let message = messages[i];
            let ghost before = output@;
            output.push(TemplateSegment::Special(message.role.special()));
            output.push(TemplateSegment::Text(copy_slice(message.content)));
            output.push(TemplateSegment::Special(SpecialToken::EndTurn));
            i = i + 1;
            proof {
                let taken = messages_view(messages@.take(i as int));
                assert(taken.drop_last() =~= messages_view(messages@.take(i - 1)));
                assert(taken.last() == message_view(message));
                assert(segments_view(output@) =~= segments_view(before) + seq![
                    SegmentView::Special(role_special(message.role)),
                    SegmentView::Text(message.content@),
                    SegmentView::Special(SpecialToken::EndTurn),
                ]);
            }
        }
        if add_generation_prompt {
            output.push(TemplateSegment::Special(SpecialToken::Assistant));
        }
        assert(messages@.take(messages@.len() as int) =~= messages@);
        assert(segments_view(output@) =~= self.spec_render(
            messages_view(messages@),
            add_generation_prompt,
        ));
        output
    }
}

fn copy_slice(bytes: &[u8]) -> (copy: Vec<u8>)
    ensures
        copy@ == bytes@,
{
    let mut copy: Vec<u8> = Vec::new();
    let mut i: usize = 0;
    while i < bytes.len()
        invariant
            i <= bytes@.len(),
            copy@ == bytes@.take(i as int),
        decreases bytes@.len() - i,
    {
        copy.push(bytes[i]);
        i = i + 1;
        assert(copy@ =~= bytes@.take(i as int));
    }
    assert(bytes@.take(bytes@.len() as int) =~= bytes@);
    copy
}

fn append_slice(output: &mut Vec<u8>, bytes: &[u8])
    ensures
        final(output)@ == old(output)@ + bytes@,
{
    let ghost start = output@;
    let mut i: usize = 0;
    while i < bytes.len()
        invariant
            i <= bytes@.len(),
            output@ == start + bytes@.take(i as int),
        decreases bytes@.len() - i,
    {
        output.push(bytes[i]);
        i = i + 1;
        assert(output@ =~= start + bytes@.take(i as int));
    }
    assert(bytes@.take(bytes@.len() as int) =~= bytes@);
}

/// Token ids of template segments: text through the tokenizer, controls
/// through its special ids; the first failure is reported.
pub open spec fn encode_segments_spec<T: Tokenizer>(tokenizer: &T, segments: Seq<SegmentView>) -> Result<
    Seq<TokenId>,
    TokenizerError,
>
    decreases segments.len(),
{
    if segments.len() == 0 {
        Ok(Seq::empty())
    } else {
        match encode_segments_spec(tokenizer, segments.drop_last()) {
            Err(e) => Err(e),
            Ok(ids) => match segments.last() {
                SegmentView::Text(bytes) => match tokenizer.spec_encode(bytes) {
                    Ok(more) => Ok(ids + more),
                    Err(e) => Err(e),
                },
                SegmentView::Special(token) => match tokenizer.spec_special_id(token) {
                    Some(id) => Ok(ids.push(id)),
                    None => Err(TokenizerError::MissingSpecialToken(token)),
                },
            },
        }
    }
}

proof fn lemma_encode_segments_error_extends<T: Tokenizer>(
    tokenizer: &T,
    segments: Seq<SegmentView>,
    n: int,
)
    requires
        0 <= n <= segments.len(),
        encode_segments_spec(tokenizer, segments.take(n)) is Err,
    ensures
        encode_segments_spec(tokenizer, segments) == encode_segments_spec(tokenizer, segments.take(n)),
    decreases segments.len() - n,
{
    if n < segments.len() {
        assert(segments.take(n + 1).drop_last() =~= segments.take(n));
        lemma_encode_segments_error_extends(tokenizer, segments, n + 1);
    } else {
        assert(segments.take(n) =~= segments);
    }
}

/// A text segment alone gives exactly what the tokenizer encodes its bytes to.
pub proof fn law_text_segment_ids<T: Tokenizer>(tokenizer: &T, bytes: Seq<u8>)
    ensures
        encode_segments_spec(tokenizer, seq![SegmentView::Text(bytes)]) == tokenizer.spec_encode(
            bytes,
        ),
{
    let one = seq![SegmentView::Text(bytes)];
    assert(one.drop_last() =~= Seq::<SegmentView>::empty());
    assert(one.last() == SegmentView::Text(bytes));
    assert(encode_segments_spec(tokenizer, one.drop_last()) == Ok::<Seq<TokenId>, TokenizerError>(
        Seq::empty(),
    ));
    if let Ok(ids) = tokenizer.spec_encode(bytes) {
        assert(Seq::<TokenId>::empty() + ids =~= ids);
    }
}

/// A control segment alone gives its special id, or the error that the
/// tokenizer has none.
pub proof fn law_special_segment_ids<T: Tokenizer>(tokenizer: &T, token: SpecialToken)
    ensures
        encode_segments_spec(tokenizer, seq![SegmentView::Special(token)]) == match tokenizer.spec_special_id(token) {
            Some(id) => Ok::<Seq<TokenId>, TokenizerError>(seq![id]),
            None => Err(TokenizerError::MissingSpecialToken(token)),
        },
{
    let one = seq![SegmentView::Special(token)];
    assert(one.drop_last() =~= Seq::<SegmentView>::empty());
    assert(one.last() == SegmentView::Special(token));
    assert(encode_segments_spec(tokenizer, one.drop_last()) == Ok::<Seq<TokenId>, TokenizerError>(
        Seq::empty(),
    ));
    if let Some(id) = tokenizer.spec_special_id(token) {
        assert(Seq::<TokenId>::empty().push(id) =~= seq![id]);
    }
}

/// The ids of two segment lists one after the other are the ids of the
/// first followed by the ids of the second; a failure of the first comes
/// before any failure of the second.
pub proof fn law_segment_ids_concatenate<T: Tokenizer>(
    tokenizer: &T,
    first: Seq<SegmentView>,
    second: Seq<SegmentView>,
)
    ensures
        encode_segments_spec(tokenizer, first + second) == match encode_segments_spec(
            tokenizer,
            first,
        ) {
            Err(e) => Err(e),
            Ok(a) => match encode_segments_spec(tokenizer, second) {
                Err(e) => Err(e),
                Ok(b) => Ok::<Seq<TokenId>, TokenizerError>(a + b),
            },
        },
    decreases second.len(),
{
    if second.len() == 0 {
        assert(first + second =~= first);
        if let Ok(a) = encode_segments_spec(tokenizer, first) {
            assert(a + Seq::<TokenId>::empty() =~= a);
        }
    } else {
        assert((first + second).drop_last() =~= first + second.drop_last());
        assert((first + second).last() == second.last());
        law_segment_ids_concatenate(tokenizer, first, second.drop_last());
        if let Ok(a) = encode_segments_spec(tokenizer, first) {
            if let Ok(b) = encode_segments_spec(tokenizer, second.drop_last()) {
                match second.last() {
                    SegmentView::Text(bytes) => {
                        if let Ok(more) = tokenizer.spec_encode(bytes) {
                            assert(a + b + more =~= a + (b + more));
                        }
                    },
                    SegmentView::Special(token) => {
                        if let Some(id) = tokenizer.spec_special_id(token) {
                            assert((a + b).push(id) =~= a + b.push(id));
                        }
                    },
                }
            }
        }
    }
}

pub fn encode_segments<T: Tokenizer>(tokenizer: &T, segments: &[TemplateSegment]) -> (r: Result<
    Vec<TokenId>,
    TokenizerError,
>)
    ensures
        vec_result(r) == encode_segments_spec(tokenizer, segments_view(segments@)),
{
    let ghost all = segments_view(segments@);
    let mut output: Vec<TokenId> = Vec::new();
    let mut i: usize = 0;
    while i < segments.len()
        invariant
            i <= segments@.len(),
            all == segments_view(segments@),
            encode_segments_spec(tokenizer, all.take(i as int)) == Ok::<
                Seq<TokenId>,
                TokenizerError,
            >(output@),
        decreases segments@.len() - i,
    {
        proof {
            assert(all.take(i + 1).drop_last() =~= all.take(i as int));
            assert(all.take(i + 1).last() == segments@[i as int]@);
        }
        match &segments[i] {
            TemplateSegment::Text(bytes) => {
                match tokenizer.encode(bytes.as_slice()) {
                    Ok(ids) => {
                        let mut ids = ids;
                        output.append(&mut ids);
                    },
                    Err(e) => {
                        proof {
                            lemma_encode_segments_error_extends(tokenizer, all, i + 1);
                        }
                        return Err(e);
                    },
                }
            },
            TemplateSegment::Special(special) => {
                match tokenizer.special_id(*special) {
                    Some(id) => output.push(id),
                    None => {
                        proof {
                            lemma_encode_segments_error_extends(tokenizer, all, i + 1);
                        }
                        return Err(TokenizerError::MissingSpecialToken(*special));
                    },
                }
            },
        }
        i = i + 1;
    }
    assert(all.take(all.len() as int) =~= all);
    Ok(output)
}

/// `role: content` lines, one per message.
pub open spec fn naive_flatten_spec(messages: Seq<(Role, Seq<u8>)>) -> Seq<u8>
    decreases messages.len(),
{
    if messages.len() == 0 {
        Seq::empty()
    } else {
        let (role, content) = messages.last();
        naive_flatten_spec(messages.drop_last()) + encode_utf8(role_name(role)) + seq![58u8, 32u8]
            + content + seq![10u8]
    }
}

/// Deliberately wrong for the teaching model. It is useful only for comparing
/// bytes and IDs with the structured template; it cannot measure quality.
pub fn naive_role_flatten(messages: &[Message<'_>]) -> (output: Vec<u8>)
    ensures
        output@ == naive_flatten_spec(messages_view(messages@)),
{
    let mut output: Vec<u8> = Vec::new();
    let mut i: usize = 0;
    while i < messages.len()
        invariant
            i <= messages@.len(),
            output@ == naive_flatten_spec(messages_view(messages@.take(i as int))),
        decreases messages@.len() - i,
    {
        let message = messages[i];
        let ghost before = output@;
        append_slice(&mut output, message.role.name().as_bytes());
        output.push(58);
        output.push(32);
        append_slice(&mut output, message.content);
        output.push(10);
        i = i + 1;
        proof {
            let taken = messages_view(messages@.take(i as int));
            assert(taken.drop_last() =~= messages_view(messages@.take(i - 1)));
            assert(taken.last() == message_view(message));
            assert(output@ =~= before + encode_utf8(role_name(message.role)) + seq![58u8, 32u8]
                + message.content@ + seq![10u8]);
        }
    }
    assert(messages@.take(messages@.len() as int) =~= messages@);
    output
}

#[derive(Debug, Clone, PartialEq, Eq)]
pub struct ModelContract {
    pub model: &'static str,
    pub tokenizer: &'static str,
    pub tokenizer_revision: &'static str,
    pub chat_template: &'static str,
}

#[derive(Debug, Clone, PartialEq, Eq)]
pub enum ContractError {
    TokenizerMismatch { expected: String, actual: String },
    TemplateMismatch { expected: String, actual: String },
    Tokenizer(TokenizerError),
}

/// The human-readable message of a contract error.
pub open spec fn contract_error_message(error: ContractError) -> Seq<char> {
    match error {
        ContractError::TokenizerMismatch { expected, actual } => "tokenizer mismatch: expected "@
            + expected@ + ", got "@ + actual@,
        ContractError::TemplateMismatch { expected, actual } =>
            "chat-template mismatch: expected "@ + expected@ + ", got "@ + actual@,
        ContractError::Tokenizer(error) => tokenizer_error_message(error),
    }
}

impl ContractError {
    /// The human-readable message of this error.
    pub fn to_string(&self) -> (message: String)
        ensures
            message@ == contract_error_message(*self),
    {
        match self {
            ContractError::TokenizerMismatch { expected, actual } => {
                let mut m = String::from_str("tokenizer mismatch: expected ");
                m.append(expected.as_str());
                m.append(", got ");
                m.append(actual.as_str());
                m
            },
            ContractError::TemplateMismatch { expected, actual } => {
                let mut m = String::from_str("chat-template mismatch: expected ");
                m.append(expected.as_str());
                m.append(", got ");
                m.append(actual.as_str());
                m
            },
            ContractError::Tokenizer(error) => error.to_string(),
        }
    }
}

impl From<TokenizerError> for ContractError {
    fn from(value: TokenizerError) -> (error: Self)
        ensures
            error == ContractError::Tokenizer(value),
    {
        ContractError::Tokenizer(value)
    }
}

impl vstd::std_specs::convert::FromSpecImpl<TokenizerError> for ContractError {
    open spec fn obeys_from_spec() -> bool {
        true
    }

    open spec fn from_spec(v: TokenizerError) -> ContractError {
        ContractError::Tokenizer(v)
    }
}

/// `name@revision`, the way a tokenizer identity is reported.
pub open spec fn identity_text(name: Seq<char>, revision: Seq<char>) -> Seq<char> {
    name + "@"@ + revision
}

fn identity_string(name: &str, revision: &str) -> (text: String)
    ensures
        text@ == identity_text(name@, revision@),
{
    let mut text = String::from_str(name);
    text.append("@");
    text.append(revision);
    text
}

impl ModelContract {
    pub fn demo() -> (contract: Self)
        ensures
            contract.model@ == "engine0-demo-model"@,
            contract.tokenizer@ == "tiny-byte-bpe"@,
            contract.tokenizer_revision@ == "chapter-02-v1"@,
            contract.chat_template@ == "tiny-chat-v1"@,
    {
        ModelContract {
            model: "engine0-demo-model",
            tokenizer: "tiny-byte-bpe",
            tokenizer_revision: "chapter-02-v1",
            chat_template: "tiny-chat-v1",
        }
    }

    /// Whether the tokenizer is the one this contract was built for.
    pub open spec fn tokenizer_matches<T: Tokenizer>(&self, tokenizer: &T) -> bool {
        &&& tokenizer.spec_identity().name@ == self.tokenizer@
        &&& tokenizer.spec_identity().revision@ == self.tokenizer_revision@
    }

    /// Checks the tokenizer identity, then the template identity, then
    /// renders and encodes the conversation.
    pub fn encode_chat<T: Tokenizer, C: ChatTemplate>(
        &self,
        tokenizer: &T,
        template: &C,
        messages: &[Message<'_>],
        add_generation_prompt: bool,
    ) -> (r: Result<Vec<TokenId>, ContractError>)
        ensures
            !self.tokenizer_matches(tokenizer) ==> (r matches Err(
                ContractError::TokenizerMismatch { expected, actual },
            ) && expected@ == identity_text(self.tokenizer@, self.tokenizer_revision@)
                && actual@ == identity_text(
                tokenizer.spec_identity().name@,
                tokenizer.spec_identity().revision@,
            )),
            self.tokenizer_matches(tokenizer) && template.spec_identity() != self.chat_template@
                ==> (r matches Err(ContractError::TemplateMismatch { expected, actual })
                && expected@ == self.chat_template@ && actual@ == template.spec_identity()),
            self.tokenizer_matches(tokenizer) && template.spec_identity() == self.chat_template@
                ==> match encode_segments_spec(
                tokenizer,
                template.spec_render(messages_view(messages@), add_generation_prompt),
            ) {
                Ok(ids) => r matches Ok(v) && v@ == ids,
                Err(e) => r == Err::<Vec<TokenId>, ContractError>(ContractError::Tokenizer(e)),
            },
    {
        let identity = tokenizer.identity();
        if !str_eq(identity.name, self.tokenizer) || !str_eq(
            identity.revision,
            self.tokenizer_revision,
        ) {
            return Err(
                ContractError::TokenizerMismatch {
                    expected: identity_string(self.tokenizer, self.tokenizer_revision),
                    actual: identity_string(identity.name, identity.revision),
                },
            );
        }
        let template_identity = template.identity();
        if !str_eq(template_identity, self.chat_template) {
            return Err(
                ContractError::TemplateMismatch {
                    expected: String::from_str(self.chat_template),
                    actual: String::from_str(template_identity),
                },
            );
        }
        let segments = template.render(messages, add_generation_prompt);
        match encode_segments(tokenizer, segments.as_slice()) {
            Ok(ids) => Ok(ids),
            Err(e) => Err(ContractError::Tokenizer(e)),
        }
    }
}

} // verus!
