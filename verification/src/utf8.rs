//! Incremental UTF-8 decoding of token bytes.
//!
//! Token pieces are byte strings; a single scalar may be split across pieces.
//! The decoder buffers bytes until they form complete scalars, emits the
//! longest valid prefix, and reports a definite error without replacing or
//! skipping any byte.

use vstd::prelude::*;
use vstd::utf8::*;

use crate::text::{decimal, hex_list, push_decimal, push_hex_list};

verus! {

broadcast use vstd::utf8::group_utf8_lib;

/// How the bytes at the start of a buffer relate to one UTF-8 scalar.
#[derive(Debug, Clone, Copy, PartialEq, Eq)]
pub enum ScalarScan {
    /// A well-formed scalar of the given byte width starts the buffer.
    Complete(usize),
    /// The buffer ends inside a scalar whose bytes are well-formed so far.
    Truncated,
    /// The given number of bytes start an ill-formed sequence.
    Malformed(usize),
}

/// Width in bytes announced by a leading byte, or 0 when it can start no scalar.
pub open spec fn scalar_width(b0: u8) -> int {
    if b0 <= 0x7f {
        1
    } else if 0xc2 <= b0 <= 0xdf {
        2
    } else if 0xe0 <= b0 <= 0xef {
        3
    } else if 0xf0 <= b0 <= 0xf4 {
        4
    } else {
        0
    }
}

/// Whether `b1` may follow the multi-byte leading byte `b0` in a well-formed
/// scalar (the second-byte ranges of the Unicode well-formed byte table).
pub open spec fn second_byte_fits(b0: u8, b1: u8) -> bool {
    if b0 == 0xe0 {
        0xa0 <= b1 <= 0xbf
    } else if b0 == 0xed {
        0x80 <= b1 <= 0x9f
    } else if b0 == 0xf0 {
        0x90 <= b1 <= 0xbf
    } else if b0 == 0xf4 {
        0x80 <= b1 <= 0x8f
    } else {
        is_continuation_byte(b1)
    }
}

/// Number of leading bytes of `rest` that are consistent with one
/// well-formed scalar, never more than the announced width.
pub open spec fn well_formed_prefix_len(rest: Seq<u8>) -> int {
    if rest.len() == 0 || scalar_width(rest[0]) == 0 {
        0
    } else if scalar_width(rest[0]) == 1 || rest.len() < 2 || !second_byte_fits(rest[0], rest[1]) {
        1
    } else if scalar_width(rest[0]) == 2 || rest.len() < 3 || !is_continuation_byte(rest[2]) {
        2
    } else if scalar_width(rest[0]) == 3 || rest.len() < 4 || !is_continuation_byte(rest[3]) {
        3
    } else {
        4
    }
}

/// Classification of the first scalar of a non-empty buffer.
pub open spec fn scan_scalar(rest: Seq<u8>) -> ScalarScan {
    let w = scalar_width(rest[0]);
    let k = well_formed_prefix_len(rest);
    if w > 0 && k == w {
        ScalarScan::Complete(w as usize)
    } else if w > 0 && k == rest.len() {
        ScalarScan::Truncated
    } else if k == 0 {
        ScalarScan::Malformed(1)
    } else {
        ScalarScan::Malformed(k as usize)
    }
}

/// End of the run of complete scalars that starts at byte `i`.
pub open spec fn valid_up_to_from(bytes: Seq<u8>, i: int) -> int
    decreases bytes.len() - i,
{
    if 0 <= i < bytes.len() {
        match scan_scalar(bytes.subrange(i, bytes.len() as int)) {
            ScalarScan::Complete(w) => if 1 <= w && i + w <= bytes.len() {
                valid_up_to_from(bytes, i + w)
            } else {
                i
            },
            _ => i,
        }
    } else {
        i
    }
}

/// Length of the prefix of `bytes` made of complete, well-formed scalars.
pub open spec fn utf8_valid_up_to(bytes: Seq<u8>) -> int {
    valid_up_to_from(bytes, 0)
}

/// Where `bytes` is not entirely valid: `None` when the input ends inside a
/// scalar, `Some(n)` when the `n` bytes at the valid prefix's end are ill-formed.
pub open spec fn utf8_error_len(bytes: Seq<u8>) -> Option<usize> {
    match scan_scalar(bytes.skip(utf8_valid_up_to(bytes))) {
        ScalarScan::Malformed(n) => Some(n),
        _ => None,
    }
}

/// True when `bytes` contains a definite encoding error (not a mere
/// truncation at its end).
pub open spec fn utf8_malformed(bytes: Seq<u8>) -> bool {
    utf8_valid_up_to(bytes) < bytes.len() && utf8_error_len(bytes) is Some
}

proof fn lemma_codepoint_1(b0: u8)
    by (bit_vector)
    requires
        b0 <= 0x7f,
    ensures
        codepoint_width_1(b0) <= 0x7f,
{
}

proof fn lemma_codepoint_2(b0: u8, b1: u8)
    by (bit_vector)
    requires
        0xc0 <= b0 <= 0xdf,
        0x80 <= b1 <= 0xbf,
    ensures
        0x80 <= codepoint_width_2(b0, b1) <==> 0xc2 <= b0,
        codepoint_width_2(b0, b1) <= 0x7ff,
{
}

proof fn lemma_codepoint_3(b0: u8, b1: u8, b2: u8)
    by (bit_vector)
    requires
        0xe0 <= b0 <= 0xef,
        0x80 <= b1 <= 0xbf,
        0x80 <= b2 <= 0xbf,
    ensures
        0x800 <= codepoint_width_3(b0, b1, b2) <==> (b0 != 0xe0 || 0xa0 <= b1),
        (0xd800 <= codepoint_width_3(b0, b1, b2) <= 0xdfff) <==> (b0 == 0xed && 0xa0 <= b1),
{
}

proof fn lemma_codepoint_4(b0: u8, b1: u8, b2: u8, b3: u8)
    by (bit_vector)
    requires
        0xf0 <= b0 <= 0xf7,
        0x80 <= b1 <= 0xbf,
        0x80 <= b2 <= 0xbf,
        0x80 <= b3 <= 0xbf,
    ensures
        (0x10000 <= codepoint_width_4(b0, b1, b2, b3) <= 0x10ffff) <==> ((b0 == 0xf0 && 0x90
            <= b1) || (0xf1 <= b0 <= 0xf3) || (b0 == 0xf4 && b1 <= 0x8f)),
{
}

/// The byte-table classification agrees with the scalar-level definition of
/// well-formed UTF-8.
pub proof fn lemma_scan_complete_iff_valid_first_scalar(rest: Seq<u8>)
    requires
        rest.len() > 0,
    ensures
        (scan_scalar(rest) is Complete) <==> valid_first_scalar(rest),
        scan_scalar(rest) matches ScalarScan::Complete(w) ==> w == length_of_first_scalar(rest),
{
    let b0 = rest[0];
    if b0 <= 0x7f {
        lemma_codepoint_1(b0);
    } else if 0xc0 <= b0 <= 0xdf {
        if rest.len() >= 2 && is_continuation_byte(rest[1]) {
            lemma_codepoint_2(b0, rest[1]);
        }
    } else if 0xe0 <= b0 <= 0xef {
        if rest.len() >= 3 && is_continuation_byte(rest[1]) && is_continuation_byte(rest[2]) {
            lemma_codepoint_3(b0, rest[1], rest[2]);
        }
    } else if 0xf0 <= b0 <= 0xf7 {
        if rest.len() >= 4 && is_continuation_byte(rest[1]) && is_continuation_byte(rest[2])
            && is_continuation_byte(rest[3]) {
            lemma_codepoint_4(b0, rest[1], rest[2], rest[3]);
        }
    }
}

/// Bounds of each classification.
pub proof fn lemma_scan_scalar_bounds(rest: Seq<u8>)
    requires
        rest.len() > 0,
    ensures
        scan_scalar(rest) matches ScalarScan::Complete(w) ==> 1 <= w <= 4 && w <= rest.len(),
        scan_scalar(rest) matches ScalarScan::Malformed(n) ==> 1 <= n <= 3,
        scan_scalar(rest) is Truncated ==> 1 <= rest.len() <= 3,
{
}

/// The run of complete scalars from a valid prefix extends to a valid prefix.
proof fn lemma_valid_up_to_from_valid(bytes: Seq<u8>, i: int)
    requires
        0 <= i <= bytes.len(),
        valid_utf8(bytes.subrange(0, i)),
    ensures
        i <= valid_up_to_from(bytes, i) <= bytes.len(),
        valid_utf8(bytes.subrange(0, valid_up_to_from(bytes, i))),
        valid_up_to_from(bytes, i) < bytes.len() ==> !(scan_scalar(
            bytes.subrange(valid_up_to_from(bytes, i), bytes.len() as int),
        ) is Complete),
    decreases bytes.len() - i,
{
    if i < bytes.len() {
        let rest = bytes.subrange(i, bytes.len() as int);
        lemma_scan_scalar_bounds(rest);
        lemma_scan_complete_iff_valid_first_scalar(rest);
        if let ScalarScan::Complete(w) = scan_scalar(rest) {
            assert(partial_valid_utf8(bytes, i));
            partial_valid_utf8_extend(bytes, i);
            lemma_valid_up_to_from_valid(bytes, i + w);
        }
    }
}

/// The prefix reported by [`utf8_valid_up_to`] is well-formed UTF-8, and the
/// bytes after it do not start with a complete scalar.
pub proof fn lemma_valid_up_to(bytes: Seq<u8>)
    ensures
        0 <= utf8_valid_up_to(bytes) <= bytes.len(),
        valid_utf8(bytes.take(utf8_valid_up_to(bytes))),
        utf8_valid_up_to(bytes) < bytes.len() ==> !(scan_scalar(
            bytes.skip(utf8_valid_up_to(bytes)),
        ) is Complete),
        utf8_valid_up_to(bytes) == bytes.len() <==> valid_utf8(bytes),
{
    assert(bytes.subrange(0, 0) =~= Seq::<u8>::empty());
    lemma_valid_up_to_from_valid(bytes, 0);
    let v = utf8_valid_up_to(bytes);
    assert(bytes.take(v) =~= bytes.subrange(0, v));
    assert(bytes.skip(v) =~= bytes.subrange(v, bytes.len() as int));
    if v == bytes.len() {
        assert(bytes.take(v) =~= bytes);
    } else {
        lemma_first_scalar_of_valid_suffix(bytes, v);
    }
}

/// Where a valid prefix is followed by bytes that do not start a complete
/// scalar, the whole buffer is not valid UTF-8.
proof fn lemma_first_scalar_of_valid_suffix(bytes: Seq<u8>, v: int)
    requires
        0 <= v < bytes.len(),
        valid_utf8(bytes.subrange(0, v)),
        !(scan_scalar(bytes.subrange(v, bytes.len() as int)) is Complete),
    ensures
        !valid_utf8(bytes),
{
    let rest = bytes.subrange(v, bytes.len() as int);
    lemma_scan_complete_iff_valid_first_scalar(rest);
    assert(!valid_utf8(rest));
    partial_valid_partial_invalid_utf8(bytes, v);
}

/// Decoder state for one output stream: the bytes of an unfinished scalar.
#[derive(Debug, Default, Clone, PartialEq, Eq)]
pub struct Utf8StreamDecoder {
    pending: Vec<u8>,
}

/// A definite decoding failure, or unfinished bytes at the end of a stream.
#[derive(Debug, Clone, PartialEq, Eq)]
pub enum Utf8StreamError {
    InvalidSequence { valid_up_to: usize, error_len: Option<usize>, bytes: Vec<u8> },
    IncompleteSequence { bytes: Vec<u8> },
}

impl View for Utf8StreamDecoder {
    type V = Seq<u8>;

    closed spec fn view(&self) -> Seq<u8> {
        self.pending@
    }
}

/// The text emitted by a successful `push` into a decoder whose buffer, after
/// appending, is `buf`.
pub open spec fn pushed_text(buf: Seq<u8>) -> Option<Seq<char>> {
    if utf8_valid_up_to(buf) > 0 {
        Some(decode_utf8(buf.take(utf8_valid_up_to(buf))))
    } else {
        None
    }
}

/// The buffer kept by a successful `push` whose buffer, after appending, is `buf`.
pub open spec fn pushed_pending(buf: Seq<u8>) -> Seq<u8> {
    buf.skip(utf8_valid_up_to(buf))
}

/// Converts well-formed UTF-8 bytes into an owned string.
///
/// Calls `std::str::from_utf8`; the contract claims, as its documentation
/// states, that on valid input the string's UTF-8 bytes are exactly `bytes`.
#[verifier::external_body]
fn utf8_text(bytes: &[u8]) -> (text: String)
    requires
        valid_utf8(bytes@),
    ensures
        encode_utf8(text@) == bytes@,
{
    match std::str::from_utf8(bytes) {
        Ok(text) => text.to_owned(),
        Err(_) => String::new(),
    }
}

fn decode_valid(bytes: &Vec<u8>) -> (text: String)
    requires
        valid_utf8(bytes@),
    ensures
        text@ == decode_utf8(bytes@),
{
    let text = utf8_text(bytes.as_slice());
    proof {
        encode_utf8_decode_utf8(text@);
    }
    text
}

fn is_continuation(b: u8) -> (r: bool)
    ensures
        r == is_continuation_byte(b),
{
    0x80 <= b && b <= 0xbf
}

fn second_fits(b0: u8, b1: u8) -> (r: bool)
    ensures
        r == second_byte_fits(b0, b1),
{
    if b0 == 0xe0 {
        0xa0 <= b1 && b1 <= 0xbf
    } else if b0 == 0xed {
        0x80 <= b1 && b1 <= 0x9f
    } else if b0 == 0xf0 {
        0x90 <= b1 && b1 <= 0xbf
    } else if b0 == 0xf4 {
        0x80 <= b1 && b1 <= 0x8f
    } else {
        is_continuation(b1)
    }
}

/// Classifies the scalar that starts at `start`.
fn scan_scalar_at(buf: &Vec<u8>, start: usize) -> (r: ScalarScan)
    requires
        start < buf.len(),
    ensures
        r == scan_scalar(buf@.subrange(start as int, buf@.len() as int)),
{
    let ghost rest = buf@.subrange(start as int, buf@.len() as int);
    let len = buf.len() - start;
    let b0 = buf[start];
    let w: usize = if b0 <= 0x7f {
        1
    } else if 0xc2 <= b0 && b0 <= 0xdf {
        2
    } else if 0xe0 <= b0 && b0 <= 0xef {
        3
    } else if 0xf0 <= b0 && b0 <= 0xf4 {
        4
    } else {
        0
    };
    let k: usize = if w == 0 {
        0
    } else if w == 1 || len < 2 || !second_fits(b0, buf[start + 1]) {
        1
    } else if w == 2 || len < 3 || !is_continuation(buf[start + 2]) {
        2
    } else if w == 3 || len < 4 || !is_continuation(buf[start + 3]) {
        3
    } else {
        4
    };
    assert(rest[0] == b0);
    assert(w == scalar_width(rest[0]));
    assert(k == well_formed_prefix_len(rest));
    if w > 0 && k == w {
        ScalarScan::Complete(w)
    } else if w > 0 && k == len {
        ScalarScan::Truncated
    } else if k == 0 {
        ScalarScan::Malformed(1)
    } else {
        ScalarScan::Malformed(k)
    }
}

/// Finds the valid prefix of `buf` and, where the buffer is not entirely
/// valid, whether it ends in a truncation (`None`) or an ill-formed run.
fn scan_utf8(buf: &Vec<u8>) -> (r: (usize, Option<usize>))
    ensures
        r.0 == utf8_valid_up_to(buf@),
        r.0 < buf@.len() ==> r.1 == utf8_error_len(buf@),
{
    let mut i: usize = 0;
    while i < buf.len()
        invariant
            i <= buf.len(),
            valid_up_to_from(buf@, 0) == valid_up_to_from(buf@, i as int),
        decreases buf.len() - i,
    {
        let ghost rest = buf@.subrange(i as int, buf@.len() as int);
        proof {
            lemma_scan_scalar_bounds(rest);
        }
        match scan_scalar_at(buf, i) {
            ScalarScan::Complete(w) => {
                i = i + w;
            },
            ScalarScan::Truncated => {
                assert(buf@.skip(i as int) =~= rest);
                return (i, None);
            },
            ScalarScan::Malformed(n) => {
                assert(buf@.skip(i as int) =~= rest);
                return (i, Some(n));
            },
        }
    }
    (i, None)
}

impl Utf8StreamDecoder {
    pub fn new() -> (decoder: Self)
        ensures
            decoder@ == Seq::<u8>::empty(),
    {
        Utf8StreamDecoder { pending: Vec::new() }
    }

    /// The buffered bytes of an unfinished scalar.
    pub fn pending_bytes(&self) -> (bytes: &[u8])
        ensures
            bytes@ == self@,
    {
        self.pending.as_slice()
    }

    /// Append token bytes and emit the longest complete, valid UTF-8 prefix
    /// when the remainder is only incomplete. A definite error preserves the
    /// buffer and emits nothing from that append.
    pub fn push(&mut self, bytes: &[u8]) -> (r: Result<Option<String>, Utf8StreamError>)
        ensures
            r is Err <==> utf8_malformed(old(self)@ + bytes@),
            r is Err <==> !(exists|ext: Seq<u8>| #[trigger] valid_utf8(old(self)@ + bytes@ + ext)),
            r matches Ok(out) ==> {
                &&& final(self)@ == pushed_pending(old(self)@ + bytes@)
                &&& (out is Some) == (pushed_text(old(self)@ + bytes@) is Some)
                &&& out matches Some(text) ==> pushed_text(old(self)@ + bytes@) == Some(text@)
            },
            r matches Err(e) ==> {
                &&& final(self)@ == old(self)@ + bytes@
                &&& e matches Utf8StreamError::InvalidSequence { valid_up_to, error_len, bytes: kept }
                &&& valid_up_to == utf8_valid_up_to(old(self)@ + bytes@)
                &&& error_len == utf8_error_len(old(self)@ + bytes@)
                &&& kept@ == old(self)@ + bytes@
            },
    {
        let ghost buf = self.pending@ + bytes@;
        proof {
            law_refused_exactly_when_no_valid_extension(buf);
        }
        let mut i: usize = 0;
        let ghost start = self.pending@;
        while i < bytes.len()
            invariant
                i <= bytes.len(),
                self.pending@ == start + bytes@.take(i as int),
            decreases bytes.len() - i,
        {
            self.pending.push(bytes[i]);
            i = i + 1;
            assert(start + bytes@.take(i as int) =~= (start + bytes@.take((i - 1) as int)).push(
                bytes@[i - 1],
            ));
        }
        assert(bytes@.take(bytes@.len() as int) =~= bytes@);
        assert(self.pending@ == buf);
        proof {
            lemma_valid_up_to(buf);
        }
        let (valid_up_to, error_len) = scan_utf8(&self.pending);
        if valid_up_to == self.pending.len() {
            let output = if self.pending.len() == 0 {
                None
            } else {
                assert(buf.take(valid_up_to as int) =~= buf);
                Some(decode_valid(&self.pending))
            };
            self.pending.clear();
            assert(buf.skip(valid_up_to as int) =~= Seq::<u8>::empty());
            return Ok(output);
        }
        match error_len {
            None => {
                proof {
                    lemma_scan_scalar_bounds(buf.skip(valid_up_to as int));
                }
                if self.pending.len() - valid_up_to > 3 {
                    return Err(
                        Utf8StreamError::InvalidSequence {
                            valid_up_to,
                            error_len: None,
                            bytes: self.pending.clone(),
                        },
                    );
                }
                if valid_up_to == 0 {
                    assert(buf.skip(0) =~= buf);
                    return Ok(None);
                }
                let rest = self.pending.split_off(valid_up_to);
                assert(self.pending@ =~= buf.take(valid_up_to as int));
                let prefix = decode_valid(&self.pending);
                self.pending = rest;
                assert(self.pending@ =~= buf.skip(valid_up_to as int));
                Ok(Some(prefix))
            },
            Some(_) => {
                Err(
                    Utf8StreamError::InvalidSequence {
                        valid_up_to,
                        error_len,
                        bytes: self.pending.clone(),
                    },
                )
            },
        }
    }

    /// Ends the stream: unfinished scalar bytes are an error.
    pub fn finish(&self) -> (r: Result<(), Utf8StreamError>)
        ensures
            r is Ok <==> self@.len() == 0,
            r matches Err(e) ==> e matches Utf8StreamError::IncompleteSequence { bytes } && bytes@
                == self@,
    {
        if self.pending.len() == 0 {
            Ok(())
        } else {
            Err(Utf8StreamError::IncompleteSequence { bytes: self.pending.clone() })
        }
    }
}

/// Debug rendering of an optional length.
pub open spec fn optional_len_text(len: Option<usize>) -> Seq<char> {
    match len {
        None => "None"@,
        Some(n) => "Some("@ + decimal(n as nat) + ")"@,
    }
}

/// The message of an invalid-sequence error.
pub open spec fn invalid_sequence_message(valid_up_to: usize, error_len: Option<usize>, bytes: Seq<
    u8,
>) -> Seq<char> {
    "invalid UTF-8 after byte "@ + decimal(valid_up_to as nat) + " (error length "@
        + optional_len_text(error_len) + ", buffered "@ + hex_list(bytes) + ")"@
}

/// The message of an incomplete-sequence error.
pub open spec fn incomplete_sequence_message(bytes: Seq<u8>) -> Seq<char> {
    "incomplete UTF-8 at terminal (buffered "@ + hex_list(bytes) + ")"@
}

/// The human-readable message of a stream error.
pub open spec fn utf8_error_message(error: Utf8StreamError) -> Seq<char> {
    match error {
        Utf8StreamError::InvalidSequence { valid_up_to, error_len, bytes } => invalid_sequence_message(
            valid_up_to,
            error_len,
            bytes@,
        ),
        Utf8StreamError::IncompleteSequence { bytes } => incomplete_sequence_message(bytes@),
    }
}

impl Utf8StreamError {
    /// The human-readable message of this error.
    pub fn to_string(&self) -> (message: String)
        ensures
            message@ == utf8_error_message(*self),
    {
        match self {
            Utf8StreamError::InvalidSequence { valid_up_to, error_len, bytes } => {
                let mut m = String::from_str("invalid UTF-8 after byte ");
                push_decimal(&mut m, *valid_up_to as u64);
                m.append(" (error length ");
                match error_len {
                    None => m.append("None"),
                    Some(n) => {
                        m.append("Some(");
                        push_decimal(&mut m, *n as u64);
                        m.append(")");
                    },
                }
                m.append(", buffered ");
                push_hex_list(&mut m, bytes);
                m.append(")");
                m
            },
            Utf8StreamError::IncompleteSequence { bytes } => {
                let mut m = String::from_str("incomplete UTF-8 at terminal (buffered ");
                push_hex_list(&mut m, bytes);
                m.append(")");
                m
            },
        }
    }
}


/// A push that is not refused loses and invents nothing: the text it emits,
/// as UTF-8, followed by the bytes it keeps, is exactly the buffered bytes
/// followed by the new ones. Emitted text is never empty.
pub proof fn law_push_keeps_every_byte(buffered: Seq<u8>, bytes: Seq<u8>)
    requires
        !utf8_malformed(buffered + bytes),
    ensures
        ({
            let buf = buffered + bytes;
            let emitted = match pushed_text(buf) {
                Some(text) => encode_utf8(text),
                None => Seq::empty(),
            };
            &&& emitted + pushed_pending(buf) == buf
            &&& pushed_text(buf) matches Some(text) ==> text.len() > 0
        }),
{
    let buf = buffered + bytes;
    lemma_valid_up_to(buf);
    let v = utf8_valid_up_to(buf);
    assert(buf.take(v) + buf.skip(v) =~= buf);
    if v > 0 {
        decode_utf8_encode_utf8(buf.take(v));
        let text = decode_utf8(buf.take(v));
        if text.len() == 0 {
            assert(encode_utf8(text) =~= Seq::<u8>::empty());
        }
    } else {
        assert(buf.skip(0) =~= buf);
        assert(Seq::<u8>::empty() + buf =~= buf);
    }
}


/// What pushing `pieces`, in order, into a decoder that holds `pending` gives:
/// the output of every push and the bytes held afterwards; `None` when some
/// push is refused.
pub open spec fn push_each(pending: Seq<u8>, pieces: Seq<Seq<u8>>) -> Option<
    (Seq<Option<Seq<char>>>, Seq<u8>),
>
    decreases pieces.len(),
{
    if pieces.len() == 0 {
        Some((Seq::empty(), pending))
    } else {
        let buf = pending + pieces[0];
        if utf8_malformed(buf) {
            None
        } else {
            match push_each(pushed_pending(buf), pieces.drop_first()) {
                Some((outs, held)) => Some((seq![pushed_text(buf)] + outs, held)),
                None => None,
            }
        }
    }
}

/// The emitted texts of a run of pushes, joined in order.
pub open spec fn joined_outputs(outs: Seq<Option<Seq<char>>>) -> Seq<char>
    decreases outs.len(),
{
    if outs.len() == 0 {
        Seq::empty()
    } else {
        (match outs[0] {
            Some(text) => text,
            None => Seq::empty(),
        }) + joined_outputs(outs.drop_first())
    }
}

/// A scan of a non-empty prefix of bytes that start with a complete scalar:
/// the same scalar where the prefix holds it, a truncation where it does not.
proof fn lemma_scan_prefix(rest: Seq<u8>, whole: Seq<u8>, w: usize)
    requires
        scan_scalar(whole) == ScalarScan::Complete(w),
        0 < rest.len() <= whole.len(),
        forall|j: int| 0 <= j < rest.len() ==> rest[j] == whole[j],
    ensures
        rest.len() >= w ==> scan_scalar(rest) == ScalarScan::Complete(w),
        rest.len() < w ==> scan_scalar(rest) is Truncated,
{
    assert(rest[0] == whole[0]);
    if rest.len() >= 2 {
        assert(rest[1] == whole[1]);
    }
    if rest.len() >= 3 {
        assert(rest[2] == whole[2]);
    }
    if rest.len() >= 4 {
        assert(rest[3] == whole[3]);
    }
}

/// Scanning a prefix of `x` from a point where the rest of `x` is valid stops
/// at a point where the rest of `x` is still valid, and what it leaves of the
/// prefix is a truncated scalar.
proof fn lemma_valid_up_to_in_prefix(x: Seq<u8>, n: int, i: int)
    requires
        0 <= i <= n <= x.len(),
        valid_utf8(x.subrange(i, x.len() as int)),
    ensures
        ({
            let v = valid_up_to_from(x.take(n), i);
            &&& i <= v <= n
            &&& valid_utf8(x.subrange(v, x.len() as int))
            &&& v < n ==> scan_scalar(x.take(n).subrange(v, n)) is Truncated
        }),
    decreases n - i,
{
    let buf = x.take(n);
    if i < n {
        let rest = buf.subrange(i, n);
        let whole = x.subrange(i, x.len() as int);
        lemma_scan_complete_iff_valid_first_scalar(whole);
        lemma_scan_scalar_bounds(whole);
        let w = length_of_first_scalar(whole);
        assert(scan_scalar(whole) == ScalarScan::Complete(w as usize));
        lemma_scan_prefix(rest, whole, w as usize);
        if w <= n - i {
            assert(pop_first_scalar(whole) =~= x.subrange(i + w, x.len() as int));
            lemma_valid_up_to_in_prefix(x, n, i + w);
        }
    }
}

/// `encode_utf8` maps concatenation to concatenation.
proof fn lemma_encode_concat(a: Seq<char>, b: Seq<char>)
    ensures
        encode_utf8(a + b) == encode_utf8(a) + encode_utf8(b),
    decreases a.len(),
{
    if a.len() == 0 {
        assert(a + b =~= b);
        assert(Seq::<u8>::empty() + encode_utf8(b) =~= encode_utf8(b));
    } else {
        assert((a + b).drop_first() =~= a.drop_first() + b);
        lemma_encode_concat(a.drop_first(), b);
        assert((a + b)[0] == a[0]);
        assert(encode_utf8(a + b) =~= encode_utf8(a) + encode_utf8(b));
    }
}

/// One push into held bytes followed by valid text: it is not refused, what
/// it keeps is again held bytes followed by valid text, and its output, as
/// UTF-8, followed by what it keeps is the held bytes and the piece.
proof fn lemma_push_step(pending: Seq<u8>, piece: Seq<u8>, tail: Seq<u8>)
    requires
        valid_utf8(pending + piece + tail),
    ensures
        ({
            let buf = pending + piece;
            let held = pushed_pending(buf);
            let emitted = match pushed_text(buf) {
                Some(text) => text,
                None => Seq::<char>::empty(),
            };
            &&& !utf8_malformed(buf)
            &&& valid_utf8(held + tail)
            &&& held.len() == 0 || scan_scalar(held) is Truncated
            &&& encode_utf8(emitted) + held == buf
            &&& pushed_text(buf) matches Some(text) ==> text.len() > 0
        }),
{
    let buf = pending + piece;
    let x = buf + tail;
    let n = buf.len() as int;
    assert(x.take(n) =~= buf);
    assert(x.subrange(0, x.len() as int) =~= x);
    lemma_valid_up_to_in_prefix(x, n, 0);
    lemma_valid_up_to(buf);
    let v = utf8_valid_up_to(buf);
    assert(buf.subrange(v, n) =~= buf.skip(v));
    assert(pushed_pending(buf) + tail =~= x.subrange(v, x.len() as int));
    law_push_keeps_every_byte(pending, piece);
    if v > 0 {
        decode_utf8_encode_utf8(buf.take(v));
    } else {
        assert(encode_utf8(Seq::<char>::empty()) =~= Seq::<u8>::empty());
    }
}

/// The joined outputs after one more output in front.
proof fn lemma_joined_outputs_front(first: Option<Seq<char>>, outs: Seq<Option<Seq<char>>>)
    ensures
        joined_outputs(seq![first] + outs) == (match first {
            Some(text) => text,
            None => Seq::<char>::empty(),
        }) + joined_outputs(outs),
{
    let all = seq![first] + outs;
    assert(all.drop_first() =~= outs);
    assert(all[0] == first);
}

/// Pushing the pieces of valid text onto held bytes of an unfinished scalar
/// is never refused, never emits an empty text, and emits, as UTF-8, exactly
/// the held bytes followed by the pieces.
proof fn lemma_push_each_valid(pending: Seq<u8>, pieces: Seq<Seq<u8>>)
    requires
        valid_utf8(pending + pieces.flatten()),
        pending.len() == 0 || scan_scalar(pending) is Truncated,
    ensures
        push_each(pending, pieces) matches Some((outs, held)) && {
            &&& held.len() == 0
            &&& outs.len() == pieces.len()
            &&& encode_utf8(joined_outputs(outs)) == pending + pieces.flatten()
            &&& forall|k: int| 0 <= k < outs.len() ==> (#[trigger] outs[k] matches Some(text)
                ==> text.len() > 0)
        },
    decreases pieces.len(),
{
    if pieces.len() == 0 {
        assert(pending + pieces.flatten() =~= pending);
        if pending.len() > 0 {
            lemma_scan_complete_iff_valid_first_scalar(pending);
        }
        assert(encode_utf8(Seq::<char>::empty()) =~= Seq::<u8>::empty());
        assert(pending =~= Seq::<u8>::empty());
        assert(pending + pieces.flatten() =~= Seq::<u8>::empty());
    } else {
        let buf = pending + pieces[0];
        let tail = pieces.drop_first().flatten();
        assert(pending + pieces.flatten() =~= pending + pieces[0] + tail);
        lemma_push_step(pending, pieces[0], tail);
        let held = pushed_pending(buf);
        lemma_push_each_valid(held, pieces.drop_first());
        let (outs1, held1) = push_each(held, pieces.drop_first())->Some_0;
        let outs = seq![pushed_text(buf)] + outs1;
        let first = match pushed_text(buf) {
            Some(text) => text,
            None => Seq::<char>::empty(),
        };
        lemma_joined_outputs_front(pushed_text(buf), outs1);
        lemma_encode_concat(first, joined_outputs(outs1));
        assert(encode_utf8(joined_outputs(outs)) =~= pending + pieces.flatten());
        assert forall|k: int| 0 <= k < outs.len() implies (#[trigger] outs[k] matches Some(text)
            ==> text.len() > 0) by {
            if k > 0 {
                assert(outs[k] == outs1[k - 1]);
            }
        }
    }
}

/// However well-formed UTF-8 text is split into pieces, pushing the pieces in
/// order into a new decoder is never refused and never emits an empty text;
/// the emitted texts, joined in order, are exactly the text, and nothing is
/// left pending, so `finish` succeeds.
pub proof fn law_pieces_of_valid_text_decode_whole(pieces: Seq<Seq<u8>>)
    requires
        valid_utf8(pieces.flatten()),
    ensures
        push_each(Seq::empty(), pieces) matches Some((outs, held)) && {
            &&& held.len() == 0
            &&& outs.len() == pieces.len()
            &&& joined_outputs(outs) == decode_utf8(pieces.flatten())
            &&& forall|k: int| 0 <= k < outs.len() ==> (#[trigger] outs[k] matches Some(text)
                ==> text.len() > 0)
        },
{
    assert(Seq::<u8>::empty() + pieces.flatten() =~= pieces.flatten());
    lemma_push_each_valid(Seq::empty(), pieces);
    let (outs, held) = push_each(Seq::empty(), pieces)->Some_0;
    encode_utf8_decode_utf8(joined_outputs(outs));
}

/// A byte that may follow the leading byte `b0` as the second byte of a
/// well-formed scalar.
spec fn second_byte_for(b0: u8) -> u8 {
    if b0 == 0xe0 {
        0xa0
    } else if b0 == 0xf0 {
        0x90
    } else {
        0x80
    }
}

/// Bytes that finish the unfinished scalar at the start of `rest`.
spec fn completion(rest: Seq<u8>) -> Seq<u8> {
    let w = scalar_width(rest[0]);
    if rest.len() == 1 {
        seq![second_byte_for(rest[0])] + Seq::new((w - 2) as nat, |j: int| 0x80u8)
    } else {
        Seq::new((w - rest.len()) as nat, |j: int| 0x80u8)
    }
}

/// An unfinished scalar can be finished into valid UTF-8.
proof fn lemma_truncated_completes(rest: Seq<u8>)
    requires
        rest.len() > 0,
        scan_scalar(rest) is Truncated,
    ensures
        valid_utf8(rest + completion(rest)),
{
    lemma_scan_scalar_bounds(rest);
    let w = scalar_width(rest[0]);
    let ext = completion(rest);
    let whole = rest + ext;
    assert(whole.len() == w);
    assert(whole[0] == rest[0]);
    if rest.len() == 1 {
        assert(whole[1] == second_byte_for(rest[0]));
        if w >= 3 {
            assert(whole[2] == 0x80u8);
        }
        if w >= 4 {
            assert(whole[3] == 0x80u8);
        }
    } else {
        assert(whole[1] == rest[1]);
        if rest.len() >= 3 {
            assert(whole[2] == rest[2]);
        } else if w >= 3 {
            assert(whole[2] == 0x80u8);
        }
        if w >= 4 {
            if rest.len() >= 4 {
                assert(whole[3] == rest[3]);
            } else {
                assert(whole[3] == 0x80u8);
            }
        }
    }
    assert(scan_scalar(whole) == ScalarScan::Complete(w as usize));
    lemma_scan_complete_iff_valid_first_scalar(whole);
    assert(pop_first_scalar(whole) =~= Seq::<u8>::empty());
    assert(valid_utf8(Seq::<u8>::empty()));
}

/// An ill-formed start stays ill-formed whatever follows it.
proof fn lemma_malformed_extends(rest: Seq<u8>, ext: Seq<u8>)
    requires
        rest.len() > 0,
        scan_scalar(rest) is Malformed,
    ensures
        scan_scalar(rest + ext) == scan_scalar(rest),
{
    let x = rest + ext;
    assert(x[0] == rest[0]);
    if rest.len() >= 2 {
        assert(x[1] == rest[1]);
    }
    if rest.len() >= 3 {
        assert(x[2] == rest[2]);
    }
    if rest.len() >= 4 {
        assert(x[3] == rest[3]);
    }
}

/// A push is refused exactly when the buffered bytes can begin no valid
/// UTF-8 text: bytes that some continuation makes valid are never refused,
/// and bytes that no continuation makes valid always are.
pub proof fn law_refused_exactly_when_no_valid_extension(buf: Seq<u8>)
    ensures
        utf8_malformed(buf) <==> !(exists|ext: Seq<u8>| #[trigger] valid_utf8(buf + ext)),
{
    lemma_valid_up_to(buf);
    let v = utf8_valid_up_to(buf);
    if utf8_malformed(buf) {
        let rest = buf.skip(v);
        assert forall|ext: Seq<u8>| !#[trigger] valid_utf8(buf + ext) by {
            let x = buf + ext;
            assert(x.subrange(0, v) =~= buf.take(v));
            assert(x.subrange(v, x.len() as int) =~= rest + ext);
            lemma_malformed_extends(rest, ext);
            lemma_first_scalar_of_valid_suffix(x, v);
        }
    } else if v == buf.len() {
        assert(buf + Seq::<u8>::empty() =~= buf);
        assert(valid_utf8(buf + Seq::<u8>::empty()));
    } else {
        let rest = buf.skip(v);
        lemma_scan_scalar_bounds(rest);
        assert(scan_scalar(rest) is Truncated);
        lemma_truncated_completes(rest);
        let ext = completion(rest);
        valid_utf8_concat(buf.take(v), rest + ext);
        assert(buf.take(v) + (rest + ext) =~= buf + ext);
        assert(valid_utf8(buf + ext));
    }
}

} // verus!
