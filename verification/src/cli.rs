//! The command-line grammar of the demo program: decimal numerals and the
//! options of a generation run.

use vstd::prelude::*;
use vstd::utf8::*;

use crate::text::str_eq;

verus! {

/// The value of ASCII decimal digits, most significant first.
pub open spec fn digits_value(digits: Seq<u8>) -> nat
    decreases digits.len(),
{
    if digits.len() == 0 {
        0
    } else {
        digits_value(digits.drop_last()) * 10 + (digits.last() - 48) as nat
    }
}

/// Every byte is an ASCII digit.
pub open spec fn all_digits(bytes: Seq<u8>) -> bool {
    forall|i: int| 0 <= i < bytes.len() ==> 48 <= #[trigger] bytes[i] <= 57
}

/// The value of an unsigned decimal numeral: an optional `+` followed by one
/// or more ASCII digits.
pub open spec fn numeral_value(bytes: Seq<u8>) -> Option<nat> {
    let digits = if bytes.len() > 0 && bytes[0] == 43 {
        bytes.drop_first()
    } else {
        bytes
    };
    if digits.len() > 0 && all_digits(digits) {
        Some(digits_value(digits))
    } else {
        None
    }
}

/// A numeral's value when it fits in a `usize`.
pub open spec fn numeral_usize(bytes: Seq<u8>) -> Option<usize> {
    match numeral_value(bytes) {
        Some(v) => if v <= usize::MAX {
            Some(v as usize)
        } else {
            None
        },
        None => None,
    }
}

proof fn lemma_digits_prefix(digits: Seq<u8>, i: int)
    requires
        0 <= i < digits.len(),
    ensures
        digits_value(digits.take(i + 1)) == digits_value(digits.take(i)) * 10 + (digits[i] - 48) as nat,
{
    assert(digits.take(i + 1).drop_last() =~= digits.take(i));
}

proof fn lemma_digits_monotone(digits: Seq<u8>, j: int, k: int)
    requires
        0 <= j <= k <= digits.len(),
        all_digits(digits),
    ensures
        digits_value(digits.take(j)) <= digits_value(digits.take(k)),
    decreases k - j,
{
    if j < k {
        lemma_digits_monotone(digits, j, k - 1);
        lemma_digits_prefix(digits, k - 1);
    }
}

/// Parses an unsigned decimal numeral into a `usize`.
pub fn parse_usize(text: &str) -> (r: Option<usize>)
    ensures
        r == numeral_usize(encode_utf8(text@)),
{
    let bytes = text.as_bytes();
    let ghost all = bytes@;
    let start: usize = if bytes.len() > 0 && bytes[0] == 43 {
        1
    } else {
        0
    };
    let ghost digits = all.skip(start as int);
    proof {
        if start == 1 {
            assert(digits =~= all.drop_first());
        } else {
            assert(digits =~= all);
        }
    }
    if start == bytes.len() {
        return None;
    }
    let mut value: usize = 0;
    let mut i: usize = start;
    while i < bytes.len()
        invariant
            start <= i <= bytes@.len(),
            bytes@ == all,
            all == encode_utf8(text@),
            digits == all.skip(start as int),
            digits == (if all.len() > 0 && all[0] == 43 {
                all.drop_first()
            } else {
                all
            }),
            digits.len() > 0,
            forall|j: int| start <= j < i ==> 48 <= #[trigger] all[j] <= 57,
            value == digits_value(digits.take(i - start)),
        decreases bytes@.len() - i,
    {
        let b = bytes[i];
        if b < 48 || b > 57 {
            assert(!all_digits(digits)) by {
                assert(digits[i - start] == b);
            }
            return None;
        }
        proof {
            lemma_digits_prefix(digits, i - start);
        }
        let next = match value.checked_mul(10) {
            Some(tens) => tens.checked_add((b - 48) as usize),
            None => None,
        };
        match next {
            Some(v) => {
                value = v;
            },
            None => {
                proof {
                    if all_digits(digits) {
                        lemma_digits_monotone(digits, i - start + 1, digits.len() as int);
                        assert(digits.take(digits.len() as int) =~= digits);
                    }
                }
                return None;
            },
        }
        i = i + 1;
    }
    proof {
        assert(digits.take(digits.len() as int) =~= digits);
        assert forall|j: int| 0 <= j < digits.len() implies 48 <= #[trigger] digits[j] <= 57 by {
            assert(digits[j] == all[j + start]);
        }
    }
    Some(value)
}


/// A numeral's value when it fits in a `u32`.
pub open spec fn numeral_u32(bytes: Seq<u8>) -> Option<u32> {
    match numeral_value(bytes) {
        Some(v) => if v <= u32::MAX {
            Some(v as u32)
        } else {
            None
        },
        None => None,
    }
}

/// Parses an unsigned decimal numeral into a `u32`.
pub fn parse_u32(text: &str) -> (r: Option<u32>)
    ensures
        r == numeral_u32(encode_utf8(text@)),
{
    match parse_usize(text) {
        Some(v) => if v <= 0xffff_ffff {
            Some(v as u32)
        } else {
            None
        },
        None => None,
    }
}

/// The options of one generation run.
#[derive(Debug)]
pub struct GenerateOptions {
    pub prompt: String,
    pub max_tokens: usize,
    pub cancel_at: Option<usize>,
    pub fail_at: Option<usize>,
    pub trace: bool,
}

/// Generation options with the prompt as characters.
pub struct OptionsView {
    pub prompt: Seq<char>,
    pub max_tokens: usize,
    pub cancel_at: Option<usize>,
    pub fail_at: Option<usize>,
    pub trace: bool,
}

impl View for GenerateOptions {
    type V = OptionsView;

    open spec fn view(&self) -> OptionsView {
        OptionsView {
            prompt: self.prompt@,
            max_tokens: self.max_tokens,
            cancel_at: self.cancel_at,
            fail_at: self.fail_at,
            trace: self.trace,
        }
    }
}

/// The options gathered while reading arguments: prompt words so far, and
/// each option's latest value.
pub struct ArgsDraft {
    pub parts: Seq<Seq<char>>,
    pub max_tokens: usize,
    pub cancel_at: Option<usize>,
    pub fail_at: Option<usize>,
    pub trace: bool,
}

pub open spec fn usage_text() -> Seq<char> {
    "usage:\n  engine0 [--trace] [--max-tokens N] [--cancel-at STEP] [--fail-at STEP] PROMPT\n  engine0 tokenize TEXT\n  engine0 decode TOKEN_ID..."@
}

pub fn usage() -> (text: &'static str)
    ensures
        text@ == usage_text(),
{
    "usage:\n  engine0 [--trace] [--max-tokens N] [--cancel-at STEP] [--fail-at STEP] PROMPT\n  engine0 tokenize TEXT\n  engine0 decode TOKEN_ID..."
}

/// The argument's first byte is `-`.
pub open spec fn starts_with_dash(arg: Seq<char>) -> bool {
    encode_utf8(arg).len() > 0 && encode_utf8(arg)[0] == 45
}

/// An option that takes a numeric value.
pub open spec fn is_valued_option(arg: Seq<char>) -> bool {
    arg == "--max-tokens"@ || arg == "--cancel-at"@ || arg == "--fail-at"@
}

/// `d` with the value `v` of option `name`.
pub open spec fn with_option(d: ArgsDraft, name: Seq<char>, v: usize) -> ArgsDraft {
    if name == "--max-tokens"@ {
        ArgsDraft { max_tokens: v, ..d }
    } else if name == "--cancel-at"@ {
        ArgsDraft { cancel_at: Some(v), ..d }
    } else {
        ArgsDraft { fail_at: Some(v), ..d }
    }
}

/// Reads the arguments from position `i` on into the draft `d`, or fails with
/// the message the program prints.
pub open spec fn read_args(args: Seq<Seq<char>>, i: int, d: ArgsDraft) -> Result<ArgsDraft, Seq<char>>
    decreases args.len() - i,
{
    if i < 0 || i >= args.len() {
        Ok(d)
    } else if args[i] == "--trace"@ {
        read_args(args, i + 1, ArgsDraft { trace: true, ..d })
    } else if is_valued_option(args[i]) {
        if i + 1 >= args.len() {
            Err(args[i] + " requires a value"@)
        } else {
            match numeral_usize(encode_utf8(args[i + 1])) {
                None => Err("invalid "@ + args[i] + " value: "@ + args[i + 1]),
                Some(v) => read_args(args, i + 2, with_option(d, args[i], v)),
            }
        }
    } else if args[i] == "-h"@ || args[i] == "--help"@ {
        Err(usage_text())
    } else if starts_with_dash(args[i]) {
        Err("unknown option: "@ + args[i])
    } else {
        read_args(args, i + 1, ArgsDraft { parts: d.parts.push(args[i]), ..d })
    }
}

/// Words joined by single spaces.
pub open spec fn joined(parts: Seq<Seq<char>>) -> Seq<char>
    decreases parts.len(),
{
    if parts.len() == 0 {
        Seq::empty()
    } else if parts.len() == 1 {
        parts[0]
    } else {
        joined(parts.drop_last()) + " "@ + parts.last()
    }
}

/// The characters of each argument.
pub open spec fn args_view(args: Seq<String>) -> Seq<Seq<char>> {
    args.map_values(|a: String| a@)
}

/// No prompt words yet, eight tokens at most, no cancellation or injected
/// failure, no trace.
pub open spec fn initial_draft() -> ArgsDraft {
    ArgsDraft {
        parts: Seq::empty(),
        max_tokens: 8,
        cancel_at: None,
        fail_at: None,
        trace: false,
    }
}

/// The options of a generation run given `args`, or the message to print.
pub open spec fn generate_options(args: Seq<Seq<char>>) -> Result<OptionsView, Seq<char>> {
    match read_args(args, 0, initial_draft()) {
        Err(message) => Err(message),
        Ok(d) => if d.parts.len() == 0 {
            Err(usage_text())
        } else {
            Ok(
                OptionsView {
                    prompt: joined(d.parts),
                    max_tokens: d.max_tokens,
                    cancel_at: d.cancel_at,
                    fail_at: d.fail_at,
                    trace: d.trace,
                },
            )
        },
    }
}

fn join_words(parts: &Vec<String>) -> (text: String)
    ensures
        text@ == joined(args_view(parts@)),
{
    let mut text = String::new();
    let mut i: usize = 0;
    while i < parts.len()
        invariant
            i <= parts@.len(),
            text@ == joined(args_view(parts@).take(i as int)),
        decreases parts@.len() - i,
    {
        let ghost before = args_view(parts@).take(i as int);
        if i > 0 {
            text.append(" ");
        }
        text.append(parts[i].as_str());
        i = i + 1;
        proof {
            let now = args_view(parts@).take(i as int);
            assert(now.drop_last() =~= before);
            if i == 1 {
                assert(before =~= Seq::<Seq<char>>::empty());
                assert(text@ =~= now[0]);
            } else {
                assert(text@ =~= joined(before) + " "@ + now.last());
            }
        }
    }
    assert(args_view(parts@).take(parts@.len() as int) =~= args_view(parts@));
    text
}

/// Reads the options of a generation run.
pub fn parse_generate(args: Vec<String>) -> (r: Result<GenerateOptions, String>)
    ensures
        match r {
            Ok(options) => generate_options(args_view(args@)) == Ok::<OptionsView, Seq<char>>(
                options@,
            ),
            Err(message) => generate_options(args_view(args@)) == Err::<OptionsView, Seq<char>>(
                message@,
            ),
        },
{
    let ghost all = args_view(args@);
    let ghost start = initial_draft();
    let mut parts: Vec<String> = Vec::new();
    let mut max_tokens: usize = 8;
    let mut cancel_at: Option<usize> = None;
    let mut fail_at: Option<usize> = None;
    let mut trace = false;
    let mut i: usize = 0;
    proof {
        assert(args_view(parts@) =~= Seq::<Seq<char>>::empty());
    }
    while i < args.len()
        invariant
            i <= args@.len(),
            all == args_view(args@),
            start == initial_draft(),
            read_args(all, 0, start) == read_args(
                all,
                i as int,
                ArgsDraft { parts: args_view(parts@), max_tokens, cancel_at, fail_at, trace },
            ),
        decreases args@.len() - i,
    {
        let arg = args[i].as_str();
        let ghost d = ArgsDraft { parts: args_view(parts@), max_tokens, cancel_at, fail_at, trace };
        assert(all[i as int] == arg@);
        if str_eq(arg, "--trace") {
            trace = true;
            i = i + 1;
        } else if str_eq(arg, "--max-tokens") || str_eq(arg, "--cancel-at") || str_eq(arg, "--fail-at") {
            if i + 1 >= args.len() {
                let mut message = String::new();
                message.append(arg);
                message.append(" requires a value");
                proof {
                    assert(message@ =~= arg@ + " requires a value"@);
                }
                return Err(message);
            }
            let value = args[i + 1].as_str();
            assert(all[i + 1] == value@);
            match parse_usize(value) {
                None => {
                    let mut message = String::from_str("invalid ");
                    message.append(arg);
                    message.append(" value: ");
                    message.append(value);
                    proof {
                        assert(message@ =~= "invalid "@ + arg@ + " value: "@ + value@);
                    }
                    return Err(message);
                },
                Some(v) => {
                    if str_eq(arg, "--max-tokens") {
                        max_tokens = v;
                    } else if str_eq(arg, "--cancel-at") {
                        cancel_at = Some(v);
                    } else {
                        fail_at = Some(v);
                    }
                    i = i + 2;
                },
            }
        } else if str_eq(arg, "-h") || str_eq(arg, "--help") {
            return Err(String::from_str(usage()));
        } else if arg.as_bytes().len() > 0 && arg.as_bytes()[0] == 45 {
            let mut message = String::from_str("unknown option: ");
            message.append(arg);
            return Err(message);
        } else {
            let ghost before = parts@;
            parts.push(args[i].clone());
            proof {
                assert(args_view(parts@) =~= args_view(before).push(arg@));
            }
            i = i + 1;
        }
    }
    if parts.len() == 0 {
        return Err(String::from_str(usage()));
    }
    let prompt = join_words(&parts);
    Ok(GenerateOptions { prompt, max_tokens, cancel_at, fail_at, trace })
}

} // verus!
