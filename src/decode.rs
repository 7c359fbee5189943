//! A resumable tokenizer: bytes arriving in chunks become JSON tokens, one
//! call at a time. When the bytes at hand cannot settle the next token, the
//! call reports `NeedsMore` and leaves both the bytes and its own state as
//! they were, so the caller can retry with the same bytes and more after them.
use vstd::prelude::*;
use vstd::utf8::{valid_utf8, decode_utf8};

verus! {

/// Error type for decoding
#[derive(Debug, Clone, Copy, PartialEq, Eq, Structural)]
pub enum DecodeError {
    /// Re-run decode with additional input.
    NeedsMore,
    /// More input needed to finish parse, but input bytes marked as end of stream.
    UnexpectedEndOfStream,
    /// Invalid UTF-8 character in input bytes.
    InvalidUtf8,
    /// String contains `\uXXXX` sequence where 0xXXXX is an invalid unicode code point.
    InvalidUnicodeEscape(u32),
    /// Generic error parsing found an invalid byte.
    UnexpectedByte(u8),
}

/// A syntactic JSON token. Text is that of the input: a number's lexeme, a
/// string or key as it stands between its quotes, escapes kept.
#[derive(Debug, Clone, PartialEq, Eq)]
pub enum JsonToken {
    StartObject,
    EndObject,
    StartArray,
    EndArray,
    JsNull,
    JsBoolean(bool),
    JsNumber(String),
    JsString(String),
    JsKey(String),
}

pub open spec fn is_ws(c: u8) -> bool {
    c == 0x09 || c == 0x0a || c == 0x0d || c == 0x20
}

pub open spec fn is_digit(c: u8) -> bool {
    0x30 <= c <= 0x39
}

/// The first position at or after `i` that does not hold whitespace.
pub open spec fn ws_end(b: Seq<u8>, i: int) -> int
    decreases b.len() - i,
{
    if 0 <= i < b.len() && is_ws(b[i]) {
        ws_end(b, i + 1)
    } else {
        i
    }
}

/// What a scan of one lexeme found: its end, a need for more bytes, or an error.
pub enum Scan {
    Done(int),
    More,
    Bad(DecodeError),
}

/// Matches the literal `lit` at `i`, from its `k`-th byte on. A proper prefix
/// of the literal at the end of the bytes asks for more.
pub open spec fn scan_literal(b: Seq<u8>, i: int, lit: Seq<u8>, k: int) -> Scan
    decreases lit.len() - k,
{
    if k < 0 || k >= lit.len() {
        Scan::Done(i + lit.len())
    } else if i + k >= b.len() {
        Scan::More
    } else if b[i + k] == lit[k] {
        scan_literal(b, i, lit, k + 1)
    } else {
        Scan::Bad(DecodeError::UnexpectedByte(b[i + k]))
    }
}

/// States of the automaton for JSON numbers:
/// `-? (0 | [1-9][0-9]*) (. [0-9]+)? ([eE] [+-]? [0-9]+)?`
#[derive(Debug, Clone, Copy, PartialEq, Eq, Structural)]
pub enum NumState {
    Start,
    Minus,
    Zero,
    Int,
    Dot,
    Frac,
    ExpMark,
    ExpSign,
    Exp,
}

pub open spec fn is_exp_mark(c: u8) -> bool {
    c == 0x65 || c == 0x45
}

pub open spec fn num_next(s: NumState, c: u8) -> Option<NumState> {
    match s {
        NumState::Start => if c == 0x2d { Some(NumState::Minus) } else if c == 0x30 { Some(NumState::Zero) }
            else if is_digit(c) { Some(NumState::Int) } else { None },
        NumState::Minus => if c == 0x30 { Some(NumState::Zero) } else if is_digit(c) { Some(NumState::Int) }
            else { None },
        NumState::Zero => if c == 0x2e { Some(NumState::Dot) } else if is_exp_mark(c) { Some(NumState::ExpMark) }
            else { None },
        NumState::Int => if is_digit(c) { Some(NumState::Int) } else if c == 0x2e { Some(NumState::Dot) }
            else if is_exp_mark(c) { Some(NumState::ExpMark) } else { None },
        NumState::Dot => if is_digit(c) { Some(NumState::Frac) } else { None },
        NumState::Frac => if is_digit(c) { Some(NumState::Frac) } else if is_exp_mark(c) { Some(NumState::ExpMark) }
            else { None },
        NumState::ExpMark => if c == 0x2b || c == 0x2d { Some(NumState::ExpSign) }
            else if is_digit(c) { Some(NumState::Exp) } else { None },
        NumState::ExpSign => if is_digit(c) { Some(NumState::Exp) } else { None },
        NumState::Exp => if is_digit(c) { Some(NumState::Exp) } else { None },
    }
}

/// States in which the bytes read so far form a whole number.
pub open spec fn num_accepts(s: NumState) -> bool {
    s is Zero || s is Int || s is Frac || s is Exp
}

/// Runs the number automaton from state `s` at `i`. The number ends at the
/// first byte without a transition, which is an error unless the state
/// accepts (a digit after a leading `0` is an error too). At the end of the
/// bytes the number is whole only when no more bytes can come.
pub open spec fn scan_number(b: Seq<u8>, i: int, s: NumState, eos: bool) -> Scan
    decreases b.len() - i,
{
    if i < 0 || i >= b.len() {
        if eos && num_accepts(s) { Scan::Done(i) } else { Scan::More }
    } else {
        match num_next(s, b[i]) {
            Some(t) => scan_number(b, i + 1, t, eos),
            None => if num_accepts(s) && !(s is Zero && is_digit(b[i])) {
                Scan::Done(i)
            } else {
                Scan::Bad(DecodeError::UnexpectedByte(b[i]))
            },
        }
    }
}

/// The position of the quote that closes a string whose content starts at
/// `j`: the first `"` not escaped by a backslash. A backslash escapes the
/// byte after it, so the closing quote is the first one preceded by an even
/// number of backslashes.
pub open spec fn string_end(b: Seq<u8>, j: int) -> Option<int>
    decreases b.len() - j,
{
    if j < 0 || j >= b.len() {
        None
    } else if b[j] == 0x22 {
        Some(j)
    } else if b[j] == 0x5c {
        if j + 1 >= b.len() { None } else { string_end(b, j + 2) }
    } else {
        string_end(b, j + 1)
    }
}

/// The value of a hexadecimal digit, or -1.
pub open spec fn hex_value(c: u8) -> int {
    if is_digit(c) {
        c - 0x30
    } else if 0x61 <= c <= 0x66 {
        c - 0x57
    } else if 0x41 <= c <= 0x46 {
        c - 0x37
    } else {
        -1
    }
}

/// The first byte among the four at `k` (from the `m`-th on) that is no
/// hexadecimal digit; a content that ends too early yields the closing quote.
pub open spec fn hex_error(c: Seq<u8>, k: int, m: int) -> Option<u8>
    decreases 4 - m,
{
    if m < 0 || m >= 4 {
        None
    } else if k + m >= c.len() {
        Some(0x22u8)
    } else if hex_value(c[k + m]) < 0 {
        Some(c[k + m])
    } else {
        hex_error(c, k, m + 1)
    }
}

/// The code unit written by the four hexadecimal digits at `k`.
pub open spec fn hex4(c: Seq<u8>, k: int) -> int {
    4096 * hex_value(c[k]) + 256 * hex_value(c[k + 1]) + 16 * hex_value(c[k + 2]) + hex_value(c[k + 3])
}

pub open spec fn is_high_surrogate(u: int) -> bool {
    0xd800 <= u <= 0xdbff
}

pub open spec fn is_low_surrogate(u: int) -> bool {
    0xdc00 <= u <= 0xdfff
}

/// Whether a `\uXXXX` escape of a low surrogate stands at `m`.
pub open spec fn low_surrogate_at(c: Seq<u8>, m: int) -> bool {
    &&& m + 6 <= c.len()
    &&& c[m] == 0x5c
    &&& c[m + 1] == 0x75
    &&& hex_error(c, m + 2, 0) is None
    &&& is_low_surrogate(hex4(c, m + 2))
}

/// The bytes that may follow a backslash on their own: `" \ / b f n r t`.
pub open spec fn is_simple_escape(e: u8) -> bool {
    e == 0x22 || e == 0x5c || e == 0x2f || e == 0x62 || e == 0x66 || e == 0x6e || e == 0x72 || e == 0x74
}

/// The first malformed escape in a string's content, from `k` on. A `\u`
/// escape of a high surrogate must be followed by one of a low surrogate;
/// any other surrogate is an invalid code point.
pub open spec fn escape_error(c: Seq<u8>, k: int) -> Option<DecodeError>
    decreases c.len() + 12 - k,
{
    if k < 0 || k >= c.len() {
        None
    } else if c[k] != 0x5c {
        escape_error(c, k + 1)
    } else if k + 1 >= c.len() {
        Some(DecodeError::UnexpectedByte(0x22))
    } else if is_simple_escape(c[k + 1]) {
        escape_error(c, k + 2)
    } else if c[k + 1] != 0x75 {
        Some(DecodeError::UnexpectedByte(c[k + 1]))
    } else {
        match hex_error(c, k + 2, 0) {
            Some(x) => Some(DecodeError::UnexpectedByte(x)),
            None => {
                let u = hex4(c, k + 2);
                if is_high_surrogate(u) {
                    if low_surrogate_at(c, k + 6) {
                        escape_error(c, k + 12)
                    } else {
                        Some(DecodeError::InvalidUnicodeEscape(u as u32))
                    }
                } else if is_low_surrogate(u) {
                    Some(DecodeError::InvalidUnicodeEscape(u as u32))
                } else {
                    escape_error(c, k + 6)
                }
            },
        }
    }
}

/// Scans a string whose opening quote stands at `i`: it ends after its closing
/// quote, its content must be valid UTF-8 and its escapes well formed.
pub open spec fn scan_string(b: Seq<u8>, i: int) -> Scan {
    match string_end(b, i + 1) {
        None => Scan::More,
        Some(e) => {
            let content = b.subrange(i + 1, e);
            if !valid_utf8(content) {
                Scan::Bad(DecodeError::InvalidUtf8)
            } else {
                match escape_error(content, 0) {
                    Some(x) => Scan::Bad(x),
                    None => Scan::Done(e + 1),
                }
            }
        },
    }
}

/// Exec counterpart of `Scan`.
enum Scanned {
    Done(usize),
    More,
    Bad(DecodeError),
}

spec fn scanned_is(r: Scanned, s: Scan) -> bool {
    match r {
        Scanned::Done(n) => s == Scan::Done(n as int),
        Scanned::More => s is More,
        Scanned::Bad(x) => s == Scan::Bad(x),
    }
}

fn is_whitespace(c: u8) -> (r: bool)
    ensures
        r == is_ws(c),
{
    c == 0x09 || c == 0x0a || c == 0x0d || c == 0x20
}

fn skip_ws(b: &[u8], i: usize) -> (r: usize)
    requires
        i <= b@.len(),
    ensures
        r as int == ws_end(b@, i as int),
        i <= r <= b@.len(),
{
    let mut j = i;
    while j < b.len() && is_whitespace(b[j])
        invariant
            i <= j <= b@.len(),
            ws_end(b@, i as int) == ws_end(b@, j as int),
        decreases b@.len() - j,
    {
        j = j + 1;
    }
    j
}

fn expect_literal(b: &[u8], i: usize, lit: &Vec<u8>) -> (r: Scanned)
    requires
        i <= b@.len(),
        lit@.len() <= 8,
    ensures
        scanned_is(r, scan_literal(b@, i as int, lit@, 0)),
        r matches Scanned::Done(e) ==> e <= b@.len(),
{
    let n = b.len();
    let mut k: usize = 0;
    while k < lit.len()
        invariant
            n == b@.len(),
            k <= lit@.len() <= 8,
            i <= b@.len(),
            k <= b@.len() - i,
            scan_literal(b@, i as int, lit@, 0) == scan_literal(b@, i as int, lit@, k as int),
        decreases lit@.len() - k,
    {
        if k >= b.len() - i {
            return Scanned::More;
        }
        if b[i + k] != lit[k] {
            return Scanned::Bad(DecodeError::UnexpectedByte(b[i + k]));
        }
        k = k + 1;
    }
    Scanned::Done(i + k)
}

fn num_step(s: NumState, c: u8) -> (r: Option<NumState>)
    ensures
        r == num_next(s, c),
{
    let digit = 0x30 <= c && c <= 0x39;
    let exp_mark = c == 0x65 || c == 0x45;
    match s {
        NumState::Start => if c == 0x2d { Some(NumState::Minus) } else if c == 0x30 { Some(NumState::Zero) }
            else if digit { Some(NumState::Int) } else { None },
        NumState::Minus => if c == 0x30 { Some(NumState::Zero) } else if digit { Some(NumState::Int) }
            else { None },
        NumState::Zero => if c == 0x2e { Some(NumState::Dot) } else if exp_mark { Some(NumState::ExpMark) }
            else { None },
        NumState::Int => if digit { Some(NumState::Int) } else if c == 0x2e { Some(NumState::Dot) }
            else if exp_mark { Some(NumState::ExpMark) } else { None },
        NumState::Dot => if digit { Some(NumState::Frac) } else { None },
        NumState::Frac => if digit { Some(NumState::Frac) } else if exp_mark { Some(NumState::ExpMark) }
            else { None },
        NumState::ExpMark => if c == 0x2b || c == 0x2d { Some(NumState::ExpSign) }
            else if digit { Some(NumState::Exp) } else { None },
        NumState::ExpSign => if digit { Some(NumState::Exp) } else { None },
        NumState::Exp => if digit { Some(NumState::Exp) } else { None },
    }
}

fn accepts(s: NumState) -> (r: bool)
    ensures
        r == num_accepts(s),
{
    match s {
        NumState::Zero | NumState::Int | NumState::Frac | NumState::Exp => true,
        _ => false,
    }
}

/// Measures the number that starts at `i`.
fn number_length(b: &[u8], i: usize, eos: bool) -> (r: Scanned)
    requires
        i <= b@.len(),
    ensures
        scanned_is(r, scan_number(b@, i as int, NumState::Start, eos)),
        r matches Scanned::Done(e) ==> i <= e <= b@.len(),
{
    let mut j = i;
    let mut s = NumState::Start;
    while j < b.len()
        invariant
            i <= j <= b@.len(),
            scan_number(b@, i as int, NumState::Start, eos) == scan_number(b@, j as int, s, eos),
        decreases b@.len() - j,
    {
        match num_step(s, b[j]) {
            Some(t) => {
                s = t;
                j = j + 1;
            },
            None => {
                let is_digit = 0x30 <= b[j] && b[j] <= 0x39;
                if accepts(s) && !(s == NumState::Zero && is_digit) {
                    return Scanned::Done(j);
                } else {
                    return Scanned::Bad(DecodeError::UnexpectedByte(b[j]));
                }
            },
        }
    }
    if eos && accepts(s) {
        Scanned::Done(j)
    } else {
        Scanned::More
    }
}

/// Finds the closing quote of a string whose content starts at `j`.
fn find_string_end(b: &[u8], j: usize) -> (r: Option<usize>)
    requires
        j <= b@.len(),
    ensures
        r matches Some(e) ==> string_end(b@, j as int) == Some(e as int) && j <= e < b@.len(),
        r is None ==> string_end(b@, j as int) is None,
{
    let mut k = j;
    while k < b.len()
        invariant
            j <= k,
            string_end(b@, j as int) == string_end(b@, k as int),
        decreases b@.len() - k,
    {
        if b[k] == 0x22 {
            return Some(k);
        } else if b[k] == 0x5c {
            if b.len() - k < 2 {
                return None;
            }
            k = k + 2;
        } else {
            k = k + 1;
        }
    }
    None
}

fn hex_digit_value(c: u8) -> (r: i32)
    ensures
        r as int == hex_value(c),
{
    if 0x30 <= c && c <= 0x39 {
        (c - 0x30) as i32
    } else if 0x61 <= c && c <= 0x66 {
        (c - 0x57) as i32
    } else if 0x41 <= c && c <= 0x46 {
        (c - 0x37) as i32
    } else {
        -1
    }
}

/// Checks the four hexadecimal digits at `k` and reads their code unit.
fn read_hex4(c: &[u8], k: usize) -> (r: Result<u32, u8>)
    requires
        k <= c@.len(),
    ensures
        match r {
            Ok(u) => hex_error(c@, k as int, 0) is None && u as int == hex4(c@, k as int)
                && k + 4 <= c@.len(),
            Err(x) => hex_error(c@, k as int, 0) == Some(x),
        },
{
    let mut m: usize = 0;
    let mut u: u32 = 0;
    while m < 4
        invariant
            m <= 4,
            k <= c@.len(),
            hex_error(c@, k as int, 0) == hex_error(c@, k as int, m as int),
            forall|p: int| 0 <= p < m ==> k + p < c@.len() && hex_value(#[trigger] c@[k + p]) >= 0,
            m == 0 ==> u == 0,
            m == 1 ==> u == hex_value(c@[k as int]),
            m == 2 ==> u == 16 * hex_value(c@[k as int]) + hex_value(c@[k + 1]),
            m == 3 ==> u == 256 * hex_value(c@[k as int]) + 16 * hex_value(c@[k + 1]) + hex_value(c@[k + 2]),
            m == 4 ==> u == hex4(c@, k as int),
        decreases 4 - m,
    {
        if m >= c.len() - k {
            return Err(0x22);
        }
        let v = hex_digit_value(c[k + m]);
        if v < 0 {
            return Err(c[k + m]);
        }
        proof {
            assert(hex_value(c@[k + m]) >= 0);
        }
        u = u * 16 + v as u32;
        m = m + 1;
    }
    Ok(u)
}

fn simple_escape(e: u8) -> (r: bool)
    ensures
        r == is_simple_escape(e),
{
    e == 0x22 || e == 0x5c || e == 0x2f || e == 0x62 || e == 0x66 || e == 0x6e || e == 0x72 || e == 0x74
}

/// Looks for the first malformed escape in a string's content.
fn check_escapes(c: &[u8]) -> (r: Option<DecodeError>)
    ensures
        r == escape_error(c@, 0),
{
    let mut k: usize = 0;
    while k < c.len()
        invariant
            escape_error(c@, 0) == escape_error(c@, k as int),
        decreases c@.len() - k,
    {
        if c[k] != 0x5c {
            k = k + 1;
        } else if c.len() - k < 2 {
            return Some(DecodeError::UnexpectedByte(0x22));
        } else if simple_escape(c[k + 1]) {
            k = k + 2;
        } else if c[k + 1] != 0x75 {
            return Some(DecodeError::UnexpectedByte(c[k + 1]));
        } else {
            match read_hex4(c, k + 2) {
                Err(x) => {
                    return Some(DecodeError::UnexpectedByte(x));
                },
                Ok(u) => {
                    if 0xd800 <= u && u <= 0xdbff {
                        let mut paired = false;
                        if c.len() - k >= 12 && c[k + 6] == 0x5c && c[k + 7] == 0x75 {
                            match read_hex4(c, k + 8) {
                                Ok(w) => {
                                    paired = 0xdc00 <= w && w <= 0xdfff;
                                },
                                Err(_) => {},
                            }
                        }
                        if !paired {
                            return Some(DecodeError::InvalidUnicodeEscape(u));
                        }
                        k = k + 12;
                    } else if 0xdc00 <= u && u <= 0xdfff {
                        return Some(DecodeError::InvalidUnicodeEscape(u));
                    } else {
                        k = k + 6;
                    }
                },
            }
        }
    }
    None
}

/// Relies on std::str::from_utf8: it accepts exactly the well-formed UTF-8
/// byte sequences, and the text it returns is the one they encode.
#[verifier::external_body]
fn utf8_text(b: &[u8]) -> (r: Option<String>)
    ensures
        r is Some <==> valid_utf8(b@),
        r matches Some(s) ==> s@ == decode_utf8(b@),
{
    match std::str::from_utf8(b) {
        Ok(s) => Some(s.to_owned()),
        Err(_) => None,
    }
}


/// A frame of the nesting stack.
#[derive(Debug, Clone, Copy, PartialEq, Eq, Structural)]
pub enum Context {
    Array,
    Object,
}

/// The syntactic category of what was read last, which sets what may follow.
#[derive(Debug, Clone, Copy, PartialEq, Eq, Structural)]
pub enum TokenType {
    ArrayStart,
    ArrayComma,
    ObjectStart,
    ObjectColon,
    ObjectComma,
    Key,
    Value,
}

/// A token located in the input: text tokens by the range of their text.
pub enum Lexeme {
    StartObject,
    EndObject,
    StartArray,
    EndArray,
    Null,
    Boolean(bool),
    Number(int, int),
    Str(int, int),
    Key(int, int),
}

/// The outcome of one decoding step: a token with the end of what it
/// consumed and the new stack and category; the end of the input after
/// whitespace; a need for more bytes; or an error.
pub enum Step {
    Emit(Lexeme, int, Seq<Context>, TokenType),
    End(int),
    More,
    Bad(DecodeError),
}

pub open spec fn null_bytes() -> Seq<u8> {
    seq![0x6eu8, 0x75u8, 0x6cu8, 0x6cu8]
}

pub open spec fn true_bytes() -> Seq<u8> {
    seq![0x74u8, 0x72u8, 0x75u8, 0x65u8]
}

pub open spec fn false_bytes() -> Seq<u8> {
    seq![0x66u8, 0x61u8, 0x6cu8, 0x73u8, 0x65u8]
}

/// The stack without its top frame.
pub open spec fn pop_frame(stack: Seq<Context>) -> Seq<Context> {
    if stack.len() > 0 { stack.drop_last() } else { stack }
}

pub open spec fn scalar_step(s: Scan, lex: Lexeme, stack: Seq<Context>) -> Step {
    match s {
        Scan::Done(e) => Step::Emit(lex, e, stack, TokenType::Value),
        Scan::More => Step::More,
        Scan::Bad(x) => Step::Bad(x),
    }
}

/// An object key at `i`.
pub open spec fn key_step(stack: Seq<Context>, b: Seq<u8>, i: int) -> Step {
    if i >= b.len() {
        Step::More
    } else if b[i] == 0x22 {
        match scan_string(b, i) {
            Scan::Done(e) => Step::Emit(Lexeme::Key(i + 1, e - 1), e, stack, TokenType::Key),
            Scan::More => Step::More,
            Scan::Bad(x) => Step::Bad(x),
        }
    } else {
        Step::Bad(DecodeError::UnexpectedByte(b[i]))
    }
}

/// A value at `i`, where `prev` was read last. Without bytes, an empty stack
/// means the end of the input.
pub open spec fn value_step(stack: Seq<Context>, prev: TokenType, b: Seq<u8>, i: int, eos: bool) -> Step {
    if i >= b.len() {
        if stack.len() == 0 { Step::End(i) } else { Step::More }
    } else {
        let c = b[i];
        if c == 0x6e {
            scalar_step(scan_literal(b, i, null_bytes(), 0), Lexeme::Null, stack)
        } else if c == 0x66 {
            scalar_step(scan_literal(b, i, false_bytes(), 0), Lexeme::Boolean(false), stack)
        } else if c == 0x74 {
            scalar_step(scan_literal(b, i, true_bytes(), 0), Lexeme::Boolean(true), stack)
        } else if c == 0x2d || is_digit(c) {
            match scan_number(b, i, NumState::Start, eos) {
                Scan::Done(e) => if valid_utf8(b.subrange(i, e)) {
                    Step::Emit(Lexeme::Number(i, e), e, stack, TokenType::Value)
                } else {
                    Step::Bad(DecodeError::InvalidUtf8)
                },
                Scan::More => Step::More,
                Scan::Bad(x) => Step::Bad(x),
            }
        } else if c == 0x22 {
            match scan_string(b, i) {
                Scan::Done(e) => Step::Emit(Lexeme::Str(i + 1, e - 1), e, stack, TokenType::Value),
                Scan::More => Step::More,
                Scan::Bad(x) => Step::Bad(x),
            }
        } else if c == 0x7b {
            Step::Emit(Lexeme::StartObject, i + 1, stack.push(Context::Object), TokenType::ObjectStart)
        } else if c == 0x5b {
            Step::Emit(Lexeme::StartArray, i + 1, stack.push(Context::Array), TokenType::ArrayStart)
        } else if c == 0x5d && prev == TokenType::ArrayStart {
            Step::Emit(Lexeme::EndArray, i + 1, pop_frame(stack), TokenType::Value)
        } else {
            Step::Bad(DecodeError::UnexpectedByte(c))
        }
    }
}

/// One step of the grammar from the state `(stack, prev)`, after leading
/// whitespace: inside an object, a key after `{` or `,`, a `:` after a key,
/// a `,` or `}` after a member; inside an array, a `,` or `]` after an
/// element; a value anywhere else.
pub open spec fn decode_step(stack: Seq<Context>, prev: TokenType, b: Seq<u8>, eos: bool) -> Step {
    let i = ws_end(b, 0);
    if stack.len() > 0 && stack.last() == Context::Object && prev == TokenType::ObjectComma {
        key_step(stack, b, i)
    } else if stack.len() > 0 && stack.last() == Context::Object && prev == TokenType::Value {
        if i >= b.len() {
            Step::More
        } else if b[i] == 0x2c {
            key_step(stack, b, ws_end(b, i + 1))
        } else if b[i] == 0x7d {
            Step::Emit(Lexeme::EndObject, i + 1, pop_frame(stack), TokenType::Value)
        } else {
            Step::Bad(DecodeError::UnexpectedByte(b[i]))
        }
    } else if stack.len() > 0 && stack.last() == Context::Object && prev == TokenType::ObjectStart {
        if i >= b.len() {
            Step::More
        } else if b[i] == 0x22 {
            key_step(stack, b, i)
        } else if b[i] == 0x7d {
            Step::Emit(Lexeme::EndObject, i + 1, pop_frame(stack), TokenType::Value)
        } else {
            Step::Bad(DecodeError::UnexpectedByte(b[i]))
        }
    } else if stack.len() > 0 && stack.last() == Context::Object && prev == TokenType::Key {
        if i >= b.len() {
            Step::More
        } else if b[i] == 0x3a {
            value_step(stack, TokenType::ObjectColon, b, ws_end(b, i + 1), eos)
        } else {
            Step::Bad(DecodeError::UnexpectedByte(b[i]))
        }
    } else if stack.len() > 0 && stack.last() == Context::Array && prev == TokenType::Value {
        if i >= b.len() {
            Step::More
        } else if b[i] == 0x2c {
            value_step(stack, TokenType::ArrayComma, b, ws_end(b, i + 1), eos)
        } else if b[i] == 0x5d {
            Step::Emit(Lexeme::EndArray, i + 1, pop_frame(stack), TokenType::Value)
        } else {
            Step::Bad(DecodeError::UnexpectedByte(b[i]))
        }
    } else {
        value_step(stack, prev, b, i, eos)
    }
}

/// What `decode` answers: a step that needs more bytes fails once no more
/// can come, and the end of the input counts only at the end of the stream.
pub open spec fn decode_outcome(stack: Seq<Context>, prev: TokenType, b: Seq<u8>, eos: bool) -> Step {
    match decode_step(stack, prev, b, eos) {
        Step::More => if eos { Step::Bad(DecodeError::UnexpectedEndOfStream) } else { Step::More },
        Step::End(n) => if eos { Step::End(n) } else { Step::More },
        s => s,
    }
}

/// Whether `t` is the token that `lex` locates in `b`.
pub open spec fn token_is(t: JsonToken, lex: Lexeme, b: Seq<u8>) -> bool {
    match lex {
        Lexeme::StartObject => t is StartObject,
        Lexeme::EndObject => t is EndObject,
        Lexeme::StartArray => t is StartArray,
        Lexeme::EndArray => t is EndArray,
        Lexeme::Null => t is JsNull,
        Lexeme::Boolean(v) => t == JsonToken::JsBoolean(v),
        Lexeme::Number(lo, hi) => t matches JsonToken::JsNumber(s) && s@ == decode_utf8(b.subrange(lo, hi)),
        Lexeme::Str(lo, hi) => t matches JsonToken::JsString(s) && s@ == decode_utf8(b.subrange(lo, hi)),
        Lexeme::Key(lo, hi) => t matches JsonToken::JsKey(s) && s@ == decode_utf8(b.subrange(lo, hi)),
    }
}

/// The contract of one call of `decode` from the state `(stack, prev)` on the
/// bytes `b`: the result `r`, the new state and the bytes left.
pub open spec fn decoded(
    stack: Seq<Context>,
    prev: TokenType,
    b: Seq<u8>,
    eos: bool,
    r: Result<Option<JsonToken>, DecodeError>,
    stack2: Seq<Context>,
    prev2: TokenType,
    b2: Seq<u8>,
) -> bool {
    match decode_outcome(stack, prev, b, eos) {
        Step::Emit(lex, e, s, p) => r matches Ok(Some(t)) && token_is(t, lex, b) && stack2 == s && prev2 == p
            && 0 <= e <= b.len() && b2 == b.subrange(e, b.len() as int),
        Step::End(n) => r matches Ok(None) && stack2 == stack && prev2 == prev && 0 <= n <= b.len()
            && b2 == b.subrange(n, b.len() as int),
        Step::More => r == Err::<Option<JsonToken>, DecodeError>(DecodeError::NeedsMore) && stack2 == stack
            && prev2 == prev && b2 == b,
        Step::Bad(x) => r == Err::<Option<JsonToken>, DecodeError>(x) && stack2 == stack && prev2 == prev && b2 == b,
    }
}

/// A set of bytes that can be consumed during decoding.
#[derive(Clone, Debug)]
pub struct ConsumableBytes<'a> {
    bytes: &'a [u8],
    end_of_stream: bool,
}

impl<'a> View for ConsumableBytes<'a> {
    type V = Seq<u8>;

    closed spec fn view(&self) -> Seq<u8> {
        self.bytes@
    }
}

impl<'a> ConsumableBytes<'a> {
    /// Whether these are the final bytes of the stream.
    pub closed spec fn is_end(&self) -> bool {
        self.end_of_stream
    }

    /// Construct a chunk of consumable bytes.
    ///
    /// Constructing in this manner indicates that there are more bytes in the stream. Use
    /// new_end_of_stream if these are the final bytes in the stream.
    pub fn new(bytes: &'a [u8]) -> (r: ConsumableBytes<'a>)
        ensures
            r@ == bytes@,
            !r.is_end(),
    {
        ConsumableBytes { bytes, end_of_stream: false }
    }

    /// Construct a chunk of consumable bytes.
    ///
    /// Constructing in this manner indicates that these are the final bytes in the stream.
    pub fn new_end_of_stream(bytes: &'a [u8]) -> (r: ConsumableBytes<'a>)
        ensures
            r@ == bytes@,
            r.is_end(),
    {
        ConsumableBytes { bytes, end_of_stream: true }
    }

    /// Length of the remaining bytes.
    pub fn len(&self) -> (r: usize)
        ensures
            r == self@.len(),
    {
        self.bytes.len()
    }

    /// Consume n bytes from the beginning of the bytes.
    pub fn consume_bytes(&mut self, n: usize)
        requires
            n <= old(self)@.len(),
        ensures
            final(self)@ == old(self)@.subrange(n as int, old(self)@.len() as int),
            final(self).is_end() == old(self).is_end(),
    {
        let b = self.bytes;
        self.bytes = &b[n..b.len()];
    }
}

/// Exec counterpart of the stack change of a step.
enum Effect {
    Keep,
    Push(Context),
    Pop,
}

spec fn apply_effect(stack: Seq<Context>, e: Effect) -> Seq<Context> {
    match e {
        Effect::Keep => stack,
        Effect::Push(c) => stack.push(c),
        Effect::Pop => pop_frame(stack),
    }
}

/// Exec counterpart of `Step`.
enum Stepped {
    Emit(JsonToken, usize, Effect, TokenType),
    End(usize),
    More,
    Bad(DecodeError),
}

spec fn stepped_is(r: Stepped, s: Step, stack: Seq<Context>, b: Seq<u8>) -> bool {
    match r {
        Stepped::Emit(t, e, eff, p) => match s {
            Step::Emit(lex, e2, st2, pv2) => e2 == e as int && token_is(t, lex, b) && st2 == apply_effect(stack, eff)
                && pv2 == p,
            _ => false,
        },
        Stepped::End(n) => s == Step::End(n as int),
        Stepped::More => s is More,
        Stepped::Bad(x) => s == Step::Bad(x),
    }
}

spec fn stepped_within(r: Stepped, n: int) -> bool {
    match r {
        Stepped::Emit(_, e, _, _) => e <= n,
        Stepped::End(k) => k <= n,
        _ => true,
    }
}

/// Reads the string whose opening quote stands at `i`; a key when `key`.
fn decode_str(b: &[u8], i: usize, key: bool) -> (r: Stepped)
    requires
        i < b@.len(),
        b@[i as int] == 0x22,
    ensures
        match scan_string(b@, i as int) {
            Scan::Done(e) => r matches Stepped::Emit(t, e2, eff, p) && e2 == e && eff is Keep
                && p == (if key { TokenType::Key } else { TokenType::Value })
                && token_is(t, if key { Lexeme::Key(i + 1, e - 1) } else { Lexeme::Str(i + 1, e - 1) }, b@),
            Scan::More => r is More,
            Scan::Bad(x) => r == Stepped::Bad(x),
        },
        stepped_within(r, b@.len() as int),
{
    let n = b.len();
    match find_string_end(b, i + 1) {
        None => Stepped::More,
        Some(e) => {
            let content = &b[i + 1..e];
            match utf8_text(content) {
                None => Stepped::Bad(DecodeError::InvalidUtf8),
                Some(text) => match check_escapes(content) {
                    Some(x) => Stepped::Bad(x),
                    None => if key {
                        Stepped::Emit(JsonToken::JsKey(text), e + 1, Effect::Keep, TokenType::Key)
                    } else {
                        Stepped::Emit(JsonToken::JsString(text), e + 1, Effect::Keep, TokenType::Value)
                    },
                },
            }
        },
    }
}


fn key_exec(b: &[u8], i: usize) -> (r: Stepped)
    requires
        i <= b@.len(),
    ensures
        forall|stack: Seq<Context>| stepped_is(r, #[trigger] key_step(stack, b@, i as int), stack, b@),
        stepped_within(r, b@.len() as int),
{
    if i >= b.len() {
        Stepped::More
    } else if b[i] == 0x22 {
        decode_str(b, i, true)
    } else {
        Stepped::Bad(DecodeError::UnexpectedByte(b[i]))
    }
}

fn literal_exec(b: &[u8], i: usize, lit: &Vec<u8>, t: JsonToken) -> (r: Stepped)
    requires
        i <= b@.len(),
        lit@.len() <= 8,
    ensures
        match scan_literal(b@, i as int, lit@, 0) {
            Scan::Done(e) => r matches Stepped::Emit(t2, e2, eff, p) && e2 == e && t2 == t && eff is Keep
                && p == TokenType::Value,
            Scan::More => r is More,
            Scan::Bad(x) => r == Stepped::Bad(x),
        },
        stepped_within(r, b@.len() as int),
{
    match expect_literal(b, i, lit) {
        Scanned::Done(e) => Stepped::Emit(t, e, Effect::Keep, TokenType::Value),
        Scanned::More => Stepped::More,
        Scanned::Bad(x) => Stepped::Bad(x),
    }
}

/// Reads a value at `i`; `empty` tells whether the stack is empty.
fn decode_value(b: &[u8], i: usize, empty: bool, prev: TokenType, eos: bool) -> (r: Stepped)
    requires
        i <= b@.len(),
    ensures
        forall|stack: Seq<Context>| (stack.len() == 0) == empty ==>
            stepped_is(r, #[trigger] value_step(stack, prev, b@, i as int, eos), stack, b@),
        stepped_within(r, b@.len() as int),
{
    if i >= b.len() {
        return if empty { Stepped::End(i) } else { Stepped::More };
    }
    let c = b[i];
    if c == 0x6e {
        let lit: Vec<u8> = vec![0x6e, 0x75, 0x6c, 0x6c];
        assert(lit@ == null_bytes());
        literal_exec(b, i, &lit, JsonToken::JsNull)
    } else if c == 0x66 {
        let lit: Vec<u8> = vec![0x66, 0x61, 0x6c, 0x73, 0x65];
        assert(lit@ == false_bytes());
        literal_exec(b, i, &lit, JsonToken::JsBoolean(false))
    } else if c == 0x74 {
        let lit: Vec<u8> = vec![0x74, 0x72, 0x75, 0x65];
        assert(lit@ == true_bytes());
        literal_exec(b, i, &lit, JsonToken::JsBoolean(true))
    } else if c == 0x2d || (0x30 <= c && c <= 0x39) {
        match number_length(b, i, eos) {
            Scanned::Done(e) => match utf8_text(&b[i..e]) {
                Some(text) => Stepped::Emit(JsonToken::JsNumber(text), e, Effect::Keep, TokenType::Value),
                None => Stepped::Bad(DecodeError::InvalidUtf8),
            },
            Scanned::More => Stepped::More,
            Scanned::Bad(x) => Stepped::Bad(x),
        }
    } else if c == 0x22 {
        decode_str(b, i, false)
    } else if c == 0x7b {
        Stepped::Emit(JsonToken::StartObject, i + 1, Effect::Push(Context::Object), TokenType::ObjectStart)
    } else if c == 0x5b {
        Stepped::Emit(JsonToken::StartArray, i + 1, Effect::Push(Context::Array), TokenType::ArrayStart)
    } else if c == 0x5d && prev == TokenType::ArrayStart {
        Stepped::Emit(JsonToken::EndArray, i + 1, Effect::Pop, TokenType::Value)
    } else {
        Stepped::Bad(DecodeError::UnexpectedByte(c))
    }
}

/// A decoder for translating a stream of bytes into Json Tokens.
pub struct JsonDecoder {
    stack: Vec<Context>,
    previous: TokenType,
}

impl JsonDecoder {
    /// The nesting stack, outermost frame first.
    pub closed spec fn frames(&self) -> Seq<Context> {
        self.stack@
    }

    /// The category of what was read last.
    pub closed spec fn last_token(&self) -> TokenType {
        self.previous
    }

    /// Constructs a new JsonDecoder.
    pub fn new() -> (r: JsonDecoder)
        ensures
            r.frames() == Seq::<Context>::empty(),
            r.last_token() == TokenType::Value,
    {
        JsonDecoder { stack: Vec::new(), previous: TokenType::Value }
    }

    fn decode_impl(&self, b: &[u8], eos: bool) -> (r: Stepped)
        ensures
            stepped_is(r, decode_step(self.stack@, self.previous, b@, eos), self.stack@, b@),
            stepped_within(r, b@.len() as int),
    {
        let i = skip_ws(b, 0);
        let n = b.len();
        let depth = self.stack.len();
        let in_object = depth > 0 && self.stack[depth - 1] == Context::Object;
        let in_array = depth > 0 && self.stack[depth - 1] == Context::Array;
        if in_object && self.previous == TokenType::ObjectComma {
            key_exec(b, i)
        } else if in_object && self.previous == TokenType::Value {
            if i >= n {
                Stepped::More
            } else if b[i] == 0x2c {
                let j = skip_ws(b, i + 1);
                key_exec(b, j)
            } else if b[i] == 0x7d {
                Stepped::Emit(JsonToken::EndObject, i + 1, Effect::Pop, TokenType::Value)
            } else {
                Stepped::Bad(DecodeError::UnexpectedByte(b[i]))
            }
        } else if in_object && self.previous == TokenType::ObjectStart {
            if i >= n {
                Stepped::More
            } else if b[i] == 0x22 {
                key_exec(b, i)
            } else if b[i] == 0x7d {
                Stepped::Emit(JsonToken::EndObject, i + 1, Effect::Pop, TokenType::Value)
            } else {
                Stepped::Bad(DecodeError::UnexpectedByte(b[i]))
            }
        } else if in_object && self.previous == TokenType::Key {
            if i >= n {
                Stepped::More
            } else if b[i] == 0x3a {
                let j = skip_ws(b, i + 1);
                decode_value(b, j, false, TokenType::ObjectColon, eos)
            } else {
                Stepped::Bad(DecodeError::UnexpectedByte(b[i]))
            }
        } else if in_array && self.previous == TokenType::Value {
            if i >= n {
                Stepped::More
            } else if b[i] == 0x2c {
                let j = skip_ws(b, i + 1);
                decode_value(b, j, false, TokenType::ArrayComma, eos)
            } else if b[i] == 0x5d {
                Stepped::Emit(JsonToken::EndArray, i + 1, Effect::Pop, TokenType::Value)
            } else {
                Stepped::Bad(DecodeError::UnexpectedByte(b[i]))
            }
        } else {
            decode_value(b, i, depth == 0, self.previous, eos)
        }
    }

    /// Decodes the next token from `bytes`, consuming what it spans and the
    /// whitespace before it. When the bytes cannot settle the token yet, the
    /// answer is `NeedsMore` (or `UnexpectedEndOfStream` at the end of the
    /// stream), and neither the bytes nor the decoder change; the same holds
    /// for every other error. `Ok(None)` means the input is exhausted at the
    /// end of the stream, outside any array or object.
    pub fn decode<'a>(&mut self, bytes: &mut ConsumableBytes<'a>) -> (r: Result<Option<JsonToken>, DecodeError>)
        ensures
            final(bytes).is_end() == old(bytes).is_end(),
            decoded(old(self).frames(), old(self).last_token(), old(bytes)@, old(bytes).is_end(), r,
                final(self).frames(), final(self).last_token(), final(bytes)@),
    {
        let b = bytes.bytes;
        let eos = bytes.end_of_stream;
        match self.decode_impl(b, eos) {
            Stepped::Emit(t, e, eff, p) => {
                match eff {
                    Effect::Keep => {},
                    Effect::Push(c) => {
                        self.stack.push(c);
                    },
                    Effect::Pop => {
                        self.stack.pop();
                    },
                }
                self.previous = p;
                bytes.consume_bytes(e);
                Ok(Some(t))
            },
            Stepped::End(n) => {
                if eos {
                    bytes.consume_bytes(n);
                    Ok(None)
                } else {
                    Err(DecodeError::NeedsMore)
                }
            },
            Stepped::More => {
                if eos {
                    Err(DecodeError::UnexpectedEndOfStream)
                } else {
                    Err(DecodeError::NeedsMore)
                }
            },
            Stepped::Bad(x) => Err(x),
        }
    }
}


proof fn lemma_ws_end_extend(b: Seq<u8>, x: Seq<u8>, i: int)
    requires
        0 <= i,
        ws_end(b, i) < b.len(),
    ensures
        ws_end(b + x, i) == ws_end(b, i),
        i <= ws_end(b, i),
    decreases b.len() - i,
{
    if i < b.len() && is_ws(b[i]) {
        lemma_ws_end_extend(b, x, i + 1);
    }
}

proof fn lemma_literal_extend(b: Seq<u8>, x: Seq<u8>, i: int, lit: Seq<u8>, k: int)
    requires
        0 <= i,
        0 <= k,
        i + k <= b.len(),
        !(scan_literal(b, i, lit, k) is More),
    ensures
        scan_literal(b + x, i, lit, k) == scan_literal(b, i, lit, k),
        scan_literal(b, i, lit, k) matches Scan::Done(e) ==> e <= b.len(),
    decreases lit.len() - k,
{
    if k < lit.len() && i + k < b.len() && b[i + k] == lit[k] {
        lemma_literal_extend(b, x, i, lit, k + 1);
    }
}

proof fn lemma_number_extend(b: Seq<u8>, x: Seq<u8>, i: int, s: NumState, eos: bool)
    requires
        0 <= i,
        !(scan_number(b, i, s, false) is More),
    ensures
        scan_number(b + x, i, s, eos) == scan_number(b, i, s, false),
        scan_number(b, i, s, false) matches Scan::Done(e) ==> i <= e < b.len(),
    decreases b.len() - i,
{
    if i < b.len() {
        if let Some(t) = num_next(s, b[i]) {
            lemma_number_extend(b, x, i + 1, t, eos);
        }
    }
}

proof fn lemma_string_end_extend(b: Seq<u8>, x: Seq<u8>, j: int)
    requires
        0 <= j,
        string_end(b, j) is Some,
    ensures
        string_end(b + x, j) == string_end(b, j),
        j <= string_end(b, j)->Some_0 < b.len(),
    decreases b.len() - j,
{
    if b[j] == 0x5c {
        lemma_string_end_extend(b, x, j + 2);
    } else if b[j] != 0x22 {
        lemma_string_end_extend(b, x, j + 1);
    }
}

proof fn lemma_string_extend(b: Seq<u8>, x: Seq<u8>, i: int)
    requires
        0 <= i < b.len(),
        !(scan_string(b, i) is More),
    ensures
        scan_string(b + x, i) == scan_string(b, i),
        scan_string(b, i) matches Scan::Done(e) ==> i + 2 <= e <= b.len(),
{
    lemma_string_end_extend(b, x, i + 1);
    let e = string_end(b, i + 1)->Some_0;
    assert((b + x).subrange(i + 1, e) == b.subrange(i + 1, e));
}

/// Ranges of a step's lexeme lie inside the bytes it consumed.
pub open spec fn lexeme_within(lex: Lexeme, n: int) -> bool {
    match lex {
        Lexeme::Number(lo, hi) => 0 <= lo <= hi <= n,
        Lexeme::Str(lo, hi) => 0 <= lo <= hi <= n,
        Lexeme::Key(lo, hi) => 0 <= lo <= hi <= n,
        _ => true,
    }
}

proof fn lemma_key_extend(stack: Seq<Context>, b: Seq<u8>, x: Seq<u8>, i: int)
    requires
        0 <= i,
        !(key_step(stack, b, i) is More),
    ensures
        key_step(stack, b + x, i) == key_step(stack, b, i),
        key_step(stack, b, i) matches Step::Emit(lex, e, _, _) ==> e <= b.len() && lexeme_within(lex, b.len() as int),
{
    if i < b.len() && b[i] == 0x22 {
        lemma_string_extend(b, x, i);
    }
}

proof fn lemma_value_extend(stack: Seq<Context>, prev: TokenType, b: Seq<u8>, x: Seq<u8>, i: int, eos: bool)
    requires
        0 <= i,
        !(value_step(stack, prev, b, i, false) is More),
        !(value_step(stack, prev, b, i, false) is End),
    ensures
        value_step(stack, prev, b + x, i, eos) == value_step(stack, prev, b, i, false),
        value_step(stack, prev, b, i, false) matches Step::Emit(lex, e, _, _) ==> e <= b.len()
            && lexeme_within(lex, b.len() as int),
{
    let c = b[i];
    if c == 0x6e {
        lemma_literal_extend(b, x, i, null_bytes(), 0);
    } else if c == 0x66 {
        lemma_literal_extend(b, x, i, false_bytes(), 0);
    } else if c == 0x74 {
        lemma_literal_extend(b, x, i, true_bytes(), 0);
    } else if c == 0x2d || is_digit(c) {
        lemma_number_extend(b, x, i, NumState::Start, eos);
        if let Scan::Done(e) = scan_number(b, i, NumState::Start, false) {
            assert((b + x).subrange(i, e) == b.subrange(i, e));
        }
    } else if c == 0x22 {
        lemma_string_extend(b, x, i);
    }
}

/// Resumability of the tokenizer: a call of `decode` that settles on the
/// bytes at hand (a token or an error, not `NeedsMore`) settles the same way
/// on those bytes followed by any others, whether or not the stream ends
/// there; the token it yields spans the same bytes. So feeding a document in
/// chunks yields the tokens that feeding it whole does: `NeedsMore` is no
/// more than a request for input, since it changes neither the decoder nor
/// the bytes.
pub proof fn lemma_decode_resumable(stack: Seq<Context>, prev: TokenType, b: Seq<u8>, extra: Seq<u8>, eos: bool)
    requires
        !(decode_outcome(stack, prev, b, false) is More),
    ensures
        decode_outcome(stack, prev, b + extra, eos) == decode_outcome(stack, prev, b, false),
        decode_outcome(stack, prev, b, false) matches Step::Emit(lex, e, _, _) ==> e <= b.len()
            && lexeme_within(lex, b.len() as int)
            && forall|t: JsonToken| token_is(t, lex, b + extra) == token_is(t, lex, b),
{
    let bx = b + extra;
    let i = ws_end(b, 0);
    lemma_ws_end_extend(b, extra, 0);
    let in_object = stack.len() > 0 && stack.last() == Context::Object;
    let in_array = stack.len() > 0 && stack.last() == Context::Array;
    if in_object && prev == TokenType::ObjectComma {
        lemma_key_extend(stack, b, extra, i);
    } else if in_object && prev == TokenType::Value {
        if b[i] == 0x2c {
            if ws_end(b, i + 1) < b.len() {
                lemma_ws_end_extend(b, extra, i + 1);
            }
            lemma_key_extend(stack, b, extra, ws_end(b, i + 1));
            lemma_ws_end_extend(b, extra, i + 1);
        }
    } else if in_object && prev == TokenType::ObjectStart {
        if b[i] == 0x22 {
            lemma_key_extend(stack, b, extra, i);
        }
    } else if in_object && prev == TokenType::Key {
        if b[i] == 0x3a {
            lemma_ws_end_extend(b, extra, i + 1);
            lemma_value_extend(stack, TokenType::ObjectColon, b, extra, ws_end(b, i + 1), eos);
        }
    } else if in_array && prev == TokenType::Value {
        if b[i] == 0x2c {
            lemma_ws_end_extend(b, extra, i + 1);
            lemma_value_extend(stack, TokenType::ArrayComma, b, extra, ws_end(b, i + 1), eos);
        }
    } else {
        lemma_value_extend(stack, prev, b, extra, i, eos);
    }
    if let Step::Emit(lex, e, _, _) = decode_outcome(stack, prev, b, false) {
        assert forall|t: JsonToken| token_is(t, lex, b + extra) == token_is(t, lex, b) by {
            match lex {
                Lexeme::Number(lo, hi) => { assert(bx.subrange(lo, hi) == b.subrange(lo, hi)); },
                Lexeme::Str(lo, hi) => { assert(bx.subrange(lo, hi) == b.subrange(lo, hi)); },
                Lexeme::Key(lo, hi) => { assert(bx.subrange(lo, hi) == b.subrange(lo, hi)); },
                _ => {},
            }
        }
    }
}


proof fn lemma_literal_error(b: Seq<u8>, i: int, lit: Seq<u8>, k: int)
    ensures
        scan_literal(b, i, lit, k) matches Scan::Bad(x) ==> x is UnexpectedByte,
    decreases lit.len() - k,
{
    if 0 <= k < lit.len() && i + k < b.len() && b[i + k] == lit[k] {
        lemma_literal_error(b, i, lit, k + 1);
    }
}

proof fn lemma_number_error(b: Seq<u8>, i: int, s: NumState, eos: bool)
    ensures
        scan_number(b, i, s, eos) matches Scan::Bad(x) ==> x is UnexpectedByte,
    decreases b.len() - i,
{
    if 0 <= i < b.len() {
        if let Some(t) = num_next(s, b[i]) {
            lemma_number_error(b, i + 1, t, eos);
        }
    }
}

proof fn lemma_escape_error_kind(c: Seq<u8>, k: int)
    ensures
        escape_error(c, k) matches Some(x) ==> !(x is NeedsMore),
    decreases c.len() + 12 - k,
{
    if 0 <= k < c.len() {
        if c[k] != 0x5c {
            lemma_escape_error_kind(c, k + 1);
        } else if k + 1 < c.len() {
            if is_simple_escape(c[k + 1]) {
                lemma_escape_error_kind(c, k + 2);
            } else if c[k + 1] == 0x75 && hex_error(c, k + 2, 0) is None {
                lemma_escape_error_kind(c, k + 6);
                lemma_escape_error_kind(c, k + 12);
            }
        }
    }
}

proof fn lemma_value_not_needs_more(stack: Seq<Context>, prev: TokenType, b: Seq<u8>, i: int, eos: bool)
    ensures
        !(value_step(stack, prev, b, i, eos) matches Step::Bad(DecodeError::NeedsMore)),
{
    lemma_literal_error(b, i, null_bytes(), 0);
    lemma_literal_error(b, i, true_bytes(), 0);
    lemma_literal_error(b, i, false_bytes(), 0);
    lemma_number_error(b, i, NumState::Start, eos);
    if let Some(e) = string_end(b, i + 1) {
        lemma_escape_error_kind(b.subrange(i + 1, e), 0);
    }
}

proof fn lemma_key_not_needs_more(stack: Seq<Context>, b: Seq<u8>, i: int)
    ensures
        !(key_step(stack, b, i) matches Step::Bad(DecodeError::NeedsMore)),
{
    if let Some(e) = string_end(b, i + 1) {
        lemma_escape_error_kind(b.subrange(i + 1, e), 0);
    }
}

/// The tokenizer never reports `NeedsMore` as an error of the input: when it
/// answers `NeedsMore`, more bytes are all it asks for.
pub proof fn lemma_outcome_not_needs_more(stack: Seq<Context>, prev: TokenType, b: Seq<u8>, eos: bool)
    ensures
        !(decode_outcome(stack, prev, b, eos) matches Step::Bad(DecodeError::NeedsMore)),
{
    let i = ws_end(b, 0);
    let j = ws_end(b, i + 1);
    lemma_value_not_needs_more(stack, prev, b, i, eos);
    lemma_value_not_needs_more(stack, TokenType::ObjectColon, b, j, eos);
    lemma_value_not_needs_more(stack, TokenType::ArrayComma, b, j, eos);
    lemma_key_not_needs_more(stack, b, i);
    lemma_key_not_needs_more(stack, b, j);
}


/// A token as its kind and the bytes of its text.
pub enum TokenText {
    StartObject,
    EndObject,
    StartArray,
    EndArray,
    Null,
    Boolean(bool),
    Number(Seq<u8>),
    Str(Seq<u8>),
    Key(Seq<u8>),
}

pub open spec fn text_of(lex: Lexeme, b: Seq<u8>) -> TokenText {
    match lex {
        Lexeme::StartObject => TokenText::StartObject,
        Lexeme::EndObject => TokenText::EndObject,
        Lexeme::StartArray => TokenText::StartArray,
        Lexeme::EndArray => TokenText::EndArray,
        Lexeme::Null => TokenText::Null,
        Lexeme::Boolean(v) => TokenText::Boolean(v),
        Lexeme::Number(lo, hi) => TokenText::Number(b.subrange(lo, hi)),
        Lexeme::Str(lo, hi) => TokenText::Str(b.subrange(lo, hi)),
        Lexeme::Key(lo, hi) => TokenText::Key(b.subrange(lo, hi)),
    }
}

/// The tokens of calling `decode` again and again on all of `b` marked as
/// the end of the stream, and whether it ended with `Ok(None)` rather than
/// an error.
pub open spec fn whole_tokens(stack: Seq<Context>, prev: TokenType, b: Seq<u8>) -> (Seq<TokenText>, bool)
    decreases b.len(),
{
    match decode_outcome(stack, prev, b, true) {
        Step::Emit(lex, e, st2, pv2) => if 0 < e <= b.len() {
            let (ts, ok) = whole_tokens(st2, pv2, b.subrange(e, b.len() as int));
            (seq![text_of(lex, b)] + ts, ok)
        } else {
            (seq![], false)
        },
        Step::End(_) => (seq![], true),
        _ => (seq![], false),
    }
}

/// The chunks one after the other.
pub open spec fn flatten_chunks(cs: Seq<Seq<u8>>) -> Seq<u8>
    decreases cs.len(),
{
    if cs.len() == 0 { seq![] } else { cs[0] + flatten_chunks(cs.drop_first()) }
}

/// The tokens of calling `decode` on the bytes at hand, `pending`, while
/// chunks are still to come: a new chunk is appended only after `NeedsMore`;
/// once all have come, the rest is decoded as the end of the stream. Also
/// whether it ended with `Ok(None)` rather than an error.
pub open spec fn chunked_tokens(stack: Seq<Context>, prev: TokenType, pending: Seq<u8>, chunks: Seq<Seq<u8>>) -> (Seq<TokenText>, bool)
    decreases flatten_chunks(chunks).len() + chunks.len(), pending.len(),
{
    if chunks.len() == 0 {
        whole_tokens(stack, prev, pending)
    } else {
        match decode_outcome(stack, prev, pending, false) {
            Step::Emit(lex, e, st2, pv2) => if 0 < e <= pending.len() {
                let (ts, ok) = chunked_tokens(st2, pv2, pending.subrange(e, pending.len() as int), chunks);
                (seq![text_of(lex, pending)] + ts, ok)
            } else {
                (seq![], false)
            },
            Step::More => chunked_tokens(stack, prev, pending + chunks[0], chunks.drop_first()),
            _ => (seq![], false),
        }
    }
}

/// Resumability over a whole feed: decoding a document chunk by chunk,
/// appending each chunk only when `decode` asks for more and marking the
/// end of the stream after the last one, yields the same tokens (kinds and
/// text) as decoding the document whole, and ends without error exactly
/// when that does; whatever the partition into chunks.
pub proof fn lemma_chunked_as_whole(stack: Seq<Context>, prev: TokenType, pending: Seq<u8>, chunks: Seq<Seq<u8>>)
    ensures
        chunked_tokens(stack, prev, pending, chunks) == whole_tokens(stack, prev, pending + flatten_chunks(chunks)),
    decreases flatten_chunks(chunks).len() + chunks.len(), pending.len(),
{
    let f = flatten_chunks(chunks);
    if chunks.len() == 0 {
        assert(pending + f =~= pending);
    } else {
        let whole = pending + f;
        match decode_outcome(stack, prev, pending, false) {
            Step::More => {
                let rest = chunks.drop_first();
                assert(f == chunks[0] + flatten_chunks(rest));
                lemma_chunked_as_whole(stack, prev, pending + chunks[0], rest);
                assert((pending + chunks[0]) + flatten_chunks(rest) =~= whole);
            },
            Step::Emit(lex, e, st2, pv2) => {
                lemma_decode_resumable(stack, prev, pending, f, true);
                assert(text_of(lex, whole) == text_of(lex, pending)) by {
                    match lex {
                        Lexeme::Number(lo, hi) => { assert(whole.subrange(lo, hi) =~= pending.subrange(lo, hi)); },
                        Lexeme::Str(lo, hi) => { assert(whole.subrange(lo, hi) =~= pending.subrange(lo, hi)); },
                        Lexeme::Key(lo, hi) => { assert(whole.subrange(lo, hi) =~= pending.subrange(lo, hi)); },
                        _ => {},
                    }
                }
                if 0 < e <= pending.len() {
                    let tail = pending.subrange(e, pending.len() as int);
                    assert(whole.subrange(e, whole.len() as int) =~= tail + f);
                    lemma_chunked_as_whole(st2, pv2, tail, chunks);
                }
            },
            _ => {
                lemma_decode_resumable(stack, prev, pending, f, true);
            },
        }
    }
}

} // verus!
