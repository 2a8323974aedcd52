//! JSON codec for the wire shapes.
//!
//! The request shape is an object holding the required `name` member (a
//! string) and the optional `test_param` member (a boolean, or `null` for
//! an absent flag), in either order, each at most once, with arbitrary
//! insignificant whitespace. Undeclared members are skipped whatever JSON
//! value they carry; a repeated declared member is rejected. Inside
//! strings, the decoder accepts the backslash-letter escapes and `\uXXXX`
//! escapes of any scalar value, surrogate pairs included. The response
//! shape is an object with the single member `greeting`, written by the
//! encoder in a canonical form: no insignificant whitespace, and escapes
//! only where a raw character may not stand.

use crate::greet::Input;
use crate::greet::Output;
use vstd::prelude::*;
use vstd::string::StrSliceExecFns;
use vstd::string::StringExecFns;

verus! {

/// Why a piece of wire text was rejected.
#[derive(Debug, PartialEq, Eq, Structural, Clone, Copy)]
pub enum DecodeError {
    /// The text is not a well-formed instance of the expected shape.
    Malformed,
    /// A declared member occurs more than once.
    DuplicateMember,
    /// The required `name` member is absent.
    MissingName,
}

/// JSON insignificant whitespace.
pub open spec fn is_json_ws(c: char) -> bool {
    c == ' ' || c == '\t' || c == '\n' || c == '\r'
}

/// The suffix that remains once leading whitespace is dropped.
pub open spec fn skip_ws_spec(s: Seq<char>) -> Seq<char>
    decreases s.len(),
{
    if s.len() > 0 && is_json_ws(s[0]) {
        skip_ws_spec(s.skip(1))
    } else {
        s
    }
}

/// Lower-case hexadecimal digit for a value below sixteen.
pub open spec fn hex_digit_char(v: int) -> char {
    if v == 0 { '0' } else if v == 1 { '1' } else if v == 2 { '2' } else if v == 3 { '3' }
    else if v == 4 { '4' } else if v == 5 { '5' } else if v == 6 { '6' } else if v == 7 { '7' }
    else if v == 8 { '8' } else if v == 9 { '9' } else if v == 10 { 'a' } else if v == 11 { 'b' }
    else if v == 12 { 'c' } else if v == 13 { 'd' } else if v == 14 { 'e' } else { 'f' }
}

pub open spec fn is_hex_digit(c: char) -> bool {
    ('0' <= c && c <= '9') || ('a' <= c && c <= 'f') || ('A' <= c && c <= 'F')
}

/// Numeric value of a hexadecimal digit.
pub open spec fn hex_digit_val(c: char) -> int {
    if '0' <= c && c <= '9' {
        c as int - '0' as int
    } else if 'a' <= c && c <= 'f' {
        10 + c as int - 'a' as int
    } else {
        10 + c as int - 'A' as int
    }
}

/// Whether a code point value is a Unicode scalar value, i.e. the code
/// point of some `char`.
pub open spec fn is_unicode_scalar(v: int) -> bool {
    (0 <= v && v < 0xD800) || (0xE000 <= v && v <= 0x10FFFF)
}

/// The character with the given scalar value.
pub open spec fn scalar_char(v: int) -> char {
    v as char
}

/// The value of four hexadecimal digits read most significant first.
pub open spec fn hex4_val(a: char, b: char, c: char, d: char) -> int {
    hex_digit_val(a) * 4096 + hex_digit_val(b) * 256 + hex_digit_val(c) * 16 + hex_digit_val(d)
}

/// How one character is written inside a JSON string: quote and backslash
/// get a backslash escape, control characters a `\u00XX` escape, and every
/// other character stands for itself.
pub open spec fn escape_char(c: char) -> Seq<char> {
    if c == '"' {
        seq!['\\', '"']
    } else if c == '\\' {
        seq!['\\', '\\']
    } else if (c as u32) < 32 {
        seq![
            '\\',
            'u',
            '0',
            '0',
            hex_digit_char((c as u32) as int / 16),
            hex_digit_char((c as u32) as int % 16),
        ]
    } else {
        seq![c]
    }
}

/// A whole text escaped character by character.
pub open spec fn escape_string(s: Seq<char>) -> Seq<char>
    decreases s.len(),
{
    if s.len() == 0 {
        Seq::empty()
    } else {
        escape_char(s[0]) + escape_string(s.skip(1))
    }
}

pub open spec fn is_simple_escape(e: char) -> bool {
    e == '"' || e == '\\' || e == '/' || e == 'n' || e == 't' || e == 'r' || e == 'b' || e == 'f'
}

/// The character a single-letter escape stands for.
pub open spec fn simple_unescape(e: char) -> char {
    if e == 'n' { '\n' } else if e == 't' { '\t' } else if e == 'r' { '\r' }
    else if e == 'b' { scalar_char(8) } else if e == 'f' { scalar_char(12) } else { e }
}

/// Reads the body of a JSON string, starting just after the opening quote.
/// On success it yields the decoded content and the suffix after the
/// closing quote. `\uXXXX` escapes are accepted for every scalar value,
/// with a surrogate pair naming one supplementary character; a lone
/// surrogate and an unescaped control character are rejected.
pub open spec fn parse_string_body(s: Seq<char>) -> Option<(Seq<char>, Seq<char>)>
    decreases s.len(),
{
    if s.len() == 0 {
        None
    } else if s[0] == '"' {
        Some((Seq::empty(), s.skip(1)))
    } else if s[0] == '\\' {
        if s.len() < 2 {
            None
        } else if is_simple_escape(s[1]) {
            match parse_string_body(s.skip(2)) {
                Some((c, r)) => Some((seq![simple_unescape(s[1])] + c, r)),
                None => None,
            }
        } else if s[1] == 'u' && s.len() >= 6 && is_hex_digit(s[2]) && is_hex_digit(s[3])
            && is_hex_digit(s[4]) && is_hex_digit(s[5]) {
            let v1 = hex4_val(s[2], s[3], s[4], s[5]);
            if v1 < 0xD800 || v1 >= 0xE000 {
                match parse_string_body(s.skip(6)) {
                    Some((c, r)) => Some((seq![scalar_char(v1)] + c, r)),
                    None => None,
                }
            } else if v1 < 0xDC00 {
                if s.len() >= 12 && s[6] == '\\' && s[7] == 'u' && is_hex_digit(s[8])
                    && is_hex_digit(s[9]) && is_hex_digit(s[10]) && is_hex_digit(s[11]) {
                    let v2 = hex4_val(s[8], s[9], s[10], s[11]);
                    if 0xDC00 <= v2 && v2 < 0xE000 {
                        match parse_string_body(s.skip(12)) {
                            Some((c, r)) => Some(
                                (
                                    seq![
                                        scalar_char(
                                            0x10000 + (v1 - 0xD800) * 1024 + (v2 - 0xDC00),
                                        ),
                                    ] + c,
                                    r,
                                ),
                            ),
                            None => None,
                        }
                    } else {
                        None
                    }
                } else {
                    None
                }
            } else {
                None
            }
        } else {
            None
        }
    } else if (s[0] as u32) >= 32 {
        match parse_string_body(s.skip(1)) {
            Some((c, r)) => Some((seq![s[0]] + c, r)),
            None => None,
        }
    } else {
        None
    }
}

/// The canonical wire text of a response with the given greeting.
pub open spec fn output_json(g: Seq<char>) -> Seq<char> {
    "{\"greeting\":\""@ + escape_string(g) + "\"}"@
}

pub open spec fn starts_with(s: Seq<char>, p: Seq<char>) -> bool {
    p.len() <= s.len() && s.subrange(0, p.len() as int) == p
}

/// Total parser of the response shape `{ "greeting": <string> }`, with
/// arbitrary insignificant whitespace and nothing after the object. The
/// key is expected in its plain spelling, as the encoder writes it.
pub open spec fn parse_output_spec(s: Seq<char>) -> Option<Seq<char>> {
    let t0 = skip_ws_spec(s);
    if t0.len() > 0 && t0[0] == '{' {
        let t1 = skip_ws_spec(t0.skip(1));
        if starts_with(t1, "\"greeting\""@) {
            let t2 = skip_ws_spec(t1.skip("\"greeting\""@.len() as int));
            if t2.len() > 0 && t2[0] == ':' {
                let t3 = skip_ws_spec(t2.skip(1));
                if t3.len() > 0 && t3[0] == '"' {
                    match parse_string_body(t3.skip(1)) {
                        Some((g, r)) => {
                            let t4 = skip_ws_spec(r);
                            if t4.len() > 0 && t4[0] == '}' && skip_ws_spec(t4.skip(1)).len()
                                == 0 {
                                Some(g)
                            } else {
                                None
                            }
                        },
                        None => None,
                    }
                } else {
                    None
                }
            } else {
                None
            }
        } else {
            None
        }
    } else {
        None
    }
}

/// One decoded member of the request object: a declared member with its
/// value, or an undeclared member that was read and dropped.
pub enum MemberVal {
    Name(Seq<char>),
    Flag(Option<bool>),
    Skipped,
}

pub open spec fn is_digit(c: char) -> bool {
    '0' <= c && c <= '9'
}

/// The suffix that remains once leading decimal digits are dropped.
pub open spec fn skip_digits_spec(s: Seq<char>) -> Seq<char>
    decreases s.len(),
{
    if s.len() > 0 && is_digit(s[0]) {
        skip_digits_spec(s.skip(1))
    } else {
        s
    }
}

/// Reads past the exponent part of a JSON number, if one stands here.
pub open spec fn skip_number_exp(s: Seq<char>) -> Option<Seq<char>> {
    if s.len() > 0 && (s[0] == 'e' || s[0] == 'E') {
        let t = if s.len() >= 2 && (s[1] == '+' || s[1] == '-') {
            s.skip(2)
        } else {
            s.skip(1)
        };
        if t.len() > 0 && is_digit(t[0]) {
            Some(skip_digits_spec(t))
        } else {
            None
        }
    } else {
        Some(s)
    }
}

/// Reads past the fraction and exponent parts of a JSON number.
pub open spec fn skip_number_frac(s: Seq<char>) -> Option<Seq<char>> {
    if s.len() >= 2 && s[0] == '.' && is_digit(s[1]) {
        skip_number_exp(skip_digits_spec(s.skip(1)))
    } else if s.len() > 0 && s[0] == '.' {
        None
    } else {
        skip_number_exp(s)
    }
}

/// Reads past one JSON number: an optional minus, an integer part without
/// a superfluous leading zero, and optional fraction and exponent parts.
pub open spec fn skip_number_spec(s: Seq<char>) -> Option<Seq<char>> {
    let t = if s.len() > 0 && s[0] == '-' {
        s.skip(1)
    } else {
        s
    };
    if t.len() > 0 && t[0] == '0' {
        skip_number_frac(t.skip(1))
    } else if t.len() > 0 && is_digit(t[0]) {
        skip_number_frac(skip_digits_spec(t))
    } else {
        None
    }
}

/// Reads past one JSON value of any kind, yielding the suffix after it.
/// The fuel only bounds the recursion; each step spends one unit and
/// consumes at least one character, so a fuel of the text's own length is
/// always enough.
pub open spec fn skip_value_spec(s: Seq<char>, fuel: nat) -> Option<Seq<char>>
    decreases fuel,
{
    if fuel == 0 || s.len() == 0 {
        None
    } else if s[0] == '"' {
        match parse_string_body(s.skip(1)) {
            Some((c, r)) => Some(r),
            None => None,
        }
    } else if starts_with(s, "true"@) {
        Some(s.skip("true"@.len() as int))
    } else if starts_with(s, "false"@) {
        Some(s.skip("false"@.len() as int))
    } else if starts_with(s, "null"@) {
        Some(s.skip("null"@.len() as int))
    } else if s[0] == '{' {
        skip_members_spec(skip_ws_spec(s.skip(1)), (fuel - 1) as nat, true)
    } else if s[0] == '[' {
        skip_elements_spec(skip_ws_spec(s.skip(1)), (fuel - 1) as nat, true)
    } else {
        skip_number_spec(s)
    }
}

/// Reads past the member list of a skipped object, from the first key on;
/// `allow_end` admits an immediate closing brace (an empty object).
pub open spec fn skip_members_spec(s: Seq<char>, fuel: nat, allow_end: bool) -> Option<Seq<char>>
    decreases fuel,
{
    if fuel == 0 {
        None
    } else if allow_end && s.len() > 0 && s[0] == '}' {
        Some(s.skip(1))
    } else if s.len() > 0 && s[0] == '"' {
        match parse_string_body(s.skip(1)) {
            Some((k, r1)) => {
                let t = skip_ws_spec(r1);
                if t.len() > 0 && t[0] == ':' {
                    match skip_value_spec(skip_ws_spec(t.skip(1)), (fuel - 1) as nat) {
                        Some(r2) => {
                            let u = skip_ws_spec(r2);
                            if u.len() > 0 && u[0] == '}' {
                                Some(u.skip(1))
                            } else if u.len() > 0 && u[0] == ',' {
                                skip_members_spec(skip_ws_spec(u.skip(1)), (fuel - 1) as nat, false)
                            } else {
                                None
                            }
                        },
                        None => None,
                    }
                } else {
                    None
                }
            },
            None => None,
        }
    } else {
        None
    }
}

/// Reads past the element list of a skipped array, from the first element
/// on; `allow_end` admits an immediate closing bracket (an empty array).
pub open spec fn skip_elements_spec(s: Seq<char>, fuel: nat, allow_end: bool) -> Option<Seq<char>>
    decreases fuel,
{
    if fuel == 0 {
        None
    } else if allow_end && s.len() > 0 && s[0] == ']' {
        Some(s.skip(1))
    } else {
        match skip_value_spec(s, (fuel - 1) as nat) {
            Some(r) => {
                let u = skip_ws_spec(r);
                if u.len() > 0 && u[0] == ']' {
                    Some(u.skip(1))
                } else if u.len() > 0 && u[0] == ',' {
                    skip_elements_spec(skip_ws_spec(u.skip(1)), (fuel - 1) as nat, false)
                } else {
                    None
                }
            },
            None => None,
        }
    }
}

/// Reads one member of the request object: a key given as a JSON string
/// (escapes included), a colon, and a value of the key's type. A declared
/// key takes a value of its declared type; any other key has its value
/// read and dropped, whatever JSON value it is. Opaque so that callers of
/// the member reader reason through its contract alone.
#[verifier::opaque]
pub open spec fn parse_member_spec(s: Seq<char>) -> Result<(MemberVal, Seq<char>), DecodeError> {
    if s.len() > 0 && s[0] == '"' {
        match parse_string_body(s.skip(1)) {
            Some((key, r1)) => {
                let t = skip_ws_spec(r1);
                if t.len() > 0 && t[0] == ':' {
                    let u = skip_ws_spec(t.skip(1));
                    if key == "name"@ {
                        if u.len() > 0 && u[0] == '"' {
                            match parse_string_body(u.skip(1)) {
                                Some((g, r)) => Ok((MemberVal::Name(g), r)),
                                None => Err(DecodeError::Malformed),
                            }
                        } else {
                            Err(DecodeError::Malformed)
                        }
                    } else if key == "test_param"@ {
                        if starts_with(u, "true"@) {
                            Ok((MemberVal::Flag(Some(true)), u.skip("true"@.len() as int)))
                        } else if starts_with(u, "false"@) {
                            Ok((MemberVal::Flag(Some(false)), u.skip("false"@.len() as int)))
                        } else if starts_with(u, "null"@) {
                            Ok((MemberVal::Flag(None), u.skip("null"@.len() as int)))
                        } else {
                            Err(DecodeError::Malformed)
                        }
                    } else {
                        match skip_value_spec(u, u.len() as nat) {
                            Some(r) => Ok((MemberVal::Skipped, r)),
                            None => Err(DecodeError::Malformed),
                        }
                    }
                } else {
                    Err(DecodeError::Malformed)
                }
            },
            None => Err(DecodeError::Malformed),
        }
    } else {
        Err(DecodeError::Malformed)
    }
}

/// The flag a finished object yields: an unseen member and an explicit
/// `null` both leave it absent.
pub open spec fn flag_value(flag: Option<Option<bool>>) -> Option<bool> {
    match flag {
        Some(f) => f,
        None => None,
    }
}

/// Reads the member list of the request object from the first key on,
/// carrying the declared members seen so far. An absent `name` is decided
/// at the closing brace, before any trailing-text check, and a repeated
/// declared member is rejected where its value has been read. The fuel
/// only bounds the recursion; one unit is spent per member, so the text's
/// own length is always enough.
pub open spec fn parse_input_members(
    s: Seq<char>,
    name: Option<Seq<char>>,
    flag: Option<Option<bool>>,
    fuel: nat,
) -> Result<(Seq<char>, Option<bool>), DecodeError>
    decreases fuel,
{
    if fuel == 0 {
        Err(DecodeError::Malformed)
    } else {
        match parse_member_spec(s) {
            Err(e) => Err(e),
            Ok((m, r)) => {
                let updated: Result<(Option<Seq<char>>, Option<Option<bool>>), DecodeError> =
                    match m {
                    MemberVal::Name(n) => if name is Some {
                        Err(DecodeError::DuplicateMember)
                    } else {
                        Ok((Some(n), flag))
                    },
                    MemberVal::Flag(f) => if flag is Some {
                        Err(DecodeError::DuplicateMember)
                    } else {
                        Ok((name, Some(f)))
                    },
                    MemberVal::Skipped => Ok((name, flag)),
                };
                match updated {
                    Err(e) => Err(e),
                    Ok((name2, flag2)) => {
                        let t = skip_ws_spec(r);
                        if t.len() > 0 && t[0] == '}' {
                            match name2 {
                                None => Err(DecodeError::MissingName),
                                Some(nm) => if skip_ws_spec(t.skip(1)).len() != 0 {
                                    Err(DecodeError::Malformed)
                                } else {
                                    Ok((nm, flag_value(flag2)))
                                },
                            }
                        } else if t.len() > 0 && t[0] == ',' {
                            parse_input_members(
                                skip_ws_spec(t.skip(1)),
                                name2,
                                flag2,
                                (fuel - 1) as nat,
                            )
                        } else {
                            Err(DecodeError::Malformed)
                        }
                    },
                }
            },
        }
    }
}

/// Total parser of the request shape: an object holding the required
/// `name` (a string) and the optional `test_param` (a boolean or `null`),
/// in either order, each at most once, beside any undeclared members,
/// with nothing after the object. The first offence in reading order
/// decides the error.
pub open spec fn parse_input_spec(s: Seq<char>) -> Result<
    (Seq<char>, Option<bool>),
    DecodeError,
> {
    let t0 = skip_ws_spec(s);
    if t0.len() > 0 && t0[0] == '{' {
        let t1 = skip_ws_spec(t0.skip(1));
        if t1.len() > 0 && t1[0] == '}' {
            Err(DecodeError::MissingName)
        } else {
            parse_input_members(t1, None, None, t1.len() as nat)
        }
    } else {
        Err(DecodeError::Malformed)
    }
}

/// Index just past the insignificant whitespace that starts at `i`.
fn skip_ws(s: &str, i: usize) -> (j: usize)
    requires
        i <= s@.len(),
    ensures
        i <= j <= s@.len(),
        s@.skip(j as int) == skip_ws_spec(s@.skip(i as int)),
{
    let n = s.unicode_len();
    let mut j = i;
    loop
        invariant
            i <= j <= n,
            n == s@.len(),
            skip_ws_spec(s@.skip(i as int)) == skip_ws_spec(s@.skip(j as int)),
        ensures
            i <= j <= n,
            s@.skip(j as int) == skip_ws_spec(s@.skip(i as int)),
        decreases n - j,
    {
        if j >= n {
            break;
        }
        let c = s.get_char(j);
        if !(c == ' ' || c == '\t' || c == '\n' || c == '\r') {
            break;
        }
        proof {
            assert(s@.skip(j as int).skip(1) =~= s@.skip(j as int + 1));
        }
        j = j + 1;
    }
    j
}

/// Whether the text at `i` continues with exactly the characters of `p`.
fn match_prefix(s: &str, i: usize, p: &str) -> (b: bool)
    requires
        i <= s@.len(),
    ensures
        b == starts_with(s@.skip(i as int), p@),
        b ==> i + p@.len() <= s@.len(),
{
    let n = s.unicode_len();
    let m = p.unicode_len();
    if m > n - i {
        return false;
    }
    let mut j: usize = 0;
    loop
        invariant
            j <= m,
            m == p@.len(),
            n == s@.len(),
            i + m <= n,
            forall|k: int| 0 <= k < j ==> s@[i + k] == p@[k],
        ensures
            j <= m,
            j == m ==> forall|k: int| 0 <= k < m ==> s@[i + k] == p@[k],
            j < m ==> s@[i + j] != p@[j as int],
        decreases m - j,
    {
        if j >= m {
            break;
        }
        if s.get_char(i + j) != p.get_char(j) {
            break;
        }
        j = j + 1;
    }
    if j == m {
        proof {
            assert(s@.skip(i as int).subrange(0, p@.len() as int) =~= p@);
        }
        true
    } else {
        proof {
            if starts_with(s@.skip(i as int), p@) {
                assert(s@.skip(i as int).subrange(0, p@.len() as int)[j as int] == p@[j as int]);
            }
        }
        false
    }
}

/// Numeric value of a hexadecimal digit, read in executable form.
fn hex_val_of(c: char) -> (r: Option<u8>)
    ensures
        match r {
            Some(v) => is_hex_digit(c) && v as int == hex_digit_val(c) && v < 16,
            None => !is_hex_digit(c),
        },
{
    let u = c as u32;
    if u >= '0' as u32 && u <= '9' as u32 {
        Some((u - '0' as u32) as u8)
    } else if u >= 'a' as u32 && u <= 'f' as u32 {
        Some((10 + u - 'a' as u32) as u8)
    } else if u >= 'A' as u32 && u <= 'F' as u32 {
        Some((10 + u - 'A' as u32) as u8)
    } else {
        None
    }
}

/// Relies on `String::push`: appends exactly the one character.
#[verifier::external_body]
fn push_char(s: &mut String, c: char)
    ensures
        final(s)@ == old(s)@ + seq![c],
{
    s.push(c);
}

/// Relies on `char::from_u32`: yields the character with the given code
/// point exactly when the value is a Unicode scalar value, and nothing
/// otherwise.
#[verifier::external_body]
fn char_of_u32(v: u32) -> (r: Option<char>)
    ensures
        match r {
            Some(c) => is_unicode_scalar(v as int) && c == scalar_char(v as int),
            None => !is_unicode_scalar(v as int),
        },
{
    char::from_u32(v)
}

/// Whether two texts hold the same characters.
fn str_eq(a: &str, b: &str) -> (r: bool)
    ensures
        r == (a@ == b@),
{
    let n = a.unicode_len();
    let m = b.unicode_len();
    if n != m {
        return false;
    }
    let p = match_prefix(a, 0, b);
    proof {
        assert(a@.skip(0) =~= a@);
        if p {
            assert(a@.subrange(0, b@.len() as int) =~= a@);
        }
    }
    p
}

/// The scanner's bookkeeping: what is already decoded joined with what
/// string-body parsing yields from the current suffix equals what it
/// yields from the whole suffix the scan started at.
spec fn scan_joins(whole: Seq<char>, acc: Seq<char>, cur: Seq<char>) -> bool {
    match parse_string_body(cur) {
        Some((c2, r2)) => parse_string_body(whole) == Some::<(Seq<char>, Seq<char>)>(
            (acc + c2, r2),
        ),
        None => parse_string_body(whole) is None,
    }
}

/// Reads a JSON string body in executable form, starting just after the
/// opening quote, and returns the decoded content with the index after the
/// closing quote.
#[verifier::rlimit(100)]
fn scan_string_body(s: &str, start: usize) -> (r: Option<(String, usize)>)
    requires
        start <= s@.len(),
    ensures
        match parse_string_body(s@.skip(start as int)) {
            Some((c, rem)) => r matches Some(p) && p.0@ == c && p.1 <= s@.len() && s@.skip(
                p.1 as int,
            ) == rem,
            None => r is None,
        },
{
    let n = s.unicode_len();
    let mut acc = String::new();
    let mut i = start;
    loop
        invariant
            start <= i <= n,
            n == s@.len(),
            scan_joins(s@.skip(start as int), acc@, s@.skip(i as int)),
        decreases n - i,
    {
        if i >= n {
            proof {
                assert(parse_string_body(s@.skip(i as int)) is None);
            }
            return None;
        }
        let c = s.get_char(i);
        if c == '"' {
            proof {
                assert(s@.skip(i as int).skip(1) =~= s@.skip(i as int + 1));
                assert(parse_string_body(s@.skip(i as int)) == Some::<(Seq<char>, Seq<char>)>(
                    (Seq::empty(), s@.skip(i as int + 1)),
                ));
                assert(acc@ + Seq::<char>::empty() =~= acc@);
            }
            return Some((acc, i + 1));
        }
        if c == '\\' {
            if i + 1 >= n {
                proof {
                    assert(parse_string_body(s@.skip(i as int)) is None);
                }
                return None;
            }
            let e = s.get_char(i + 1);
            let ghost acc0 = acc@;
            if e == '"' || e == '\\' || e == '/' || e == 'n' || e == 't' || e == 'r' || e == 'b'
                || e == 'f' {
                if e == '"' {
                    acc.append("\"");
                    proof {
                        reveal_strlit("\"");
                        assert(acc@ =~= acc0 + seq![simple_unescape(e)]);
                    }
                } else if e == '\\' {
                    acc.append("\\");
                    proof {
                        reveal_strlit("\\");
                        assert(acc@ =~= acc0 + seq![simple_unescape(e)]);
                    }
                } else if e == '/' {
                    acc.append("/");
                    proof {
                        reveal_strlit("/");
                        assert(acc@ =~= acc0 + seq![simple_unescape(e)]);
                    }
                } else if e == 'n' {
                    acc.append("\n");
                    proof {
                        reveal_strlit("\n");
                        assert(acc@ =~= acc0 + seq![simple_unescape(e)]);
                    }
                } else if e == 't' {
                    acc.append("\t");
                    proof {
                        reveal_strlit("\t");
                        assert(acc@ =~= acc0 + seq![simple_unescape(e)]);
                    }
                } else if e == 'r' {
                    acc.append("\r");
                    proof {
                        reveal_strlit("\r");
                        assert(acc@ =~= acc0 + seq![simple_unescape(e)]);
                    }
                } else if e == 'b' {
                    acc.append("\u{8}");
                    proof {
                        reveal_strlit("\u{8}");
                        assert(acc@ =~= acc0 + seq![simple_unescape(e)]);
                    }
                } else {
                    acc.append("\u{c}");
                    proof {
                        reveal_strlit("\u{c}");
                        assert(acc@ =~= acc0 + seq![simple_unescape(e)]);
                    }
                }
                proof {
                    assert(s@.skip(i as int).skip(2) =~= s@.skip(i as int + 2));
                    assert(parse_string_body(s@.skip(i as int)) == (
                    match parse_string_body(s@.skip(i as int + 2)) {
                        Some((c3, r3)) => Some::<(Seq<char>, Seq<char>)>(
                            (seq![simple_unescape(e)] + c3, r3),
                        ),
                        None => None::<(Seq<char>, Seq<char>)>,
                    }));
                    match parse_string_body(s@.skip(i as int + 2)) {
                        Some((c3, r3)) => {
                            assert(acc0 + (seq![simple_unescape(e)] + c3) =~= (acc0 + seq![
                                simple_unescape(e),
                            ]) + c3);
                        },
                        None => {},
                    }
                }
                i = i + 2;
            } else if e == 'u' {
                if n - i < 6 {
                    proof {
                        assert(s@.skip(i as int).len() < 6);
                        assert(parse_string_body(s@.skip(i as int)) is None);
                    }
                    return None;
                }
                let d1 = hex_val_of(s.get_char(i + 2));
                let d2 = hex_val_of(s.get_char(i + 3));
                let d3 = hex_val_of(s.get_char(i + 4));
                let d4 = hex_val_of(s.get_char(i + 5));
                match (d1, d2, d3, d4) {
                    (Some(h1), Some(h2), Some(h3), Some(h4)) => {
                        let v1: u32 = h1 as u32 * 4096 + h2 as u32 * 256 + h3 as u32 * 16
                            + h4 as u32;
                        if v1 < 0xD800 || v1 >= 0xE000 {
                            let c1 = match char_of_u32(v1) {
                                Some(cc) => cc,
                                None => {
                                    proof {
                                        assert(false);
                                    }
                                    return None;
                                },
                            };
                            push_char(&mut acc, c1);
                            proof {
                                assert(acc@ =~= acc0 + seq![scalar_char(v1 as int)]);
                                assert(s@.skip(i as int).skip(6) =~= s@.skip(i as int + 6));
                                assert(parse_string_body(s@.skip(i as int)) == (
                                match parse_string_body(s@.skip(i as int + 6)) {
                                    Some((c3, r3)) => Some::<(Seq<char>, Seq<char>)>(
                                        (seq![scalar_char(v1 as int)] + c3, r3),
                                    ),
                                    None => None::<(Seq<char>, Seq<char>)>,
                                }));
                                match parse_string_body(s@.skip(i as int + 6)) {
                                    Some((c3, r3)) => {
                                        assert(acc0 + (seq![scalar_char(v1 as int)] + c3) =~= (
                                        acc0 + seq![scalar_char(v1 as int)]) + c3);
                                    },
                                    None => {},
                                }
                            }
                            i = i + 6;
                        } else if v1 < 0xDC00 {
                            if n - i < 12 {
                                proof {
                                    assert(s@.skip(i as int).len() < 12);
                                    assert(parse_string_body(s@.skip(i as int)) is None);
                                }
                                return None;
                            }
                            if !(s.get_char(i + 6) == '\\' && s.get_char(i + 7) == 'u') {
                                proof {
                                    assert(parse_string_body(s@.skip(i as int)) is None);
                                }
                                return None;
                            }
                            let e1 = hex_val_of(s.get_char(i + 8));
                            let e2 = hex_val_of(s.get_char(i + 9));
                            let e3 = hex_val_of(s.get_char(i + 10));
                            let e4 = hex_val_of(s.get_char(i + 11));
                            match (e1, e2, e3, e4) {
                                (Some(g1), Some(g2), Some(g3), Some(g4)) => {
                                    let v2: u32 = g1 as u32 * 4096 + g2 as u32 * 256 + g3 as u32
                                        * 16 + g4 as u32;
                                    if !(0xDC00 <= v2 && v2 < 0xE000) {
                                        proof {
                                            assert(parse_string_body(s@.skip(i as int)) is None);
                                        }
                                        return None;
                                    }
                                    let sc: u32 = 0x10000 + (v1 - 0xD800) * 1024 + (v2 - 0xDC00);
                                    let c1 = match char_of_u32(sc) {
                                        Some(cc) => cc,
                                        None => {
                                            proof {
                                                assert(false);
                                            }
                                            return None;
                                        },
                                    };
                                    push_char(&mut acc, c1);
                                    proof {
                                        assert(acc@ =~= acc0 + seq![scalar_char(sc as int)]);
                                        assert(s@.skip(i as int).skip(12) =~= s@.skip(
                                            i as int + 12,
                                        ));
                                        assert(parse_string_body(s@.skip(i as int)) == (
                                        match parse_string_body(s@.skip(i as int + 12)) {
                                            Some((c3, r3)) => Some::<(Seq<char>, Seq<char>)>(
                                                (seq![scalar_char(sc as int)] + c3, r3),
                                            ),
                                            None => None::<(Seq<char>, Seq<char>)>,
                                        }));
                                        match parse_string_body(s@.skip(i as int + 12)) {
                                            Some((c3, r3)) => {
                                                assert(acc0 + (seq![scalar_char(sc as int)] + c3)
                                                    =~= (acc0 + seq![scalar_char(sc as int)])
                                                    + c3);
                                            },
                                            None => {},
                                        }
                                    }
                                    i = i + 12;
                                },
                                _ => {
                                    proof {
                                        assert(parse_string_body(s@.skip(i as int)) is None);
                                    }
                                    return None;
                                },
                            }
                        } else {
                            proof {
                                assert(parse_string_body(s@.skip(i as int)) is None);
                            }
                            return None;
                        }
                    },
                    _ => {
                        proof {
                            assert(parse_string_body(s@.skip(i as int)) is None);
                        }
                        return None;
                    },
                }
            } else {
                proof {
                    assert(parse_string_body(s@.skip(i as int)) is None);
                }
                return None;
            }
        } else {
            if (c as u32) < 32 {
                proof {
                    assert(parse_string_body(s@.skip(i as int)) is None);
                }
                return None;
            }
            let piece = s.substring_char(i, i + 1);
            let ghost acc0 = acc@;
            proof {
                assert(piece@ =~= seq![s@[i as int]]);
            }
            acc.append(piece);
            proof {
                assert(acc@ =~= acc0 + seq![s@[i as int]]);
                assert(s@.skip(i as int).skip(1) =~= s@.skip(i as int + 1));
                assert(parse_string_body(s@.skip(i as int)) == (
                match parse_string_body(s@.skip(i as int + 1)) {
                    Some((c3, r3)) => Some::<(Seq<char>, Seq<char>)>((seq![s@[i as int]] + c3, r3)),
                    None => None::<(Seq<char>, Seq<char>)>,
                }));
                match parse_string_body(s@.skip(i as int + 1)) {
                    Some((c3, r3)) => {
                        assert(acc0 + (seq![s@[i as int]] + c3) =~= (acc0 + seq![s@[i as int]])
                            + c3);
                    },
                    None => {},
                }
            }
            i = i + 1;
        }
    }
}

/// One decoded member of the request object, in executable form.
pub enum Member {
    Name(String),
    Flag(Option<bool>),
    Skipped,
}

impl View for Member {
    type V = MemberVal;

    open spec fn view(&self) -> MemberVal {
        match self {
            Member::Name(n) => MemberVal::Name(n@),
            Member::Flag(b) => MemberVal::Flag(*b),
            Member::Skipped => MemberVal::Skipped,
        }
    }
}

/// Index just past the leading decimal digits that start at `i`.
fn skip_digits(s: &str, i: usize) -> (j: usize)
    requires
        i <= s@.len(),
    ensures
        i <= j <= s@.len(),
        s@.skip(j as int) == skip_digits_spec(s@.skip(i as int)),
{
    let n = s.unicode_len();
    let mut j = i;
    loop
        invariant
            i <= j <= n,
            n == s@.len(),
            skip_digits_spec(s@.skip(i as int)) == skip_digits_spec(s@.skip(j as int)),
        ensures
            i <= j <= n,
            s@.skip(j as int) == skip_digits_spec(s@.skip(i as int)),
        decreases n - j,
    {
        if j >= n {
            break;
        }
        let c = s.get_char(j);
        if !('0' <= c && c <= '9') {
            break;
        }
        proof {
            assert(s@.skip(j as int).skip(1) =~= s@.skip(j as int + 1));
        }
        j = j + 1;
    }
    j
}

/// Reads past one JSON number in executable form.
fn skip_number(s: &str, i: usize) -> (r: Option<usize>)
    requires
        i <= s@.len(),
    ensures
        match skip_number_spec(s@.skip(i as int)) {
            Some(rest) => r matches Some(j) && j <= s@.len() && s@.skip(j as int) == rest,
            None => r is None,
        },
{
    let n = s.unicode_len();
    let ti = if i < n && s.get_char(i) == '-' {
        proof {
            assert(s@.skip(i as int).skip(1) =~= s@.skip(i as int + 1));
        }
        i + 1
    } else {
        i
    };
    if !(ti < n) {
        return None;
    }
    let c = s.get_char(ti);
    let fi = if c == '0' {
        proof {
            assert(s@.skip(ti as int).skip(1) =~= s@.skip(ti as int + 1));
        }
        ti + 1
    } else if '0' <= c && c <= '9' {
        skip_digits(s, ti)
    } else {
        return None;
    };
    // fraction part
    let ei = if n - fi >= 2 && s.get_char(fi) == '.' && {
        let d = s.get_char(fi + 1);
        '0' <= d && d <= '9'
    } {
        proof {
            assert(s@.skip(fi as int).skip(1) =~= s@.skip(fi as int + 1));
        }
        skip_digits(s, fi + 1)
    } else if fi < n && s.get_char(fi) == '.' {
        return None;
    } else {
        fi
    };
    // exponent part
    if ei < n && (s.get_char(ei) == 'e' || s.get_char(ei) == 'E') {
        let xi = if n - ei >= 2 && (s.get_char(ei + 1) == '+' || s.get_char(ei + 1) == '-') {
            proof {
                assert(s@.skip(ei as int).skip(2) =~= s@.skip(ei as int + 2));
            }
            ei + 2
        } else {
            proof {
                assert(s@.skip(ei as int).skip(1) =~= s@.skip(ei as int + 1));
            }
            ei + 1
        };
        if xi < n && {
            let d = s.get_char(xi);
            '0' <= d && d <= '9'
        } {
            Some(skip_digits(s, xi))
        } else {
            None
        }
    } else {
        Some(ei)
    }
}

/// Reads past one JSON value of any kind, in executable form.
fn skip_value(s: &str, i: usize, fuel: usize) -> (r: Option<usize>)
    requires
        i <= s@.len(),
    ensures
        match skip_value_spec(s@.skip(i as int), fuel as nat) {
            Some(rest) => r matches Some(j) && j <= s@.len() && s@.skip(j as int) == rest,
            None => r is None,
        },
    decreases fuel,
{
    let n = s.unicode_len();
    if fuel == 0 || i >= n {
        return None;
    }
    let c = s.get_char(i);
    if c == '"' {
        proof {
            assert(s@.skip(i as int).skip(1) =~= s@.skip(i as int + 1));
        }
        match scan_string_body(s, i + 1) {
            Some(p) => Some(p.1),
            None => None,
        }
    } else if match_prefix(s, i, "true") {
        proof {
            reveal_strlit("true");
            assert(s@.skip(i as int).skip(4) =~= s@.skip(i as int + 4));
        }
        Some(i + 4)
    } else if match_prefix(s, i, "false") {
        proof {
            reveal_strlit("false");
            assert(s@.skip(i as int).skip(5) =~= s@.skip(i as int + 5));
        }
        Some(i + 5)
    } else if match_prefix(s, i, "null") {
        proof {
            reveal_strlit("null");
            assert(s@.skip(i as int).skip(4) =~= s@.skip(i as int + 4));
        }
        Some(i + 4)
    } else if c == '{' {
        proof {
            assert(s@.skip(i as int).skip(1) =~= s@.skip(i as int + 1));
        }
        let j = skip_ws(s, i + 1);
        skip_members(s, j, fuel - 1, true)
    } else if c == '[' {
        proof {
            assert(s@.skip(i as int).skip(1) =~= s@.skip(i as int + 1));
        }
        let j = skip_ws(s, i + 1);
        skip_elements(s, j, fuel - 1, true)
    } else {
        skip_number(s, i)
    }
}

/// Reads past the member list of a skipped object, in executable form.
fn skip_members(s: &str, i: usize, fuel: usize, allow_end: bool) -> (r: Option<usize>)
    requires
        i <= s@.len(),
    ensures
        match skip_members_spec(s@.skip(i as int), fuel as nat, allow_end) {
            Some(rest) => r matches Some(j) && j <= s@.len() && s@.skip(j as int) == rest,
            None => r is None,
        },
    decreases fuel,
{
    let n = s.unicode_len();
    if fuel == 0 {
        return None;
    }
    if allow_end && i < n && s.get_char(i) == '}' {
        proof {
            assert(s@.skip(i as int).skip(1) =~= s@.skip(i as int + 1));
        }
        return Some(i + 1);
    }
    if !(i < n && s.get_char(i) == '"') {
        return None;
    }
    proof {
        assert(s@.skip(i as int).skip(1) =~= s@.skip(i as int + 1));
    }
    let r1 = match scan_string_body(s, i + 1) {
        Some(p) => p.1,
        None => {
            return None;
        },
    };
    let t = skip_ws(s, r1);
    if !(t < n && s.get_char(t) == ':') {
        return None;
    }
    proof {
        assert(s@.skip(t as int).skip(1) =~= s@.skip(t as int + 1));
    }
    let v = skip_ws(s, t + 1);
    let r2 = match skip_value(s, v, fuel - 1) {
        Some(j) => j,
        None => {
            return None;
        },
    };
    let u = skip_ws(s, r2);
    if u < n && s.get_char(u) == '}' {
        proof {
            assert(s@.skip(u as int).skip(1) =~= s@.skip(u as int + 1));
        }
        Some(u + 1)
    } else if u < n && s.get_char(u) == ',' {
        proof {
            assert(s@.skip(u as int).skip(1) =~= s@.skip(u as int + 1));
        }
        let w = skip_ws(s, u + 1);
        skip_members(s, w, fuel - 1, false)
    } else {
        None
    }
}

/// Reads past the element list of a skipped array, in executable form.
fn skip_elements(s: &str, i: usize, fuel: usize, allow_end: bool) -> (r: Option<usize>)
    requires
        i <= s@.len(),
    ensures
        match skip_elements_spec(s@.skip(i as int), fuel as nat, allow_end) {
            Some(rest) => r matches Some(j) && j <= s@.len() && s@.skip(j as int) == rest,
            None => r is None,
        },
    decreases fuel,
{
    let n = s.unicode_len();
    if fuel == 0 {
        return None;
    }
    if allow_end && i < n && s.get_char(i) == ']' {
        proof {
            assert(s@.skip(i as int).skip(1) =~= s@.skip(i as int + 1));
        }
        return Some(i + 1);
    }
    let r1 = match skip_value(s, i, fuel - 1) {
        Some(j) => j,
        None => {
            return None;
        },
    };
    let u = skip_ws(s, r1);
    if u < n && s.get_char(u) == ']' {
        proof {
            assert(s@.skip(u as int).skip(1) =~= s@.skip(u as int + 1));
        }
        Some(u + 1)
    } else if u < n && s.get_char(u) == ',' {
        proof {
            assert(s@.skip(u as int).skip(1) =~= s@.skip(u as int + 1));
        }
        let w = skip_ws(s, u + 1);
        skip_elements(s, w, fuel - 1, false)
    } else {
        None
    }
}

/// Reads one member of the request object, returning it with the index
/// just past its value.
fn parse_member(s: &str, i: usize) -> (r: Result<(Member, usize), DecodeError>)
    requires
        i <= s@.len(),
    ensures
        match parse_member_spec(s@.skip(i as int)) {
            Ok((m, rem)) => r matches Ok(p) && p.0@ == m && p.1 <= s@.len() && s@.skip(
                p.1 as int,
            ) == rem,
            Err(e) => r matches Err(e2) && e2 == e,
        },
{
    proof {
        reveal(parse_member_spec);
    }
    let n = s.unicode_len();
    if !(i < n && s.get_char(i) == '"') {
        return Err(DecodeError::Malformed);
    }
    proof {
        assert(s@.skip(i as int).skip(1) =~= s@.skip(i as int + 1));
    }
    let (key, r1) = match scan_string_body(s, i + 1) {
        Some(p) => p,
        None => {
            return Err(DecodeError::Malformed);
        },
    };
    let t = skip_ws(s, r1);
    if !(t < n && s.get_char(t) == ':') {
        return Err(DecodeError::Malformed);
    }
    proof {
        assert(s@.skip(t as int).skip(1) =~= s@.skip(t as int + 1));
    }
    let u = skip_ws(s, t + 1);
    if str_eq(key.as_str(), "name") {
        if u < n && s.get_char(u) == '"' {
            proof {
                assert(s@.skip(u as int).skip(1) =~= s@.skip(u as int + 1));
            }
            match scan_string_body(s, u + 1) {
                Some(p) => Ok((Member::Name(p.0), p.1)),
                None => Err(DecodeError::Malformed),
            }
        } else {
            Err(DecodeError::Malformed)
        }
    } else if str_eq(key.as_str(), "test_param") {
        if match_prefix(s, u, "true") {
            proof {
                reveal_strlit("true");
                assert(s@.skip(u as int).skip(4) =~= s@.skip(u as int + 4));
            }
            Ok((Member::Flag(Some(true)), u + 4))
        } else if match_prefix(s, u, "false") {
            proof {
                reveal_strlit("false");
                assert(s@.skip(u as int).skip(5) =~= s@.skip(u as int + 5));
            }
            Ok((Member::Flag(Some(false)), u + 5))
        } else if match_prefix(s, u, "null") {
            proof {
                reveal_strlit("null");
                assert(s@.skip(u as int).skip(4) =~= s@.skip(u as int + 4));
            }
            Ok((Member::Flag(None), u + 4))
        } else {
            Err(DecodeError::Malformed)
        }
    } else {
        match skip_value(s, u, n - u) {
            Some(j) => Ok((Member::Skipped, j)),
            None => Err(DecodeError::Malformed),
        }
    }
}

/// The view of the name member gathered so far.
spec fn opt_name_view(o: &Option<String>) -> Option<Seq<char>> {
    match o {
        Some(nm) => Some(nm@),
        None => None,
    }
}

/// Reads the member list from the first key on, carrying the declared
/// members seen so far, and builds the decoded record at the closing
/// brace.
#[verifier::rlimit(60)]
fn decode_members(
    s: &str,
    i: usize,
    fuel: usize,
    name_val: Option<String>,
    flag_val: Option<Option<bool>>,
) -> (r: Result<Input, DecodeError>)
    requires
        i <= s@.len(),
    ensures
        match parse_input_members(
            s@.skip(i as int),
            opt_name_view(&name_val),
            flag_val,
            fuel as nat,
        ) {
            Ok(nf) => r matches Ok(inp) && inp.name@ == nf.0 && inp.test_param == nf.1,
            Err(e) => r matches Err(e2) && e2 == e,
        },
    decreases fuel,
{
    if fuel == 0 {
        return Err(DecodeError::Malformed);
    }
    let n = s.unicode_len();
    let (m, rr) = match parse_member(s, i) {
        Ok(p) => p,
        Err(e) => {
            return Err(e);
        },
    };
    let (name2, flag2) = match m {
        Member::Name(nm) => {
            if name_val.is_some() {
                return Err(DecodeError::DuplicateMember);
            }
            (Some(nm), flag_val)
        },
        Member::Flag(f) => {
            if flag_val.is_some() {
                return Err(DecodeError::DuplicateMember);
            }
            (name_val, Some(f))
        },
        Member::Skipped => (name_val, flag_val),
    };
    let t = skip_ws(s, rr);
    if t < n && s.get_char(t) == '}' {
        match name2 {
            None => Err(DecodeError::MissingName),
            Some(nm) => {
                proof {
                    assert(s@.skip(t as int).skip(1) =~= s@.skip(t as int + 1));
                }
                let te = skip_ws(s, t + 1);
                if te != n {
                    return Err(DecodeError::Malformed);
                }
                let tp = match flag2 {
                    Some(f) => f,
                    None => None,
                };
                Ok(Input { name: nm, test_param: tp })
            },
        }
    } else if t < n && s.get_char(t) == ',' {
        proof {
            assert(s@.skip(t as int).skip(1) =~= s@.skip(t as int + 1));
        }
        let w = skip_ws(s, t + 1);
        decode_members(s, w, fuel - 1, name2, flag2)
    } else {
        Err(DecodeError::Malformed)
    }
}

/// Decodes the request wire text into an [`Input`], reporting the first
/// offence in reading order.
pub fn decode_input(s: &str) -> (r: Result<Input, DecodeError>)
    ensures
        match parse_input_spec(s@) {
            Ok(nf) => r matches Ok(inp) && inp.name@ == nf.0 && inp.test_param == nf.1,
            Err(e) => r matches Err(e2) && e2 == e,
        },
{
    proof {
        assert(s@.skip(0) =~= s@);
    }
    let n = s.unicode_len();
    let t0 = skip_ws(s, 0);
    if !(t0 < n && s.get_char(t0) == '{') {
        return Err(DecodeError::Malformed);
    }
    proof {
        assert(s@.skip(t0 as int).skip(1) =~= s@.skip(t0 as int + 1));
    }
    let t1 = skip_ws(s, t0 + 1);
    if t1 < n && s.get_char(t1) == '}' {
        return Err(DecodeError::MissingName);
    }
    decode_members(s, t1, n - t1, None, None)
}

/// Decodes the response wire text back into an [`Output`].
#[verifier::rlimit(60)]
pub fn decode_output(s: &str) -> (r: Result<Output, DecodeError>)
    ensures
        match parse_output_spec(s@) {
            Some(g) => r matches Ok(o) && o.greeting@ == g,
            None => r matches Err(e) && e == DecodeError::Malformed,
        },
{
    proof {
        assert(s@.skip(0) =~= s@);
    }
    let n = s.unicode_len();
    let t0 = skip_ws(s, 0);
    if !(t0 < n && s.get_char(t0) == '{') {
        return Err(DecodeError::Malformed);
    }
    proof {
        assert(s@.skip(t0 as int).skip(1) =~= s@.skip(t0 as int + 1));
    }
    let t1 = skip_ws(s, t0 + 1);
    if !match_prefix(s, t1, "\"greeting\"") {
        return Err(DecodeError::Malformed);
    }
    proof {
        reveal_strlit("\"greeting\"");
        assert(s@.skip(t1 as int).skip(10) =~= s@.skip(t1 as int + 10));
    }
    let t2 = skip_ws(s, t1 + 10);
    if !(t2 < n && s.get_char(t2) == ':') {
        return Err(DecodeError::Malformed);
    }
    proof {
        assert(s@.skip(t2 as int).skip(1) =~= s@.skip(t2 as int + 1));
    }
    let t3 = skip_ws(s, t2 + 1);
    if !(t3 < n && s.get_char(t3) == '"') {
        return Err(DecodeError::Malformed);
    }
    proof {
        assert(s@.skip(t3 as int).skip(1) =~= s@.skip(t3 as int + 1));
    }
    let (g, r5) = match scan_string_body(s, t3 + 1) {
        Some(p) => p,
        None => {
            return Err(DecodeError::Malformed);
        },
    };
    let t4 = skip_ws(s, r5);
    if t4 < n && s.get_char(t4) == '}' {
        proof {
            assert(s@.skip(t4 as int).skip(1) =~= s@.skip(t4 as int + 1));
        }
        let te = skip_ws(s, t4 + 1);
        if te == n {
            return Ok(Output { greeting: g });
        }
    }
    Err(DecodeError::Malformed)
}

/// The single lower-case hexadecimal digit, as text.
fn hex_digit_str(v: u8) -> (r: &'static str)
    requires
        v < 16,
    ensures
        r@ == seq![hex_digit_char(v as int)],
{
    if v == 0 {
        proof {
            reveal_strlit("0");
            assert("0"@ =~= seq![hex_digit_char(0)]);
        }
        "0"
    } else if v == 1 {
        proof {
            reveal_strlit("1");
            assert("1"@ =~= seq![hex_digit_char(1)]);
        }
        "1"
    } else if v == 2 {
        proof {
            reveal_strlit("2");
            assert("2"@ =~= seq![hex_digit_char(2)]);
        }
        "2"
    } else if v == 3 {
        proof {
            reveal_strlit("3");
            assert("3"@ =~= seq![hex_digit_char(3)]);
        }
        "3"
    } else if v == 4 {
        proof {
            reveal_strlit("4");
            assert("4"@ =~= seq![hex_digit_char(4)]);
        }
        "4"
    } else if v == 5 {
        proof {
            reveal_strlit("5");
            assert("5"@ =~= seq![hex_digit_char(5)]);
        }
        "5"
    } else if v == 6 {
        proof {
            reveal_strlit("6");
            assert("6"@ =~= seq![hex_digit_char(6)]);
        }
        "6"
    } else if v == 7 {
        proof {
            reveal_strlit("7");
            assert("7"@ =~= seq![hex_digit_char(7)]);
        }
        "7"
    } else if v == 8 {
        proof {
            reveal_strlit("8");
            assert("8"@ =~= seq![hex_digit_char(8)]);
        }
        "8"
    } else if v == 9 {
        proof {
            reveal_strlit("9");
            assert("9"@ =~= seq![hex_digit_char(9)]);
        }
        "9"
    } else if v == 10 {
        proof {
            reveal_strlit("a");
            assert("a"@ =~= seq![hex_digit_char(10)]);
        }
        "a"
    } else if v == 11 {
        proof {
            reveal_strlit("b");
            assert("b"@ =~= seq![hex_digit_char(11)]);
        }
        "b"
    } else if v == 12 {
        proof {
            reveal_strlit("c");
            assert("c"@ =~= seq![hex_digit_char(12)]);
        }
        "c"
    } else if v == 13 {
        proof {
            reveal_strlit("d");
            assert("d"@ =~= seq![hex_digit_char(13)]);
        }
        "d"
    } else if v == 14 {
        proof {
            reveal_strlit("e");
            assert("e"@ =~= seq![hex_digit_char(14)]);
        }
        "e"
    } else {
        proof {
            reveal_strlit("f");
            assert("f"@ =~= seq![hex_digit_char(15)]);
        }
        "f"
    }
}

/// Escaping a concatenation escapes the parts in place.
proof fn lemma_escape_append(a: Seq<char>, b: Seq<char>)
    ensures
        escape_string(a + b) == escape_string(a) + escape_string(b),
    decreases a.len(),
{
    if a.len() == 0 {
        assert(a + b =~= b);
        assert(escape_string(a) + escape_string(b) =~= escape_string(b));
    } else {
        assert((a + b).skip(1) =~= a.skip(1) + b);
        lemma_escape_append(a.skip(1), b);
        assert((a + b)[0] == a[0]);
        assert(escape_string(a + b) == escape_char(a[0]) + (escape_string(a.skip(1))
            + escape_string(b)));
        assert(escape_char(a[0]) + (escape_string(a.skip(1)) + escape_string(b)) =~= (escape_char(
            a[0],
        ) + escape_string(a.skip(1))) + escape_string(b));
    }
}

/// Encodes a response as its canonical wire text.
pub fn encode_output(o: &Output) -> (r: String)
    ensures
        r@ == output_json(o.greeting@),
{
    let mut out: String = "{\"greeting\":\"".to_owned();
    let s: &str = o.greeting.as_str();
    let n = s.unicode_len();
    let mut i: usize = 0;
    while i < n
        invariant
            i <= n,
            n == s@.len(),
            s@ == o.greeting@,
            out@ == "{\"greeting\":\""@ + escape_string(s@.subrange(0, i as int)),
        decreases n - i,
    {
        let c = s.get_char(i);
        let ghost pre = s@.subrange(0, i as int);
        let ghost out0 = out@;
        proof {
            assert(s@.subrange(0, i as int + 1) =~= pre + seq![s@[i as int]]);
            lemma_escape_append(pre, seq![s@[i as int]]);
            assert(seq![s@[i as int]].skip(1) =~= Seq::<char>::empty());
            assert(escape_string(seq![s@[i as int]]) == escape_char(s@[i as int])
                + escape_string(Seq::<char>::empty()));
            assert(escape_char(s@[i as int]) + Seq::<char>::empty() =~= escape_char(
                s@[i as int],
            ));
        }
        if c == '"' {
            out.append("\\\"");
            proof {
                reveal_strlit("\\\"");
                assert(out@ =~= out0 + escape_char(s@[i as int]));
            }
        } else if c == '\\' {
            out.append("\\\\");
            proof {
                reveal_strlit("\\\\");
                assert(out@ =~= out0 + escape_char(s@[i as int]));
            }
        } else if (c as u32) < 32 {
            let u = c as u32;
            out.append("\\u00");
            out.append(hex_digit_str((u / 16) as u8));
            out.append(hex_digit_str((u % 16) as u8));
            proof {
                reveal_strlit("\\u00");
                assert(out@ =~= out0 + escape_char(s@[i as int]));
            }
        } else {
            let piece = s.substring_char(i, i + 1);
            proof {
                assert(piece@ =~= seq![s@[i as int]]);
            }
            out.append(piece);
            proof {
                assert(out@ =~= out0 + escape_char(s@[i as int]));
            }
        }
        proof {
            assert(out@ =~= "{\"greeting\":\""@ + escape_string(s@.subrange(0, i as int + 1)));
        }
        i = i + 1;
    }
    proof {
        assert(s@.subrange(0, n as int) =~= s@);
    }
    out.append("\"}");
    proof {
        assert(out@ =~= "{\"greeting\":\""@ + escape_string(o.greeting@) + "\"}"@);
    }
    out
}

/// Law: reading an escaped text followed by its closing quote yields the
/// text back unchanged, and leaves what follows the quote untouched.
pub proof fn lemma_unescape_escape(g: Seq<char>, rest: Seq<char>)
    ensures
        parse_string_body(escape_string(g) + seq!['"'] + rest) == Some::<(Seq<char>, Seq<char>)>(
            (g, rest),
        ),
    decreases g.len(),
{
    let s = escape_string(g) + seq!['"'] + rest;
    if g.len() == 0 {
        assert(s =~= seq!['"'] + rest);
        assert(s[0] == '"');
        assert(s.skip(1) =~= rest);
        assert(g =~= Seq::<char>::empty());
    } else {
        let c = g[0];
        let g2 = g.skip(1);
        let tail = escape_string(g2) + seq!['"'] + rest;
        assert(escape_string(g) == escape_char(c) + escape_string(g2));
        lemma_unescape_escape(g2, rest);
        assert(seq![c] + g2 =~= g);
        if c == '"' {
            assert(s =~= seq!['\\', '"'] + tail);
            assert(s.skip(2) =~= tail);
            assert(simple_unescape('"') == '"');
        } else if c == '\\' {
            assert(s =~= seq!['\\', '\\'] + tail);
            assert(s.skip(2) =~= tail);
            assert(simple_unescape('\\') == '\\');
        } else if (c as u32) < 32 {
            let v = (c as u32) as int;
            let h1 = hex_digit_char(v / 16);
            let h2 = hex_digit_char(v % 16);
            assert(s =~= seq!['\\', 'u', '0', '0', h1, h2] + tail);
            assert(s.skip(6) =~= tail);
            assert(is_hex_digit('0') && hex_digit_val('0') == 0);
            assert(is_hex_digit(h1) && hex_digit_val(h1) == v / 16);
            assert(is_hex_digit(h2) && hex_digit_val(h2) == v % 16);
            assert(hex4_val(s[2], s[3], s[4], s[5]) == v);
            vstd::utf8::char_is_scalar(c);
            vstd::utf8::char_u32_cast(c, c as u32);
            assert(scalar_char(v) == c);
        } else {
            assert(s =~= seq![c] + tail);
            assert(s.skip(1) =~= tail);
            assert(s[0] == c);
        }
    }
}

/// Law: the canonical wire text of any greeting parses back to exactly
/// that greeting: encoding a response and decoding the text yields an
/// object with the same greeting string.
pub proof fn lemma_output_round_trip(g: Seq<char>)
    ensures
        parse_output_spec(output_json(g)) == Some(g),
{
    reveal_strlit("{\"greeting\":\"");
    reveal_strlit("\"}");
    reveal_strlit("\"greeting\"");
    let e = escape_string(g);
    let s = output_json(g);
    assert(s =~= "{\"greeting\":\""@ + (e + seq!['"'] + seq!['}']));
    assert(s[0] == '{');
    assert(skip_ws_spec(s) == s);
    assert(s.skip(1)[0] == '"');
    assert(skip_ws_spec(s.skip(1)) == s.skip(1));
    assert(s.skip(1).subrange(0, 10) =~= "\"greeting\""@);
    assert(starts_with(s.skip(1), "\"greeting\""@));
    assert(s.skip(1).skip(10) =~= s.skip(11));
    assert(s.skip(11)[0] == ':');
    assert(skip_ws_spec(s.skip(11)) == s.skip(11));
    assert(s.skip(11).skip(1) =~= s.skip(12));
    assert(s.skip(12)[0] == '"');
    assert(skip_ws_spec(s.skip(12)) == s.skip(12));
    assert(s.skip(12).skip(1) =~= s.skip(13));
    assert(s.skip(13) =~= e + seq!['"'] + seq!['}']);
    lemma_unescape_escape(g, seq!['}']);
    assert(parse_string_body(s.skip(13)) == Some::<(Seq<char>, Seq<char>)>((g, seq!['}'])));
    assert(skip_ws_spec(seq!['}']) == seq!['}']);
    assert(seq!['}'].skip(1) =~= Seq::<char>::empty());
    assert(skip_ws_spec(Seq::<char>::empty()).len() == 0);
}

/// Decodes a request, runs the transformer, and encodes the response: the
/// whole computation an invocation shell needs between reading its text
/// argument and writing its text answer. The contract carries the
/// boundary law: a text that fails to decode — the required `name`
/// missing, or any malformation — yields exactly the decode error and
/// never a greeting; a greeting is produced only for a successfully
/// decoded request, and then it is exactly the transformer's.
pub fn handle_json(s: &str) -> (r: Result<String, DecodeError>)
    ensures
        match parse_input_spec(s@) {
            Ok(nf) => r matches Ok(t) && t@ == output_json(
                crate::greet::greeting_text(nf.0, nf.1),
            ),
            Err(e) => r matches Err(e2) && e2 == e,
        },
{
    match decode_input(s) {
        Ok(inp) => {
            match crate::greet::process_input(inp) {
                Ok(o) => Ok(encode_output(&o)),
                // the transformer's contract rules this arm out
                Err(_) => {
                    proof {
                        assert(false);
                    }
                    Err(DecodeError::Malformed)
                },
            }
        },
        Err(e) => Err(e),
    }
}

} // verus!
