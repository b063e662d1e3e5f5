use vstd::prelude::*;
use crate::error::{AflError, is_illegal_argument};
use vstd::string::{StrSliceExecFns, StringExecFns, StringSliceAdditionalSpecFns};
use vstd::utf8::{
    encode_scalar, encode_utf8, encode_utf8_valid_utf8, is_char_boundary,
    is_char_boundary_iff_not_is_continuation_byte, is_char_boundary_start_end_of_seq,
    valid_utf8_split,
};

verus! {

/// The value of the hex digit `hex` (`'0'..='9'`, `'A'..='F'`, `'a'..='f'`), if it is one.
pub open spec fn spec_hex_value(hex: u8) -> Option<u8> {
    if 48 <= hex <= 57 {
        Some((hex - 48) as u8)
    } else if 65 <= hex <= 70 {
        Some((hex - 55) as u8)
    } else if 97 <= hex <= 102 {
        Some((hex - 87) as u8)
    } else {
        None
    }
}

/// The state of token decoding after a prefix of the input:
/// `(take_next, take_next_two, decoded, token)`. `take_next` holds after a backslash,
/// `take_next_two` counts the hex digits of a `\x` escape still to come (`1` or `2`;
/// `0` outside one), `decoded` is the value built from the hex digits so far, and
/// `token` holds the bytes decoded so far.
pub type DecodeState = (bool, int, u8, Seq<u8>);

/// The state before any byte was decoded.
pub open spec fn decode_start() -> DecodeState {
    (false, 0, 0u8, Seq::empty())
}

/// The decoding state after byte `c`, or `None` where `c` is not a hex digit that an
/// escape calls for.
pub open spec fn decode_step(st: DecodeState, c: u8) -> Option<DecodeState> {
    let (take_next, take_next_two, decoded, token) = st;
    if take_next_two == 1 {
        match spec_hex_value(c) {
            Some(h) => Some((take_next, 2, (h * 16) as u8, token)),
            None => None,
        }
    } else if take_next_two == 2 {
        match spec_hex_value(c) {
            Some(h) => Some((take_next, 0, (decoded + h) as u8, token.push((decoded + h) as u8))),
            None => None,
        }
    } else if c != 92 || take_next {
        if take_next && (c == 120 || c == 88) {
            (Some((false, 1, decoded, token)))
        } else {
            (Some((false, 0, decoded, token.push(c))))
        }
    } else {
        Some((true, 0, decoded, token))
    }
}

/// The decoding state after the first `n` bytes of `s`, or `None` where decoding failed
/// within them.
pub open spec fn decode_prefix(s: Seq<u8>, n: nat) -> Option<DecodeState>
    decreases n,
{
    if n == 0 {
        Some(decode_start())
    } else {
        match decode_prefix(s, (n - 1) as nat) {
            Some(st) => decode_step(st, s[n - 1]),
            None => None,
        }
    }
}

/// The token that the dictionary entry `s` stands for, or `None` where an escape in it
/// is not well formed: `\xHH` gives the byte with hex value `HH`, a backslash before
/// any other byte gives that byte, and other bytes stand for themselves. A trailing
/// backslash or an unfinished `\x` escape at the end adds nothing.
pub open spec fn spec_str_decode(s: Seq<u8>) -> Option<Seq<u8>> {
    match decode_prefix(s, s.len()) {
        Some(st) => Some(st.3),
        None => None,
    }
}

/// Converts a hex u8 to its u8 value: 'A' -> 10 etc.
pub fn from_hex(hex: u8) -> (res: Result<u8, AflError>)
    ensures
        match res {
            Ok(v) => spec_hex_value(hex) == Some(v),
            Err(e) => spec_hex_value(hex) is None && is_illegal_argument(e, ""@),
        },
{
    if hex >= 48 && hex <= 57 {
        return Ok(hex - 48);
    }
    if hex >= 65 && hex <= 70 {
        return Ok(hex - 55);
    }
    if hex >= 97 && hex <= 102 {
        return Ok(hex - 87);
    }
    return Err(AflError::IllegalArgument("".to_owned()));
}

/// Decodes a dictionary token: 'foo\x41\\and\"bar' -> 'fooA\and"bar'
pub fn str_decode(item: &str) -> (res: Result<Vec<u8>, AflError>)
    ensures
        match res {
            Ok(token) => spec_str_decode(item.spec_bytes()) == Some(token@),
            Err(e) => spec_str_decode(item.spec_bytes()) is None && is_illegal_argument(e, ""@),
        },
{
    let mut token: Vec<u8> = Vec::new();
    let bytes = item.as_bytes();
    let backslash: u8 = 92;
    let mut take_next: bool = false;
    let mut take_next_two: u32 = 0;
    let mut decoded: u8 = 0;
    let mut i: usize = 0;
    while i < bytes.len()
        invariant
            i <= bytes@.len(),
            bytes@ == item.spec_bytes(),
            backslash == 92,
            take_next_two <= 2,
            take_next_two == 2 ==> decoded % 16 == 0 && decoded <= 240,
            decode_prefix(bytes@, i as nat) == Some(
                (take_next, take_next_two as int, decoded, token@),
            ),
        decreases bytes@.len() - i,
    {
        let c = bytes[i];
        let ghost st: DecodeState = (take_next, take_next_two as int, decoded, token@);
        assert(decode_prefix(bytes@, (i + 1) as nat) == decode_step(st, c));
        if take_next_two == 1 {
            match from_hex(c) {
                Ok(h) => {
                    decoded = h << 4u8;
                    assert(h << 4u8 == h * 16 && h * 16 <= 240 && (h * 16) % 16 == 0) by (bit_vector)
                        requires h < 16;
                },
                Err(e) => {
                    proof {
                        lemma_decode_fails_after(bytes@, (i + 1) as nat, bytes@.len());
                    }
                    return Err(e);
                },
            }
            take_next_two = 2;
        } else if take_next_two == 2 {
            match from_hex(c) {
                Ok(h) => {
                    decoded = decoded + h;
                },
                Err(e) => {
                    proof {
                        lemma_decode_fails_after(bytes@, (i + 1) as nat, bytes@.len());
                    }
                    return Err(e);
                },
            }
            token.push(decoded);
            take_next_two = 0;
        } else {
            if c != backslash || take_next {
                if take_next && (c == 120 || c == 88) {
                    take_next_two = 1;
                } else {
                    token.push(c);
                }
                take_next = false;
            } else {
                take_next = true;
            }
        }
        assert(decode_step(st, c) == Some(
            (take_next, take_next_two as int, decoded, token@),
        ));
        i = i + 1;
    }
    Ok(token)
}

/// Once decoding failed, it stays failed.
proof fn lemma_decode_fails_after(s: Seq<u8>, n: nat, m: nat)
    requires
        n <= m,
        decode_prefix(s, n) is None,
    ensures
        decode_prefix(s, m) is None,
    decreases m - n,
{
    if n < m {
        lemma_decode_fails_after(s, n, (m - 1) as nat);
    }
}


/// The tokens of a dictionary, as byte sequences.
pub open spec fn tokens_view(tokens: Seq<Vec<u8>>) -> Seq<Seq<u8>> {
    tokens.map_values(|t: Vec<u8>| t@)
}

/// `tokens` with `token` added at the end, unless it is there already.
pub open spec fn spec_add_token(tokens: Seq<Seq<u8>>, token: Seq<u8>) -> Seq<Seq<u8>> {
    if tokens.contains(token) {
        tokens
    } else {
        tokens.push(token)
    }
}

/// Whether `a` and `b` hold the same bytes.
fn bytes_eq(a: &[u8], b: &[u8]) -> (r: bool)
    ensures
        r == (a@ == b@),
{
    if a.len() != b.len() {
        return false;
    }
    let mut i: usize = 0;
    while i < a.len()
        invariant
            a@.len() == b@.len(),
            i <= a@.len(),
            forall|j: int| 0 <= j < i ==> a@[j] == b@[j],
        decreases a@.len() - i,
    {
        if a[i] != b[i] {
            return false;
        }
        i = i + 1;
    }
    assert(a@ =~= b@);
    true
}

/// A fresh vector with the bytes of `b`.
fn copy_bytes(b: &[u8]) -> (r: Vec<u8>)
    ensures
        r@ == b@,
{
    let mut r: Vec<u8> = Vec::new();
    let mut i: usize = 0;
    while i < b.len()
        invariant
            i <= b@.len(),
            r@ == b@.subrange(0, i as int),
        decreases b@.len() - i,
    {
        r.push(b[i]);
        i = i + 1;
        assert(r@ =~= b@.subrange(0, i as int));
    }
    assert(r@ =~= b@);
    r
}

/// Adds a token to a dictionary, unless it is a duplicate; returns how many were added
pub fn add_token(tokens: &mut Vec<Vec<u8>>, token: &Vec<u8>) -> (added: u32)
    ensures
        tokens_view(final(tokens)@) == spec_add_token(tokens_view(old(tokens)@), token@),
        added == (if tokens_view(old(tokens)@).contains(token@) { 0u32 } else { 1u32 }),
{
    let mut i: usize = 0;
    while i < tokens.len()
        invariant
            i <= tokens@.len(),
            forall|j: int| 0 <= j < i ==> tokens_view(tokens@)[j] != token@,
        decreases tokens@.len() - i,
    {
        if bytes_eq(tokens[i].as_slice(), token.as_slice()) {
            assert(tokens_view(tokens@)[i as int] == token@);
            return 0;
        }
        i = i + 1;
    }
    assert(!tokens_view(tokens@).contains(token@));
    let ghost before = tokens_view(tokens@);
    tokens.push(copy_bytes(token.as_slice()));
    assert(tokens_view(tokens@) =~= before.push(token@));
    return 1;
}

/// `c` has the Unicode property `White_Space`.
pub open spec fn is_unicode_whitespace(c: char) -> bool {
    let v = c as u32;
    ||| 0x09 <= v <= 0x0d
    ||| v == 0x20
    ||| v == 0x85
    ||| v == 0xa0
    ||| v == 0x1680
    ||| 0x2000 <= v <= 0x200a
    ||| v == 0x2028
    ||| v == 0x2029
    ||| v == 0x202f
    ||| v == 0x205f
    ||| v == 0x3000
}

/// `s` without its leading whitespace.
pub open spec fn spec_trim_start(s: Seq<char>) -> Seq<char>
    decreases s.len(),
{
    if s.len() > 0 && is_unicode_whitespace(s[0]) {
        spec_trim_start(s.drop_first())
    } else {
        s
    }
}

/// `s` without its trailing whitespace.
pub open spec fn spec_trim_end(s: Seq<char>) -> Seq<char>
    decreases s.len(),
{
    if s.len() > 0 && is_unicode_whitespace(s.last()) {
        spec_trim_end(s.drop_last())
    } else {
        s
    }
}

/// `s` without its leading and trailing whitespace.
pub open spec fn spec_trim(s: Seq<char>) -> Seq<char> {
    spec_trim_end(spec_trim_start(s))
}

/// The first index from `i` on where byte `b` occurs in `s`.
pub open spec fn spec_find_byte_from(s: Seq<u8>, b: u8, i: int) -> Option<int>
    decreases s.len() - i,
{
    if i < 0 || i >= s.len() {
        None
    } else if s[i] == b {
        Some(i)
    } else {
        spec_find_byte_from(s, b, i + 1)
    }
}

/// The first index where byte `b` occurs in `s`.
pub open spec fn spec_find_byte(s: Seq<u8>, b: u8) -> Option<int> {
    spec_find_byte_from(s, b, 0)
}

/// A found index lies in range and holds the byte looked for.
pub proof fn lemma_find_byte_from(s: Seq<u8>, b: u8, i: int)
    ensures
        spec_find_byte_from(s, b, i) matches Some(k) ==> 0 <= i <= k < s.len() && s[k] == b,
    decreases s.len() - i,
{
    if 0 <= i < s.len() && s[i] != b {
        lemma_find_byte_from(s, b, i + 1);
    }
}

/// Calls `str::trim_start`: per its documentation, the slice without its leading
/// whitespace, whitespace being the Unicode property `White_Space`.
#[verifier::external_body]
fn trim_start(s: &str) -> (r: &str)
    ensures
        r@ == spec_trim_start(s@),
{
    s.trim_start()
}

/// Calls `str::trim_end`: per its documentation, the slice without its trailing
/// whitespace, whitespace being the Unicode property `White_Space`.
#[verifier::external_body]
fn trim_end(s: &str) -> (r: &str)
    ensures
        r@ == spec_trim_end(s@),
{
    s.trim_end()
}

/// The character at index `n` of `s`, if there is one.
fn nth_char(s: &str, n: usize) -> (r: Option<char>)
    ensures
        r == (if n < s@.len() {
            Some(s@[n as int])
        } else {
            None
        }),
{
    if n < s.unicode_len() {
        Some(s.get_char(n))
    } else {
        None
    }
}

/// The byte index of the first occurrence of byte `b` in `s`.
fn find_byte(s: &str, b: u8) -> (r: Option<usize>)
    ensures
        match r {
            Some(i) => spec_find_byte(s.spec_bytes(), b) == Some(i as int),
            None => spec_find_byte(s.spec_bytes(), b) is None,
        },
{
    let bytes = s.as_bytes();
    let mut i: usize = 0;
    while i < bytes.len()
        invariant
            i <= bytes@.len(),
            bytes@ == s.spec_bytes(),
            spec_find_byte(bytes@, b) == spec_find_byte_from(bytes@, b, i as int),
        decreases bytes@.len() - i,
    {
        if bytes[i] == b {
            return Some(i);
        }
        i = i + 1;
    }
    None
}

/// The subslice of `s` over the byte range `start..end`, or `None` where the range is
/// reversed, out of bounds, or does not lie on character boundaries.
fn str_get(s: &str, start: usize, end: usize) -> (r: Option<&str>)
    ensures
        r is Some <==> (start <= end <= s.spec_bytes().len() && is_char_boundary(
            s.spec_bytes(),
            start as int,
        ) && is_char_boundary(s.spec_bytes(), end as int)),
        r matches Some(x) ==> x.spec_bytes() == s.spec_bytes().subrange(start as int, end as int),
{
    let len = s.as_bytes().len();
    if start <= end && end <= len && s.is_char_boundary(start) && s.is_char_boundary(end) {
        let ghost b = s.spec_bytes();
        let (_, rest) = s.split_at(start);
        proof {
            encode_utf8_valid_utf8(s@);
            valid_utf8_split(b, start as int);
            let t = rest.spec_bytes();
            assert(t =~= b.subrange(start as int, b.len() as int));
            if end < b.len() {
                is_char_boundary_iff_not_is_continuation_byte(b, end as int);
                is_char_boundary_iff_not_is_continuation_byte(t, end - start);
                assert(t[end - start] == b[end as int]);
            } else {
                is_char_boundary_start_end_of_seq(t);
            }
        }
        let (mid, _) = rest.split_at(end - start);
        assert(mid.spec_bytes() =~= s.spec_bytes().subrange(start as int, end as int));
        Some(mid)
    } else {
        None
    }
}

/// What a line of a tokens file yields.
pub enum LineOutcome {
    /// Nothing: an empty line, a comment or an empty token.
    Skip,
    /// The line is not of the form `... "token"`.
    Illegal,
    /// The token holds an escape that is not well formed.
    IllegalHex,
    /// The token, decoded.
    Token(Seq<u8>),
}

/// What the line `line` of a tokens file yields. The line is trimmed; an empty line or
/// one that starts with `#` yields nothing. Otherwise the token lies between the first
/// `"` and the last character, which must be `"`; the last character is looked up by
/// the byte length of the line, so a line with a character outside ASCII never ends
/// in the right place.
pub open spec fn spec_line_outcome(line: Seq<char>) -> LineOutcome {
    let t = spec_trim(line);
    let b = encode_utf8(t);
    if t.len() == 0 || t[0] == '#' {
        LineOutcome::Skip
    } else {
        match spec_find_byte(b, 34u8) {
            None => LineOutcome::Illegal,
            Some(q) => {
                if !(b.len() - 1 < t.len() && t[b.len() - 1] == '"') {
                    LineOutcome::Illegal
                } else if !(q + 1 <= b.len() - 1 && is_char_boundary(b, q + 1) && is_char_boundary(
                    b,
                    b.len() - 1,
                )) {
                    LineOutcome::Illegal
                } else {
                    let item = b.subrange(q + 1, b.len() - 1);
                    if item.len() == 0 {
                        LineOutcome::Skip
                    } else {
                        match spec_str_decode(item) {
                            None => LineOutcome::IllegalHex,
                            Some(token) => LineOutcome::Token(token),
                        }
                    }
                }
            },
        }
    }
}

/// The message of the error for an illegal line.
pub open spec fn illegal_line_msg(line: Seq<char>) -> Seq<char> {
    "Illegal line: "@ + spec_trim(line)
}

/// The message of the error for a line whose token does not decode.
pub open spec fn illegal_hex_msg(line: Seq<char>) -> Seq<char> {
    "Illegal line (hex decoding): "@ + spec_trim(line)
}

/// `res` is `Ok(n)`.
pub open spec fn is_ok_with(res: Result<u32, AflError>, n: int) -> bool {
    match res {
        Ok(v) => v == n,
        Err(_) => false,
    }
}

/// `res` is an `IllegalArgument` error with message `msg`.
pub open spec fn is_err_with(res: Result<u32, AflError>, msg: Seq<char>) -> bool {
    match res {
        Ok(_) => false,
        Err(e) => is_illegal_argument(e, msg),
    }
}

/// A character sequence takes at least as many bytes as it has characters.
proof fn lemma_encode_utf8_len(chars: Seq<char>)
    ensures
        chars.len() <= encode_utf8(chars).len(),
    decreases chars.len(),
{
    if chars.len() > 0 {
        lemma_encode_utf8_len(chars.drop_first());
        assert(encode_scalar(chars[0] as u32).len() >= 1);
    }
}

/// An `IllegalArgument` error whose message is `prefix` followed by `line`.
fn illegal_line(prefix: &str, line: &str) -> (e: AflError)
    ensures
        is_illegal_argument(e, prefix@ + line@),
{
    let mut m = prefix.to_owned();
    m.append(line);
    AflError::IllegalArgument(m)
}

/// Processes one line of a tokens file: adds the token that it holds, if any, and
/// returns how many tokens were added.
pub fn process_token_line(line: &str, tokens: &mut Vec<Vec<u8>>) -> (res: Result<u32, AflError>)
    ensures
        match spec_line_outcome(line@) {
            LineOutcome::Skip => is_ok_with(res, 0) && final(tokens)@ == old(tokens)@,
            LineOutcome::Illegal => is_err_with(res, illegal_line_msg(line@)) && final(tokens)@
                == old(tokens)@,
            LineOutcome::IllegalHex => is_err_with(res, illegal_hex_msg(line@)) && final(tokens)@
                == old(tokens)@,
            LineOutcome::Token(t) => is_ok_with(
                res,
                if tokens_view(old(tokens)@).contains(t) {
                    0
                } else {
                    1
                },
            ) && tokens_view(final(tokens)@) == spec_add_token(tokens_view(old(tokens)@), t),
        },
{
    let line = trim_end(trim_start(line));
    let start = nth_char(line, 0);
    let is_comment = match start {
        Some(c) => c == '#',
        None => false,
    };
    if line.is_empty() || is_comment {
        return Ok(0);
    }
    proof {
        lemma_encode_utf8_len(line@);
    }
    let pos_quote = match find_byte(line, 34) {
        Some(x) => x,
        _ => {
            return Err(illegal_line("Illegal line: ", line));
        },
    };
    let line_len = line.as_bytes().len();
    proof {
        lemma_find_byte_from(line.spec_bytes(), 34u8, 0);
    }
    let last = nth_char(line, line_len - 1);
    let ends_in_quote = match last {
        Some(c) => c == '"',
        None => false,
    };
    if !ends_in_quote {
        return Err(illegal_line("Illegal line: ", line));
    }
    let item = match str_get(line, pos_quote + 1, line_len - 1) {
        Some(x) => x,
        _ => {
            return Err(illegal_line("Illegal line: ", line));
        },
    };
    if item.is_empty() {
        return Ok(0);
    }
    let token: Vec<u8> = match str_decode(item) {
        Ok(val) => val,
        Err(_) => {
            return Err(illegal_line("Illegal line (hex decoding): ", line));
        },
    };
    Ok(add_token(tokens, &token))
}

/// The state after reading the first `n` lines of a tokens file into the dictionary
/// `tokens`: the dictionary, the number of tokens added, and the message of the error
/// that stopped the reading, if one did. Reading stops at the first illegal line.
pub open spec fn spec_read_lines(lines: Seq<Seq<char>>, tokens: Seq<Seq<u8>>, n: nat) -> (
    Seq<Seq<u8>>,
    int,
    Option<Seq<char>>,
)
    decreases n,
{
    if n == 0 || n > lines.len() {
        (tokens, 0, None)
    } else {
        let (toks, entries, err) = spec_read_lines(lines, tokens, (n - 1) as nat);
        if err is Some {
            (toks, entries, err)
        } else {
            let line = lines[n - 1];
            match spec_line_outcome(line) {
                LineOutcome::Skip => (toks, entries, None),
                LineOutcome::Illegal => (toks, entries, Some(illegal_line_msg(line))),
                LineOutcome::IllegalHex => (toks, entries, Some(illegal_hex_msg(line))),
                LineOutcome::Token(t) => (
                    spec_add_token(toks, t),
                    entries + if toks.contains(t) {
                        0int
                    } else {
                        1int
                    },
                    None,
                ),
            }
        }
    }
}

/// The lines, as character sequences.
pub open spec fn lines_view(lines: Seq<String>) -> Seq<Seq<char>> {
    lines.map_values(|l: String| l@)
}

/// Reads the lines of a tokens file into the dictionary `tokens`, stopping at the first
/// illegal line, and returns the number of tokens added.
pub fn read_tokens_lines(lines: &Vec<String>, tokens: &mut Vec<Vec<u8>>) -> (res: Result<
    u32,
    AflError,
>)
    requires
        spec_read_lines(lines_view(lines@), tokens_view(old(tokens)@), lines@.len()).1
            <= u32::MAX,
    ensures
        ({
            let (toks, entries, err) = spec_read_lines(
                lines_view(lines@),
                tokens_view(old(tokens)@),
                lines@.len(),
            );
            &&& tokens_view(final(tokens)@) == toks
            &&& match err {
                None => is_ok_with(res, entries),
                Some(msg) => is_err_with(res, msg),
            }
        }),
{
    let mut entries: u32 = 0;
    let mut i: usize = 0;
    while i < lines.len()
        invariant
            i <= lines@.len(),
            spec_read_lines(lines_view(lines@), tokens_view(old(tokens)@), lines@.len()).1
                <= u32::MAX,
            ({
                let (toks, n, err) = spec_read_lines(
                    lines_view(lines@),
                    tokens_view(old(tokens)@),
                    i as nat,
                );
                &&& tokens_view(tokens@) == toks
                &&& n == entries
                &&& err is None
            }),
        decreases lines@.len() - i,
    {
        let ghost before = tokens_view(tokens@);
        let r = process_token_line(lines[i].as_str(), tokens);
        assert(lines_view(lines@)[i as int] == lines@[i as int]@);
        proof {
            lemma_read_lines_entries(
                lines_view(lines@),
                tokens_view(old(tokens)@),
                (i + 1) as nat,
                lines@.len(),
            );
        }
        match r {
            Ok(n) => {
                entries = entries + n;
            },
            Err(e) => {
                proof {
                    lemma_read_lines_stops(
                        lines_view(lines@),
                        tokens_view(old(tokens)@),
                        (i + 1) as nat,
                        lines@.len(),
                    );
                }
                return Err(e);
            },
        }
        i = i + 1;
    }
    Ok(entries)
}

/// Once reading stopped at an error, later lines change nothing.
proof fn lemma_read_lines_stops(lines: Seq<Seq<char>>, tokens: Seq<Seq<u8>>, n: nat, m: nat)
    requires
        n <= m <= lines.len(),
        spec_read_lines(lines, tokens, n).2 is Some,
    ensures
        spec_read_lines(lines, tokens, m) == spec_read_lines(lines, tokens, n),
    decreases m - n,
{
    if n < m {
        lemma_read_lines_stops(lines, tokens, n, (m - 1) as nat);
    }
}

/// Law: decoding a dictionary entry without backslashes gives the entry itself.
pub proof fn lemma_str_decode_plain(s: Seq<u8>)
    requires
        forall|i: int| 0 <= i < s.len() ==> s[i] != 92,
    ensures
        spec_str_decode(s) == Some(s),
{
    lemma_decode_plain_prefix(s, s.len());
    assert(s.take(s.len() as int) =~= s);
}

/// Decoding a prefix without backslashes copies it.
proof fn lemma_decode_plain_prefix(s: Seq<u8>, n: nat)
    requires
        n <= s.len(),
        forall|i: int| 0 <= i < s.len() ==> s[i] != 92,
    ensures
        decode_prefix(s, n) == Some((false, 0int, 0u8, s.take(n as int))),
    decreases n,
{
    if n > 0 {
        lemma_decode_plain_prefix(s, (n - 1) as nat);
        assert(s.take(n as int) =~= s.take(n - 1).push(s[n - 1]));
    }
}

/// The upper-case hex digit for `v` in `0..16`.
pub open spec fn hex_digit(v: u8) -> u8 {
    if v < 10 {
        (48 + v) as u8
    } else {
        (55 + v) as u8
    }
}

/// Law: an upper-case hex digit decodes to its value.
pub proof fn lemma_hex_digit_value(v: u8)
    requires
        v < 16,
    ensures
        spec_hex_value(hex_digit(v)) == Some(v),
{
}

/// `e` writes every byte of `t` as a `\xHH` escape: a backslash, `x` or `X`, and two hex
/// digits of either case, high digit first.
pub open spec fn is_hex_escape_of(e: Seq<u8>, t: Seq<u8>) -> bool {
    &&& e.len() == 4 * t.len()
    &&& forall|i: int| 0 <= i < t.len() ==> #[trigger] is_hex_escape_at(e, t, i)
}

/// The four bytes of `e` at `4 * i` are a `\xHH` escape of byte `i` of `t`.
pub open spec fn is_hex_escape_at(e: Seq<u8>, t: Seq<u8>, i: int) -> bool {
    &&& e[4 * i] == 92u8
    &&& (e[4 * i + 1] == 120u8 || e[4 * i + 1] == 88u8)
    &&& spec_hex_value(e[4 * i + 2]) == Some((t[i] / 16) as u8)
    &&& spec_hex_value(e[4 * i + 3]) == Some((t[i] % 16) as u8)
}

/// Decoding a prefix depends only on the bytes in it.
proof fn lemma_decode_prefix_extend(s1: Seq<u8>, s2: Seq<u8>, n: nat)
    requires
        n <= s1.len(),
    ensures
        decode_prefix(s1 + s2, n) == decode_prefix(s1, n),
    decreases n,
{
    if n > 0 {
        lemma_decode_prefix_extend(s1, s2, (n - 1) as nat);
        assert((s1 + s2)[n - 1] == s1[n - 1]);
    }
}

/// The escapes of `t` decode to `t`, ending outside any escape.
proof fn lemma_decode_hex_escape_state(e: Seq<u8>, t: Seq<u8>)
    requires
        is_hex_escape_of(e, t),
    ensures
        decode_prefix(e, e.len()) matches Some(st) && st.0 == false && st.1 == 0 && st.3 == t,
    decreases t.len(),
{
    if t.len() > 0 {
        let k = t.len() - 1;
        let t0 = t.drop_last();
        let e0 = e.take(4 * k);
        let tail = e.skip(4 * k);
        assert(e =~= e0 + tail);
        assert forall|i: int| 0 <= i < t0.len() implies #[trigger] is_hex_escape_at(e0, t0, i) by {
            assert(is_hex_escape_at(e, t, i));
            assert(4 * i + 3 < 4 * k);
        }
        assert(e0.len() == 4 * t0.len());
        lemma_decode_hex_escape_state(e0, t0);
        lemma_decode_prefix_extend(e0, tail, e0.len());
        let b = t[k];
        let n = e0.len();
        assert(is_hex_escape_at(e, t, k));
        assert(e[n as int] == 92u8);
        let hi = (b / 16) as u8;
        let lo = (b % 16) as u8;
        assert(decode_prefix(e, n + 1) is Some);
        assert(decode_prefix(e, n + 2) is Some);
        assert(decode_prefix(e, n + 3) is Some);
        assert(decode_prefix(e, n + 4) is Some);
        assert(((hi * 16) as u8 + lo) as u8 == b) by (bit_vector)
            requires
                hi == b / 16,
                lo == b % 16,
        ;
        assert(t0.push(b) =~= t);
    }
}

/// Law: writing every byte of a token as a `\xHH` escape, with `x` and the hex digits in
/// either case, and decoding the result gives the token back.
pub proof fn lemma_str_decode_hex_escape(e: Seq<u8>, t: Seq<u8>)
    requires
        is_hex_escape_of(e, t),
    ensures
        spec_str_decode(e) == Some(t),
{
    lemma_decode_hex_escape_state(e, t);
}

/// `s` with every backslash doubled.
pub open spec fn spec_double_backslashes(s: Seq<u8>) -> Seq<u8>
    decreases s.len(),
{
    if s.len() == 0 {
        Seq::empty()
    } else {
        spec_double_backslashes(s.drop_last()) + if s.last() == 92u8 {
            seq![92u8, 92u8]
        } else {
            seq![s.last()]
        }
    }
}

/// Text with doubled backslashes decodes to the text, ending outside any escape.
proof fn lemma_decode_double_backslashes_state(s: Seq<u8>)
    ensures
        decode_prefix(spec_double_backslashes(s), spec_double_backslashes(s).len()) == Some(
            (false, 0int, 0u8, s),
        ),
    decreases s.len(),
{
    if s.len() > 0 {
        let s0 = s.drop_last();
        let e0 = spec_double_backslashes(s0);
        let b = s.last();
        let tail = if b == 92u8 {
            seq![92u8, 92u8]
        } else {
            seq![b]
        };
        let e = e0 + tail;
        assert(spec_double_backslashes(s) == e);
        lemma_decode_double_backslashes_state(s0);
        lemma_decode_prefix_extend(e0, tail, e0.len());
        let n = e0.len();
        assert(e[n as int] == tail[0]);
        if b == 92u8 {
            assert(e[n + 1int] == 92u8);
            assert(decode_prefix(e, n + 1) == Some((true, 0int, 0u8, s0)));
        }
        assert(s0.push(b) =~= s);
    }
}

/// Law: text whose backslashes are doubled decodes to the text itself.
pub proof fn lemma_str_decode_double_backslashes(s: Seq<u8>)
    ensures
        spec_str_decode(spec_double_backslashes(s)) == Some(s),
{
    lemma_decode_double_backslashes_state(s);
}

/// Law: adding a token keeps a dictionary free of duplicates.
pub proof fn lemma_add_token_no_duplicates(tokens: Seq<Seq<u8>>, token: Seq<u8>)
    requires
        tokens.no_duplicates(),
    ensures
        spec_add_token(tokens, token).no_duplicates(),
{
    if !tokens.contains(token) {
        let r = tokens.push(token);
        assert forall|i: int, j: int| 0 <= i < r.len() && 0 <= j < r.len() && i != j implies r[i]
            != r[j] by {
            if i == tokens.len() as int {
                assert(r[j] == tokens[j]);
            } else if j == tokens.len() as int {
                assert(r[i] == tokens[i]);
            }
        }
    }
}

/// Law: adding the same token twice is adding it once.
pub proof fn lemma_add_token_idempotent(tokens: Seq<Seq<u8>>, token: Seq<u8>)
    ensures
        spec_add_token(spec_add_token(tokens, token), token) == spec_add_token(tokens, token),
{
    if !tokens.contains(token) {
        assert(tokens.push(token)[tokens.len() as int] == token);
    }
}

/// Law: after reading lines of a tokens file, the dictionary has grown by exactly the
/// number of tokens reported as added, and it stays free of duplicates.
pub proof fn lemma_read_lines_counts(lines: Seq<Seq<char>>, tokens: Seq<Seq<u8>>, n: nat)
    requires
        tokens.no_duplicates(),
    ensures
        ({
            let (toks, entries, err) = spec_read_lines(lines, tokens, n);
            &&& toks.len() == tokens.len() + entries
            &&& toks.no_duplicates()
        }),
    decreases n,
{
    if n > 0 && n <= lines.len() {
        lemma_read_lines_counts(lines, tokens, (n - 1) as nat);
        let (toks, entries, err) = spec_read_lines(lines, tokens, (n - 1) as nat);
        if err is None {
            match spec_line_outcome(lines[n - 1]) {
                LineOutcome::Token(t) => {
                    lemma_add_token_no_duplicates(toks, t);
                },
                _ => {},
            }
        }
    }
}

/// A line that reading a tokens file passes over: empty or a comment, once trimmed.
pub open spec fn is_blank_or_comment(line: Seq<char>) -> bool {
    let t = spec_trim(line);
    t.len() == 0 || t[0] == '#'
}

/// Reading lines depends only on the lines read.
proof fn lemma_read_lines_prefix(l1: Seq<Seq<char>>, l2: Seq<Seq<char>>, tokens: Seq<Seq<u8>>, n: nat)
    requires
        n <= l1.len(),
        n <= l2.len(),
        forall|i: int| 0 <= i < n ==> l1[i] == l2[i],
    ensures
        spec_read_lines(l1, tokens, n) == spec_read_lines(l2, tokens, n),
    decreases n,
{
    if n > 0 {
        lemma_read_lines_prefix(l1, l2, tokens, (n - 1) as nat);
    }
}

/// Reading with a line that yields nothing inserted at `k` reaches, one line later, the
/// state that reading without it reaches.
proof fn lemma_read_lines_shift(
    lines: Seq<Seq<char>>,
    k: int,
    line: Seq<char>,
    tokens: Seq<Seq<u8>>,
    m: int,
)
    requires
        0 <= k <= m <= lines.len(),
        spec_line_outcome(line) is Skip,
    ensures
        spec_read_lines(lines.insert(k, line), tokens, (m + 1) as nat) == spec_read_lines(
            lines,
            tokens,
            m as nat,
        ),
    decreases m - k,
{
    let l2 = lines.insert(k, line);
    if m == k {
        lemma_read_lines_prefix(l2, lines, tokens, k as nat);
        assert(l2[k] == line);
    } else {
        lemma_read_lines_shift(lines, k, line, tokens, m - 1);
        assert(l2[m] == lines[m - 1]);
    }
}

/// Law: a blank line or a comment line, inserted anywhere among the lines of a tokens
/// file, changes nothing about reading it: neither the dictionary, nor the count of
/// tokens added, nor the error.
pub proof fn lemma_read_lines_skips_blank(
    lines: Seq<Seq<char>>,
    k: int,
    line: Seq<char>,
    tokens: Seq<Seq<u8>>,
)
    requires
        0 <= k <= lines.len(),
        is_blank_or_comment(line),
    ensures
        spec_read_lines(lines.insert(k, line), tokens, lines.len() + 1) == spec_read_lines(
            lines,
            tokens,
            lines.len(),
        ),
{
    assert(spec_line_outcome(line) is Skip);
    lemma_read_lines_shift(lines, k, line, tokens, lines.len() as int);
}

/// The lines of a tokens file that are neither blank nor comments, in their order.
pub open spec fn meaningful_lines(lines: Seq<Seq<char>>) -> Seq<Seq<char>> {
    lines.filter(|l: Seq<char>| !is_blank_or_comment(l))
}

/// Reading all the lines reaches the state that reading only the meaningful ones reaches.
proof fn lemma_read_meaningful_lines(lines: Seq<Seq<char>>, tokens: Seq<Seq<u8>>)
    ensures
        spec_read_lines(lines, tokens, lines.len()) == spec_read_lines(
            meaningful_lines(lines),
            tokens,
            meaningful_lines(lines).len(),
        ),
    decreases lines.len(),
{
    reveal(Seq::filter);
    if lines.len() > 0 {
        let rest = lines.drop_last();
        let line = lines.last();
        lemma_read_meaningful_lines(rest, tokens);
        lemma_read_lines_prefix(lines, rest, tokens, rest.len());
        let m = meaningful_lines(rest);
        if is_blank_or_comment(line) {
            assert(spec_line_outcome(line) is Skip);
            assert(meaningful_lines(lines) == m);
        } else {
            assert(meaningful_lines(lines) == m.push(line));
            lemma_read_lines_prefix(m.push(line), m, tokens, m.len());
            assert(m.push(line)[m.len() as int] == line);
        }
    }
}

/// Law: reading a tokens file depends only on its lines that are neither blank nor
/// comments. Two files whose other lines agree, in order, whatever blank or comment
/// lines either holds and wherever they stand, give the same dictionary, the same count
/// of tokens added and the same error.
pub proof fn lemma_read_lines_ignores_blank(
    l1: Seq<Seq<char>>,
    l2: Seq<Seq<char>>,
    tokens: Seq<Seq<u8>>,
)
    requires
        meaningful_lines(l1) == meaningful_lines(l2),
    ensures
        spec_read_lines(l1, tokens, l1.len()) == spec_read_lines(l2, tokens, l2.len()),
{
    lemma_read_meaningful_lines(l1, tokens);
    lemma_read_meaningful_lines(l2, tokens);
}

/// The line yields nothing, or a token that `tokens` already holds.
pub open spec fn line_fits(line: Seq<char>, tokens: Seq<Seq<u8>>) -> bool {
    match spec_line_outcome(line) {
        LineOutcome::Skip => true,
        LineOutcome::Token(t) => tokens.contains(t),
        _ => false,
    }
}

/// Adding a token keeps every token there.
proof fn lemma_add_token_keeps(tokens: Seq<Seq<u8>>, t: Seq<u8>, x: Seq<u8>)
    requires
        tokens.contains(x),
    ensures
        spec_add_token(tokens, t).contains(x),
{
    if !tokens.contains(t) {
        let i = choose|i: int| 0 <= i < tokens.len() && tokens[i] == x;
        assert(tokens.push(t)[i] == x);
    }
}

/// After reading without error, every line read fits the resulting dictionary.
proof fn lemma_read_lines_fit(lines: Seq<Seq<char>>, tokens: Seq<Seq<u8>>, n: nat)
    requires
        n <= lines.len(),
        spec_read_lines(lines, tokens, n).2 is None,
    ensures
        forall|i: int| 0 <= i < n ==> #[trigger] line_fits(lines[i], spec_read_lines(lines, tokens, n).0),
    decreases n,
{
    if n > 0 {
        let prev = spec_read_lines(lines, tokens, (n - 1) as nat);
        lemma_read_lines_fit(lines, tokens, (n - 1) as nat);
        let cur = spec_read_lines(lines, tokens, n).0;
        assert forall|i: int| 0 <= i < n implies #[trigger] line_fits(lines[i], cur) by {
            if i < n - 1 {
                assert(line_fits(lines[i], prev.0));
                match spec_line_outcome(lines[i]) {
                    LineOutcome::Token(t) => {
                        match spec_line_outcome(lines[n - 1]) {
                            LineOutcome::Token(u) => {
                                lemma_add_token_keeps(prev.0, u, t);
                            },
                            _ => {},
                        }
                    },
                    _ => {},
                }
            } else {
                match spec_line_outcome(lines[n - 1]) {
                    LineOutcome::Token(u) => {
                        if !prev.0.contains(u) {
                            assert(prev.0.push(u)[prev.0.len() as int] == u);
                        }
                    },
                    _ => {},
                }
            }
        }
    }
}

/// Reading lines that all fit a dictionary leaves it as it is and adds nothing.
proof fn lemma_read_lines_fitting(lines: Seq<Seq<char>>, tokens: Seq<Seq<u8>>, n: nat)
    requires
        n <= lines.len(),
        forall|i: int| 0 <= i < n ==> #[trigger] line_fits(lines[i], tokens),
    ensures
        spec_read_lines(lines, tokens, n) == (tokens, 0int, None::<Seq<char>>),
    decreases n,
{
    if n > 0 {
        lemma_read_lines_fitting(lines, tokens, (n - 1) as nat);
        assert(line_fits(lines[n - 1], tokens));
    }
}

/// Law: reading the same lines of a tokens file a second time, into the dictionary the
/// first reading left, adds nothing and succeeds.
pub proof fn lemma_read_lines_twice(lines: Seq<Seq<char>>, tokens: Seq<Seq<u8>>)
    requires
        spec_read_lines(lines, tokens, lines.len()).2 is None,
    ensures
        ({
            let first = spec_read_lines(lines, tokens, lines.len()).0;
            spec_read_lines(lines, first, lines.len()) == (first, 0int, None::<Seq<char>>)
        }),
{
    lemma_read_lines_fit(lines, tokens, lines.len());
    lemma_read_lines_fitting(lines, spec_read_lines(lines, tokens, lines.len()).0, lines.len());
}

/// Law: the count of tokens added never falls as more lines are read, and never exceeds
/// the number of lines read.
pub proof fn lemma_read_lines_entries(lines: Seq<Seq<char>>, tokens: Seq<Seq<u8>>, n: nat, m: nat)
    requires
        n <= m <= lines.len(),
    ensures
        0 <= spec_read_lines(lines, tokens, n).1 <= spec_read_lines(lines, tokens, m).1,
        spec_read_lines(lines, tokens, m).1 <= m,
    decreases m,
{
    if m > 0 {
        if n < m {
            lemma_read_lines_entries(lines, tokens, n, (m - 1) as nat);
        } else {
            lemma_read_lines_entries(lines, tokens, (m - 1) as nat, (m - 1) as nat);
        }
    }
}
} // verus!
