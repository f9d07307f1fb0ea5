//! The form in which output travels: bytes in base64, and texts in JSON.
use vstd::prelude::*;

use base64::engine::general_purpose::STANDARD;
use base64::Engine;

verus! {

/// The character that stands for six bits.
pub open spec fn symbol(value: int) -> char {
    if value < 26 {
        ('A' as int + value) as char
    } else if value < 52 {
        ('a' as int + value - 26) as char
    } else if value < 62 {
        ('0' as int + value - 52) as char
    } else if value == 62 {
        '+'
    } else {
        '/'
    }
}

/// Bytes in base64, with the standard alphabet and padding: four characters stand for three
/// bytes, and `=` for what is missing in the last group.
pub open spec fn base64_text(bytes: Seq<u8>) -> Seq<char>
    decreases bytes.len(),
{
    let x = bytes[0] as int;
    let y = bytes[1] as int;
    let z = bytes[2] as int;
    if bytes.len() == 0 {
        Seq::empty()
    } else if bytes.len() == 1 {
        seq![symbol(x / 4), symbol(x % 4 * 16), '=', '=']
    } else if bytes.len() == 2 {
        seq![symbol(x / 4), symbol(x % 4 * 16 + y / 16), symbol(y % 16 * 4), '=']
    } else {
        seq![
            symbol(x / 4),
            symbol(x % 4 * 16 + y / 16),
            symbol(y % 16 * 4 + z / 64),
            symbol(z % 64),
        ] + base64_text(bytes.skip(3))
    }
}

/// How many characters `count` bytes take in base64.
pub open spec fn base64_len(count: int) -> int {
    (count + 2) / 3 * 4
}

/// `Engine::encode` of `base64` with the engine `STANDARD`: the bytes in base64, with the
/// standard alphabet and padding.
#[verifier::external_body]
pub(crate) fn encode_base64(bytes: &[u8]) -> (text: String)
    requires
        base64_len(bytes@.len() as int) <= isize::MAX,
    ensures
        text@ == base64_text(bytes@),
{
    STANDARD.encode(bytes)
}

// ---- what holds of base64 ----

/// The six bits that a character stands for.
pub open spec fn symbol_value(ch: char) -> Option<int> {
    if 'A' <= ch && ch <= 'Z' {
        Some(ch as int - 'A' as int)
    } else if 'a' <= ch && ch <= 'z' {
        Some(ch as int - 'a' as int + 26)
    } else if '0' <= ch && ch <= '9' {
        Some(ch as int - '0' as int + 52)
    } else if ch == '+' {
        Some(62)
    } else if ch == '/' {
        Some(63)
    } else {
        None
    }
}

/// The bytes that a text in base64 stands for.
pub open spec fn base64_bytes(text: Seq<char>) -> Option<Seq<u8>>
    decreases text.len(),
{
    if text.len() == 0 {
        Some(Seq::empty())
    } else if text.len() < 4 {
        None
    } else {
        match (symbol_value(text[0]), symbol_value(text[1])) {
            (Some(a), Some(b)) => {
                let first = (a * 4 + b / 16) as u8;
                match (symbol_value(text[2]), symbol_value(text[3])) {
                    (Some(c), Some(d)) => match base64_bytes(text.skip(4)) {
                        Some(rest) => Some(
                            seq![
                                first,
                                (b % 16 * 16 + c / 4) as u8,
                                (c % 4 * 64 + d) as u8,
                            ] + rest,
                        ),
                        None => None,
                    },
                    (Some(c), None) => if text.len() == 4 && text[3] == '=' {
                        Some(seq![first, (b % 16 * 16 + c / 4) as u8])
                    } else {
                        None
                    },
                    (None, None) => if text.len() == 4 && text[2] == '=' && text[3] == '=' {
                        Some(seq![first])
                    } else {
                        None
                    },
                    (None, Some(_)) => None,
                }
            },
            _ => None,
        }
    }
}

proof fn lemma_symbol(value: int)
    requires
        0 <= value < 64,
    ensures
        symbol_value(symbol(value)) == Some(value),
{
}

#[verifier::spinoff_prover]
proof fn lemma_one_byte(bytes: Seq<u8>)
    requires
        bytes.len() == 1,
    ensures
        base64_bytes(base64_text(bytes)) == Some(bytes),
        base64_text(bytes).len() == 4,
{
    let x = bytes[0] as int;
    lemma_symbol(x / 4);
    lemma_symbol(x % 4 * 16);
    assert((x / 4 * 4 + x % 4 * 16 / 16) as u8 == bytes[0]);
    assert(bytes =~= seq![bytes[0]]);
}

#[verifier::spinoff_prover]
proof fn lemma_two_bytes(bytes: Seq<u8>)
    requires
        bytes.len() == 2,
    ensures
        base64_bytes(base64_text(bytes)) == Some(bytes),
        base64_text(bytes).len() == 4,
{
    let x = bytes[0] as int;
    let y = bytes[1] as int;
    let second = x % 4 * 16 + y / 16;
    lemma_symbol(x / 4);
    lemma_symbol(second);
    lemma_symbol(y % 16 * 4);
    assert((x / 4 * 4 + second / 16) as u8 == bytes[0]);
    assert((second % 16 * 16 + y % 16 * 4 / 4) as u8 == bytes[1]);
    assert(bytes =~= seq![bytes[0], bytes[1]]);
}

#[verifier::spinoff_prover]
proof fn lemma_three_bytes(bytes: Seq<u8>)
    requires
        bytes.len() >= 3,
        base64_bytes(base64_text(bytes.skip(3))) == Some(bytes.skip(3)),
    ensures
        base64_bytes(base64_text(bytes)) == Some(bytes),
        base64_text(bytes).len() == 4 + base64_text(bytes.skip(3)).len(),
{
    let x = bytes[0] as int;
    let y = bytes[1] as int;
    let z = bytes[2] as int;
    let second = x % 4 * 16 + y / 16;
    let third = y % 16 * 4 + z / 64;
    lemma_symbol(x / 4);
    lemma_symbol(second);
    lemma_symbol(third);
    lemma_symbol(z % 64);
    assert((x / 4 * 4 + second / 16) as u8 == bytes[0]);
    assert((second % 16 * 16 + third / 4) as u8 == bytes[1]);
    assert((third % 4 * 64 + z % 64) as u8 == bytes[2]);
    assert(base64_text(bytes).skip(4) =~= base64_text(bytes.skip(3)));
    assert(bytes =~= seq![bytes[0], bytes[1], bytes[2]] + bytes.skip(3));
}

/// Decoding gives back the bytes that were encoded, so that output arrives byte for byte;
/// and the length of the text is known from that of the bytes.
pub proof fn lemma_base64_reads_back(bytes: Seq<u8>)
    ensures
        base64_bytes(base64_text(bytes)) == Some(bytes),
        base64_text(bytes).len() == base64_len(bytes.len() as int),
    decreases bytes.len(),
{
    if bytes.len() == 0 {
        assert(bytes =~= Seq::empty());
    } else if bytes.len() == 1 {
        lemma_one_byte(bytes);
    } else if bytes.len() == 2 {
        lemma_two_bytes(bytes);
    } else {
        lemma_base64_reads_back(bytes.skip(3));
        lemma_three_bytes(bytes);
    }
}

// ---- texts in JSON ----

/// The lower-case digit for a value below 16.
pub open spec fn hex_digit(value: int) -> char {
    if value < 10 {
        ('0' as int + value) as char
    } else {
        ('a' as int + value - 10) as char
    }
}

/// A control character, which a JSON string does not hold as it is.
pub open spec fn is_control(ch: char) -> bool {
    0x20 > ch as int
}

/// A character as a JSON string holds it.
pub open spec fn json_char(ch: char) -> Seq<char> {
    if ch == '"' || ch == '\\' {
        seq!['\\', ch]
    } else if ch == '\n' {
        seq!['\\', 'n']
    } else if ch == '\r' {
        seq!['\\', 'r']
    } else if ch == '\t' {
        seq!['\\', 't']
    } else if ch == '\u{8}' {
        seq!['\\', 'b']
    } else if ch == '\u{c}' {
        seq!['\\', 'f']
    } else if is_control(ch) {
        seq!['\\', 'u', '0', '0', hex_digit(ch as int / 16), hex_digit(ch as int % 16)]
    } else {
        seq![ch]
    }
}

/// The characters of a text as a JSON string holds them.
pub open spec fn json_contents(text: Seq<char>) -> Seq<char>
    decreases text.len(),
{
    if text.len() == 0 {
        Seq::empty()
    } else {
        json_char(text[0]) + json_contents(text.skip(1))
    }
}

/// A text as a JSON string.
pub open spec fn json_string(text: Seq<char>) -> Seq<char> {
    seq!['"'] + json_contents(text) + seq!['"']
}

/// `serde_json::to_string` on a text: the text in double quotes, with quotes, backslashes and
/// control characters escaped. It does not fail on a text.
#[verifier::external_body]
pub(crate) fn encode_json_string(text: &str) -> (json: String)
    ensures
        json@ == json_string(text@),
{
    serde_json::to_string(text).expect("every text can be written in JSON")
}

/// The value of a hexadecimal digit.
pub open spec fn hex_value(ch: char) -> Option<int> {
    if '0' <= ch && ch <= '9' {
        Some(ch as int - '0' as int)
    } else if 'a' <= ch && ch <= 'f' {
        Some(ch as int - 'a' as int + 10)
    } else if 'A' <= ch && ch <= 'F' {
        Some(ch as int - 'A' as int + 10)
    } else {
        None
    }
}

/// The character that the four hexadecimal digits of an escape stand for, where they stand
/// for one.
pub open spec fn hex_char(a: char, b: char, c: char, d: char) -> Option<char> {
    match (hex_value(a), hex_value(b), hex_value(c), hex_value(d)) {
        (Some(a), Some(b), Some(c), Some(d)) => {
            let code = a * 4096 + b * 256 + c * 16 + d;
            if code < 0xd800 || code > 0xdfff {
                Some(code as char)
            } else {
                None
            }
        },
        _ => None,
    }
}

/// The character that a backslash and `ch` stand for.
pub open spec fn escaped_char(ch: char) -> Option<char> {
    if ch == '"' || ch == '\\' || ch == '/' {
        Some(ch)
    } else if ch == 'n' {
        Some('\n')
    } else if ch == 'r' {
        Some('\r')
    } else if ch == 't' {
        Some('\t')
    } else if ch == 'b' {
        Some('\u{8}')
    } else if ch == 'f' {
        Some('\u{c}')
    } else {
        None
    }
}

/// The text that stands between the quotes of a JSON string, where it is written in escapes
/// of one character each.
pub open spec fn json_text(contents: Seq<char>) -> Option<Seq<char>>
    decreases contents.len(),
{
    if contents.len() == 0 {
        Some(Seq::empty())
    } else {
        let ch = contents[0];
        if ch == '\\' {
            if contents.len() < 2 {
                None
            } else if contents[1] == 'u' {
                if contents.len() < 6 {
                    None
                } else {
                    match (
                        hex_char(contents[2], contents[3], contents[4], contents[5]),
                        json_text(contents.skip(6)),
                    ) {
                        (Some(first), Some(rest)) => Some(seq![first] + rest),
                        _ => None,
                    }
                }
            } else {
                match (escaped_char(contents[1]), json_text(contents.skip(2))) {
                    (Some(first), Some(rest)) => Some(seq![first] + rest),
                    _ => None,
                }
            }
        } else if ch == '"' || is_control(ch) {
            None
        } else {
            match json_text(contents.skip(1)) {
                Some(rest) => Some(seq![ch] + rest),
                None => None,
            }
        }
    }
}

/// A text is read back from its JSON string, which stands on one line and ends at its
/// closing quote.
pub proof fn lemma_json_reads_back(text: Seq<char>)
    ensures
        json_text(json_contents(text)) == Some(text),
        !json_contents(text).contains('\n'),
    decreases text.len(),
{
    if text.len() == 0 {
        assert(text =~= Seq::empty());
    } else {
        let first = text[0];
        let rest = text.skip(1);
        let head = json_char(first);
        let all = json_contents(text);
        lemma_json_reads_back(rest);
        crate::text::lemma_char_range(first);
        assert(all.skip(head.len() as int) =~= json_contents(rest));
        assert(seq![first] + rest =~= text);
        assert forall|i: int| 0 <= i < head.len() implies head[i] != '\n' by {}
        assert(!all.contains('\n')) by {
            if all.contains('\n') {
                let at = all.index_of('\n');
                if at >= head.len() {
                    assert(json_contents(rest)[at - head.len()] == '\n');
                } else {
                    assert(head[at] == '\n');
                }
            }
        }
        assert forall|i: int| 0 <= i < head.len() implies all[i] == head[i] by {}
        if head.len() == 6 {
            let code = first as int;
            assert(hex_value(hex_digit(code / 16)) == Some(code / 16));
            assert(hex_value(hex_digit(code % 16)) == Some(code % 16));
            assert(hex_char('0', '0', hex_digit(code / 16), hex_digit(code % 16)) == Some(first));
        }
    }
}

} // verus!
