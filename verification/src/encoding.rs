//! Building blocks of the line-oriented record encoding: decimal numbers and
//! quoted, escaped strings, as JSON writes them.

use crate::digest::append_bytes;
use vstd::prelude::*;
use vstd::string::StringSliceAdditionalSpecFns;
use vstd::utf8::{
    decode_utf8, decode_utf8_encode_utf8, encode_utf8, encode_utf8_valid_utf8,
    is_ascii_chars, is_ascii_chars_encode_utf8, valid_utf8,
};

verus! {

/// The double quote that opens and closes a string.
pub const QUOTE: u8 = 0x22;

/// The backslash that begins an escape.
pub const BACKSLASH: u8 = 0x5c;

/// The comma between members and between items.
pub const COMMA: u8 = 0x2c;

/// The sign of a negative number.
pub const MINUS: u8 = 0x2d;

/// The brace that opens an object.
pub const OPEN_BRACE: u8 = 0x7b;

/// The brace that closes an object.
pub const CLOSE_BRACE: u8 = 0x7d;

/// The bracket that opens an array.
pub const OPEN_BRACKET: u8 = 0x5b;

/// The bracket that closes an array.
pub const CLOSE_BRACKET: u8 = 0x5d;

/// The newline that ends a record's line.
pub const NEWLINE: u8 = 0x0a;

/// The colon between a member's name and its value.
pub const COLON: u8 = 0x3a;

#[verifier::external_type_specification]
#[verifier::external_body]
pub struct ExFromUtf8Error(std::string::FromUtf8Error);

/// Calls `String::from_utf8`. Trusted: the call succeeds exactly on valid
/// UTF-8, and the string then holds the characters that the bytes encode.
#[verifier::external_body]
pub(crate) fn string_from_utf8(bytes: Vec<u8>) -> (res: Result<String, std::string::FromUtf8Error>)
    ensures
        match res {
            Ok(s) => valid_utf8(bytes@) && s@ == decode_utf8(bytes@),
            Err(_) => !valid_utf8(bytes@),
        },
{
    String::from_utf8(bytes)
}

/// Bytes below 0x80 are valid UTF-8 and encode themselves.
pub proof fn lemma_ascii_is_utf8(bytes: Seq<u8>)
    requires
        forall|i: int| 0 <= i < bytes.len() ==> bytes[i] < 0x80,
    ensures
        valid_utf8(bytes),
        encode_utf8(decode_utf8(bytes)) == bytes,
{
    let chars = Seq::new(bytes.len(), |i: int| bytes[i] as char);
    is_ascii_chars_encode_utf8(chars);
    assert(encode_utf8(chars) =~= bytes);
    encode_utf8_valid_utf8(chars);
    decode_utf8_encode_utf8(bytes);
}

/// A decimal number consists of digits only.
pub proof fn lemma_decimal_digits(n: nat)
    ensures
        decimal(n).len() >= 1,
        forall|i: int| 0 <= i < decimal(n).len() ==> is_digit(#[trigger] decimal(n)[i]),
    decreases n,
{
    if n >= 10 {
        lemma_decimal_digits(n / 10);
    }
}

/// The bytes of a piece of fixed text.
pub open spec fn text(s: &str) -> Seq<u8> {
    s.spec_bytes()
}

/// The ASCII digit for `d`, which is below ten.
pub open spec fn digit(d: nat) -> u8 {
    (0x30 + d) as u8
}

/// Whether `b` is an ASCII digit.
pub open spec fn is_digit(b: u8) -> bool {
    0x30 <= b <= 0x39
}

/// `n` in decimal, without sign or leading zeros.
pub open spec fn decimal(n: nat) -> Seq<u8>
    decreases n,
{
    if n < 10 {
        seq![digit(n)]
    } else {
        decimal(n / 10).push(digit(n % 10))
    }
}

/// `i` in decimal, with a minus sign where it is negative.
pub open spec fn signed_decimal(i: int) -> Seq<u8> {
    if i < 0 {
        seq![MINUS] + decimal((-i) as nat)
    } else {
        decimal(i as nat)
    }
}

/// The lower-case hexadecimal digit for `d`, which is below sixteen.
pub open spec fn hex_digit(d: nat) -> u8 {
    if d < 10 {
        (0x30 + d) as u8
    } else {
        (0x61 + d - 10) as u8
    }
}

/// How one byte of a string stands between the quotes: the quote and the
/// backslash behind a backslash, control bytes as their short or `\u00xx`
/// escapes, every other byte as itself.
pub open spec fn escape_byte(b: u8) -> Seq<u8> {
    if b == QUOTE {
        seq![BACKSLASH, QUOTE]
    } else if b == BACKSLASH {
        seq![BACKSLASH, BACKSLASH]
    } else if b == 0x08 {
        seq![BACKSLASH, 0x62u8]
    } else if b == 0x09 {
        seq![BACKSLASH, 0x74u8]
    } else if b == 0x0a {
        seq![BACKSLASH, 0x6eu8]
    } else if b == 0x0c {
        seq![BACKSLASH, 0x66u8]
    } else if b == 0x0d {
        seq![BACKSLASH, 0x72u8]
    } else if b < 0x20 {
        seq![
            BACKSLASH,
            0x75u8,
            0x30u8,
            0x30u8,
            hex_digit((b / 16) as nat),
            hex_digit((b % 16) as nat),
        ]
    } else {
        seq![b]
    }
}

/// The bytes of a string with each byte escaped.
pub open spec fn escape(bytes: Seq<u8>) -> Seq<u8>
    decreases bytes.len(),
{
    if bytes.len() == 0 {
        Seq::empty()
    } else {
        escape(bytes.drop_last()) + escape_byte(bytes.last())
    }
}

/// A string between quotes, escaped.
pub open spec fn quoted(bytes: Seq<u8>) -> Seq<u8> {
    seq![QUOTE] + escape(bytes) + seq![QUOTE]
}

/// The name of an object member: the name between quotes, then a colon.
pub open spec fn key(name: &str) -> Seq<u8> {
    seq![QUOTE] + text(name) + seq![QUOTE, COLON]
}

/// An object member: its name, then its encoded value.
pub open spec fn member(name: &str, value: Seq<u8>) -> Seq<u8> {
    key(name) + value
}

/// The items one after another, with a comma between neighbours.
pub open spec fn joined(items: Seq<Seq<u8>>) -> Seq<u8>
    decreases items.len(),
{
    if items.len() == 0 {
        Seq::empty()
    } else if items.len() == 1 {
        items[0]
    } else {
        items[0] + (seq![COMMA] + joined(items.drop_first()))
    }
}

/// An object: its members between braces, separated by commas.
pub open spec fn object(members: Seq<Seq<u8>>) -> Seq<u8> {
    seq![OPEN_BRACE] + (joined(members) + seq![CLOSE_BRACE])
}

/// An array: its items between brackets, separated by commas.
pub open spec fn array(items: Seq<Seq<u8>>) -> Seq<u8> {
    seq![OPEN_BRACKET] + (joined(items) + seq![CLOSE_BRACKET])
}

/// What one more item adds to a joined list: a comma, unless it is the first,
/// and the item.
pub open spec fn next_item(first: bool, item: Seq<u8>) -> Seq<u8> {
    if first {
        item
    } else {
        seq![COMMA] + item
    }
}

/// Joining one more item appends it behind a comma, or alone if it is the
/// first.
pub proof fn lemma_joined_push(items: Seq<Seq<u8>>, item: Seq<u8>)
    ensures
        joined(items.push(item)) == joined(items) + next_item(items.len() == 0, item),
    decreases items.len(),
{
    let all = items.push(item);
    if items.len() == 1 {
        assert(joined(all.drop_first()) == item);
    } else if items.len() > 1 {
        let rest = items.drop_first();
        assert(all.drop_first() =~= rest.push(item));
        lemma_joined_push(rest, item);
    }
}

/// The first `k + 1` items joined are the first `k` joined and then item `k`.
pub proof fn lemma_joined_take(items: Seq<Seq<u8>>, k: int)
    requires
        0 <= k < items.len(),
    ensures
        joined(items.take(k + 1)) == joined(items.take(k)) + next_item(k == 0, items[k]),
{
    assert(items.take(k + 1) =~= items.take(k).push(items[k]));
    lemma_joined_push(items.take(k), items[k]);
}

/// Whether `bytes` hold no newline.
pub open spec fn newline_free(bytes: Seq<u8>) -> bool {
    forall|i: int| 0 <= i < bytes.len() ==> bytes[i] != NEWLINE
}

/// A decimal number holds no newline, with or without a sign.
pub proof fn lemma_decimal_newline_free(i: int)
    ensures
        i >= 0 ==> newline_free(decimal(i as nat)),
        newline_free(signed_decimal(i)),
{
    if i >= 0 {
        lemma_decimal_digits(i as nat);
    } else {
        lemma_decimal_digits((-i) as nat);
    }
}

/// A quoted string holds no newline: the escapes leave no control byte bare.
pub proof fn lemma_quoted_newline_free(bytes: Seq<u8>)
    ensures
        newline_free(escape(bytes)),
        newline_free(quoted(bytes)),
    decreases bytes.len(),
{
    if bytes.len() > 0 {
        lemma_quoted_newline_free(bytes.drop_last());
    }
}

/// A member's name holds no newline if the name's text holds none.
pub proof fn lemma_member_newline_free(name: &str, value: Seq<u8>)
    requires
        newline_free(text(name)),
        newline_free(value),
    ensures
        newline_free(member(name, value)),
{
}

/// Items without a newline stay without one when joined, and when made an
/// object or an array.
pub proof fn lemma_joined_newline_free(items: Seq<Seq<u8>>)
    requires
        forall|i: int| 0 <= i < items.len() ==> newline_free(#[trigger] items[i]),
    ensures
        newline_free(joined(items)),
        newline_free(object(items)),
        newline_free(array(items)),
    decreases items.len(),
{
    if items.len() >= 2 {
        let rest = items.drop_first();
        assert forall|i: int| 0 <= i < rest.len() implies newline_free(#[trigger] rest[i]) by {
        }
        lemma_joined_newline_free(rest);
    }
}

/// Text of ASCII characters other than the newline holds no newline byte.
pub proof fn lemma_text_newline_free(s: &str)
    requires
        is_ascii_chars(s@),
        forall|i: int| 0 <= i < s@.len() ==> s@[i] != '\n',
    ensures
        newline_free(text(s)),
{
    is_ascii_chars_encode_utf8(s@);
    assert forall|i: int| 0 <= i < text(s).len() implies text(s)[i] != NEWLINE by {
    }
}

/// Appends fixed text.
pub fn push_text(out: &mut Vec<u8>, s: &str)
    ensures
        final(out)@ == old(out)@ + text(s),
{
    append_bytes(out, s.as_bytes());
}

/// Appends `n` in decimal.
pub fn push_decimal(out: &mut Vec<u8>, n: u64)
    ensures
        final(out)@ == old(out)@ + decimal(n as nat),
    decreases n,
{
    if n >= 10 {
        push_decimal(out, n / 10);
    }
    let d: u8 = (n % 10) as u8;
    out.push(0x30u8 + d);
}

/// Appends `i` in decimal, with its sign.
pub fn push_signed_decimal(out: &mut Vec<u8>, i: i64)
    ensures
        final(out)@ == old(out)@ + signed_decimal(i as int),
{
    if i < 0 {
        out.push(MINUS);
        let magnitude: u64 = ((-(i + 1)) as u64) + 1;
        push_decimal(out, magnitude);
    } else {
        push_decimal(out, i as u64);
    }
}

/// The lower-case hexadecimal digit for `d`.
fn hex_digit_of(d: u8) -> (h: u8)
    requires
        d < 16,
    ensures
        h == hex_digit(d as nat),
{
    if d < 10 {
        0x30u8 + d
    } else {
        0x61u8 + (d - 10)
    }
}

/// Appends one byte of a string, escaped.
pub fn push_escaped_byte(out: &mut Vec<u8>, b: u8)
    ensures
        final(out)@ == old(out)@ + escape_byte(b),
{
    if b == QUOTE {
        out.push(BACKSLASH);
        out.push(QUOTE);
    } else if b == BACKSLASH {
        out.push(BACKSLASH);
        out.push(BACKSLASH);
    } else if b == 0x08 {
        out.push(BACKSLASH);
        out.push(0x62u8);
    } else if b == 0x09 {
        out.push(BACKSLASH);
        out.push(0x74u8);
    } else if b == 0x0a {
        out.push(BACKSLASH);
        out.push(0x6eu8);
    } else if b == 0x0c {
        out.push(BACKSLASH);
        out.push(0x66u8);
    } else if b == 0x0d {
        out.push(BACKSLASH);
        out.push(0x72u8);
    } else if b < 0x20 {
        out.push(BACKSLASH);
        out.push(0x75u8);
        out.push(0x30u8);
        out.push(0x30u8);
        out.push(hex_digit_of(b / 16));
        out.push(hex_digit_of(b % 16));
    } else {
        out.push(b);
    }
}

/// Appends a string between quotes, escaped.
pub fn push_quoted(out: &mut Vec<u8>, bytes: &[u8])
    ensures
        final(out)@ == old(out)@ + quoted(bytes@),
{
    out.push(QUOTE);
    let mut i: usize = 0;
    while i < bytes.len()
        invariant
            i <= bytes@.len(),
            out@ == old(out)@ + seq![QUOTE] + escape(bytes@.take(i as int)),
        decreases bytes@.len() - i,
    {
        push_escaped_byte(out, bytes[i]);
        i = i + 1;
        proof {
            let upto = bytes@.take(i as int);
            assert(upto.drop_last() == bytes@.take(i - 1));
        }
    }
    assert(bytes@.take(bytes@.len() as int) == bytes@);
    out.push(QUOTE);
}

/// Appends one more member of an object that is being written: a comma
/// unless the member is the first, then its name and its value.
pub fn push_member(out: &mut Vec<u8>, first: bool, name: &str, value: &[u8])
    ensures
        final(out)@ == old(out)@ + next_item(first, member(name, value@)),
{
    if !first {
        out.push(COMMA);
    }
    out.push(QUOTE);
    push_text(out, name);
    out.push(QUOTE);
    out.push(COLON);
    append_bytes(out, value);
}

/// Appends one more item of an array that is being written.
pub fn push_item(out: &mut Vec<u8>, first: bool, item: &[u8])
    ensures
        final(out)@ == old(out)@ + next_item(first, item@),
{
    if !first {
        out.push(COMMA);
    }
    append_bytes(out, item);
}

/// A number in decimal.
pub fn decimal_bytes(n: u64) -> (out: Vec<u8>)
    ensures
        out@ == decimal(n as nat),
{
    let mut out: Vec<u8> = Vec::new();
    push_decimal(&mut out, n);
    out
}

/// A signed number in decimal.
pub fn signed_decimal_bytes(i: i64) -> (out: Vec<u8>)
    ensures
        out@ == signed_decimal(i as int),
{
    let mut out: Vec<u8> = Vec::new();
    push_signed_decimal(&mut out, i);
    out
}

/// A string between quotes, escaped.
pub fn quoted_bytes(s: &str) -> (out: Vec<u8>)
    ensures
        out@ == quoted(text(s)),
{
    let mut out: Vec<u8> = Vec::new();
    push_quoted(&mut out, s.as_bytes());
    out
}

} // verus!
