//! Reading back what the record encoding writes: the readers accept at least
//! every canonical encoding and recover the value that was written.

use crate::encoding::{
    decimal, digit, escape, escape_byte, hex_digit, is_digit, joined, key, lemma_decimal_digits,
    array, member, object, quoted, signed_decimal, string_from_utf8, text, BACKSLASH,
    CLOSE_BRACE, CLOSE_BRACKET, COLON, COMMA, MINUS, OPEN_BRACE, OPEN_BRACKET, QUOTE,
};
use vstd::prelude::*;
use vstd::utf8::{encode_utf8, encode_utf8_decode_utf8, encode_utf8_valid_utf8};

verus! {

/// Whether what is left of `input` from `pos` on is `part` followed by
/// `rest`.
pub open spec fn stands_at(input: Seq<u8>, pos: int, part: Seq<u8>, rest: Seq<u8>) -> bool {
    0 <= pos <= input.len() && input.skip(pos) == part + rest
}

/// Where a part stands, its bytes can be read off, and behind it stands the
/// rest.
pub proof fn lemma_stands_at(input: Seq<u8>, pos: int, part: Seq<u8>, rest: Seq<u8>)
    requires
        stands_at(input, pos, part, rest),
    ensures
        pos + part.len() + rest.len() == input.len(),
        forall|i: int| 0 <= i < part.len() ==> input[pos + i] == #[trigger] part[i],
        forall|i: int| 0 <= i < rest.len() ==> input[pos + part.len() + i] == #[trigger] rest[i],
        part.len() > 0 ==> input[pos] == part[0],
        rest.len() > 0 ==> input[pos + part.len()] == rest[0],
        input.skip(pos + part.len()) == rest,
{
    let left = input.skip(pos);
    assert(left.len() == part.len() + rest.len());
    assert forall|i: int| 0 <= i < part.len() implies input[pos + i] == #[trigger] part[i] by {
        assert(left[i] == part[i]);
    }
    assert forall|i: int| 0 <= i < rest.len() implies input[pos + part.len() + i]
        == #[trigger] rest[i] by {
        assert(left[part.len() + i] == rest[i]);
    }
}

/// Concatenation may be regrouped.
pub proof fn lemma_regroup(a: Seq<u8>, b: Seq<u8>, c: Seq<u8>)
    ensures
        (a + b) + c == a + (b + c),
{
}

/// What follows item `k` of a joined list that is followed by `suffix`: a
/// comma and the later items, or the suffix at once.
pub open spec fn after_item(items: Seq<Seq<u8>>, k: int, suffix: Seq<u8>) -> Seq<u8> {
    if k + 1 < items.len() {
        seq![COMMA] + (joined(items.skip(k + 1)) + suffix)
    } else {
        suffix
    }
}

/// The items from `k` on, joined and followed by `suffix`, begin with item
/// `k`.
pub proof fn lemma_joined_front(items: Seq<Seq<u8>>, k: int, suffix: Seq<u8>)
    requires
        0 <= k < items.len(),
    ensures
        joined(items.skip(k)) + suffix == items[k] + after_item(items, k, suffix),
{
    let from = items.skip(k);
    if from.len() != 1 {
        assert(from.drop_first() =~= items.skip(k + 1));
    }
}

/// The value of a run of decimal digits.
pub open spec fn digits_value(digits: Seq<u8>) -> nat
    decreases digits.len(),
{
    if digits.len() == 0 {
        0
    } else {
        digits_value(digits.drop_last()) * 10 + (digits.last() - 0x30) as nat
    }
}

/// A number's decimal digits have the number as their value.
pub proof fn lemma_decimal_value(n: nat)
    ensures
        digits_value(decimal(n)) == n,
    decreases n,
{
    if n < 10 {
        assert(digits_value(decimal(n).drop_last()) == 0);
    } else {
        lemma_decimal_value(n / 10);
        assert(decimal(n).drop_last() =~= decimal(n / 10));
    }
}

/// The first digits of a run are worth no more than the whole run.
pub proof fn lemma_digits_prefix(digits: Seq<u8>, i: int)
    requires
        0 <= i <= digits.len(),
        forall|j: int| 0 <= j < digits.len() ==> is_digit(digits[j]),
    ensures
        digits_value(digits.take(i)) <= digits_value(digits),
    decreases digits.len() - i,
{
    if i == digits.len() {
        assert(digits.take(i) =~= digits);
    } else {
        lemma_digits_prefix(digits, i + 1);
        assert(digits.take(i + 1).drop_last() =~= digits.take(i));
    }
}

/// Steps over the byte `b` if it stands at `pos`.
pub fn expect_byte(input: &[u8], pos: usize, b: u8) -> (end: Option<usize>)
    ensures
        end == if pos < input@.len() && input@[pos as int] == b {
            Some((pos + 1) as usize)
        } else {
            None
        },
        end matches Some(e) ==> e == pos + 1 && e <= input@.len(),
{
    if pos < input.len() && input[pos] == b {
        Some(pos + 1)
    } else {
        None
    }
}

/// Whether `part` stands in `input` at `pos`.
pub open spec fn has_at(input: Seq<u8>, pos: int, part: Seq<u8>) -> bool {
    0 <= pos && pos + part.len() <= input.len() && input.subrange(pos, pos + part.len()) == part
}

/// Steps over `part` if it stands at `pos`.
pub fn expect_bytes(input: &[u8], pos: usize, part: &[u8]) -> (end: Option<usize>)
    ensures
        end == if has_at(input@, pos as int, part@) {
            Some((pos + part@.len()) as usize)
        } else {
            None
        },
        end matches Some(e) ==> e == pos + part@.len() && e <= input@.len(),
{
    let len = input.len();
    if pos > len || part.len() > len - pos {
        return None;
    }
    let mut i: usize = 0;
    while i < part.len()
        invariant
            i <= part@.len(),
            len == input@.len(),
            pos + part@.len() <= input@.len(),
            forall|j: int| 0 <= j < i ==> input@[pos + j] == part@[j],
        decreases part@.len() - i,
    {
        if input[pos + i] != part[i] {
            return None;
        }
        i = i + 1;
    }
    assert(input@.subrange(pos as int, pos + part@.len()) =~= part@);
    Some(pos + part.len())
}

/// Steps over the member name `name`, with its quotes and colon, if it stands
/// at `pos`.
pub fn expect_key(input: &[u8], pos: usize, name: &str) -> (end: Option<usize>)
    ensures
        end == if has_at(input@, pos as int, key(name)) {
            Some((pos + key(name).len()) as usize)
        } else {
            None
        },
        end matches Some(e) ==> e == pos + key(name).len() && e <= input@.len(),
{
    let mut full: Vec<u8> = Vec::new();
    full.push(QUOTE);
    crate::encoding::push_text(&mut full, name);
    full.push(QUOTE);
    full.push(COLON);
    assert(full@ =~= key(name));
    expect_bytes(input, pos, full.as_slice())
}

/// Where `part` stands followed by `rest`, it stands.
pub proof fn lemma_stands_has(input: Seq<u8>, pos: int, part: Seq<u8>, rest: Seq<u8>)
    requires
        stands_at(input, pos, part, rest),
    ensures
        has_at(input, pos, part),
{
    lemma_stands_at(input, pos, part, rest);
    assert(input.subrange(pos, pos + part.len()) =~= part);
}

/// Reads a decimal number at `pos`. Where the decimal digits of a number
/// that fits 64 bits stand there, followed by something that is no digit, the
/// result is that number and the position behind it.
#[verifier::loop_isolation(false)]
pub(crate) fn read_decimal(
    input: &[u8],
    pos: usize,
    Ghost(n): Ghost<nat>,
    Ghost(rest): Ghost<Seq<u8>>,
) -> (r: Option<(u64, usize)>)
    ensures
        r matches Some((_, end)) ==> pos < end <= input@.len(),
        stands_at(input@, pos as int, decimal(n), rest) && n <= u64::MAX && (rest.len() > 0
            ==> !is_digit(rest[0])) ==> (r matches Some((value, end)) && value == n
            && input@.skip(end as int) == rest),
{
    let len = input.len();
    if pos >= len {
        return None;
    }
    let ghost digits = decimal(n);
    let ghost hyp = stands_at(input@, pos as int, digits, rest) && n <= u64::MAX && (rest.len() > 0
        ==> !is_digit(rest[0]));
    proof {
        lemma_decimal_digits(n);
        lemma_decimal_value(n);
        if hyp {
            lemma_stands_at(input@, pos as int, digits, rest);
        }
    }
    let mut i: usize = pos;
    let mut value: u64 = 0;
    while i < len && input[i] >= 0x30 && input[i] <= 0x39
        invariant
            pos <= i <= len,
            hyp ==> i - pos <= digits.len() && value == digits_value(digits.take(i - pos)),
        decreases len - i,
    {
        let d: u64 = (input[i] - 0x30) as u64;
        proof {
            if hyp {
                assert(digits.take(i - pos + 1).drop_last() =~= digits.take(i - pos));
                lemma_digits_prefix(digits, i - pos + 1);
            }
        }
        if value > (u64::MAX - d) / 10 {
            return None;
        }
        value = value * 10 + d;
        i = i + 1;
    }
    if i == pos {
        return None;
    }
    proof {
        if hyp {
            assert(digits.take(digits.len() as int) =~= digits);
        }
    }
    Some((value, i))
}

/// Reads a signed decimal number at `pos`. Where the decimal form of a number
/// that fits 64 bits with sign stands there, followed by something that is no
/// digit, the result is that number and the position behind it.
pub(crate) fn read_signed_decimal(
    input: &[u8],
    pos: usize,
    Ghost(i): Ghost<int>,
    Ghost(rest): Ghost<Seq<u8>>,
) -> (r: Option<(i64, usize)>)
    ensures
        r matches Some((_, end)) ==> pos < end <= input@.len(),
        stands_at(input@, pos as int, signed_decimal(i), rest) && i64::MIN <= i <= i64::MAX && (
        rest.len() > 0 ==> !is_digit(rest[0])) ==> (r matches Some((value, end)) && value == i
            && input@.skip(end as int) == rest),
{
    let ghost hyp = stands_at(input@, pos as int, signed_decimal(i), rest) && i64::MIN <= i
        <= i64::MAX && (rest.len() > 0 ==> !is_digit(rest[0]));
    proof {
        if hyp {
            lemma_stands_at(input@, pos as int, signed_decimal(i), rest);
            if i < 0 {
                lemma_regroup(seq![MINUS], decimal((-i) as nat), rest);
                lemma_stands_at(input@, pos as int, seq![MINUS], decimal((-i) as nat) + rest);
            } else {
                lemma_decimal_digits(i as nat);
            }
        }
    }
    if pos < input.len() && input[pos] == MINUS {
        match read_decimal(input, pos + 1, Ghost((-i) as nat), Ghost(rest)) {
            None => None,
            Some((magnitude, end)) => {
                if magnitude > 0x8000_0000_0000_0000u64 {
                    None
                } else if magnitude == 0x8000_0000_0000_0000u64 {
                    Some((i64::MIN, end))
                } else {
                    Some((-(magnitude as i64), end))
                }
            },
        }
    } else {
        match read_decimal(input, pos, Ghost(i as nat), Ghost(rest)) {
            None => None,
            Some((magnitude, end)) => {
                if magnitude > 0x7fff_ffff_ffff_ffffu64 {
                    None
                } else {
                    Some((magnitude as i64, end))
                }
            },
        }
    }
}

/// The bytes of a string escaped are the first byte escaped and then the
/// others escaped.
pub proof fn lemma_escape_concat(a: Seq<u8>, b: Seq<u8>)
    ensures
        escape(a + b) == escape(a) + escape(b),
    decreases b.len(),
{
    if b.len() > 0 {
        assert((a + b).drop_last() =~= a + b.drop_last());
        lemma_escape_concat(a, b.drop_last());
    }
}

/// The escaped bytes from `k` on begin with byte `k` escaped.
pub proof fn lemma_escape_front(bytes: Seq<u8>, k: int)
    requires
        0 <= k < bytes.len(),
    ensures
        escape(bytes.skip(k)) == escape_byte(bytes[k]) + escape(bytes.skip(k + 1)),
{
    let one = seq![bytes[k]];
    assert(bytes.skip(k) =~= one + bytes.skip(k + 1));
    lemma_escape_concat(one, bytes.skip(k + 1));
    assert(escape(one.drop_last()) =~= Seq::<u8>::empty());
}

/// The value of a lower-case hexadecimal digit.
fn hex_value(h: u8) -> (v: Option<u8>)
    ensures
        v matches Some(d) ==> d < 16,
        forall|d: nat| d < 16 && h == hex_digit(d) ==> v == Some(d as u8),
{
    if h >= 0x30 && h <= 0x39 {
        Some(h - 0x30)
    } else if h >= 0x61 && h <= 0x66 {
        Some(h - 0x61 + 10)
    } else {
        None
    }
}

/// Reads a quoted string at `pos`. Where a string stands there between
/// quotes, escaped, the result is the string's bytes and the position behind
/// the closing quote.
#[verifier::loop_isolation(false)]
pub(crate) fn read_quoted(
    input: &[u8],
    pos: usize,
    Ghost(bytes): Ghost<Seq<u8>>,
    Ghost(rest): Ghost<Seq<u8>>,
) -> (r: Option<(Vec<u8>, usize)>)
    ensures
        r matches Some((_, end)) ==> pos < end <= input@.len(),
        stands_at(input@, pos as int, quoted(bytes), rest) ==> (r matches Some((read, end))
            && read@ == bytes && input@.skip(end as int) == rest),
{
    let len = input.len();
    let ghost hyp = stands_at(input@, pos as int, quoted(bytes), rest);
    let ghost tail = seq![QUOTE] + rest;
    proof {
        if hyp {
            lemma_regroup(seq![QUOTE] + escape(bytes), seq![QUOTE], rest);
            lemma_regroup(seq![QUOTE], escape(bytes), tail);
            lemma_stands_at(input@, pos as int, seq![QUOTE], escape(bytes) + tail);
            assert(bytes.skip(0) =~= bytes);
        }
    }
    if pos >= len || input[pos] != QUOTE {
        return None;
    }
    let mut out: Vec<u8> = Vec::new();
    let mut i: usize = pos + 1;
    while i < len
        invariant
            pos < i <= len,
            hyp ==> out@.len() <= bytes.len() && out@ == bytes.take(out@.len() as int) && stands_at(
                input@,
                i as int,
                escape(bytes.skip(out@.len() as int)),
                tail,
            ),
        decreases len - i,
    {
        let ghost k = out@.len() as int;
        let ghost b = bytes[k];
        let ghost later = escape(bytes.skip(k + 1)) + tail;
        proof {
            if hyp {
                if k < bytes.len() {
                    lemma_escape_front(bytes, k);
                    lemma_regroup(escape_byte(b), escape(bytes.skip(k + 1)), tail);
                    lemma_stands_at(input@, i as int, escape_byte(b), later);
                } else {
                    lemma_stands_at(input@, i as int, seq![QUOTE], rest);
                }
            }
        }
        let c = input[i];
        if c == QUOTE {
            return Some((out, i + 1));
        }
        if c == BACKSLASH {
            if len - i < 2 {
                return None;
            }
            let e = input[i + 1];
            if e == QUOTE || e == BACKSLASH {
                out.push(e);
                i = i + 2;
            } else if e == 0x62 {
                out.push(0x08);
                i = i + 2;
            } else if e == 0x74 {
                out.push(0x09);
                i = i + 2;
            } else if e == 0x6e {
                out.push(0x0a);
                i = i + 2;
            } else if e == 0x66 {
                out.push(0x0c);
                i = i + 2;
            } else if e == 0x72 {
                out.push(0x0d);
                i = i + 2;
            } else if e == 0x75 {
                if len - i < 6 || input[i + 2] != 0x30 || input[i + 3] != 0x30 {
                    return None;
                }
                let high = hex_value(input[i + 4]);
                let low = hex_value(input[i + 5]);
                match (high, low) {
                    (Some(h), Some(l)) => {
                        out.push(h * 16 + l);
                        i = i + 6;
                    },
                    _ => {
                        return None;
                    },
                }
            } else {
                return None;
            }
        } else {
            out.push(c);
            i = i + 1;
        }
    }
    proof {
        if hyp {
            let k = out@.len() as int;
            if k < bytes.len() {
                lemma_escape_front(bytes, k);
                lemma_regroup(escape_byte(bytes[k]), escape(bytes.skip(k + 1)), tail);
                lemma_stands_at(
                    input@,
                    i as int,
                    escape_byte(bytes[k]),
                    escape(bytes.skip(k + 1)) + tail,
                );
            }
        }
    }
    None
}

/// Reads a quoted string at `pos` as text. Where the UTF-8 bytes of a string
/// stand there between quotes, escaped, the result is that string and the
/// position behind the closing quote.
pub(crate) fn read_string(
    input: &[u8],
    pos: usize,
    Ghost(chars): Ghost<Seq<char>>,
    Ghost(rest): Ghost<Seq<u8>>,
) -> (r: Option<(String, usize)>)
    ensures
        r matches Some((_, end)) ==> pos < end <= input@.len(),
        stands_at(input@, pos as int, quoted(encode_utf8(chars)), rest) ==> (r matches Some(
            (read, end),
        ) && read@ == chars && input@.skip(end as int) == rest),
{
    match read_quoted(input, pos, Ghost(encode_utf8(chars)), Ghost(rest)) {
        None => None,
        Some((bytes, end)) => {
            proof {
                encode_utf8_valid_utf8(chars);
                encode_utf8_decode_utf8(chars);
            }
            match string_from_utf8(bytes) {
                Ok(read) => Some((read, end)),
                Err(_) => None,
            }
        },
    }
}

/// Behind its opening brace an object that is followed by `rest` goes on
/// with its members, the closing brace and `rest`.
pub proof fn lemma_object_opens(members: Seq<Seq<u8>>, rest: Seq<u8>)
    ensures
        object(members) + rest == seq![OPEN_BRACE] + (joined(members.skip(0)) + (seq![CLOSE_BRACE]
            + rest)),
{
    assert(members.skip(0) =~= members);
}

/// Behind its opening bracket an array that is followed by `rest` goes on
/// with its items, the closing bracket and `rest`.
pub proof fn lemma_array_opens(items: Seq<Seq<u8>>, rest: Seq<u8>)
    ensures
        array(items) + rest == seq![OPEN_BRACKET] + (joined(items.skip(0)) + (seq![CLOSE_BRACKET]
            + rest)),
{
    assert(items.skip(0) =~= items);
}

/// Steps over the byte `b` at `pos`. Where `b` stands there followed by
/// `rest`, the result is the next position, at which `rest` stands.
pub(crate) fn step_over(input: &[u8], pos: usize, b: u8, Ghost(rest): Ghost<Seq<u8>>) -> (r:
    Option<usize>)
    ensures
        r matches Some(end) ==> pos < end <= input@.len(),
        stands_at(input@, pos as int, seq![b], rest) ==> (r matches Some(end) && stands_at(
            input@,
            end as int,
            rest,
            Seq::empty(),
        )),
{
    proof {
        if stands_at(input@, pos as int, seq![b], rest) {
            lemma_stands_at(input@, pos as int, seq![b], rest);
        }
    }
    expect_byte(input, pos, b)
}

/// Steps over the name of member `k` of an object. Where the members from
/// `k` on stand at `pos`, followed by `suffix`, and member `k` is `name` with
/// the encoded value `value`, the result is the position of that value.
pub(crate) fn enter_member(
    input: &[u8],
    pos: usize,
    name: &str,
    Ghost(members): Ghost<Seq<Seq<u8>>>,
    Ghost(k): Ghost<int>,
    Ghost(value): Ghost<Seq<u8>>,
    Ghost(suffix): Ghost<Seq<u8>>,
) -> (r: Option<usize>)
    ensures
        r matches Some(end) ==> pos < end <= input@.len(),
        0 <= k < members.len() && members[k] == member(name, value) && stands_at(
            input@,
            pos as int,
            joined(members.skip(k)) + suffix,
            Seq::empty(),
        ) ==> (r matches Some(end) && stands_at(
            input@,
            end as int,
            value,
            after_item(members, k, suffix),
        )),
{
    proof {
        if 0 <= k < members.len() && members[k] == member(name, value) && stands_at(
            input@,
            pos as int,
            joined(members.skip(k)) + suffix,
            Seq::empty(),
        ) {
            let after = after_item(members, k, suffix);
            lemma_joined_front(members, k, suffix);
            lemma_regroup(key(name), value, after);
            lemma_stands_has(input@, pos as int, key(name), value + after);
            lemma_stands_at(input@, pos as int, key(name), value + after);
        }
    }
    expect_key(input, pos, name)
}

/// What follows a common beginning is the same if the wholes are.
pub proof fn lemma_cancel(a: Seq<u8>, x: Seq<u8>, y: Seq<u8>)
    requires
        a + x == a + y,
    ensures
        x == y,
{
    let left = a + x;
    assert(left.len() == a.len() + x.len());
    assert forall|i: int| 0 <= i < x.len() implies x[i] == y[i] by {
        assert(left[a.len() + i] == x[i]);
    }
}

/// Two texts that agree and that both begin with a decimal number followed
/// by something that is no digit begin with the same number and go on alike.
pub proof fn lemma_decimal_unique(x: nat, r1: Seq<u8>, y: nat, r2: Seq<u8>)
    requires
        decimal(x) + r1 == decimal(y) + r2,
        r1.len() > 0 ==> !is_digit(r1[0]),
        r2.len() > 0 ==> !is_digit(r2[0]),
    ensures
        x == y,
        r1 == r2,
{
    let dx = decimal(x);
    let dy = decimal(y);
    let whole = dx + r1;
    lemma_decimal_digits(x);
    lemma_decimal_digits(y);
    if dx.len() < dy.len() {
        assert(whole[dx.len() as int] == r1[0]);
    }
    if dy.len() < dx.len() {
        assert((dy + r2)[dy.len() as int] == r2[0]);
    }
    assert forall|i: int| 0 <= i < dx.len() implies dx[i] == dy[i] by {
        assert(whole[i] == dx[i]);
    }
    assert(dx =~= dy);
    lemma_cancel(dx, r1, r2);
    lemma_decimal_value(x);
    lemma_decimal_value(y);
}

/// The same for signed numbers.
pub proof fn lemma_signed_decimal_unique(x: int, r1: Seq<u8>, y: int, r2: Seq<u8>)
    requires
        signed_decimal(x) + r1 == signed_decimal(y) + r2,
        r1.len() > 0 ==> !is_digit(r1[0]),
        r2.len() > 0 ==> !is_digit(r2[0]),
    ensures
        x == y,
        r1 == r2,
{
    let whole = signed_decimal(x) + r1;
    lemma_decimal_digits(if x < 0 { (-x) as nat } else { x as nat });
    lemma_decimal_digits(if y < 0 { (-y) as nat } else { y as nat });
    assert(whole[0] == signed_decimal(x)[0]);
    if x < 0 {
        lemma_regroup(seq![MINUS], decimal((-x) as nat), r1);
        lemma_regroup(seq![MINUS], decimal((-y) as nat), r2);
        lemma_cancel(seq![MINUS], decimal((-x) as nat) + r1, decimal((-y) as nat) + r2);
        lemma_decimal_unique((-x) as nat, r1, (-y) as nat, r2);
    } else {
        lemma_decimal_unique(x as nat, r1, y as nat, r2);
    }
}

/// Two texts that agree and that both begin with an escaped byte begin with
/// the same byte and go on alike.
pub proof fn lemma_escape_byte_unique(a: u8, x: Seq<u8>, b: u8, y: Seq<u8>)
    requires
        escape_byte(a) + x == escape_byte(b) + y,
    ensures
        a == b,
        x == y,
{
    let ea = escape_byte(a);
    let whole = ea + x;
    assert(whole[0] == ea[0]);
    if ea.len() >= 2 {
        assert(whole[1] == ea[1]);
    }
    if ea.len() == 6 {
        assert(whole[4] == ea[4]);
        assert(whole[5] == ea[5]);
    }
    lemma_cancel(ea, x, y);
}

/// Two texts that agree and that both begin with escaped bytes up to a
/// closing quote hold the same bytes before that quote and go on alike behind
/// it.
pub proof fn lemma_escaped_unique(x: Seq<u8>, r1: Seq<u8>, y: Seq<u8>, r2: Seq<u8>)
    requires
        escape(x) + (seq![QUOTE] + r1) == escape(y) + (seq![QUOTE] + r2),
    ensures
        x == y,
        r1 == r2,
    decreases x.len(),
{
    let t1 = seq![QUOTE] + r1;
    let t2 = seq![QUOTE] + r2;
    if x.len() == 0 {
        if y.len() > 0 {
            assert(y.skip(0) =~= y);
            lemma_escape_front(y, 0);
            lemma_regroup(escape_byte(y[0]), escape(y.skip(1)), t2);
            assert((escape_byte(y[0]) + (escape(y.skip(1)) + t2))[0] == escape_byte(y[0])[0]);
        }
        lemma_cancel(seq![QUOTE], r1, r2);
    } else {
        assert(x.skip(0) =~= x);
        lemma_escape_front(x, 0);
        lemma_regroup(escape_byte(x[0]), escape(x.skip(1)), t1);
        if y.len() == 0 {
            assert((escape_byte(x[0]) + (escape(x.skip(1)) + t1))[0] == escape_byte(x[0])[0]);
        }
        assert(y.skip(0) =~= y);
        lemma_escape_front(y, 0);
        lemma_regroup(escape_byte(y[0]), escape(y.skip(1)), t2);
        lemma_escape_byte_unique(
            x[0],
            escape(x.skip(1)) + t1,
            y[0],
            escape(y.skip(1)) + t2,
        );
        lemma_escaped_unique(x.skip(1), r1, y.skip(1), r2);
        assert(x =~= seq![x[0]] + x.skip(1));
    }
}

/// Two texts that agree and that both begin with a quoted string begin with
/// the same string and go on alike.
pub proof fn lemma_quoted_unique(x: Seq<u8>, r1: Seq<u8>, y: Seq<u8>, r2: Seq<u8>)
    requires
        quoted(x) + r1 == quoted(y) + r2,
    ensures
        x == y,
        r1 == r2,
{
    lemma_regroup(seq![QUOTE] + escape(x), seq![QUOTE], r1);
    lemma_regroup(seq![QUOTE], escape(x), seq![QUOTE] + r1);
    lemma_regroup(seq![QUOTE] + escape(y), seq![QUOTE], r2);
    lemma_regroup(seq![QUOTE], escape(y), seq![QUOTE] + r2);
    lemma_cancel(seq![QUOTE], escape(x) + (seq![QUOTE] + r1), escape(y) + (seq![QUOTE] + r2));
    lemma_escaped_unique(x, r1, y, r2);
}

/// The same for strings of characters, quoted as their UTF-8 bytes.
pub proof fn lemma_quoted_text_unique(x: Seq<char>, r1: Seq<u8>, y: Seq<char>, r2: Seq<u8>)
    requires
        quoted(encode_utf8(x)) + r1 == quoted(encode_utf8(y)) + r2,
    ensures
        x == y,
        r1 == r2,
{
    lemma_quoted_unique(encode_utf8(x), r1, encode_utf8(y), r2);
    encode_utf8_decode_utf8(x);
    encode_utf8_decode_utf8(y);
}

/// Two texts that agree and that both begin with a member of the same name
/// agree from the member's value on.
pub proof fn lemma_member_cancel(name: &str, v1: Seq<u8>, r1: Seq<u8>, v2: Seq<u8>, r2: Seq<u8>)
    requires
        member(name, v1) + r1 == member(name, v2) + r2,
    ensures
        v1 + r1 == v2 + r2,
{
    lemma_regroup(key(name), v1, r1);
    lemma_regroup(key(name), v2, r2);
    lemma_cancel(key(name), v1 + r1, v2 + r2);
}

} // verus!
