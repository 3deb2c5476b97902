//! Lower-case hexadecimal text, the encoding that keeps frame payloads free
//! of the frame delimiter.

use vstd::prelude::*;

verus! {

/// The ASCII digit that stands for `nibble`, a value below 16.
pub open spec fn digit_of(nibble: int) -> u8 {
    if nibble < 10 {
        (48 + nibble) as u8
    } else {
        (87 + nibble) as u8
    }
}

/// Whether `c` is one of `0`..`9`, `a`..`f`.
pub open spec fn is_digit(c: u8) -> bool {
    (48 <= c && c <= 57) || (97 <= c && c <= 102)
}

/// The value of the digit `c`; meaningful where `is_digit(c)`.
pub open spec fn value_of(c: u8) -> int {
    if c <= 57 {
        c - 48
    } else {
        c - 87
    }
}

/// The hexadecimal text of `bytes`: two digits per byte, high nibble first.
pub open spec fn encoded(bytes: Seq<u8>) -> Seq<u8> {
    Seq::new(
        2 * bytes.len(),
        |i: int|
            if i % 2 == 0 {
                digit_of(bytes[i / 2] as int / 16)
            } else {
                digit_of(bytes[i / 2] as int % 16)
            },
    )
}

/// Whether `text` is the hexadecimal text of some byte string.
pub open spec fn well_formed(text: Seq<u8>) -> bool {
    &&& text.len() % 2 == 0
    &&& forall|i: int| 0 <= i < text.len() ==> is_digit(#[trigger] text[i])
}

/// The bytes that `text` stands for, or `None` where it is not well formed.
pub open spec fn decoded(text: Seq<u8>) -> Option<Seq<u8>> {
    if well_formed(text) {
        Some(
            Seq::new(
                text.len() / 2,
                |i: int| (16 * value_of(text[2 * i]) + value_of(text[2 * i + 1])) as u8,
            ),
        )
    } else {
        None
    }
}

fn digit(nibble: u8) -> (c: u8)
    requires
        nibble < 16,
    ensures
        c == digit_of(nibble as int),
        is_digit(c),
{
    if nibble < 10 {
        48 + nibble
    } else {
        87 + nibble
    }
}

fn value(c: u8) -> (v: Option<u8>)
    ensures
        v is Some <==> is_digit(c),
        v matches Some(n) ==> n == value_of(c) && n < 16,
{
    if 48 <= c && c <= 57 {
        Some(c - 48)
    } else if 97 <= c && c <= 102 {
        Some(c - 87)
    } else {
        None
    }
}

/// Writes `bytes` as hexadecimal text.
pub fn encode(bytes: &[u8]) -> (text: Vec<u8>)
    requires
        2 * bytes@.len() <= isize::MAX,
    ensures
        text@ == encoded(bytes@),
{
    let mut text: Vec<u8> = Vec::new();
    let mut i: usize = 0;
    while i < bytes.len()
        invariant
            i <= bytes.len(),
            text.len() == 2 * i,
            forall|j: int| 0 <= j < 2 * i ==> text@[j] == encoded(bytes@)[j],
        decreases bytes.len() - i,
    {
        let b: u8 = bytes[i];
        text.push(digit(b / 16));
        text.push(digit(b % 16));
        i += 1;
    }
    assert(text@ =~= encoded(bytes@));
    text
}

/// Reads hexadecimal text back into bytes; `None` where `text` has odd
/// length or holds anything but `0`..`9`, `a`..`f`.
pub fn decode(text: &[u8]) -> (bytes: Option<Vec<u8>>)
    ensures
        bytes is Some <==> well_formed(text@),
        bytes matches Some(b) ==> decoded(text@) == Some(b@),
{
    if text.len() % 2 != 0 {
        return None;
    }
    let mut bytes: Vec<u8> = Vec::new();
    let mut i: usize = 0;
    while i < text.len()
        invariant
            i <= text.len(),
            i % 2 == 0,
            text.len() % 2 == 0,
            bytes.len() == i / 2,
            forall|j: int| 0 <= j < i ==> is_digit(#[trigger] text@[j]),
            forall|j: int|
                0 <= j < i / 2 ==> bytes@[j] == (16 * value_of(text@[2 * j]) + value_of(
                    text@[2 * j + 1],
                )) as u8,
        decreases text.len() - i,
    {
        let hi: u8 = match value(text[i]) {
            Some(v) => v,
            None => {
                return None;
            },
        };
        let lo: u8 = match value(text[i + 1]) {
            Some(v) => v,
            None => {
                return None;
            },
        };
        bytes.push(16 * hi + lo);
        i += 2;
    }
    assert(bytes@ =~= decoded(text@).unwrap());
    Some(bytes)
}

/// Hexadecimal text never holds a byte outside `0`..`9`, `a`..`f`.
pub proof fn lemma_encoded_is_digits(bytes: Seq<u8>)
    ensures
        well_formed(encoded(bytes)),
{
}

/// Decoding inverts encoding.
pub proof fn lemma_decode_encode(bytes: Seq<u8>)
    ensures
        decoded(encoded(bytes)) == Some(bytes),
{
    lemma_encoded_is_digits(bytes);
    assert(decoded(encoded(bytes)).unwrap() =~= bytes);
}

} // verus!
