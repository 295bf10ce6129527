use crate::error::FramingError;
use crate::lines::LF;
use vstd::prelude::*;
use vstd::slice::slice_subrange;

verus! {

/// The carriage return that stands before the line feed of a header line.
pub const CR: u8 = 0x0d;

/// The space that parts a header's name from its value.
pub const SPACE: u8 = 0x20;

/// The plus sign that may stand before the digits of a number.
pub const PLUS: u8 = 0x2b;

/// Whether `line` ends in CR LF.
pub open spec fn ends_with_crlf(line: Seq<u8>) -> bool {
    line.len() >= 2 && line[line.len() - 2] == CR && line[line.len() - 1] == LF
}

/// The value of a header line: what stands between its first space and the
/// CR LF that ends it. A line without a space or without that ending has none.
pub open spec fn spec_header_value(line: Seq<u8>) -> Result<Seq<u8>, FramingError> {
    match line.index_of_first(SPACE) {
        Some(space) if ends_with_crlf(line) => Ok(line.subrange(space + 1, line.len() - 2)),
        _ => Err(FramingError::MalformedHeader),
    }
}

/// Whether `byte` is one of the ASCII digits.
pub open spec fn is_digit(byte: u8) -> bool {
    0x30 <= byte <= 0x39
}

/// Whether `text` holds ASCII digits only.
pub open spec fn all_digits(text: Seq<u8>) -> bool {
    forall|i: int| 0 <= i < text.len() ==> is_digit(#[trigger] text[i])
}

/// The number that the decimal digits of `digits` write.
pub open spec fn decimal_value(digits: Seq<u8>) -> nat
    decreases digits.len(),
{
    if digits.len() == 0 {
        0
    } else {
        decimal_value(digits.drop_last()) * 10 + (digits.last() - 0x30) as nat
    }
}

/// `text` without the plus sign that may lead it.
pub open spec fn without_sign(text: Seq<u8>) -> Seq<u8> {
    if text.len() > 0 && text[0] == PLUS {
        text.skip(1)
    } else {
        text
    }
}

/// The content length that `text` declares: an optional plus sign, then one
/// or more decimal digits and nothing else, for a number that fits `usize`.
pub open spec fn spec_content_length(text: Seq<u8>) -> Option<nat> {
    let digits = without_sign(text);
    if digits.len() > 0 && all_digits(digits) && decimal_value(digits) <= usize::MAX {
        Some(decimal_value(digits))
    } else {
        None
    }
}

/// A number does not shrink when digits are written behind it.
pub proof fn lemma_decimal_value_grows(digits: Seq<u8>, shorter: int)
    requires
        0 <= shorter <= digits.len(),
        all_digits(digits),
    ensures
        decimal_value(digits.take(shorter)) <= decimal_value(digits),
    decreases digits.len() - shorter,
{
    if shorter < digits.len() {
        let longer = digits.take(shorter + 1);
        assert(longer.drop_last() =~= digits.take(shorter));
        assert(is_digit(longer.last()));
        lemma_decimal_value_grows(digits, shorter + 1);
    } else {
        assert(digits.take(shorter) =~= digits);
    }
}

/// Takes the value out of a header line.
///
/// The line is one that [`crate::lines::read_until_header`] returned, line
/// end included. It is refused unless it holds a space and ends in CR LF.
pub fn header_value(header: &[u8]) -> (value: Result<&[u8], FramingError>)
    ensures
        match spec_header_value(header@) {
            Ok(v) => value matches Ok(got) && got@ == v,
            Err(e) => value == Err::<&[u8], FramingError>(e),
        },
{
    proof {
        header@.index_of_first_ensures(SPACE);
    }
    let len = header.len();
    if len < 2 || header[len - 2] != CR || header[len - 1] != LF {
        return Err(FramingError::MalformedHeader);
    }
    let mut i: usize = 0;
    while i < len && header[i] != SPACE
        invariant
            i <= len == header@.len(),
            forall|k: int| 0 <= k < i ==> header@[k] != SPACE,
        decreases len - i,
    {
        i = i + 1;
    }
    if i == len {
        return Err(FramingError::MalformedHeader);
    }
    Ok(slice_subrange(header, i + 1, len - 2))
}

/// Reads the value of the content length header as a number of bytes.
pub fn parse_content_length(text: &[u8]) -> (length: Result<usize, FramingError>)
    ensures
        match spec_content_length(text@) {
            Some(n) => length == Ok::<usize, FramingError>(n as usize),
            None => length == Err::<usize, FramingError>(FramingError::InvalidContentLength),
        },
{
    let first: usize = if text.len() > 0 && text[0] == PLUS {
        1
    } else {
        0
    };
    let ghost digits = without_sign(text@);
    if first == text.len() {
        return Err(FramingError::InvalidContentLength);
    }
    let mut value: usize = 0;
    let mut i: usize = first;
    while i < text.len()
        invariant
            first <= i <= text@.len(),
            digits == without_sign(text@),
            digits == text@.skip(first as int),
            all_digits(digits.take(i - first)),
            value == decimal_value(digits.take(i - first)),
        decreases text@.len() - i,
    {
        let byte = text[i];
        let ghost seen = digits.take(i - first + 1);
        proof {
            assert(seen.drop_last() =~= digits.take(i - first));
            assert(seen.last() == byte);
        }
        if byte < 0x30 || byte > 0x39 {
            assert(!is_digit(digits[i - first]));
            return Err(FramingError::InvalidContentLength);
        }
        let digit: usize = (byte - 0x30) as usize;
        let next = match value.checked_mul(10) {
            Some(tens) => tens.checked_add(digit),
            None => None,
        };
        match next {
            Some(n) => {
                value = n;
            },
            None => {
                proof {
                    assert(decimal_value(seen) > usize::MAX);
                    if all_digits(digits) {
                        lemma_decimal_value_grows(digits, i - first + 1);
                    }
                }
                return Err(FramingError::InvalidContentLength);
            },
        }
        i = i + 1;
    }
    proof {
        assert(digits.take(i - first) =~= digits);
    }
    Ok(value)
}

} // verus!
