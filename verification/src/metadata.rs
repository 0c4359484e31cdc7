//! What the metadata probe tells about a resource, read from the headers of
//! the response.

use vstd::prelude::*;

verus! {

/// What the metadata probe tells about a resource. A size of 0 stands for a
/// size that the server did not tell.
#[derive(Debug, Clone, Copy, PartialEq, Eq, Structural)]
pub struct ResourceMetadata {
    pub supports_ranges: bool,
    pub total_bytes: usize,
}

/// `reqwest::header::HeaderValue`: the value of one header, of which the
/// verifier sees nothing but its bytes.
#[verifier::external_type_specification]
#[verifier::external_body]
pub struct ExHeaderValue(reqwest::header::HeaderValue);

/// The bytes of a header's value.
pub uninterp spec fn header_bytes(value: reqwest::header::HeaderValue) -> Seq<u8>;

/// `HeaderValue::as_bytes` lends the bytes of the value.
pub assume_specification[ reqwest::header::HeaderValue::as_bytes ](
    value: &reqwest::header::HeaderValue,
) -> (b: &[u8])
    ensures
        b@ == header_bytes(*value),
;

/// The bytes of the word `bytes`, with which a server says that it serves
/// ranges.
pub open spec fn ranges_token() -> Seq<u8> {
    seq![98u8, 121u8, 116u8, 101u8, 115u8]
}

/// The byte is a decimal digit.
pub open spec fn is_digit(b: u8) -> bool {
    48 <= b <= 57
}

/// All bytes are decimal digits.
pub open spec fn all_digits(text: Seq<u8>) -> bool {
    forall|i: int| 0 <= i < text.len() ==> is_digit(#[trigger] text[i])
}

/// The number that a string of decimal digits stands for.
pub open spec fn digits_value(text: Seq<u8>) -> nat
    decreases text.len(),
{
    if text.len() == 0 {
        0
    } else {
        digits_value(text.drop_last()) * 10 + (text.last() - 48) as nat
    }
}

/// The size that a `Content-Length` value tells: the number, where the value
/// is made of decimal digits, with or without a `+` before them, and the
/// number fits the machine word; else 0.
pub open spec fn parsed_length(text: Seq<u8>) -> nat {
    let body = if text.len() > 0 && text[0] == 43 {
        text.skip(1)
    } else {
        text
    };
    if body.len() > 0 && all_digits(body) && digits_value(body) <= usize::MAX {
        digits_value(body)
    } else {
        0
    }
}

/// What the two headers tell: ranges are supported where `Accept-Ranges` is
/// there and is `bytes`; the size is what `Content-Length` tells, or 0 where
/// it is not there.
pub open spec fn metadata_of(
    accept_ranges: Option<Seq<u8>>,
    content_length: Option<Seq<u8>>,
) -> ResourceMetadata {
    ResourceMetadata {
        supports_ranges: accept_ranges == Some(ranges_token()),
        total_bytes: match content_length {
            Some(text) => parsed_length(text) as usize,
            None => 0,
        },
    }
}

/// A string of digits stands for no less than any of its beginnings.
proof fn lemma_digits_value_grows(text: Seq<u8>, k: int)
    requires
        0 <= k <= text.len(),
        all_digits(text),
    ensures
        digits_value(text.take(k)) <= digits_value(text),
    decreases text.len() - k,
{
    if k < text.len() {
        lemma_digits_value_grows(text, k + 1);
        assert(text.take(k + 1).drop_last() =~= text.take(k));
        assert(is_digit(text[k]));
        assert(text.take(k + 1).last() == text[k]);
    } else {
        assert(text.take(k) =~= text);
    }
}

/// Whether the bytes are the word `bytes`.
pub fn is_ranges_token(text: &[u8]) -> (b: bool)
    ensures
        b == (text@ == ranges_token()),
{
    let b = text.len() == 5 && text[0] == 98 && text[1] == 121 && text[2] == 116 && text[3] == 101
        && text[4] == 115;
    assert(b == (text@ =~= ranges_token()));
    b
}

/// Reads the size that a `Content-Length` value tells.
pub fn parse_length(text: &[u8]) -> (n: usize)
    ensures
        n == parsed_length(text@),
{
    let len = text.len();
    if len == 0 {
        return 0;
    }
    let first: usize = if text[0] == 43 {
        1
    } else {
        0
    };
    if first == len {
        return 0;
    }
    let ghost body = text@.skip(first as int);
    assert(text@.skip(0) =~= text@);
    let mut value: usize = 0;
    let mut i: usize = first;
    while i < len
        invariant
            first <= i <= len,
            len == text@.len(),
            first == if text@[0] == 43 {
                1usize
            } else {
                0usize
            },
            first < len,
            text@.skip(0) == text@,
            body == text@.skip(first as int),
            all_digits(body.take(i - first)),
            value == digits_value(body.take(i - first)),
        decreases len - i,
    {
        let b = text[i];
        let ghost seen = body.take(i - first);
        let ghost next = body.take(i - first + 1);
        assert(body[i - first] == b);
        if b < 48 || b > 57 {
            assert(!is_digit(body[i - first]));
            return 0;
        }
        let d = (b - 48) as usize;
        proof {
            assert(next.drop_last() =~= seen);
            assert(next.last() == b);
            assert forall|k: int| 0 <= k < next.len() implies is_digit(#[trigger] next[k]) by {
                if k < seen.len() {
                    assert(next[k] == seen[k]);
                }
            }
        }
        if value > (usize::MAX - d) / 10 {
            proof {
                if all_digits(body) {
                    lemma_digits_value_grows(body, i - first + 1);
                    assert(digits_value(next) == value * 10 + d);
                }
            }
            return 0;
        }
        value = value * 10 + d;
        i = i + 1;
    }
    assert(body.take(i - first) =~= body);
    value
}

impl ResourceMetadata {
    /// Reads the metadata from the values of the `Accept-Ranges` and the
    /// `Content-Length` header of the probe's response, as far as they are
    /// there.
    pub fn from_headers(
        accept_ranges: Option<&reqwest::header::HeaderValue>,
        content_length: Option<&reqwest::header::HeaderValue>,
    ) -> (metadata: ResourceMetadata)
        ensures
            metadata == metadata_of(
                match accept_ranges {
                    Some(value) => Some(header_bytes(*value)),
                    None => None,
                },
                match content_length {
                    Some(value) => Some(header_bytes(*value)),
                    None => None,
                },
            ),
    {
        let supports_ranges = match accept_ranges {
            Some(value) => is_ranges_token(value.as_bytes()),
            None => false,
        };
        let total_bytes = match content_length {
            Some(value) => parse_length(value.as_bytes()),
            None => 0,
        };
        ResourceMetadata { supports_ranges, total_bytes }
    }
}

} // verus!
