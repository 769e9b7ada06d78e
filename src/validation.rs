//! Checks on user input before it reaches the store or a provider.

use vstd::prelude::*;
use vstd::string::StringSliceAdditionalSpecFns;
use crate::text::{decimal, decimal_string, is_blank, is_blank_str};

verus! {

/// Why a field was refused; each variant names the field.
pub enum ValidationError {
    EmptyField { field: String },
    TooLong { field: String, max_len: usize },
    TooShort { field: String, min_len: usize },
    OutOfRange { field: String, value: String, min: String, max: String },
    InvalidCharacters { field: String },
}

impl ValidationError {
    /// The name of the refused field.
    pub open spec fn field_name(&self) -> Seq<char> {
        match self {
            ValidationError::EmptyField { field } => field@,
            ValidationError::TooLong { field, .. } => field@,
            ValidationError::TooShort { field, .. } => field@,
            ValidationError::OutOfRange { field, .. } => field@,
            ValidationError::InvalidCharacters { field } => field@,
        }
    }
}

/// Length of `s` in bytes of its UTF-8 encoding.
pub open spec fn byte_len(s: &str) -> nat {
    s.spec_bytes().len()
}

/// A length within the bounds that are given.
pub open spec fn length_ok(len: nat, min_len: Option<usize>, max_len: Option<usize>) -> bool {
    (min_len is Some ==> len >= min_len->0) && (max_len is Some ==> len <= max_len->0)
}

/// Whether `s` holds a NUL, carriage return or line feed.
pub open spec fn has_control_break(s: Seq<char>) -> bool {
    s.contains('\0') || s.contains('\r') || s.contains('\n')
}

fn owned(s: &str) -> (r: String)
    ensures
        r@ == s@,
{
    s.to_owned()
}

/// Refuses a value that is empty or holds only white space.
pub fn validate_not_empty(field: &str, value: &str) -> (r: Result<(), ValidationError>)
    ensures
        r is Ok <==> !is_blank(value@),
        r matches Err(e) ==> e is EmptyField && e.field_name() == field@,
{
    if is_blank_str(value) {
        return Err(ValidationError::EmptyField { field: owned(field) });
    }
    Ok(())
}

/// Checks the byte length of `value` against optional bounds; the minimum is
/// checked first.
pub fn validate_length(field: &str, value: &str, min_len: Option<usize>, max_len: Option<usize>) -> (r: Result<(), ValidationError>)
    ensures
        r is Ok <==> length_ok(byte_len(value), min_len, max_len),
        r matches Err(e) ==> e.field_name() == field@,
        min_len is Some && byte_len(value) < min_len->0 ==> (r matches Err(
            ValidationError::TooShort { min_len: m, .. },
        ) && m == min_len->0),
        (min_len is Some ==> byte_len(value) >= min_len->0) && max_len is Some && byte_len(value)
            > max_len->0 ==> (r matches Err(ValidationError::TooLong { max_len: m, .. }) && m
            == max_len->0),
{
    let len = value.as_bytes().len();
    if let Some(min) = min_len {
        if len < min {
            return Err(ValidationError::TooShort { field: owned(field), min_len: min });
        }
    }
    if let Some(max) = max_len {
        if len > max {
            return Err(ValidationError::TooLong { field: owned(field), max_len: max });
        }
    }
    Ok(())
}

/// Checks `min <= value <= max`; the error carries the three numbers in decimal.
pub fn validate_range(field: &str, value: u64, min: u64, max: u64) -> (r: Result<(), ValidationError>)
    ensures
        r is Ok <==> min <= value <= max,
        r matches Err(e) ==> e.field_name() == field@ && (e matches ValidationError::OutOfRange {
            value: v,
            min: lo,
            max: hi,
            ..
        } && v@ == decimal(value as nat) && lo@ == decimal(min as nat) && hi@ == decimal(
            max as nat,
        )),
{
    if value < min || value > max {
        return Err(
            ValidationError::OutOfRange {
                field: owned(field),
                value: decimal_string(value),
                min: decimal_string(min),
                max: decimal_string(max),
            },
        );
    }
    Ok(())
}

/// The number of results asked of a search: 1 to 100.
pub fn validate_top_k(top_k: usize) -> (r: Result<(), ValidationError>)
    ensures
        r is Ok <==> 1 <= top_k <= 100,
        r matches Err(e) ==> e.field_name() == "top_k"@ && (e matches ValidationError::OutOfRange {
            value: v,
            ..
        } && v@ == decimal(top_k as nat)),
{
    validate_range("top_k", top_k as u64, 1, 100)
}

/// The token budget of a reply: 1 to 100000.
pub fn validate_max_tokens(max_tokens: u32) -> (r: Result<(), ValidationError>)
    ensures
        r is Ok <==> 1 <= max_tokens <= 100_000,
        r matches Err(e) ==> e.field_name() == "max_tokens"@ && (e matches ValidationError::OutOfRange {
            value: v,
            ..
        } && v@ == decimal(max_tokens as nat)),
{
    validate_range("max_tokens", max_tokens as u64, 1, 100_000)
}

/// Whether `s` holds `c`.
fn contains_char(s: &str, c: char) -> (r: bool)
    ensures
        r == s@.contains(c),
{
    let mut found = false;
    for d in it: s.chars()
        invariant
            it.seq() == s@,
            found == (exists|j: int| 0 <= j < it.index() && s@[j] == c),
    {
        if d == c {
            found = true;
        }
    }
    found
}

/// A project, document or conversation name: not blank, at most 200 bytes,
/// and free of NUL, carriage return and line feed.
pub fn validate_name(field: &str, name: &str) -> (r: Result<(), ValidationError>)
    ensures
        r is Ok <==> !is_blank(name@) && byte_len(name) <= 200 && !has_control_break(name@),
        r matches Err(e) ==> e.field_name() == field@,
        is_blank(name@) ==> r matches Err(ValidationError::EmptyField { .. }),
        !is_blank(name@) && byte_len(name) > 200 ==> r matches Err(
            ValidationError::TooLong { max_len: 200, .. },
        ),
        !is_blank(name@) && byte_len(name) <= 200 && has_control_break(name@) ==> r matches Err(
            ValidationError::InvalidCharacters { .. },
        ),
{
    validate_not_empty(field, name)?;
    validate_length(field, name, Some(1), Some(200))?;
    if contains_char(name, '\0') || contains_char(name, '\r') || contains_char(name, '\n') {
        return Err(ValidationError::InvalidCharacters { field: owned(field) });
    }
    Ok(())
}

/// Document text: not blank and at most 10 MiB.
pub fn validate_document_content(content: &str) -> (r: Result<(), ValidationError>)
    ensures
        r is Ok <==> !is_blank(content@) && byte_len(content) <= 10_485_760,
        is_blank(content@) ==> r matches Err(ValidationError::EmptyField { .. }),
        !is_blank(content@) && byte_len(content) > 10_485_760 ==> r matches Err(
            ValidationError::TooLong { max_len: 10_485_760, .. },
        ),
{
    validate_not_empty("content", content)?;
    validate_length("content", content, Some(1), Some(10_485_760))?;
    Ok(())
}

/// A search query: not blank and at most 10000 bytes.
pub fn validate_query(query: &str) -> (r: Result<(), ValidationError>)
    ensures
        r is Ok <==> !is_blank(query@) && byte_len(query) <= 10_000,
        is_blank(query@) ==> r matches Err(ValidationError::EmptyField { .. }),
        !is_blank(query@) && byte_len(query) > 10_000 ==> r matches Err(
            ValidationError::TooLong { max_len: 10_000, .. },
        ),
{
    validate_not_empty("query", query)?;
    validate_length("query", query, Some(1), Some(10_000))?;
    Ok(())
}

} // verus!
