//! The calls into other crates and into parts of std without a specification of their own. What
//! each contract here claims is believed, not proved.
use vstd::prelude::*;
use vstd::utf8::{decode_utf8, valid_utf8};

use crate::text::is_white;

verus! {

/// `char::is_whitespace` tells whether a character has the Unicode property `White_Space`,
/// which holds of the characters that `is_white` lists.
pub assume_specification[ char::is_whitespace ](c: char) -> (res: bool)
    ensures
        res == is_white(c),
;

/// The error of `String::from_utf8`.
#[verifier::external_type_specification]
#[verifier::external_body]
pub struct ExFromUtf8Error(std::string::FromUtf8Error);

/// `String::from_utf8` accepts the byte sequences that are valid UTF-8, and no others, and gives
/// the text that they encode.
pub assume_specification[ String::from_utf8 ](vec: Vec<u8>) -> (res: Result<
    String,
    std::string::FromUtf8Error,
>)
    ensures
        res is Ok <==> valid_utf8(vec@),
        res matches Ok(s) ==> s@ == decode_utf8(vec@),
;

/// A text as the `Debug` of `str` shows it: in double quotes, with escapes.
pub uninterp spec fn quoted(s: Seq<char>) -> Seq<char>;

/// Formats `s` with the `Debug` of `str`; the result depends on `s` alone and is named `quoted`.
#[verifier::external_body]
pub(crate) fn quoted_text(s: &str) -> (res: String)
    ensures
        res@ == quoted(s@),
{
    format!("{:?}", s)
}

/// What reading `text` as JSON gives: for a JSON value, the boolean that an object holds under
/// `key`, if it is an object and holds a boolean there; for anything else the reader's message.
pub uninterp spec fn json_flag(text: Seq<char>, key: Seq<char>) -> Result<Option<bool>, Seq<char>>;

/// Reads `text` with `serde_json::from_str` and looks `key` up with `Value::get` and
/// `Value::as_bool`; an error is given as the text that its `Display` shows. The result depends
/// on the two texts alone and is named `json_flag`.
#[verifier::external_body]
pub(crate) fn read_json_flag(text: &str, key: &str) -> (res: Result<Option<bool>, String>)
    ensures
        match res {
            Ok(flag) => json_flag(text@, key@) == Ok::<Option<bool>, Seq<char>>(flag),
            Err(message) => json_flag(text@, key@) == Err::<Option<bool>, Seq<char>>(message@),
        },
{
    match serde_json::from_str::<serde_json::Value>(text) {
        Ok(value) => Ok(value.get(key).and_then(|member| member.as_bool())),
        Err(error) => Err(error.to_string()),
    }
}

/// A date and a time of day without a time zone.
#[verifier::external_type_specification]
#[verifier::external_body]
pub struct ExNaiveDateTime(chrono::NaiveDateTime);

/// The time that `chrono::Local::now` reads, as `DateTime::naive_local` gives it. It depends on
/// the clock and on the time zone of the machine, so nothing is said of it.
#[verifier::external_body]
pub(crate) fn local_time() -> chrono::NaiveDateTime {
    chrono::Local::now().naive_local()
}

/// `c` is one of the digits in which an identifier is written.
pub open spec fn is_id_digit(c: char) -> bool {
    '0' <= c <= '9' || 'A' <= c <= 'Z'
}

/// A fresh identifier of `scru128::scru128_string`. Which one depends on the clock and on chance;
/// every one is written in twenty-five digits and capital letters.
#[verifier::external_body]
#[allow(deprecated)]
pub(crate) fn fresh_id() -> (res: String)
    ensures
        res@.len() == 25,
        forall|i: int| 0 <= i < 25 ==> is_id_digit(#[trigger] res@[i]),
{
    scru128::scru128_string()
}

} // verus!
