//! Telling text from binary data.
use crate::entry::Reason;
use std::string::FromUtf8Error;
use vstd::prelude::*;
use vstd::utf8::{decode_utf8, encode_utf8, valid_utf8};

verus! {

/// The error of [`String::from_utf8`].
#[verifier::external_type_specification]
#[verifier::external_body]
pub struct ExFromUtf8Error(FromUtf8Error);

/// `String::from_utf8` succeeds exactly on well-formed UTF-8, and gives the
/// characters that the bytes encode.
pub assume_specification[ String::from_utf8 ](vec: Vec<u8>) -> (result: Result<
    String,
    FromUtf8Error,
>)
    ensures
        match result {
            Ok(text) => valid_utf8(vec@) && text@ == decode_utf8(vec@),
            Err(_) => !valid_utf8(vec@),
        },
;

/// What `String::from_utf8_lossy` gives for `bytes` that are not well-formed UTF-8.
pub uninterp spec fn mended_utf8(bytes: Seq<u8>) -> Seq<char>;

/// The characters that `bytes` encode, where they are well-formed UTF-8; otherwise those
/// that are left once every ill-formed part is replaced by U+FFFD.
pub open spec fn lossy_utf8(bytes: Seq<u8>) -> Seq<char> {
    if valid_utf8(bytes) {
        decode_utf8(bytes)
    } else {
        mended_utf8(bytes)
    }
}

/// `String::from_utf8_lossy`: where the bytes are well-formed UTF-8 it gives the
/// characters that they encode, and otherwise what it gives depends on the bytes alone.
/// How it replaces ill-formed parts is left unsaid.
#[verifier::external_body]
pub(crate) fn decode_lossy(bytes: &[u8]) -> (text: String)
    ensures
        valid_utf8(bytes@) ==> text@ == decode_utf8(bytes@),
        !valid_utf8(bytes@) ==> text@ == mended_utf8(bytes@),
{
    String::from_utf8_lossy(bytes).into_owned()
}

/// Whether `character` is a control character: U+0000 to U+001F and U+007F to U+009F.
pub open spec fn is_control(character: char) -> bool {
    character <= '\u{1f}' || '\u{7f}' <= character <= '\u{9f}'
}

/// Whether text may hold `character`: any but the control characters, of which NUL,
/// tab and the two line ends are allowed.
pub open spec fn is_text(character: char) -> bool {
    !is_control(character) || character == '\0' || character == '\n' || character == '\r'
        || character == '\t'
}

pub fn is_text_character(character: char) -> (text: bool)
    ensures
        text == is_text(character),
{
    let control: bool = character <= '\u{1f}' || ('\u{7f}' <= character && character <= '\u{9f}');
    !control || character == '\0' || character == '\n' || character == '\r' || character == '\t'
}

/// Whether `bytes` are text: UTF-8 that holds text characters only.
pub open spec fn is_text_bytes(bytes: Seq<u8>) -> bool {
    valid_utf8(bytes) && forall|i: int|
        0 <= i < decode_utf8(bytes).len() ==> is_text(#[trigger] decode_utf8(bytes)[i])
}

/// The text that `bytes` encode: it keeps every byte.
pub fn decode_text(bytes: Vec<u8>) -> (result: Result<String, Reason>)
    ensures
        match result {
            Ok(text) => is_text_bytes(bytes@) && text@ == decode_utf8(bytes@) && encode_utf8(text@)
                == bytes@,
            Err(reason) => !is_text_bytes(bytes@) && reason == Reason::Binary,
        },
{
    let ghost given = bytes@;
    match String::from_utf8(bytes) {
        Ok(text) => {
            let mut all: bool = true;
            for character in it: text.as_str().chars()
                invariant
                    it.seq() == text@,
                    all == (forall|i: int| 0 <= i < it.index() ==> is_text(#[trigger] text@[i])),
            {
                all = all && is_text_character(character);
            }
            if all {
                proof {
                    vstd::utf8::decode_utf8_encode_utf8(given);
                }
                Ok(text)
            } else {
                Err(Reason::Binary)
            }
        },
        Err(_) => Err(Reason::Binary),
    }
}

/// Text is told by its characters, however many there are: what they encode to is text
/// exactly where each of them is at least a space and no control character from U+007F to
/// U+009F, or is NUL, a tab, a line feed or a carriage return. What is not UTF-8 is no text.
pub proof fn text_is_told_by_its_characters(chars: Seq<char>, bytes: Seq<u8>)
    ensures
        is_text_bytes(encode_utf8(chars)) <==> forall|i: int|
            0 <= i < chars.len() ==> {
                ||| ' ' <= #[trigger] chars[i] < '\u{7f}'
                ||| '\u{9f}' < chars[i]
                ||| chars[i] == '\0'
                ||| chars[i] == '\t'
                ||| chars[i] == '\n'
                ||| chars[i] == '\r'
            },
        is_text_bytes(bytes) ==> valid_utf8(bytes),
{
    vstd::utf8::encode_utf8_valid_utf8(chars);
    vstd::utf8::encode_utf8_decode_utf8(chars);
    assert forall|i: int| 0 <= i < chars.len() implies (is_text(#[trigger] chars[i]) <==> {
        ||| ' ' <= chars[i] < '\u{7f}'
        ||| '\u{9f}' < chars[i]
        ||| chars[i] == '\0'
        ||| chars[i] == '\t'
        ||| chars[i] == '\n'
        ||| chars[i] == '\r'
    }) by {}
    if is_text_bytes(encode_utf8(chars)) {
        assert forall|i: int| 0 <= i < chars.len() implies is_text(#[trigger] chars[i]) by {
            assert(is_text(decode_utf8(encode_utf8(chars))[i]));
        }
    }
}

/// Well-formed bytes are kept: the characters that stand for them encode to just these bytes.
/// Others are left to the standard library.
pub proof fn well_formed_bytes_are_kept(bytes: Seq<u8>)
    ensures
        valid_utf8(bytes) ==> encode_utf8(lossy_utf8(bytes)) == bytes,
        !valid_utf8(bytes) ==> lossy_utf8(bytes) == mended_utf8(bytes),
{
    if valid_utf8(bytes) {
        vstd::utf8::decode_utf8_encode_utf8(bytes);
    }
}

} // verus!
