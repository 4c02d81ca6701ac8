use vstd::prelude::*;
use crate::udp_data_processor::{headers_removed, holds_headers};

verus! {

/// Strips the IPv4 and UDP headers of a datagram captured without a link
/// header, and returns the payload with the UDP source port.
pub fn remove_headers(data: Vec<u8>) -> (r: (Vec<u8>, u16))
    requires
        holds_headers(data@, false),
    ensures
        (r.0@, r.1) == headers_removed(data@, false),
{
    crate::udp_data_processor::remove_headers(data, false)
}

/// What a line typed at the device prompt asks for.
#[derive(Debug, Clone, Copy, PartialEq, Eq, Structural)]
pub enum DeviceChoice {
    /// The device at this index of the list.
    Chosen(usize),
    /// A number past the end of the list: ask again.
    OutOfBounds,
    /// Not a number: ask again.
    NotANumber,
}

/// The characters with the Unicode property White_Space.
pub open spec fn is_white_space(c: char) -> bool {
    let u = c as int;
    ||| 0x09 <= u <= 0x0D
    ||| u == 0x20
    ||| u == 0x85
    ||| u == 0xA0
    ||| u == 0x1680
    ||| 0x2000 <= u <= 0x200A
    ||| u == 0x2028
    ||| u == 0x2029
    ||| u == 0x202F
    ||| u == 0x205F
    ||| u == 0x3000
}

/// `text` without its leading white space.
pub open spec fn trim_start(text: Seq<char>) -> Seq<char>
    decreases text.len(),
{
    if text.len() > 0 && is_white_space(text[0]) {
        trim_start(text.drop_first())
    } else {
        text
    }
}

/// `text` without its trailing white space.
pub open spec fn trim_end(text: Seq<char>) -> Seq<char>
    decreases text.len(),
{
    if text.len() > 0 && is_white_space(text.last()) {
        trim_end(text.drop_last())
    } else {
        text
    }
}

/// What `str::trim` gives: the text without leading and trailing white space.
pub open spec fn trimmed(text: Seq<char>) -> Seq<char> {
    trim_end(trim_start(text))
}

/// The value of a run of decimal digits; `None` when a character is not one.
pub open spec fn digits_value(text: Seq<char>) -> Option<nat>
    decreases text.len(),
{
    if text.len() == 0 {
        Some(0)
    } else {
        let c = text.last() as int;
        if 0x30 <= c <= 0x39 {
            match digits_value(text.drop_last()) {
                Some(v) => Some(v * 10 + (c - 0x30) as nat),
                None => None,
            }
        } else {
            None
        }
    }
}

/// What `str::parse::<usize>` gives: an optional `+` and at least one
/// decimal digit, whose value fits in a `usize`.
pub open spec fn usize_parsed(text: Seq<char>) -> Option<usize> {
    let body = if text.len() > 0 && text[0] == '+' { text.drop_first() } else { text };
    if body.len() == 0 {
        None
    } else {
        match digits_value(body) {
            Some(v) => if v <= usize::MAX { Some(v as usize) } else { None },
            None => None,
        }
    }
}

/// `str::trim`: the text without its leading and trailing white space
/// (stated by `trimmed`).
#[verifier::external_body]
fn trim_text(text: &str) -> (r: &str)
    ensures
        r@ == trimmed(text@),
{
    text.trim()
}

/// `str::parse::<usize>`: the decimal number a text holds, `None` when it
/// holds none (stated by `usize_parsed`).
#[verifier::external_body]
fn parse_usize(text: &str) -> (r: Option<usize>)
    ensures
        r == usize_parsed(text@),
{
    text.parse::<usize>().ok()
}

/// The choice a typed line makes, given the parsed number.
pub open spec fn choice_of(parsed: Option<usize>, device_count: usize) -> DeviceChoice {
    match parsed {
        Some(x) => if x >= device_count { DeviceChoice::OutOfBounds } else { DeviceChoice::Chosen(x) },
        None => DeviceChoice::NotANumber,
    }
}

/// A number below the device count chooses that device, a larger or equal
/// one is out of bounds, and a line that is no number is refused.
pub proof fn lemma_choice_bounds(parsed: Option<usize>, device_count: usize)
    ensures
        forall|x: usize| choice_of(parsed, device_count) == DeviceChoice::Chosen(x) <==> (parsed == Some(x) && x
            < device_count),
        (choice_of(parsed, device_count) == DeviceChoice::OutOfBounds) <==> (parsed is Some && parsed->0
            >= device_count),
        (choice_of(parsed, device_count) == DeviceChoice::NotANumber) <==> parsed is None,
{
}

/// Reads a line typed at the device prompt, for a list of `device_count` devices.
pub fn device_choice(line: &str, device_count: usize) -> (r: DeviceChoice)
    ensures
        r == choice_of(usize_parsed(trimmed(line@)), device_count),
{
    let t = trim_text(line);
    choice_from(parse_usize(t), device_count)
}

/// The choice a typed line makes once it has been read as a number (or not).
pub fn choice_from(parsed: Option<usize>, device_count: usize) -> (r: DeviceChoice)
    ensures
        r == choice_of(parsed, device_count),
{
    match parsed {
        Some(x) => {
            if x >= device_count {
                DeviceChoice::OutOfBounds
            } else {
                DeviceChoice::Chosen(x)
            }
        },
        None => DeviceChoice::NotANumber,
    }
}

} // verus!
