use vstd::prelude::*;

verus! {

/// The bytes that echo a received byte on the console: a backspace erases the
/// last character (back, space, back), a line feed or a carriage return
/// starts a new line, and any other byte is written as the character with
/// that code point, in UTF-8.
pub open spec fn echo_spec(c: u8) -> Seq<u8> {
    if c == 8 {
        seq![8u8, 32u8, 8u8]
    } else if c == 10 || c == 13 {
        seq![13u8, 10u8]
    } else if c < 128 {
        seq![c]
    } else {
        seq![(0xC0 + c / 64) as u8, (0x80 + c % 64) as u8]
    }
}

/// The bytes to write to the console when `c` is received.
pub fn echo(c: u8) -> (r: Vec<u8>)
    ensures
        r@ == echo_spec(c),
{
    if c == 8 {
        vec![8u8, 32u8, 8u8]
    } else if c == 10 || c == 13 {
        vec![13u8, 10u8]
    } else if c < 128 {
        vec![c]
    } else {
        vec![0xC0u8 + c / 64, 0x80u8 + c % 64]
    }
}

} // verus!
