//! The four-character tags that name codecs and metadata.

use vstd::prelude::*;
use crate::utils::{hex_digit, hex_digit_char, push_char};

pub mod metadata;

verus! {

/// Huffman: `huff`.
pub const CHD_CODEC_HUFF: u32 = 0x68756666;

/// FLAC: `flac`.
pub const CHD_CODEC_FLAC: u32 = 0x666c6163;

/// LZMA: `lzma`.
pub const CHD_CODEC_LZMA: u32 = 0x6c7a6d61;

/// Raw DEFLATE: `zlib`.
pub const CHD_CODEC_ZLIB: u32 = 0x7a6c6962;

/// CD frames with FLAC: `cdfl`.
pub const CHD_CODEC_CD_FLAC: u32 = 0x6364666c;

/// CD frames with LZMA: `cdlz`.
pub const CHD_CODEC_CD_LZMA: u32 = 0x63646c7a;

/// CD frames with raw DEFLATE: `cdzl`.
pub const CHD_CODEC_CD_ZLIB: u32 = 0x63647a6c;

/// The tag of four characters: the first in the highest byte.
pub open spec fn tag_of(data: [char; 4]) -> u32 {
    (data[0] as u32) << 24 | (data[1] as u32) << 16 | (data[2] as u32) << 8 | data[3] as u32
}

/// The tag that four characters spell.
pub fn make_tag(data: [char; 4]) -> (tag: u32)
    ensures
        tag == tag_of(data),
{
    (data[0] as u32) << 24 | (data[1] as u32) << 16 | (data[2] as u32) << 8 | data[3] as u32
}

/// The character that shows one byte of a tag: the byte itself where it is
/// ASCII, a question mark otherwise.
pub open spec fn tag_char(b: nat) -> char {
    if b < 128 {
        b as u8 as char
    } else {
        '?'
    }
}

/// `n` spaces.
pub open spec fn spaces(n: nat) -> Seq<char> {
    Seq::new(n, |i: int| ' ')
}

/// A number in lower-case hexadecimal without leading zeros, set to the
/// right of a field of `width` characters and padded with spaces.
pub open spec fn hex_field(v: nat, width: nat) -> Seq<char>
    decreases width,
{
    if width == 0 {
        Seq::empty()
    } else if v < 16 {
        spaces((width - 1) as nat).push(hex_digit(v))
    } else {
        hex_field(v / 16, (width - 1) as nat).push(hex_digit(v % 16))
    }
}

/// The text for a tag: its four characters, a space, and in parentheses
/// its number in hexadecimal, in a field of 8.
pub open spec fn tag_text(tag: u32) -> Seq<char> {
    seq![
        tag_char(tag as nat / 0x100_0000),
        tag_char(tag as nat / 0x1_0000 % 256),
        tag_char(tag as nat / 0x100 % 256),
        tag_char(tag as nat % 256),
        ' ',
        '(',
    ] + hex_field(tag as nat, 8) + seq![')']
}

/// The character for one byte of a tag.
fn tag_char_of(b: u8) -> (c: char)
    ensures
        c == tag_char(b as nat),
{
    if b < 128 {
        b as char
    } else {
        '?'
    }
}

/// Appends `v` in a field of `width` characters.
fn push_hex_field(s: &mut String, v: u32, width: u8)
    ensures
        final(s)@ == old(s)@ + hex_field(v as nat, width as nat),
    decreases width,
{
    if width == 0 {
        assert(s@ =~= old(s)@ + hex_field(v as nat, 0));
    } else if v < 16 {
        let mut i: u8 = 1;
        while i < width
            invariant
                1 <= i <= width,
                s@ == old(s)@ + spaces((i - 1) as nat),
            decreases width - i,
        {
            push_char(s, ' ');
            assert(s@ =~= old(s)@ + spaces(i as nat));
            i += 1;
        }
        push_char(s, hex_digit_char(v as u8));
        assert(s@ =~= old(s)@ + hex_field(v as nat, width as nat));
    } else {
        push_hex_field(s, v / 16, width - 1);
        push_char(s, hex_digit_char((v % 16) as u8));
        assert(s@ =~= old(s)@ + hex_field(v as nat, width as nat));
    }
}

/// A tag as text, such as `huff (68756666)`.
pub fn tag_string(tag: u32) -> (s: String)
    ensures
        s@ == tag_text(tag),
{
    let mut s = String::new();
    push_char(&mut s, tag_char_of((tag / 0x100_0000) as u8));
    push_char(&mut s, tag_char_of((tag / 0x1_0000 % 256) as u8));
    push_char(&mut s, tag_char_of((tag / 0x100 % 256) as u8));
    push_char(&mut s, tag_char_of((tag % 256) as u8));
    push_char(&mut s, ' ');
    push_char(&mut s, '(');
    let ghost head = s@;
    push_hex_field(&mut s, tag, 8);
    push_char(&mut s, ')');
    assert(s@ =~= tag_text(tag));
    s
}

} // verus!
