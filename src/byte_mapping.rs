use vstd::prelude::*;

verus! {

/// A control character (Unicode general category Cc) has no glyph of its own.
pub open spec fn is_control(c: char) -> bool {
    (c as u32) < 0x20 || (0x7f <= (c as u32) && (c as u32) <= 0x9f)
}

/// The character shown for `byte`: the codepage's entry for it, unless the
/// codepage has no entry there or the entry is a control character.
pub open spec fn glyph(byte: u8, codepage: Seq<char>, replacement: char) -> char {
    if (byte as int) < codepage.len() && !is_control(codepage[byte as int]) {
        codepage[byte as int]
    } else {
        replacement
    }
}

/// Maps `byte` through `codepage`, falling back to `replacement`.
pub fn as_char(byte: u8, codepage: &[char], replacement: char) -> (r: char)
    ensures
        r == glyph(byte, codepage@, replacement),
{
    let idx = byte as usize;
    if idx < codepage.len() {
        let c = codepage[idx];
        let code = c as u32;
        if code < 0x20 || (0x7f <= code && code <= 0x9f) {
            replacement
        } else {
            c
        }
    } else {
        replacement
    }
}

/// Relies on `str::chars`: the characters of `s`, in order.
#[verifier::external_body]
fn chars_of(s: &str) -> (r: Vec<char>)
    ensures
        r@ == s@,
{
    s.chars().collect()
}

/// The 128 seven-bit byte values, each standing for the character of the same code.
fn seven_bit() -> (r: Vec<char>)
    ensures
        r@.len() == 128,
        forall|i: int| 0 <= i < 128 ==> (#[trigger] r@[i]) as u32 == i,
{
    let mut v: Vec<char> = Vec::new();
    let mut i: u8 = 0;
    while i < 128
        invariant
            i <= 128,
            v@.len() == i,
            forall|j: int| 0 <= j < i ==> (#[trigger] v@[j]) as u32 == j,
        decreases 128 - i,
    {
        v.push(i as char);
        i = i + 1;
    }
    v
}

/// Code page 850 (DOS Latin-1), indexed by byte value.
pub fn codepage_0850() -> (r: Vec<char>)
    ensures
        r@.len() >= 128,
        forall|i: int| 0 <= i < 128 ==> (#[trigger] r@[i]) as u32 == i,
{
    let mut v = seven_bit();
    let mut high = chars_of("ÇüéâäàåçêëèïîìÄÅÉæÆôöòûùÿÖÜø£Ø×ƒáíóúñÑªº¿®¬½¼¡«»░▒▓│┤ÁÂÀ©╣║╗╝¢¥┐└┴┬├─┼ãÃ╚╔╩╦╠═╬¤ðÐÊËÈıÍÎÏ┘┌█▄¦Ì▀ÓßÔÒõÕµþÞÚÛÙýÝ¯´\u{ad}±‗¾¶§÷¸°¨·¹³²■\u{a0}");
    v.append(&mut high);
    v
}

/// Code page 1252 (Windows Latin-1), indexed by byte value; the bytes it leaves
/// undefined stand for NUL.
pub fn codepage_1252() -> (r: Vec<char>)
    ensures
        r@.len() >= 128,
        forall|i: int| 0 <= i < 128 ==> (#[trigger] r@[i]) as u32 == i,
{
    let mut v = seven_bit();
    let mut high = chars_of("€\u{0}‚ƒ„…†‡ˆ‰Š‹Œ\u{0}Ž\u{0}\u{0}‘’“”•–—˜™š›œ\u{0}žŸ\u{a0}¡¢£¤¥¦§¨©ª«¬\u{ad}®¯°±²³´µ¶·¸¹º»¼½¾¿ÀÁÂÃÄÅÆÇÈÉÊËÌÍÎÏÐÑÒÓÔÕÖ×ØÙÚÛÜÝÞßàáâãäåæçèéêëìíîïðñòóôõö÷øùúûüýþÿ");
    v.append(&mut high);
    v
}

/// Plain ASCII: the 128 seven-bit byte values.
pub fn codepage_ascii() -> (r: Vec<char>)
    ensures
        r@.len() == 128,
        forall|i: int| 0 <= i < 128 ==> (#[trigger] r@[i]) as u32 == i,
{
    seven_bit()
}

} // verus!
