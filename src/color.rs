use vstd::prelude::*;

verus! {

/// A truecolor foreground color: red, green and blue components.
#[derive(Clone, Copy, Debug, PartialEq, Eq, Structural)]
pub struct Rgb(pub u8, pub u8, pub u8);

/// The character for a digit value below sixteen, upper case for ten and above.
pub open spec fn hex_digit(d: nat) -> char {
    if d == 0 { '0' } else if d == 1 { '1' } else if d == 2 { '2' } else if d == 3 { '3' }
    else if d == 4 { '4' } else if d == 5 { '5' } else if d == 6 { '6' } else if d == 7 { '7' }
    else if d == 8 { '8' } else if d == 9 { '9' } else if d == 10 { 'A' } else if d == 11 { 'B' }
    else if d == 12 { 'C' } else if d == 13 { 'D' } else if d == 14 { 'E' } else { 'F' }
}

/// `n` in decimal, without leading zeros.
pub open spec fn decimal(n: nat) -> Seq<char>
    decreases n,
{
    if n < 10 {
        seq![hex_digit(n)]
    } else {
        decimal(n / 10).push(hex_digit(n % 10))
    }
}

/// The ANSI sequence that sets the foreground to `c`: `ESC [ 38;2;R;G;B m`.
pub open spec fn fg_sequence(c: Rgb) -> Seq<char> {
    seq!['\x1b', '[', '3', '8', ';', '2', ';'] + decimal(c.0 as nat) + seq![';'] + decimal(c.1 as nat)
        + seq![';'] + decimal(c.2 as nat) + seq!['m']
}

/// The ANSI sequence that resets all attributes: `ESC [ m`.
pub open spec fn reset_sequence() -> Seq<char> {
    seq!['\x1b', '[', 'm']
}

/// `text` wrapped in the escape sequences for `c`, or left plain without a color.
pub open spec fn paint(c: Option<Rgb>, text: Seq<char>) -> Seq<char> {
    match c {
        Some(rgb) => fg_sequence(rgb) + text + reset_sequence(),
        None => text,
    }
}

/// Relies on termion's `color::Rgb::fg_string`: the CSI prefix, `38;2;`, the three
/// components in decimal separated by `;`, then `m`.
#[verifier::external_body]
fn fg_escape(c: Rgb) -> (r: Vec<char>)
    ensures
        r@ == fg_sequence(c),
{
    termion::color::Rgb(c.0, c.1, c.2).fg_string().chars().collect()
}

/// Relies on termion's `style::Reset`, which displays as the CSI prefix followed by `m`.
#[verifier::external_body]
fn reset_escape() -> (r: Vec<char>)
    ensures
        r@ == reset_sequence(),
{
    termion::style::Reset.to_string().chars().collect()
}

/// Appends `text` to `out`, wrapped in the escape sequences for `c` when there is one.
pub fn push_painted(out: &mut Vec<char>, c: Option<Rgb>, text: &[char])
    ensures
        final(out)@ == old(out)@ + paint(c, text@),
{
    match c {
        Some(rgb) => {
            let start = fg_escape(rgb);
            push_all(out, start.as_slice());
            push_all(out, text);
            let end = reset_escape();
            push_all(out, end.as_slice());
            proof {
                assert(out@ =~= old(out)@ + paint(c, text@));
            }
        },
        None => push_all(out, text),
    }
}

/// Appends every character of `text` to `out`.
pub fn push_all(out: &mut Vec<char>, text: &[char])
    ensures
        final(out)@ == old(out)@ + text@,
{
    let ghost start = out@;
    let mut i: usize = 0;
    while i < text.len()
        invariant
            i <= text@.len(),
            out@ == start + text@.take(i as int),
        decreases text@.len() - i,
    {
        out.push(text[i]);
        i = i + 1;
        proof {
            assert(out@ =~= start + text@.take(i as int));
        }
    }
    proof {
        assert(text@.take(i as int) =~= text@);
    }
}

} // verus!
