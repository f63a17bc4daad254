use vstd::prelude::*;
use std::ops::Range;
use crate::byte_mapping::{as_char, glyph};
use crate::color::{Rgb, hex_digit, paint, push_painted};

verus! {

/// Colors and the byte ranges (relative to the start of the data) they apply to.
pub type Colors = Vec<(Rgb, Range<usize>)>;

/// One query of a color cursor that stands at `idx` in `colors`, for the byte at
/// `pos`: the color found, if any, and where the cursor stands afterwards.
pub open spec fn step(colors: Seq<(Rgb, Range<usize>)>, idx: nat, pos: int) -> (Option<Rgb>, nat)
    decreases colors.len() - idx,
{
    if idx >= colors.len() {
        (None, idx)
    } else if colors[idx as int].1.start <= pos && pos < colors[idx as int].1.end {
        (Some(colors[idx as int].0), idx)
    } else if pos <= colors[idx as int].1.start {
        (None, idx)
    } else {
        step(colors, idx + 1, pos)
    }
}

/// The colors that a cursor standing at `idx` reports for the `n` bytes from `base`
/// on, queried in order, and where it stands afterwards.
pub open spec fn scan(colors: Seq<(Rgb, Range<usize>)>, idx: nat, base: int, n: nat) -> (Seq<Option<Rgb>>, nat)
    decreases n,
{
    if n == 0 {
        (seq![], idx)
    } else {
        let (prev, at) = scan(colors, idx, base, (n - 1) as nat);
        let (c, next) = step(colors, at, base + n - 1);
        (prev.push(c), next)
    }
}

pub proof fn lemma_scan_len(colors: Seq<(Rgb, Range<usize>)>, idx: nat, base: int, n: nat)
    ensures
        scan(colors, idx, base, n).0.len() == n,
    decreases n,
{
    if n > 0 {
        lemma_scan_len(colors, idx, base, (n - 1) as nat);
    }
}

/// A cursor over a list of color ranges, queried with increasing byte positions.
#[derive(Clone, Copy)]
pub struct ColorRange<'a> {
    pub colors: &'a Colors,
    pub offset: usize,
    pub idx: usize,
}

impl<'a> ColorRange<'a> {
    pub fn new(colors: &'a Colors) -> (r: ColorRange<'a>)
        ensures
            r.colors == colors,
            r.offset == 0,
            r.idx == 0,
    {
        ColorRange { colors: colors, offset: 0, idx: 0 }
    }

    pub fn update_offset(&mut self, offset: usize)
        ensures
            final(self).colors == old(self).colors,
            final(self).idx == old(self).idx,
            final(self).offset == offset,
    {
        self.offset = offset;
    }

    /// The color of the byte at `idx` past the cursor's offset, if a range holds it.
    pub fn get(&mut self, idx: usize) -> (r: Option<Rgb>)
        requires
            old(self).offset + idx <= usize::MAX,
            old(self).idx <= old(self).colors@.len(),
        ensures
            (r, final(self).idx as nat) == step(old(self).colors@, old(self).idx as nat, old(self).offset + idx),
            final(self).colors == old(self).colors,
            final(self).offset == old(self).offset,
            old(self).idx <= final(self).idx <= old(self).colors@.len(),
    {
        let pos = self.offset + idx;
        while self.idx < self.colors.len()
            invariant
                self.colors == old(self).colors,
                self.offset == old(self).offset,
                pos == old(self).offset + idx,
                old(self).idx <= self.idx <= self.colors@.len(),
                step(self.colors@, old(self).idx as nat, pos as int) == step(self.colors@, self.idx as nat, pos as int),
            decreases self.colors@.len() - self.idx,
        {
            let entry = &self.colors[self.idx];
            if pos >= entry.1.start && pos < entry.1.end {
                return Some(entry.0);
            } else if pos <= entry.1.start {
                return None;
            } else {
                self.idx = self.idx + 1;
            }
        }
        None
    }
}

/// The number of empty cells before the first byte of a row and after its last.
#[derive(Clone, Copy, Debug, PartialEq, Eq, Structural, Default)]
pub struct Padding {
    pub left: usize,
    pub right: usize,
}

impl Padding {
    pub fn new(left_padding: usize, right_padding: usize) -> (r: Padding)
        ensures
            r.left == left_padding,
            r.right == right_padding,
    {
        Padding { left: left_padding, right: right_padding }
    }

    pub fn from_left(left_padding: usize) -> (r: Padding)
        ensures
            r.left == left_padding,
            r.right == 0,
    {
        Padding { left: left_padding, right: 0 }
    }

    pub fn from_right(right_padding: usize) -> (r: Padding)
        ensures
            r.left == 0,
            r.right == right_padding,
    {
        Padding { left: 0, right: right_padding }
    }
}

/// A byte as two upper-case hexadecimal digits.
pub open spec fn hex_byte(b: u8) -> Seq<char> {
    seq![hex_digit((b / 16) as nat), hex_digit((b % 16) as nat)]
}

/// `n` in upper-case hexadecimal, without leading zeros.
pub open spec fn hex_digits(n: nat) -> Seq<char>
    decreases n,
{
    if n < 16 {
        seq![hex_digit(n)]
    } else {
        hex_digits(n / 16).push(hex_digit(n % 16))
    }
}

/// The address column: `a` in upper-case hexadecimal, zero-filled to eight digits
/// and wider where it needs more.
pub open spec fn address_field(a: nat) -> Seq<char> {
    let digits = hex_digits(a);
    if digits.len() < 8 {
        Seq::new((8 - digits.len()) as nat, |_i: int| '0') + digits
    } else {
        digits
    }
}

/// Cells separated by single spaces, with none before the first.
pub open spec fn joined(cells: Seq<Seq<char>>) -> Seq<char>
    decreases cells.len(),
{
    if cells.len() == 0 {
        seq![]
    } else if cells.len() == 1 {
        cells[0]
    } else {
        joined(cells.drop_last()) + seq![' '] + cells.last()
    }
}

/// Cells written one after the other.
pub open spec fn concat(cells: Seq<Seq<char>>) -> Seq<char>
    decreases cells.len(),
{
    if cells.len() == 0 {
        seq![]
    } else {
        concat(cells.drop_last()) + cells.last()
    }
}

/// `n` empty cells of the hex column.
pub open spec fn blank_cells(n: nat) -> Seq<Seq<char>> {
    Seq::new(n, |_i: int| seq![' ', ' '])
}

/// `n` spaces.
pub open spec fn spaces(n: nat) -> Seq<char> {
    Seq::new(n, |_i: int| ' ')
}

/// The cells of the hex column of a row: padding, then each byte with its color.
pub open spec fn hex_cells(bytes: Seq<u8>, cs: Seq<Option<Rgb>>, pad: Padding) -> Seq<Seq<char>> {
    blank_cells(pad.left as nat) + Seq::new(bytes.len(), |i: int| paint(cs[i], hex_byte(bytes[i])))
        + blank_cells(pad.right as nat)
}

/// The character column of a row: padding, then each byte's glyph with its color.
pub open spec fn char_column(bytes: Seq<u8>, cs: Seq<Option<Rgb>>, cp: Seq<char>, repl: char, pad: Padding) -> Seq<char> {
    spaces(pad.left as nat) + concat(Seq::new(bytes.len(), |i: int| paint(cs[i], seq![glyph(bytes[i], cp, repl)])))
        + spaces(pad.right as nat)
}

/// One rendered row, without a line break.
pub open spec fn line(address: nat, bytes: Seq<u8>, cs: Seq<Option<Rgb>>, cp: Seq<char>, repl: char, pad: Padding) -> Seq<char> {
    address_field(address) + seq![' ', ' '] + joined(hex_cells(bytes, cs, pad)) + seq![' ', ' ', '|', ' ']
        + char_column(bytes, cs, cp, repl, pad) + seq![' ', '|']
}

proof fn lemma_joined_push(cells: Seq<Seq<char>>, c: Seq<char>)
    ensures
        joined(cells.push(c)) == if cells.len() == 0 { c } else { joined(cells) + seq![' '] + c },
{
    assert(cells.push(c).drop_last() =~= cells);
    if cells.len() == 0 {
        assert(cells.push(c).len() == 1);
    }
}

proof fn lemma_concat_push(cells: Seq<Seq<char>>, c: Seq<char>)
    ensures
        concat(cells.push(c)) == concat(cells) + c,
{
    assert(cells.push(c).drop_last() =~= cells);
}

fn hex_char(d: u8) -> (r: char)
    requires
        d < 16,
    ensures
        r == hex_digit(d as nat),
{
    if d == 0 { '0' } else if d == 1 { '1' } else if d == 2 { '2' } else if d == 3 { '3' }
    else if d == 4 { '4' } else if d == 5 { '5' } else if d == 6 { '6' } else if d == 7 { '7' }
    else if d == 8 { '8' } else if d == 9 { '9' } else if d == 10 { 'A' } else if d == 11 { 'B' }
    else if d == 12 { 'C' } else if d == 13 { 'D' } else if d == 14 { 'E' } else { 'F' }
}

/// Appends the address column for `address`.
pub fn fmt_address(out: &mut Vec<char>, address: usize)
    ensures
        final(out)@ == old(out)@ + address_field(address as nat),
{
    let mut digits: Vec<char> = Vec::new();
    let mut v: usize = address;
    digits.push(hex_char((v % 16) as u8));
    proof {
        assert(hex_digits(address as nat) =~= hex_digits(v as nat / 16).push(hex_digit(v as nat % 16)) || v < 16);
    }
    while v >= 16
        invariant
            hex_digits(address as nat) == if v < 16 { digits@ } else { hex_digits(v as nat / 16) + digits@ },
            digits@.len() >= 1,
        decreases v,
    {
        let ghost old_digits = digits@;
        v = v / 16;
        digits.insert(0, hex_char((v % 16) as u8));
        proof {
            assert(digits@ =~= seq![hex_digit(v as nat % 16)] + old_digits);
            if v >= 16 {
                assert(hex_digits(v as nat) == hex_digits(v as nat / 16).push(hex_digit(v as nat % 16)));
                assert(hex_digits(v as nat / 16) + digits@ =~= hex_digits(v as nat) + old_digits);
            } else {
                assert(hex_digits(v as nat) == seq![hex_digit(v as nat)]);
                assert(v as nat % 16 == v as nat);
            }
        }
    }
    let mut k: usize = digits.len();
    let ghost start = out@;
    while k < 8
        invariant
            k <= 8 || k == digits@.len(),
            k >= digits@.len(),
            out@ == start + zeros((k - digits@.len()) as nat),
        decreases 8 - k,
    {
        out.push('0');
        k = k + 1;
        proof {
            assert(out@ =~= start + zeros((k - digits@.len()) as nat));
        }
    }
    crate::color::push_all(out, digits.as_slice());
    proof {
        if digits@.len() < 8 {
            assert(zeros((k - digits@.len()) as nat) =~= Seq::new((8 - digits@.len()) as nat, |_i: int| '0'));
        } else {
            assert(zeros((k - digits@.len()) as nat) =~= Seq::<char>::empty());
        }
        assert(out@ =~= old(out)@ + address_field(address as nat));
    }
}

spec fn zeros(n: nat) -> Seq<char> {
    Seq::new(n, |_i: int| '0')
}

/// Appends the hex column of a row, querying `color_range` for each byte in turn.
pub fn fmt_bytes_as_hex(out: &mut Vec<char>, bytes: &[u8], color_range: &mut ColorRange, padding: &Padding)
    requires
        old(color_range).offset + bytes@.len() <= usize::MAX,
        old(color_range).idx <= old(color_range).colors@.len(),
    ensures
        ({
            let (cs, at) = scan(old(color_range).colors@, old(color_range).idx as nat, old(color_range).offset as int, bytes@.len());
            &&& final(out)@ == old(out)@ + joined(hex_cells(bytes@, cs, *padding))
            &&& final(color_range).idx == at
        }),
        final(color_range).colors == old(color_range).colors,
        final(color_range).offset == old(color_range).offset,
        final(color_range).idx <= final(color_range).colors@.len(),
{
    let ghost colors = color_range.colors@;
    let ghost idx0 = color_range.idx as nat;
    let ghost base = color_range.offset as int;
    let ghost start = out@;
    let ghost mut done: Seq<Seq<char>> = seq![];
    let mut first = true;
    let mut p: usize = 0;
    while p < padding.left
        invariant
            p <= padding.left,
            color_range.colors == old(color_range).colors,
            color_range.offset == old(color_range).offset,
            color_range.idx == old(color_range).idx,
            color_range.colors@ == colors,
            color_range.idx == idx0,
            color_range.offset == base,
            color_range.idx <= colors.len(),
            done =~= blank_cells(p as nat),
            first == (done.len() == 0),
            out@ == start + joined(done),
        decreases padding.left - p,
    {
        if !first {
            out.push(' ');
        }
        out.push(' ');
        out.push(' ');
        proof {
            lemma_joined_push(done, seq![' ', ' ']);
            done = done.push(seq![' ', ' ']);
            assert(out@ =~= start + joined(done));
        }
        first = false;
        p = p + 1;
    }
    let mut i: usize = 0;
    while i < bytes.len()
        invariant
            i <= bytes@.len(),
            color_range.colors@ == colors,
            color_range.colors == old(color_range).colors,
            color_range.offset == base,
            base + bytes@.len() <= usize::MAX,
            (scan(colors, idx0, base, i as nat).1 == color_range.idx),
            color_range.idx <= colors.len(),
            done =~= blank_cells(padding.left as nat)
                + Seq::new(i as nat, |j: int| paint(scan(colors, idx0, base, i as nat).0[j], hex_byte(bytes@[j]))),
            first == (done.len() == 0),
            out@ == start + joined(done),
        decreases bytes@.len() - i,
    {
        let c = color_range.get(i);
        let b = bytes[i];
        let mut cell: Vec<char> = Vec::new();
        cell.push(hex_char(b / 16));
        cell.push(hex_char(b % 16));
        if !first {
            out.push(' ');
        }
        let ghost before = out@;
        push_painted(out, c, cell.as_slice());
        proof {
            assert(cell@ =~= hex_byte(b));
            lemma_joined_push(done, paint(c, hex_byte(b)));
            let prev = scan(colors, idx0, base, i as nat).0;
            lemma_scan_len(colors, idx0, base, i as nat);
            let next = scan(colors, idx0, base, (i + 1) as nat).0;
            assert(next =~= prev.push(c));
            assert(bytes@[i as int] == b);
            let old_done = done;
            done = done.push(paint(c, hex_byte(b)));
            assert forall|j: int| 0 <= j < i + 1 implies paint(next[j], hex_byte(bytes@[j]))
                == #[trigger] done[padding.left + j] by {
                if j < i {
                    assert(next[j] == prev[j]);
                    assert(done[padding.left + j] == old_done[padding.left + j]);
                }
            }
            assert(done =~= blank_cells(padding.left as nat)
                + Seq::new((i + 1) as nat, |j: int| paint(next[j], hex_byte(bytes@[j]))));
            assert(out@ =~= start + joined(done));
        }
        first = false;
        i = i + 1;
    }
    let ghost cs = scan(colors, idx0, base, bytes@.len()).0;
    let mut q: usize = 0;
    while q < padding.right
        invariant
            q <= padding.right,
            i == bytes@.len(),
            color_range.colors == old(color_range).colors,
            color_range.offset == old(color_range).offset,
            color_range.idx == scan(colors, idx0, base, bytes@.len()).1,
            color_range.idx <= colors.len(),
            color_range.colors@ == colors,
            done =~= blank_cells(padding.left as nat)
                + Seq::new(i as nat, |j: int| paint(cs[j], hex_byte(bytes@[j]))) + blank_cells(q as nat),
            first == (done.len() == 0),
            out@ == start + joined(done),
        decreases padding.right - q,
    {
        if !first {
            out.push(' ');
        }
        out.push(' ');
        out.push(' ');
        proof {
            lemma_joined_push(done, seq![' ', ' ']);
            done = done.push(seq![' ', ' ']);
            assert(out@ =~= start + joined(done));
        }
        first = false;
        q = q + 1;
    }
    proof {
        assert(done =~= hex_cells(bytes@, cs, *padding));
    }
}

/// Appends the character column of a row, querying `color_range` for each byte in turn.
pub fn fmt_bytes_as_char(out: &mut Vec<char>, cp: &[char], repl_char: char, bytes: &[u8], color_range: &mut ColorRange, padding: &Padding)
    requires
        old(color_range).offset + bytes@.len() <= usize::MAX,
        old(color_range).idx <= old(color_range).colors@.len(),
    ensures
        ({
            let (cs, at) = scan(old(color_range).colors@, old(color_range).idx as nat, old(color_range).offset as int, bytes@.len());
            &&& final(out)@ == old(out)@ + char_column(bytes@, cs, cp@, repl_char, *padding)
            &&& final(color_range).idx == at
        }),
        final(color_range).colors == old(color_range).colors,
        final(color_range).offset == old(color_range).offset,
        final(color_range).idx <= final(color_range).colors@.len(),
{
    let ghost colors = color_range.colors@;
    let ghost idx0 = color_range.idx as nat;
    let ghost base = color_range.offset as int;
    let ghost start = out@;
    let mut p: usize = 0;
    while p < padding.left
        invariant
            p <= padding.left,
            color_range.colors == old(color_range).colors,
            color_range.offset == old(color_range).offset,
            color_range.idx == old(color_range).idx,
            out@ == start + spaces(p as nat),
        decreases padding.left - p,
    {
        out.push(' ');
        p = p + 1;
        proof {
            assert(out@ =~= start + spaces(p as nat));
        }
    }
    let ghost mid = out@;
    let ghost mut done: Seq<Seq<char>> = seq![];
    let mut i: usize = 0;
    while i < bytes.len()
        invariant
            i <= bytes@.len(),
            color_range.colors@ == colors,
            color_range.colors == old(color_range).colors,
            color_range.offset == base,
            base + bytes@.len() <= usize::MAX,
            (scan(colors, idx0, base, i as nat).1 == color_range.idx),
            color_range.idx <= colors.len(),
            done =~= Seq::new(i as nat, |j: int| paint(scan(colors, idx0, base, i as nat).0[j], seq![glyph(bytes@[j], cp@, repl_char)])),
            out@ == mid + concat(done),
        decreases bytes@.len() - i,
    {
        let c = color_range.get(i);
        let g = as_char(bytes[i], cp, repl_char);
        let mut cell: Vec<char> = Vec::new();
        cell.push(g);
        push_painted(out, c, cell.as_slice());
        proof {
            assert(cell@ =~= seq![g]);
            lemma_concat_push(done, paint(c, seq![g]));
            let prev = scan(colors, idx0, base, i as nat).0;
            lemma_scan_len(colors, idx0, base, i as nat);
            let next = scan(colors, idx0, base, (i + 1) as nat).0;
            assert(next =~= prev.push(c));
            let old_done = done;
            done = done.push(paint(c, seq![g]));
            assert forall|j: int| 0 <= j < i + 1 implies paint(next[j], seq![glyph(bytes@[j], cp@, repl_char)])
                == #[trigger] done[j] by {
                if j < i {
                    assert(next[j] == prev[j]);
                    assert(done[j] == old_done[j]);
                }
            }
            assert(out@ =~= mid + concat(done));
        }
        i = i + 1;
    }
    let ghost cs = scan(colors, idx0, base, bytes@.len()).0;
    let ghost body = out@;
    let mut q: usize = 0;
    while q < padding.right
        invariant
            q <= padding.right,
            color_range.colors == old(color_range).colors,
            color_range.offset == old(color_range).offset,
            color_range.idx == scan(colors, idx0, base, bytes@.len()).1,
            color_range.idx <= colors.len(),
            color_range.colors@ == colors,
            out@ == body + spaces(q as nat),
        decreases padding.right - q,
    {
        out.push(' ');
        q = q + 1;
        proof {
            assert(out@ =~= body + spaces(q as nat));
        }
    }
    proof {
        assert(done =~= Seq::new(bytes@.len(), |j: int| paint(cs[j], seq![glyph(bytes@[j], cp@, repl_char)])));
        assert(out@ =~= old(out)@ + char_column(bytes@, cs, cp@, repl_char, *padding));
    }
}

/// Appends one row: the address, the hex column and the character column. Both
/// columns start from the same cursor position, so a byte gets the same color in
/// each; `color_range` is left where the hex column left it.
pub fn fmt_line(out: &mut Vec<char>, address: usize, cp: &[char], repl_char: char, bytes: &[u8], color_range: &mut ColorRange, padding: &Padding)
    requires
        old(color_range).offset + bytes@.len() <= usize::MAX,
        old(color_range).idx <= old(color_range).colors@.len(),
    ensures
        ({
            let (cs, at) = scan(old(color_range).colors@, old(color_range).idx as nat, old(color_range).offset as int, bytes@.len());
            &&& final(out)@ == old(out)@ + line(address as nat, bytes@, cs, cp@, repl_char, *padding)
            &&& final(color_range).idx == at
        }),
        final(color_range).colors == old(color_range).colors,
        final(color_range).offset == old(color_range).offset,
        final(color_range).idx <= final(color_range).colors@.len(),
{
    fmt_address(out, address);
    let mut cr = *color_range;
    out.push(' ');
    out.push(' ');
    fmt_bytes_as_hex(out, bytes, color_range, padding);
    out.push(' ');
    out.push(' ');
    out.push('|');
    out.push(' ');
    fmt_bytes_as_char(out, cp, repl_char, bytes, &mut cr, padding);
    out.push(' ');
    out.push('|');
    proof {
        let cs = scan(old(color_range).colors@, old(color_range).idx as nat, old(color_range).offset as int, bytes@.len()).0;
        assert(out@ =~= old(out)@ + line(address as nat, bytes@, cs, cp@, repl_char, *padding));
    }
}

/// How many empty cells precede the first byte so that rows start on multiples of
/// the row width.
pub open spec fn begin_padding(address_offset: nat, row_width: nat) -> nat
    recommends
        row_width > 0,
{
    address_offset % row_width
}

/// How many empty cells follow the last byte so that the last row is full.
pub open spec fn end_padding(data_size: nat, row_width: nat) -> nat
    recommends
        row_width > 0,
{
    ((row_width - data_size % row_width) as nat) % row_width
}

pub fn calculate_begin_padding(address_offset: usize, row_width: usize) -> (r: usize)
    requires
        row_width != 0,
    ensures
        r == begin_padding(address_offset as nat, row_width as nat),
        r < row_width,
        r <= address_offset,
{
    proof {
        vstd::arithmetic::div_mod::lemma_mod_decreases(address_offset as nat, row_width as nat);
    }
    address_offset % row_width
}

pub fn calculate_end_padding(data_size: usize, row_width: usize) -> (r: usize)
    requires
        row_width != 0,
    ensures
        r == end_padding(data_size as nat, row_width as nat),
        r < row_width,
        r == 0 <==> data_size % row_width == 0,
{
    proof {
        let m = data_size % row_width;
        if m > 0 {
            vstd::arithmetic::div_mod::lemma_small_mod((row_width - m) as nat, row_width as nat);
        } else {
            vstd::arithmetic::div_mod::lemma_mod_self_0(row_width as int);
        }
    }
    (row_width - data_size % row_width) % row_width
}

/// Why a view could not be rendered.
#[derive(Clone, Copy, Debug, PartialEq, Eq, Structural)]
pub enum RenderError {
    /// The row width is zero.
    ZeroRowWidth,
}

/// The configuration of a hex dump of `data`.
pub struct HexView<'a> {
    pub address_offset: usize,
    pub codepage: Vec<char>,
    pub data: &'a [u8],
    pub replacement_character: char,
    pub row_width: usize,
    pub colors: Colors,
}

/// The begin padding of a view.
pub open spec fn view_begin(v: &HexView) -> nat {
    begin_padding(v.address_offset as nat, v.row_width as nat)
}

/// The end padding of a view.
pub open spec fn view_end(v: &HexView) -> nat {
    end_padding(view_begin(v) + v.data@.len(), v.row_width as nat)
}

/// Where the row that starts at data index `start` ends; the first row is
/// shortened by the begin padding.
pub open spec fn row_end(v: &HexView, start: nat, first: bool) -> nat {
    let lim = if first { (v.row_width - view_begin(v)) as nat } else { (start + v.row_width) as nat };
    if lim < v.data@.len() { lim } else { v.data@.len() }
}

/// The padding of the row that starts at `start`.
pub open spec fn row_padding(v: &HexView, start: nat, first: bool) -> Padding {
    Padding {
        left: if first { view_begin(v) as usize } else { 0 },
        right: if row_end(v, start, first) == v.data@.len() { view_end(v) as usize } else { 0 },
    }
}

/// The address printed for the row that starts at `start`.
pub open spec fn row_address(v: &HexView, start: nat, first: bool) -> nat {
    if first { (v.address_offset - view_begin(v)) as nat } else { (v.address_offset + start) as nat }
}

/// The colors of the bytes of the row that starts at `start`, and where the
/// cursor stands after them.
pub open spec fn row_scan(v: &HexView, start: nat, first: bool, idx: nat) -> (Seq<Option<Rgb>>, nat) {
    scan(v.colors@, idx, start as int, (row_end(v, start, first) - start) as nat)
}

/// The row that starts at `start`, preceded by a line break unless it is the first.
pub open spec fn row_text(v: &HexView, start: nat, first: bool, idx: nat) -> Seq<char> {
    (if first { seq![] } else { seq!['\n'] })
        + line(row_address(v, start, first), v.data@.subrange(start as int, row_end(v, start, first) as int),
            row_scan(v, start, first, idx).0, v.codepage@, v.replacement_character, row_padding(v, start, first))
}

/// The rows from the one that starts at `start` on, each but the first of the
/// whole dump preceded by a line break, with the color cursor standing at `idx`.
pub open spec fn rows_from(v: &HexView, start: nat, first: bool, idx: nat) -> Seq<char>
    decreases v.data@.len() - start,
{
    let end = row_end(v, start, first);
    let text = row_text(v, start, first, idx);
    if start < end && end < v.data@.len() {
        text + rows_from(v, end, false, row_scan(v, start, first, idx).1)
    } else {
        text
    }
}

/// The whole dump of a view with a non-zero row width.
pub open spec fn rendered(v: &HexView) -> Seq<char> {
    rows_from(v, 0, true, 0)
}

/// Relies on `String`'s `FromIterator<char>`: the characters in order.
#[verifier::external_body]
fn string_of(chars: &Vec<char>) -> (r: String)
    ensures
        r@ == chars@,
{
    chars.iter().collect()
}

impl<'a> HexView<'a> {
    /// The characters of the dump: one line per row, rows separated by a line break.
    #[verifier::rlimit(50)]
    pub fn render_chars(&self) -> (r: Result<Vec<char>, RenderError>)
        requires
            self.address_offset + self.data@.len() <= usize::MAX,
        ensures
            self.row_width == 0 ==> r == Err::<Vec<char>, RenderError>(RenderError::ZeroRowWidth),
            self.row_width != 0 ==> r is Ok && r->Ok_0@ == rendered(self),
    {
        if self.row_width == 0 {
            return Err(RenderError::ZeroRowWidth);
        }
        let w = self.row_width;
        let len = self.data.len();
        let begin = calculate_begin_padding(self.address_offset, w);
        let end_pad = calculate_end_padding(begin + len, w);
        let mut out: Vec<char> = Vec::new();
        let mut color_range = ColorRange::new(&self.colors);
        let mut start: usize = 0;
        let mut first = true;
        let mut finished = false;
        while !finished
            invariant
                w == self.row_width,
                w > 0,
                len == self.data@.len(),
                begin == view_begin(self),
                begin <= self.address_offset,
                end_pad == view_end(self),
                self.address_offset + len <= usize::MAX,
                start <= len,
                first ==> start == 0,
                color_range.colors == &self.colors,
                color_range.idx <= self.colors@.len(),
                finished ==> out@ == rendered(self),
                !finished ==> out@ + rows_from(self, start as nat, first, color_range.idx as nat) == rendered(self),
            decreases len - start + if finished { 0int } else { 1int },
        {
            let end = if first {
                if w - begin < len { w - begin } else { len }
            } else {
                if len - start > w { start + w } else { len }
            };
            let padding = Padding::new(if first { begin } else { 0 }, if end == len { end_pad } else { 0 });
            let address = if first { self.address_offset - begin } else { self.address_offset + start };
            let ghost before = out@;
            let ghost idx = color_range.idx as nat;
            if !first {
                out.push('\n');
            }
            color_range.update_offset(start);
            let bytes = vstd::slice::slice_subrange(self.data, start, end);
            fmt_line(&mut out, address, self.codepage.as_slice(), self.replacement_character, bytes, &mut color_range, &padding);
            proof {
                assert(end == row_end(self, start as nat, first));
                assert(padding == row_padding(self, start as nat, first));
                assert(address == row_address(self, start as nat, first));
                assert(out@ =~= before + row_text(self, start as nat, first, idx));
                assert(color_range.idx == row_scan(self, start as nat, first, idx).1);
            }
            if start < end && end < len {
                start = end;
                first = false;
            } else {
                finished = true;
            }
        }
        Ok(out)
    }

    /// The dump as a string: one line per row, rows separated by a line break,
    /// no line break after the last.
    pub fn render(&self) -> (r: Result<String, RenderError>)
        requires
            self.address_offset + self.data@.len() <= usize::MAX,
        ensures
            self.row_width == 0 ==> r == Err::<String, RenderError>(RenderError::ZeroRowWidth),
            self.row_width != 0 ==> r is Ok && r->Ok_0@ == rendered(self),
    {
        match self.render_chars() {
            Ok(chars) => Ok(string_of(&chars)),
            Err(e) => Err(e),
        }
    }
}

/// The ranges are in ascending order of their start.
pub open spec fn sorted_by_start(colors: Seq<(Rgb, Range<usize>)>) -> bool {
    forall|i: int, j: int| 0 <= i <= j < colors.len() ==> colors[i].1.start <= colors[j].1.start
}

/// The same color ranges ordered by start; of two with the same start, the one
/// given first stays first.
pub fn sort_by_start(colors: Colors) -> (r: Colors)
    ensures
        sorted_by_start(r@),
        r@.to_multiset() == colors@.to_multiset(),
{
    let ghost orig = colors@;
    let mut src = colors;
    let mut out: Colors = Vec::new();
    let ghost mut i: int = 0;
    proof {
        assert(out@ =~= orig.take(0));
    }
    while src.len() > 0
        invariant
            0 <= i <= orig.len(),
            src@ == orig.subrange(i, orig.len() as int),
            sorted_by_start(out@),
            out@.to_multiset() == orig.take(i).to_multiset(),
        decreases src@.len(),
    {
        let item = src.remove(0);
        let mut p: usize = out.len();
        while p > 0 && out[p - 1].1.start > item.1.start
            invariant
                p <= out@.len(),
                forall|k: int| p <= k < out@.len() ==> out@[k].1.start > item.1.start,
            decreases p,
        {
            p = p - 1;
        }
        let ghost before = out@;
        out.insert(p, item);
        proof {
            assert(item == orig[i]);
            vstd::seq_lib::to_multiset_insert(before, p as int, item);
            assert(orig.take(i + 1) =~= orig.take(i).push(orig[i]));
            vstd::seq_lib::to_multiset_build(orig.take(i), orig[i]);
            i = i + 1;
            assert(src@ =~= orig.subrange(i, orig.len() as int));
            assert forall|a: int, b: int| 0 <= a <= b < out@.len() implies out@[a].1.start <= out@[b].1.start by {
                if a < p && b > p {
                    assert(out@[a] == before[a]);
                    assert(out@[b] == before[b - 1]);
                } else if a < p && b == p {
                    assert(out@[a] == before[a]);
                    if p > 0 {
                        assert(before[p - 1].1.start <= item.1.start);
                        assert(before[a].1.start <= before[p - 1].1.start);
                    }
                } else if a == p && b > p {
                    assert(out@[b] == before[b - 1]);
                } else if a > p {
                    assert(out@[a] == before[a - 1]);
                    assert(out@[b] == before[b - 1]);
                } else if b < p {
                    assert(out@[a] == before[a]);
                    assert(out@[b] == before[b]);
                }
            }
        }
    }
    proof {
        assert(orig.take(i) =~= orig);
    }
    out
}

impl<'a> HexView<'a> {
    /// A view of `data` at address zero, with code page 850, rows of sixteen bytes,
    /// `.` for bytes without a glyph, and no colors.
    pub fn new(data: &'a [u8]) -> (r: HexView<'a>)
        ensures
            r.address_offset == 0,
            r.codepage@.len() >= 128,
            forall|i: int| 0 <= i < 128 ==> (#[trigger] r.codepage@[i]) as u32 == i,
            r.data == data,
            r.replacement_character == '.',
            r.row_width == 16,
            r.colors@.len() == 0,
    {
        HexView {
            address_offset: 0,
            codepage: crate::byte_mapping::codepage_0850(),
            data: data,
            replacement_character: '.',
            row_width: 16,
            colors: Vec::new(),
        }
    }
}

/// Assembles a [`HexView`] setting by setting.
pub struct HexViewBuilder<'a> {
    pub hex_view: HexView<'a>,
}

impl<'a> HexViewBuilder<'a> {
    pub fn new(data: &'a [u8]) -> (r: HexViewBuilder<'a>)
        ensures
            r.hex_view.address_offset == 0,
            r.hex_view.codepage@.len() >= 128,
            forall|i: int| 0 <= i < 128 ==> (#[trigger] r.hex_view.codepage@[i]) as u32 == i,
            r.hex_view.data == data,
            r.hex_view.replacement_character == '.',
            r.hex_view.row_width == 16,
            r.hex_view.colors@.len() == 0,
    {
        HexViewBuilder { hex_view: HexView::new(data) }
    }

    /// Sets the address of the first byte.
    pub fn address_offset(self, offset: usize) -> (r: HexViewBuilder<'a>)
        ensures
            r.hex_view == (HexView { address_offset: offset, ..self.hex_view }),
    {
        let mut b = self;
        b.hex_view.address_offset = offset;
        b
    }

    /// Sets the table from byte values to characters.
    pub fn codepage(self, codepage: &[char]) -> (r: HexViewBuilder<'a>)
        ensures
            r.hex_view.codepage@ == codepage@,
            r.hex_view.address_offset == self.hex_view.address_offset,
            r.hex_view.data == self.hex_view.data,
            r.hex_view.replacement_character == self.hex_view.replacement_character,
            r.hex_view.row_width == self.hex_view.row_width,
            r.hex_view.colors == self.hex_view.colors,
    {
        let mut table: Vec<char> = Vec::new();
        crate::color::push_all(&mut table, codepage);
        let mut b = self;
        b.hex_view.codepage = table;
        b
    }

    /// Sets the character shown for bytes that the codepage gives no glyph.
    pub fn replacement_character(self, ch: char) -> (r: HexViewBuilder<'a>)
        ensures
            r.hex_view == (HexView { replacement_character: ch, ..self.hex_view }),
    {
        let mut b = self;
        b.hex_view.replacement_character = ch;
        b
    }

    /// Sets the number of bytes per row.
    pub fn row_width(self, width: usize) -> (r: HexViewBuilder<'a>)
        ensures
            r.hex_view == (HexView { row_width: width, ..self.hex_view }),
    {
        let mut b = self;
        b.hex_view.row_width = width;
        b
    }

    /// Adds each of `colors` after those added before.
    pub fn add_colors(self, colors: Colors) -> (r: HexViewBuilder<'a>)
        ensures
            r.hex_view.colors@ == self.hex_view.colors@ + colors@,
            r.hex_view.address_offset == self.hex_view.address_offset,
            r.hex_view.codepage == self.hex_view.codepage,
            r.hex_view.data == self.hex_view.data,
            r.hex_view.replacement_character == self.hex_view.replacement_character,
            r.hex_view.row_width == self.hex_view.row_width,
    {
        let mut b = self;
        let mut more = colors;
        b.hex_view.colors.append(&mut more);
        b
    }

    /// Adds `color` for the bytes in `range`.
    pub fn add_color(self, color: Rgb, range: Range<usize>) -> (r: HexViewBuilder<'a>)
        ensures
            r.hex_view.colors@ == self.hex_view.colors@.push((color, range)),
            r.hex_view.address_offset == self.hex_view.address_offset,
            r.hex_view.codepage == self.hex_view.codepage,
            r.hex_view.data == self.hex_view.data,
            r.hex_view.replacement_character == self.hex_view.replacement_character,
            r.hex_view.row_width == self.hex_view.row_width,
    {
        let mut b = self;
        b.hex_view.colors.push((color, range));
        b
    }

    /// The view, with its color ranges ordered by start.
    pub fn finish(self) -> (r: HexView<'a>)
        ensures
            sorted_by_start(r.colors@),
            r.colors@.to_multiset() == self.hex_view.colors@.to_multiset(),
            r.address_offset == self.hex_view.address_offset,
            r.codepage == self.hex_view.codepage,
            r.data == self.hex_view.data,
            r.replacement_character == self.hex_view.replacement_character,
            r.row_width == self.hex_view.row_width,
    {
        let HexViewBuilder { hex_view } = self;
        let HexView { address_offset, codepage, data, replacement_character, row_width, colors } = hex_view;
        HexView {
            address_offset,
            codepage,
            data,
            replacement_character,
            row_width,
            colors: sort_by_start(colors),
        }
    }
}

/// A cursor never moves back, and never past the end of the list: however many
/// bytes are queried, it takes at most as many steps as there are ranges.
pub proof fn lemma_scan_monotone(colors: Seq<(Rgb, Range<usize>)>, idx: nat, base: int, n: nat)
    requires
        idx <= colors.len(),
    ensures
        idx <= scan(colors, idx, base, n).1 <= colors.len(),
    decreases n,
{
    if n > 0 {
        lemma_scan_monotone(colors, idx, base, (n - 1) as nat);
        lemma_step_monotone(colors, scan(colors, idx, base, (n - 1) as nat).1, base + n - 1);
    }
}

/// One query moves a cursor forward, never past the end of the list.
pub proof fn lemma_step_monotone(colors: Seq<(Rgb, Range<usize>)>, idx: nat, pos: int)
    requires
        idx <= colors.len(),
    ensures
        idx <= step(colors, idx, pos).1 <= colors.len(),
    decreases colors.len() - idx,
{
    if idx < colors.len() {
        lemma_step_monotone(colors, idx + 1, pos);
    }
}

/// A buffer exactly one row wide, at an address on a row boundary, is one row
/// with no padding on either side.
pub proof fn lemma_full_row_is_one_line(v: &HexView)
    requires
        v.row_width > 0,
        v.data@.len() == v.row_width,
        v.address_offset % v.row_width == 0,
    ensures
        rendered(v) == line(v.address_offset as nat, v.data@, scan(v.colors@, 0, 0, v.data@.len()).0,
            v.codepage@, v.replacement_character, Padding { left: 0, right: 0 }),
{
    vstd::arithmetic::div_mod::lemma_mod_self_0(v.row_width as int);
    assert(view_end(v) == 0);
    assert(row_end(v, 0, true) == v.data@.len());
    assert(v.data@.subrange(0, v.data@.len() as int) =~= v.data@);
}

/// An address that is not on a row boundary puts the first byte `k` cells into
/// the first row, `k` being the address modulo the row width, and that row's
/// address is the boundary `k` before.
pub proof fn lemma_first_row_left_padding(v: &HexView)
    requires
        v.row_width > 0,
        v.address_offset % v.row_width != 0,
    ensures
        ({
            let k = v.address_offset % v.row_width;
            let first = row_text(v, 0, true, 0);
            &&& row_padding(v, 0, true).left == k
            &&& row_address(v, 0, true) == v.address_offset - k
            &&& first == line((v.address_offset - k) as nat, v.data@.subrange(0, row_end(v, 0, true) as int),
                    row_scan(v, 0, true, 0).0, v.codepage@, v.replacement_character, row_padding(v, 0, true))
            &&& rendered(v).take(first.len() as int) == first
        }),
{
    vstd::arithmetic::div_mod::lemma_mod_decreases(v.address_offset as nat, v.row_width as nat);
    let first = row_text(v, 0, true, 0);
    assert(first =~= seq![] + line(row_address(v, 0, true), v.data@.subrange(0, row_end(v, 0, true) as int),
        row_scan(v, 0, true, 0).0, v.codepage@, v.replacement_character, row_padding(v, 0, true)));
    assert(rendered(v).take(first.len() as int) =~= first);
}

/// Rendering is a function of the view: two views with the same settings and
/// data render to the same text.
pub proof fn lemma_render_deterministic(v: &HexView, w: &HexView)
    requires
        v.address_offset == w.address_offset,
        v.codepage@ == w.codepage@,
        v.data@ == w.data@,
        v.replacement_character == w.replacement_character,
        v.row_width == w.row_width,
        v.colors@ == w.colors@,
    ensures
        rendered(v) == rendered(w),
{
    lemma_rows_same(v, w, 0, true, 0);
}

proof fn lemma_rows_same(v: &HexView, w: &HexView, start: nat, first: bool, idx: nat)
    requires
        v.address_offset == w.address_offset,
        v.codepage@ == w.codepage@,
        v.data@ == w.data@,
        v.replacement_character == w.replacement_character,
        v.row_width == w.row_width,
        v.colors@ == w.colors@,
    ensures
        rows_from(v, start, first, idx) == rows_from(w, start, first, idx),
    decreases v.data@.len() - start,
{
    let end = row_end(v, start, first);
    if start < end && end < v.data@.len() {
        lemma_rows_same(v, w, end, false, row_scan(v, start, first, idx).1);
    }
}

/// The number of rows in the dump from the row that starts at `start` on; each of
/// them is one `row_text` of `rows_from`.
pub open spec fn row_count(v: &HexView, start: nat, first: bool) -> nat
    decreases v.data@.len() - start,
{
    let end = row_end(v, start, first);
    if start < end && end < v.data@.len() {
        1 + row_count(v, end, false)
    } else {
        1
    }
}

proof fn lemma_div_step(x: int, w: int)
    requires
        w > 0,
        x >= 0,
    ensures
        (x + w) / w == x / w + 1,
{
    vstd::arithmetic::div_mod::lemma_div_plus_one(x, w);
}

proof fn lemma_div_one(x: int, w: int)
    requires
        w > 0,
        w <= x < 2 * w,
    ensures
        x / w == 1,
{
    vstd::arithmetic::div_mod::lemma_div_plus_one(x - w, w);
    vstd::arithmetic::div_mod::lemma_basic_div(x - w, w);
}

proof fn lemma_row_count_from(v: &HexView, start: nat)
    requires
        v.row_width > 0,
        start < v.data@.len(),
    ensures
        row_count(v, start, false) == (v.data@.len() - start + v.row_width - 1) / (v.row_width as int),
    decreases v.data@.len() - start,
{
    let w = v.row_width as int;
    let x = v.data@.len() - start;
    if start + w < v.data@.len() {
        lemma_row_count_from(v, (start + w) as nat);
        lemma_div_step(x - w + w - 1, w);
    } else {
        lemma_div_one(x + w - 1, w);
    }
}

/// A non-empty buffer with begin padding `b` fills `ceil((b + len) / row_width)` rows.
pub proof fn lemma_row_count(v: &HexView)
    requires
        v.row_width > 0,
        v.data@.len() > 0,
    ensures
        row_count(v, 0, true) == (view_begin(v) + v.data@.len() + v.row_width - 1) / (v.row_width as int),
{
    let w = v.row_width as int;
    let b = view_begin(v) as int;
    let len = v.data@.len() as int;
    vstd::arithmetic::div_mod::lemma_mod_bound(v.address_offset as int, w);
    if w - b < len {
        lemma_row_count_from(v, (w - b) as nat);
        lemma_div_step(b + len - 1, w);
    } else {
        lemma_div_one(b + len + w - 1, w);
    }
}

/// Ranges that are sorted by start, non-empty and pairwise disjoint.
pub open spec fn well_formed_colors(colors: Seq<(Rgb, Range<usize>)>) -> bool {
    &&& sorted_by_start(colors)
    &&& forall|k: int| 0 <= k < colors.len() ==> (#[trigger] colors[k]).1.start < colors[k].1.end
    &&& forall|a: int, b: int| 0 <= a < b < colors.len() ==> (#[trigger] colors[a]).1.end <= (#[trigger] colors[b]).1.start
}

/// The range that holds `pos`, if any.
pub open spec fn holds(colors: Seq<(Rgb, Range<usize>)>, k: int, pos: int) -> bool {
    0 <= k < colors.len() && colors[k].1.start <= pos && pos < colors[k].1.end
}

/// The color of the range that holds `pos`, or none where no range does.
pub open spec fn color_at(colors: Seq<(Rgb, Range<usize>)>, pos: int) -> Option<Rgb> {
    if exists|k: int| holds(colors, k, pos) {
        Some(colors[choose|k: int| holds(colors, k, pos)].0)
    } else {
        None
    }
}

/// A cursor that has passed only ranges ending at or before `pos` reports for
/// `pos` the color of the range that holds it, and still has passed only ranges
/// ending at or before it.
pub proof fn lemma_step_finds(colors: Seq<(Rgb, Range<usize>)>, idx: nat, pos: int)
    requires
        well_formed_colors(colors),
        idx <= colors.len(),
        forall|k: int| 0 <= k < idx ==> (#[trigger] colors[k]).1.end <= pos,
    ensures
        step(colors, idx, pos).0 == color_at(colors, pos),
        forall|k: int| 0 <= k < step(colors, idx, pos).1 ==> (#[trigger] colors[k]).1.end <= pos,
    decreases colors.len() - idx,
{
    if idx >= colors.len() {
        assert(!exists|k: int| holds(colors, k, pos));
    } else if colors[idx as int].1.start <= pos && pos < colors[idx as int].1.end {
        assert(holds(colors, idx as int, pos));
        let k = choose|k: int| holds(colors, k, pos);
        if k != idx {
            if k < idx {
                assert(colors[k].1.end <= colors[idx as int].1.start);
            } else {
                assert(colors[idx as int].1.end <= colors[k].1.start);
            }
        }
    } else if pos <= colors[idx as int].1.start {
        assert forall|k: int| !holds(colors, k, pos) by {
            if 0 <= k < colors.len() && k > idx {
                assert(colors[idx as int].1.end <= colors[k].1.start);
            }
        }
    } else {
        lemma_step_finds(colors, idx + 1, pos);
    }
}

/// Queried with the bytes from `base` on in order, a cursor that has passed only
/// ranges ending at or before `base` reports for each byte the color of the range
/// that holds it.
pub proof fn lemma_scan_finds(colors: Seq<(Rgb, Range<usize>)>, idx: nat, base: int, n: nat)
    requires
        well_formed_colors(colors),
        idx <= colors.len(),
        forall|k: int| 0 <= k < idx ==> (#[trigger] colors[k]).1.end <= base,
    ensures
        forall|i: int| 0 <= i < n ==> (#[trigger] scan(colors, idx, base, n).0[i]) == color_at(colors, base + i),
        forall|k: int| 0 <= k < scan(colors, idx, base, n).1 ==> (#[trigger] colors[k]).1.end <= base + n,
        scan(colors, idx, base, n).1 <= colors.len(),
    decreases n,
{
    lemma_scan_len(colors, idx, base, n);
    if n > 0 {
        let m = (n - 1) as nat;
        lemma_scan_finds(colors, idx, base, m);
        lemma_scan_len(colors, idx, base, m);
        let at = scan(colors, idx, base, m).1;
        lemma_step_finds(colors, at, base + m);
        lemma_step_monotone(colors, at, base + m);
        let prev = scan(colors, idx, base, m).0;
        assert forall|i: int| 0 <= i < n implies (#[trigger] scan(colors, idx, base, n).0[i]) == color_at(colors, base + i) by {
            if i < m {
                assert(scan(colors, idx, base, n).0[i] == prev[i]);
            }
        }
    }
}

/// Every row of `rows_from(v, start, first, idx)` colors each of its bytes, in both
/// columns, with the color of the range that holds the byte's index in the data.
pub open spec fn rows_colored_by_range(v: &HexView, start: nat, first: bool, idx: nat) -> bool
    decreases v.data@.len() - start,
{
    let end = row_end(v, start, first);
    &&& forall|i: int| 0 <= i < end - start ==> (#[trigger] row_scan(v, start, first, idx).0[i]) == color_at(v.colors@, start + i)
    &&& (start < end && end < v.data@.len() ==> rows_colored_by_range(v, end, false, row_scan(v, start, first, idx).1))
}

/// With sorted, non-empty, non-overlapping color ranges, the dump colors every
/// byte with the color of the range that holds it, or not at all.
pub proof fn lemma_render_colors(v: &HexView)
    requires
        v.row_width > 0,
        well_formed_colors(v.colors@),
    ensures
        rows_colored_by_range(v, 0, true, 0),
{
    lemma_rows_colored(v, 0, true, 0);
}

proof fn lemma_rows_colored(v: &HexView, start: nat, first: bool, idx: nat)
    requires
        v.row_width > 0,
        well_formed_colors(v.colors@),
        idx <= v.colors@.len(),
        first ==> start == 0,
        forall|k: int| 0 <= k < idx ==> (#[trigger] v.colors@[k]).1.end <= start,
    ensures
        rows_colored_by_range(v, start, first, idx),
    decreases v.data@.len() - start,
{
    let end = row_end(v, start, first);
    let n = (end - start) as nat;
    if end >= start {
        lemma_scan_finds(v.colors@, idx, start as int, n);
    }
    if start < end && end < v.data@.len() {
        lemma_rows_colored(v, end, false, row_scan(v, start, first, idx).1);
    }
}

/// The number of line breaks in `s`.
pub open spec fn line_breaks(s: Seq<char>) -> nat
    decreases s.len(),
{
    if s.len() == 0 {
        0
    } else {
        line_breaks(s.drop_last()) + if s.last() == '\n' { 1nat } else { 0nat }
    }
}

/// `s` holds no line break.
pub open spec fn no_break(s: Seq<char>) -> bool {
    forall|i: int| 0 <= i < s.len() ==> s[i] != '\n'
}

proof fn lemma_breaks_add(a: Seq<char>, b: Seq<char>)
    ensures
        line_breaks(a + b) == line_breaks(a) + line_breaks(b),
    decreases b.len(),
{
    if b.len() == 0 {
        assert(a + b =~= a);
    } else {
        assert((a + b).drop_last() =~= a + b.drop_last());
        lemma_breaks_add(a, b.drop_last());
    }
}

proof fn lemma_no_break_zero(s: Seq<char>)
    requires
        no_break(s),
    ensures
        line_breaks(s) == 0,
    decreases s.len(),
{
    if s.len() > 0 {
        lemma_no_break_zero(s.drop_last());
    }
}

proof fn lemma_hex_digits_no_break(n: nat)
    ensures
        no_break(hex_digits(n)),
    decreases n,
{
    if n >= 16 {
        lemma_hex_digits_no_break(n / 16);
    }
}

proof fn lemma_decimal_no_break(n: nat)
    ensures
        no_break(crate::color::decimal(n)),
    decreases n,
{
    if n >= 10 {
        lemma_decimal_no_break(n / 10);
    }
}

proof fn lemma_paint_no_break(c: Option<Rgb>, text: Seq<char>)
    requires
        no_break(text),
    ensures
        no_break(paint(c, text)),
{
    if let Some(rgb) = c {
        lemma_decimal_no_break(rgb.0 as nat);
        lemma_decimal_no_break(rgb.1 as nat);
        lemma_decimal_no_break(rgb.2 as nat);
    }
}

proof fn lemma_joined_no_break(cells: Seq<Seq<char>>)
    requires
        forall|i: int| 0 <= i < cells.len() ==> no_break(#[trigger] cells[i]),
    ensures
        no_break(joined(cells)),
    decreases cells.len(),
{
    if cells.len() > 1 {
        lemma_joined_no_break(cells.drop_last());
    }
}

proof fn lemma_concat_no_break(cells: Seq<Seq<char>>)
    requires
        forall|i: int| 0 <= i < cells.len() ==> no_break(#[trigger] cells[i]),
    ensures
        no_break(concat(cells)),
    decreases cells.len(),
{
    if cells.len() > 0 {
        lemma_concat_no_break(cells.drop_last());
    }
}

proof fn lemma_line_no_break(address: nat, bytes: Seq<u8>, cs: Seq<Option<Rgb>>, cp: Seq<char>, repl: char, pad: Padding)
    requires
        repl != '\n',
        cs.len() == bytes.len(),
    ensures
        no_break(line(address, bytes, cs, cp, repl, pad)),
{
    lemma_hex_digits_no_break(address);
    let hc = hex_cells(bytes, cs, pad);
    assert forall|i: int| 0 <= i < hc.len() implies no_break(#[trigger] hc[i]) by {
        if pad.left <= i < pad.left + bytes.len() {
            lemma_paint_no_break(cs[i - pad.left], hex_byte(bytes[i - pad.left]));
        }
    }
    lemma_joined_no_break(hc);
    let cc = Seq::new(bytes.len(), |i: int| paint(cs[i], seq![glyph(bytes[i], cp, repl)]));
    assert forall|i: int| 0 <= i < cc.len() implies no_break(#[trigger] cc[i]) by {
        lemma_paint_no_break(cs[i], seq![glyph(bytes[i], cp, repl)]);
    }
    lemma_concat_no_break(cc);
}

proof fn lemma_rows_breaks(v: &HexView, start: nat, first: bool, idx: nat)
    requires
        v.replacement_character != '\n',
        start <= v.data@.len(),
        first ==> start == 0,
    ensures
        line_breaks(rows_from(v, start, first, idx)) + (if first { 1nat } else { 0nat }) == row_count(v, start, first),
    decreases v.data@.len() - start,
{
    let end = row_end(v, start, first);
    let l = line(row_address(v, start, first), v.data@.subrange(start as int, end as int),
        row_scan(v, start, first, idx).0, v.codepage@, v.replacement_character, row_padding(v, start, first));
    lemma_scan_len(v.colors@, idx, start as int, (end - start) as nat);
    lemma_line_no_break(row_address(v, start, first), v.data@.subrange(start as int, end as int),
        row_scan(v, start, first, idx).0, v.codepage@, v.replacement_character, row_padding(v, start, first));
    lemma_no_break_zero(l);
    let head: Seq<char> = if first { seq![] } else { seq!['\n'] };
    lemma_breaks_add(head, l);
    assert(line_breaks(head) == if first { 0nat } else { 1nat }) by {
        reveal_with_fuel(line_breaks, 2);
        if !first {
            assert(head.drop_last() =~= Seq::<char>::empty());
            assert(head.last() == '\n');
        }
    }
    if start < end && end < v.data@.len() {
        lemma_rows_breaks(v, end, false, row_scan(v, start, first, idx).1);
        lemma_breaks_add(row_text(v, start, first, idx), rows_from(v, end, false, row_scan(v, start, first, idx).1));
    }
}

/// The dump has one line per row: one line break fewer than `row_count` rows, as
/// long as the replacement character is not itself a line break.
pub proof fn lemma_row_count_in_text(v: &HexView)
    requires
        v.replacement_character != '\n',
    ensures
        line_breaks(rendered(v)) + 1 == row_count(v, 0, true),
{
    lemma_rows_breaks(v, 0, true, 0);
}

/// A non-empty buffer with begin padding `b` is dumped as
/// `ceil((b + len) / row_width)` lines.
pub proof fn lemma_line_count(v: &HexView)
    requires
        v.row_width > 0,
        v.data@.len() > 0,
        v.replacement_character != '\n',
    ensures
        line_breaks(rendered(v)) + 1 == (view_begin(v) + v.data@.len() + v.row_width - 1) / (v.row_width as int),
{
    lemma_row_count(v);
    lemma_row_count_in_text(v);
}

} // verus!
