//! Colour palettes: GIMP palette text and Photoshop swatch files.

use vstd::prelude::*;

use crate::bytes::{self, read_u16_be, write_u16_be};
use crate::converter::ConvertError;
use crate::scan::{
    self, join_ranges, line_ranges, parse_u8_range, range_string, starts_with_range, trim_range,
    word_ranges,
};
use crate::text::{self, push_aligned, push_char, push_str};

verus! {

/// A colour with an optional name.
#[derive(Debug, Clone)]
pub struct Color {
    pub name: Option<String>,
    pub r: u8,
    pub g: u8,
    pub b: u8,
}

/// A named list of colours.
#[derive(Debug, Clone)]
pub struct Palette {
    pub name: Option<String>,
    pub colors: Vec<Color>,
}

pub open spec fn name_view(n: Option<String>) -> Option<Seq<char>> {
    match n {
        Some(s) => Some(s@),
        None => None,
    }
}

/// A colour as values: name, red, green, blue.
pub type ColorModel = (Option<Seq<char>>, u8, u8, u8);

/// A palette as values: name and colours.
pub type PaletteModel = (Option<Seq<char>>, Seq<ColorModel>);

impl View for Color {
    type V = ColorModel;

    open spec fn view(&self) -> ColorModel {
        (name_view(self.name), self.r, self.g, self.b)
    }
}

pub open spec fn colors_model(cs: Seq<Color>) -> Seq<ColorModel> {
    cs.map_values(|c: Color| c@)
}

impl View for Palette {
    type V = PaletteModel;

    open spec fn view(&self) -> PaletteModel {
        (name_view(self.name), colors_model(self.colors@))
    }
}

pub open spec fn name_or_untitled(n: Option<Seq<char>>) -> Seq<char> {
    match n {
        Some(s) => s,
        None => "Untitled"@,
    }
}

/// A colour line: `r g b` right-aligned in three columns, two spaces, the name.
pub open spec fn gpl_color_line(c: ColorModel) -> Seq<char> {
    text::aligned(c.1 as nat, 3) + seq![' '] + text::aligned(c.2 as nat, 3) + seq![' ']
        + text::aligned(c.3 as nat, 3) + seq![' ', ' '] + name_or_untitled(c.0) + seq!['\n']
}

pub open spec fn gpl_color_lines(cs: Seq<ColorModel>) -> Seq<char>
    decreases cs.len(),
{
    if cs.len() == 0 {
        Seq::empty()
    } else {
        gpl_color_lines(cs.drop_last()) + gpl_color_line(cs.last())
    }
}

pub open spec fn gpl_name_line(n: Option<Seq<char>>) -> Seq<char> {
    match n {
        Some(s) => "Name: "@ + s + seq!['\n'],
        None => Seq::empty(),
    }
}

/// A palette as GIMP palette text.
pub open spec fn gpl_text(p: PaletteModel) -> Seq<char> {
    "GIMP Palette\n"@ + gpl_name_line(p.0) + "Columns: 16\n#\n"@ + gpl_color_lines(p.1)
}

fn gpl_color_string(c: &Color) -> (r: String)
    ensures
        r@ == gpl_color_line(c@),
{
    let mut out = String::new();
    push_aligned(&mut out, c.r as u64, 3);
    push_char(&mut out, ' ');
    push_aligned(&mut out, c.g as u64, 3);
    push_char(&mut out, ' ');
    push_aligned(&mut out, c.b as u64, 3);
    push_char(&mut out, ' ');
    push_char(&mut out, ' ');
    match &c.name {
        Some(n) => push_str(&mut out, n.as_str()),
        None => {
            push_str(&mut out, "Untitled");
        },
    }
    push_char(&mut out, '\n');
    proof {
        reveal_strlit("Untitled");
    }
    assert(out@ =~= gpl_color_line(c@));
    out
}

/// The palette as GIMP palette text.
pub fn serialize_gpl(palette: &Palette) -> (r: String)
    ensures
        r@ == gpl_text(palette@),
{
    let mut out = String::new();
    push_str(&mut out, "GIMP Palette\n");
    let ghost head = out@;
    match &palette.name {
        Some(n) => {
            push_str(&mut out, "Name: ");
            push_str(&mut out, n.as_str());
            push_char(&mut out, '\n');
        },
        None => {},
    }
    assert(out@ =~= head + gpl_name_line(palette@.0));
    push_str(&mut out, "Columns: 16\n#\n");
    let ghost prefix = out@;
    let mut i: usize = 0;
    while i < palette.colors.len()
        invariant
            i <= palette.colors@.len(),
            out@ == prefix + gpl_color_lines(colors_model(palette.colors@).subrange(0, i as int)),
        decreases palette.colors.len() - i,
    {
        let line = gpl_color_string(&palette.colors[i]);
        push_str(&mut out, line.as_str());
        proof {
            let cm = colors_model(palette.colors@);
            let sub = cm.subrange(0, i + 1);
            assert(sub.drop_last() =~= cm.subrange(0, i as int));
        }
        i = i + 1;
    }
    assert(colors_model(palette.colors@).subrange(0, palette.colors@.len() as int) =~= colors_model(
        palette.colors@,
    ));
    assert(out@ =~= gpl_text(palette@));
    out
}

/// The palette after reading one line of GIMP palette text: a `Name:` line
/// names it, a line of three bytes and an optional name adds a colour, any
/// other line changes nothing.
pub open spec fn gpl_step(acc: PaletteModel, line: Seq<char>) -> PaletteModel {
    let l = scan::trim(line);
    if "Name:"@.is_prefix_of(l) {
        (Some(scan::trim(l.subrange(5, l.len() as int))), acc.1)
    } else if "Columns:"@.is_prefix_of(l) || "#"@.is_prefix_of(l) || l.len() == 0 {
        acc
    } else {
        let ws = scan::words(l);
        if ws.len() >= 3 {
            match (scan::parse_u8(ws[0]), scan::parse_u8(ws[1]), scan::parse_u8(ws[2])) {
                (Some(r), Some(g), Some(b)) => {
                    let name = if ws.len() == 3 {
                        None
                    } else {
                        Some(scan::join_with(ws.subrange(3, ws.len() as int), ' '))
                    };
                    (acc.0, acc.1.push((name, r, g, b)))
                },
                _ => acc,
            }
        } else {
            acc
        }
    }
}

pub open spec fn gpl_fold(ls: Seq<Seq<char>>) -> PaletteModel
    decreases ls.len(),
{
    if ls.len() == 0 {
        (None, Seq::empty())
    } else {
        gpl_step(gpl_fold(ls.drop_last()), ls.last())
    }
}

/// The palette of GIMP palette text, if its first line is `GIMP Palette`.
pub open spec fn gpl_palette(t: Seq<char>) -> Option<PaletteModel> {
    let ls = scan::lines(t);
    let first = if ls.len() > 0 {
        scan::trim(ls[0])
    } else {
        Seq::empty()
    };
    if first != "GIMP Palette"@ {
        None
    } else {
        Some(gpl_fold(ls.subrange(1, ls.len() as int)))
    }
}

fn gpl_line(s: &Vec<char>, lo: usize, hi: usize, acc: Palette) -> (r: Palette)
    requires
        lo <= hi <= s@.len(),
    ensures
        r@ == gpl_step(acc@, s@.subrange(lo as int, hi as int)),
{
    let (a, b) = trim_range(s, lo, hi);
    let ghost l = s@.subrange(a as int, b as int);
    proof {
        reveal_strlit("Name:");
        reveal_strlit("Columns:");
        reveal_strlit("#");
    }
    if starts_with_range(s, a, b, "Name:") {
        let (n0, n1) = trim_range(s, a + 5, b);
        assert(l.subrange(5, l.len() as int) =~= s@.subrange(a + 5, b as int));
        let name = range_string(s, n0, n1);
        return Palette { name: Some(name), colors: acc.colors };
    }
    if starts_with_range(s, a, b, "Columns:") || starts_with_range(s, a, b, "#") || a == b {
        return acc;
    }
    let ws = word_ranges(s, a, b);
    let ghost wm = scan::pieces(s@, ws@);
    if ws.len() < 3 {
        return acc;
    }
    assert(wm[0] == s@.subrange(ws@[0].0 as int, ws@[0].1 as int));
    assert(wm[1] == s@.subrange(ws@[1].0 as int, ws@[1].1 as int));
    assert(wm[2] == s@.subrange(ws@[2].0 as int, ws@[2].1 as int));
    let r = parse_u8_range(s, ws[0].0, ws[0].1);
    let g = parse_u8_range(s, ws[1].0, ws[1].1);
    let bl = parse_u8_range(s, ws[2].0, ws[2].1);
    match (r, g, bl) {
        (Some(r), Some(g), Some(bl)) => {
            let name = if ws.len() == 3 {
                None
            } else {
                Some(join_ranges(s, &ws, 3, ' '))
            };
            let Palette { name: pname, mut colors } = acc;
            let ghost before = colors@;
            let c = Color { name, r, g, b: bl };
            let ghost cm = c@;
            colors.push(c);
            assert(colors_model(colors@) =~= colors_model(before).push(cm));
            Palette { name: pname, colors }
        },
        _ => acc,
    }
}

/// Parses GIMP palette text.
pub fn parse_gpl(text: &str) -> (r: Result<Palette, ConvertError>)
    ensures
        match gpl_palette(text@) {
            Some(p) => r matches Ok(pal) && pal@ == p,
            None => r matches Err(ConvertError::InvalidInput(_)),
        },
{
    let s = scan::chars_of(text);
    let ls = line_ranges(&s, 0, s.len());
    let ghost lm = scan::pieces(s@, ls@);
    assert(s@.subrange(0, s@.len() as int) =~= s@);
    let (f0, f1) = if ls.len() > 0 {
        assert(lm[0] == s@.subrange(ls@[0].0 as int, ls@[0].1 as int));
        trim_range(&s, ls[0].0, ls[0].1)
    } else {
        (0, 0)
    };
    proof {
        reveal_strlit("GIMP Palette");
    }
    let header = f1 - f0 == 12 && starts_with_range(&s, f0, f1, "GIMP Palette");
    proof {
        let first = s@.subrange(f0 as int, f1 as int);
        if header {
            assert(first =~= "GIMP Palette"@);
        } else if first == "GIMP Palette"@ {
            assert("GIMP Palette"@.is_prefix_of(first));
        }
        if ls@.len() == 0 {
            assert(first =~= Seq::<char>::empty());
        }
    }
    if !header {
        return Err(ConvertError::InvalidInput("Not a GIMP Palette file".to_string()));
    }
    let mut acc = Palette { name: None, colors: Vec::new() };
    assert(acc@ =~= gpl_fold(lm.subrange(1, 1)));
    let mut k: usize = 1;
    while k < ls.len()
        invariant
            1 <= k <= ls@.len(),
            lm == scan::pieces(s@, ls@),
            scan::ranges_within(ls@, 0, s@.len() as int),
            acc@ == gpl_fold(lm.subrange(1, k as int)),
        decreases ls.len() - k,
    {
        assert(lm[k as int] == s@.subrange(ls@[k as int].0 as int, ls@[k as int].1 as int));
        acc = gpl_line(&s, ls[k].0, ls[k].1, acc);
        proof {
            let sub = lm.subrange(1, k + 1);
            assert(sub.drop_last() =~= lm.subrange(1, k as int));
        }
        k = k + 1;
    }
    Ok(acc)
}


/// The UTF-16 code units of `c`.
pub open spec fn utf16_of_char(c: char) -> Seq<u16> {
    let v = c as u32;
    if v < 0x10000 {
        seq![v as u16]
    } else {
        let u = (v - 0x10000) as nat;
        seq![(0xd800 + u / 1024) as u16, (0xdc00 + u % 1024) as u16]
    }
}

/// The UTF-16 code units of `s`.
pub open spec fn utf16(s: Seq<char>) -> Seq<u16>
    decreases s.len(),
{
    if s.len() == 0 {
        Seq::empty()
    } else {
        utf16(s.drop_last()) + utf16_of_char(s.last())
    }
}

/// The UTF-16 code units of `s`.
pub fn encode_utf16(s: &str) -> (r: Vec<u16>)
    ensures
        r@ == utf16(s@),
{
    let cs = scan::chars_of(s);
    let mut out: Vec<u16> = Vec::new();
    let mut i: usize = 0;
    while i < cs.len()
        invariant
            i <= cs@.len(),
            cs@ == s@,
            out@ == utf16(cs@.subrange(0, i as int)),
        decreases cs.len() - i,
    {
        let v = cs[i] as u32;
        let ghost before = out@;
        if v < 0x10000 {
            out.push(v as u16);
        } else {
            let u = v - 0x10000;
            out.push((0xd800 + u / 1024) as u16);
            out.push((0xdc00 + u % 1024) as u16);
        }
        proof {
            let sub = cs@.subrange(0, i + 1);
            assert(sub.drop_last() =~= cs@.subrange(0, i as int));
            assert(out@ =~= before + utf16_of_char(cs@[i as int]));
        }
        i = i + 1;
    }
    assert(cs@.subrange(0, cs@.len() as int) =~= cs@);
    out
}

/// The text that UTF-16 code units `us` spell, if they are well formed.
pub uninterp spec fn utf16_decoding(us: Seq<u16>) -> Option<Seq<char>>;

/// Relies on `String::from_utf16`: the string of well-formed UTF-16, none otherwise.
#[verifier::external_body]
fn string_from_utf16(us: &[u16]) -> (r: Option<String>)
    ensures
        match r {
            Some(t) => utf16_decoding(us@) == Some(t@),
            None => utf16_decoding(us@) is None,
        },
{
    String::from_utf16(us).ok()
}

/// A swatch component, 0..=65535, from a byte.
pub open spec fn aco_component(v: u8) -> u16 {
    (v as nat * 256) as u16
}

fn u8_to_aco_component(v: u8) -> (r: u16)
    ensures
        r == aco_component(v),
{
    v as u16 * 256
}

/// A byte from a swatch component: its high byte.
fn aco_component_to_u8(high: u16) -> (r: u8)
    ensures
        r == high / 256,
{
    (high / 256) as u8
}

pub open spec fn units_bytes(us: Seq<u16>) -> Seq<u8>
    decreases us.len(),
{
    if us.len() == 0 {
        Seq::empty()
    } else {
        units_bytes(us.drop_last()) + bytes::be16_bytes(us.last())
    }
}

/// The name units of a colour: UTF-16 of its name (or `Untitled`), then a zero.
pub open spec fn aco_name_units(c: ColorModel) -> Seq<u16> {
    utf16(name_or_untitled(c.0)).push(0)
}

/// A version 1 entry: RGB colour space, three components, a zero.
pub open spec fn aco_v1_entry(c: ColorModel) -> Seq<u8> {
    bytes::be16_bytes(0) + bytes::be16_bytes(aco_component(c.1)) + bytes::be16_bytes(aco_component(c.2))
        + bytes::be16_bytes(aco_component(c.3)) + bytes::be16_bytes(0)
}

/// A version 2 entry: the version 1 entry, then the name as a 32-bit unit
/// count and UTF-16BE units.
pub open spec fn aco_v2_entry(c: ColorModel) -> Seq<u8> {
    aco_v1_entry(c) + bytes::be16_bytes(0) + bytes::be16_bytes(aco_name_units(c).len() as u16)
        + units_bytes(aco_name_units(c))
}

pub open spec fn aco_v1_entries(cs: Seq<ColorModel>) -> Seq<u8>
    decreases cs.len(),
{
    if cs.len() == 0 {
        Seq::empty()
    } else {
        aco_v1_entries(cs.drop_last()) + aco_v1_entry(cs.last())
    }
}

pub open spec fn aco_v2_entries(cs: Seq<ColorModel>) -> Seq<u8>
    decreases cs.len(),
{
    if cs.len() == 0 {
        Seq::empty()
    } else {
        aco_v2_entries(cs.drop_last()) + aco_v2_entry(cs.last())
    }
}

/// A swatch file: a version 1 block and a version 2 block with names.
pub open spec fn aco_bytes(cs: Seq<ColorModel>) -> Seq<u8> {
    bytes::be16_bytes(1) + bytes::be16_bytes(cs.len() as u16) + aco_v1_entries(cs) + bytes::be16_bytes(2)
        + bytes::be16_bytes(cs.len() as u16) + aco_v2_entries(cs)
}

/// The counts of a swatch file are 16-bit: the colours, and the units of each name.
pub open spec fn aco_fits(cs: Seq<ColorModel>) -> bool {
    &&& cs.len() <= u16::MAX
    &&& forall|i: int| 0 <= i < cs.len() ==> aco_name_units(#[trigger] cs[i]).len() <= u16::MAX
}

fn write_v1_entry(buf: &mut Vec<u8>, c: &Color)
    ensures
        final(buf)@ == old(buf)@ + aco_v1_entry(c@),
{
    write_u16_be(buf, 0);
    write_u16_be(buf, u8_to_aco_component(c.r));
    write_u16_be(buf, u8_to_aco_component(c.g));
    write_u16_be(buf, u8_to_aco_component(c.b));
    write_u16_be(buf, 0);
    assert(final(buf)@ =~= old(buf)@ + aco_v1_entry(c@));
}

fn write_v2_entry(buf: &mut Vec<u8>, c: &Color)
    requires
        aco_name_units(c@).len() <= u16::MAX,
    ensures
        final(buf)@ == old(buf)@ + aco_v2_entry(c@),
{
    write_v1_entry(buf, c);
    write_u16_be(buf, 0);
    let mut units = match &c.name {
        Some(n) => encode_utf16(n.as_str()),
        None => encode_utf16("Untitled"),
    };
    proof {
        reveal_strlit("Untitled");
    }
    units.push(0);
    assert(units@ == aco_name_units(c@));
    write_u16_be(buf, units.len() as u16);
    let ghost start = buf@;
    let mut k: usize = 0;
    while k < units.len()
        invariant
            k <= units@.len(),
            buf@ == start + units_bytes(units@.subrange(0, k as int)),
        decreases units.len() - k,
    {
        write_u16_be(buf, units[k]);
        proof {
            let sub = units@.subrange(0, k + 1);
            assert(sub.drop_last() =~= units@.subrange(0, k as int));
        }
        k = k + 1;
    }
    assert(units@.subrange(0, units@.len() as int) =~= units@);
    assert(final(buf)@ =~= old(buf)@ + aco_v2_entry(c@));
}

/// The palette as a Photoshop swatch file (names but not the palette's own).
pub fn serialize_aco(palette: &Palette) -> (r: Vec<u8>)
    requires
        aco_fits(palette@.1),
    ensures
        r@ == aco_bytes(palette@.1),
{
    let ghost cm = palette@.1;
    let count = palette.colors.len() as u16;
    let mut buf: Vec<u8> = Vec::new();
    write_u16_be(&mut buf, 1);
    write_u16_be(&mut buf, count);
    let ghost head = buf@;
    let mut i: usize = 0;
    while i < palette.colors.len()
        invariant
            i <= palette.colors@.len(),
            cm == colors_model(palette.colors@),
            buf@ == head + aco_v1_entries(cm.subrange(0, i as int)),
        decreases palette.colors.len() - i,
    {
        write_v1_entry(&mut buf, &palette.colors[i]);
        proof {
            let sub = cm.subrange(0, i + 1);
            assert(sub.drop_last() =~= cm.subrange(0, i as int));
        }
        i = i + 1;
    }
    assert(cm.subrange(0, cm.len() as int) =~= cm);
    write_u16_be(&mut buf, 2);
    write_u16_be(&mut buf, count);
    let ghost mid = buf@;
    let mut i: usize = 0;
    while i < palette.colors.len()
        invariant
            i <= palette.colors@.len(),
            cm == colors_model(palette.colors@),
            aco_fits(cm),
            buf@ == mid + aco_v2_entries(cm.subrange(0, i as int)),
        decreases palette.colors.len() - i,
    {
        assert(cm[i as int] == palette.colors@[i as int]@);
        write_v2_entry(&mut buf, &palette.colors[i]);
        proof {
            let sub = cm.subrange(0, i + 1);
            assert(sub.drop_last() =~= cm.subrange(0, i as int));
        }
        i = i + 1;
    }
    assert(buf@ =~= aco_bytes(cm));
    buf
}


/// Where entry `j` of the version 2 block at `v2` starts, if the entries
/// before it fit in `d`.
pub open spec fn aco_entry_start(d: Seq<u8>, v2: int, j: nat) -> Option<int>
    decreases j,
{
    if j == 0 {
        Some(v2 + 4)
    } else {
        match aco_entry_start(d, v2, (j - 1) as nat) {
            None => None,
            Some(p) => if p + 14 <= d.len() && p + 14 + 2 * bytes::be16(d, p + 12) <= d.len() {
                Some(p + 14 + 2 * bytes::be16(d, p + 12))
            } else {
                None
            },
        }
    }
}

/// The `n` big-endian units at `p`.
pub open spec fn units_at(d: Seq<u8>, p: int, n: nat) -> Seq<u16> {
    Seq::new(n, |k: int| bytes::be16(d, p + 2 * k) as u16)
}

/// `us` without its zero units.
pub open spec fn nonzero(us: Seq<u16>) -> Seq<u16>
    decreases us.len(),
{
    if us.len() == 0 {
        Seq::empty()
    } else if us.last() == 0 {
        nonzero(us.drop_last())
    } else {
        nonzero(us.drop_last()).push(us.last())
    }
}

/// The name of colour `i` in the version 2 block at `v2`.
pub open spec fn aco_name(d: Seq<u8>, v2: int, i: nat) -> Option<Seq<char>> {
    match aco_entry_start(d, v2, i) {
        None => None,
        Some(p) => if p + 14 <= d.len() && p + 14 + 2 * bytes::be16(d, p + 12) <= d.len() {
            utf16_decoding(nonzero(units_at(d, p + 14, bytes::be16(d, p + 12))))
        } else {
            None
        },
    }
}

/// Colour `i` of the version 1 block: grey (colour space 8) from its first
/// component, anything else from its first three; named from the version 2 block.
pub open spec fn aco_color(d: Seq<u8>, i: int, v2: Option<int>) -> ColorModel {
    let base = 4 + i * 10;
    let c1 = (bytes::be16(d, base + 2) / 256) as u8;
    let c2 = (bytes::be16(d, base + 4) / 256) as u8;
    let c3 = (bytes::be16(d, base + 6) / 256) as u8;
    let name = match v2 {
        Some(v) => aco_name(d, v, i as nat),
        None => None,
    };
    if bytes::be16(d, base) == 8 {
        (name, c1, c1, c1)
    } else {
        (name, c1, c2, c3)
    }
}

/// Where the version 2 block starts, if one follows the version 1 block.
pub open spec fn aco_v2_offset(d: Seq<u8>) -> Option<int> {
    let count = bytes::be16(d, 2);
    let v1 = (4 + count * 10) as int;
    if d.len() > v1 + 4 && bytes::be16(d, v1) == 2 && bytes::be16(d, v1 + 2) == count {
        Some(v1 as int)
    } else {
        None
    }
}

/// The colours of a swatch file: as many of the counted entries as fit.
pub open spec fn aco_colors(d: Seq<u8>) -> Seq<ColorModel> {
    let count = bytes::be16(d, 2);
    let fit = ((d.len() - 4) / 10) as nat;
    let n = if count < fit {
        count
    } else {
        fit
    };
    Seq::new(n, |i: int| aco_color(d, i, aco_v2_offset(d)))
}

fn read_units(data: &[u8], p: usize, n: usize) -> (r: Vec<u16>)
    requires
        p + 2 * n <= data@.len(),
    ensures
        r@ == nonzero(units_at(data@, p as int, n as nat)),
{
    let len = data.len();
    let mut out: Vec<u16> = Vec::new();
    let mut k: usize = 0;
    while k < n
        invariant
            k <= n,
            len == data@.len(),
            p + 2 * n <= data@.len(),
            out@ == nonzero(units_at(data@, p as int, k as nat)),
        decreases n - k,
    {
        assert(p + 2 * k + 1 < data@.len());
        let u = data[p + 2 * k] as u16 * 256 + data[p + 2 * k + 1] as u16;
        proof {
            assert(units_at(data@, p as int, (k + 1) as nat).drop_last() =~= units_at(data@, p as int, k as nat));
        }
        if u != 0 {
            out.push(u);
        }
        k = k + 1;
    }
    out
}

proof fn lemma_start_none(d: Seq<u8>, v2: int, j: nat, i: nat)
    requires
        j <= i,
        aco_entry_start(d, v2, j) is None,
    ensures
        aco_entry_start(d, v2, i) is None,
    decreases i - j,
{
    if j < i {
        lemma_start_none(d, v2, j, (i - 1) as nat);
    }
}

fn aco_name_exec(data: &[u8], v2: usize, i: usize) -> (r: Option<String>)
    requires
        v2 + 4 <= data@.len(),
    ensures
        name_view(r) == aco_name(data@, v2 as int, i as nat),
{
    let len = data.len();
    let mut pos = v2 + 4;
    let mut j: usize = 0;
    loop
        invariant
            j <= i,
            len == data@.len(),
            pos <= data@.len(),
            aco_entry_start(data@, v2 as int, j as nat) == Some(pos as int),
        decreases i - j,
    {
        if len - pos < 14 {
            proof {
                if j < i {
                    assert(aco_entry_start(data@, v2 as int, (j + 1) as nat) is None);
                    lemma_start_none(data@, v2 as int, (j + 1) as nat, i as nat);
                }
            }
            return None;
        }
        let nl = match read_u16_be(data, pos + 12) {
            Some(v) => v as usize,
            None => return None,
        };
        if len - (pos + 14) < 2 * nl {
            proof {
                if j < i {
                    assert(aco_entry_start(data@, v2 as int, (j + 1) as nat) is None);
                    lemma_start_none(data@, v2 as int, (j + 1) as nat, i as nat);
                }
            }
            return None;
        }
        if j == i {
            let units = read_units(data, pos + 14, nl);
            let r = string_from_utf16(units.as_slice());
            return match r {
                Some(t) => Some(t),
                None => None,
            };
        }
        pos = pos + 14 + 2 * nl;
        assert(aco_entry_start(data@, v2 as int, (j + 1) as nat) == Some(pos as int));
        j = j + 1;
    }
}

/// Parses a Photoshop swatch file: its version 1 colours, named from its
/// version 2 block when one follows.
pub fn parse_aco(data: &[u8]) -> (r: Result<Palette, ConvertError>)
    ensures
        data@.len() < 4 ==> r matches Err(ConvertError::InvalidInput(_)),
        data@.len() >= 4 ==> (r matches Ok(p) && p@ == (None::<Seq<char>>, aco_colors(data@))),
{
    if data.len() < 4 {
        return Err(ConvertError::InvalidInput("ACO file too short".to_string()));
    }
    let count = match read_u16_be(data, 2) {
        Some(c) => c as usize,
        None => return Err(ConvertError::InvalidInput("ACO file too short".to_string())),
    };
    let v1_size = 4 + count * 10;
    let v2: Option<usize> = if data.len() > v1_size + 4 {
        let ver = read_u16_be(data, v1_size);
        let cnt = read_u16_be(data, v1_size + 2);
        if ver == Some(2u16) && cnt == Some(count as u16) {
            Some(v1_size)
        } else {
            None
        }
    } else {
        None
    };
    assert(v2 matches Some(v) ==> aco_v2_offset(data@) == Some(v as int));
    assert(v2 is None ==> aco_v2_offset(data@) is None);
    let ghost want = aco_colors(data@);
    let mut colors: Vec<Color> = Vec::new();
    let mut i: usize = 0;
    while i < count && 4 + i * 10 + 10 <= data.len()
        invariant
            i <= count,
            count == bytes::be16(data@, 2),
            4 <= data@.len(),
            v2 matches Some(v) ==> v + 4 <= data@.len() && aco_v2_offset(data@) == Some(v as int),
            v2 is None ==> aco_v2_offset(data@) is None,
            4 + i * 10 <= data@.len(),
            colors_model(colors@) == Seq::new(i as nat, |k: int| aco_color(data@, k, aco_v2_offset(data@))),
        decreases count - i,
    {
        let base = 4 + i * 10;
        let space = data[base] as u16 * 256 + data[base + 1] as u16;
        let c1 = aco_component_to_u8(data[base + 2] as u16 * 256 + data[base + 3] as u16);
        let c2 = aco_component_to_u8(data[base + 4] as u16 * 256 + data[base + 5] as u16);
        let c3 = aco_component_to_u8(data[base + 6] as u16 * 256 + data[base + 7] as u16);
        let name = match v2 {
            Some(v) => aco_name_exec(data, v, i),
            None => None,
        };
        let c = if space == 8 {
            Color { name, r: c1, g: c1, b: c1 }
        } else {
            Color { name, r: c1, g: c2, b: c3 }
        };
        let ghost before = colors_model(colors@);
        let ghost cm = c@;
        assert(cm == aco_color(data@, i as int, aco_v2_offset(data@)));
        colors.push(c);
        assert(colors_model(colors@) =~= before.push(cm));
        assert(before.push(cm) =~= Seq::new((i + 1) as nat, |k: int| aco_color(data@, k, aco_v2_offset(data@))));
        i = i + 1;
    }
    assert(colors_model(colors@) =~= want);
    Ok(Palette { name: None, colors })
}

} // verus!
