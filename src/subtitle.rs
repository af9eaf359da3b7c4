//! Subtitles: SubRip (SRT), WebVTT and SubViewer (SBV) texts.

use vstd::prelude::*;

use crate::converter::{self, ConvertError, ConvertOutput, Converter, ConverterDecl, DeclModel};
use crate::properties::{self, EntriesModel, Properties, ValueModel};
use crate::registry::{RegisterError, Registry};
use crate::scan::{
    self, first_word_range, find_in, join_ranges, line_ranges, parse_u64_range, split_ranges,
    trim_range,
};
use crate::text::{self, push_char, push_digits, push_padded, push_str};

verus! {

/// One cue. Times are in milliseconds.
#[derive(Debug, Clone)]
pub struct Subtitle {
    /// Sequence number, where the format has one.
    pub index: Option<u64>,
    pub start: u64,
    pub end: u64,
    /// The cue's text; lines separated by `\n`.
    pub text: String,
}

/// A list of cues.
#[derive(Debug, Clone)]
pub struct SubtitleFile {
    pub entries: Vec<Subtitle>,
}

/// Hours, minutes, seconds and milliseconds of `t` milliseconds.
pub open spec fn clock_parts(t: nat) -> (nat, nat, nat, nat) {
    (t / 1000 / 60 / 60, t / 1000 / 60 % 60, t / 1000 % 60, t % 1000)
}

/// `h:mm:ss` + `sep` + `mmm`, hours padded to `hour_width` digits.
pub open spec fn timestamp(t: nat, hour_width: nat, sep: char) -> Seq<char> {
    let (h, m, s, ms) = clock_parts(t);
    text::padded(h, hour_width) + seq![':'] + text::padded(m, 2) + seq![':'] + text::padded(s, 2)
        + seq![sep] + text::padded(ms, 3)
}

/// `HH:MM:SS,mmm`
pub open spec fn srt_timestamp(t: nat) -> Seq<char> {
    timestamp(t, 2, ',')
}

/// `HH:MM:SS.mmm`
pub open spec fn vtt_timestamp(t: nat) -> Seq<char> {
    timestamp(t, 2, '.')
}

/// `H:MM:SS.mmm`
pub open spec fn sbv_timestamp(t: nat) -> Seq<char> {
    timestamp(t, 1, '.')
}

pub open spec fn arrow() -> Seq<char> {
    seq![' ', '-', '-', '>', ' ']
}

pub open spec fn blank_line() -> Seq<char> {
    seq!['\n', '\n']
}

/// The SRT block of cue `e` at position `i`: its index (or `i + 1`), its
/// times, its text.
pub open spec fn srt_block(i: nat, c: CueModel) -> Seq<char> {
    let index = match c.0 {
        Some(n) => n as nat,
        None => i + 1,
    };
    text::digits(index) + seq!['\n'] + srt_timestamp(c.1 as nat) + arrow() + srt_timestamp(
        c.2 as nat,
    ) + seq!['\n'] + c.3 + blank_line()
}

pub open spec fn srt_text(es: Seq<CueModel>) -> Seq<char>
    decreases es.len(),
{
    if es.len() == 0 {
        Seq::empty()
    } else {
        srt_text(es.drop_last()) + srt_block((es.len() - 1) as nat, es.last())
    }
}

pub open spec fn vtt_block(c: CueModel) -> Seq<char> {
    vtt_timestamp(c.1 as nat) + arrow() + vtt_timestamp(c.2 as nat) + seq!['\n'] + c.3 + blank_line()
}

pub open spec fn vtt_cues(es: Seq<CueModel>) -> Seq<char>
    decreases es.len(),
{
    if es.len() == 0 {
        Seq::empty()
    } else {
        vtt_cues(es.drop_last()) + vtt_block(es.last())
    }
}

pub open spec fn vtt_header() -> Seq<char> {
    seq!['W', 'E', 'B', 'V', 'T', 'T', '\n', '\n']
}

pub open spec fn sbv_block(c: CueModel) -> Seq<char> {
    sbv_timestamp(c.1 as nat) + seq![','] + sbv_timestamp(c.2 as nat) + seq!['\n'] + c.3 + blank_line()
}

pub open spec fn sbv_text(es: Seq<CueModel>) -> Seq<char>
    decreases es.len(),
{
    if es.len() == 0 {
        Seq::empty()
    } else {
        sbv_text(es.drop_last()) + sbv_block(es.last())
    }
}

fn push_timestamp(s: &mut String, t: u64, hour_width: usize, sep: char)
    ensures
        final(s)@ == old(s)@ + timestamp(t as nat, hour_width as nat, sep),
{
    let total_sec = t / 1000;
    let total_min = total_sec / 60;
    push_padded(s, total_min / 60, hour_width);
    push_char(s, ':');
    push_padded(s, total_min % 60, 2);
    push_char(s, ':');
    push_padded(s, total_sec % 60, 2);
    push_char(s, sep);
    push_padded(s, t % 1000, 3);
    assert(final(s)@ =~= old(s)@ + timestamp(t as nat, hour_width as nat, sep));
}

fn push_arrow(s: &mut String)
    ensures
        final(s)@ == old(s)@ + arrow(),
{
    let ghost start = s@;
    push_str(s, " --> ");
    proof {
        reveal_strlit(" --> ");
        assert(s@ =~= start + arrow());
    }
}

fn push_blank_line(s: &mut String)
    ensures
        final(s)@ == old(s)@ + blank_line(),
{
    push_char(s, '\n');
    push_char(s, '\n');
    assert(final(s)@ =~= old(s)@ + blank_line());
}

fn srt_block_string(i: usize, e: &Subtitle) -> (r: String)
    requires
        i < usize::MAX,
    ensures
        r@ == srt_block(i as nat, e@),
{
    let index = match e.index {
        Some(n) => n,
        None => (i as u64) + 1,
    };
    let mut out = String::new();
    push_digits(&mut out, index);
    push_char(&mut out, '\n');
    push_timestamp(&mut out, e.start, 2, ',');
    push_arrow(&mut out);
    push_timestamp(&mut out, e.end, 2, ',');
    push_char(&mut out, '\n');
    push_str(&mut out, e.text.as_str());
    push_blank_line(&mut out);
    assert(out@ =~= srt_block(i as nat, e@));
    out
}

fn vtt_block_string(e: &Subtitle) -> (r: String)
    ensures
        r@ == vtt_block(e@),
{
    let mut out = String::new();
    push_timestamp(&mut out, e.start, 2, '.');
    push_arrow(&mut out);
    push_timestamp(&mut out, e.end, 2, '.');
    push_char(&mut out, '\n');
    push_str(&mut out, e.text.as_str());
    push_blank_line(&mut out);
    assert(out@ =~= vtt_block(e@));
    out
}

fn sbv_block_string(e: &Subtitle) -> (r: String)
    ensures
        r@ == sbv_block(e@),
{
    let mut out = String::new();
    push_timestamp(&mut out, e.start, 1, '.');
    push_char(&mut out, ',');
    push_timestamp(&mut out, e.end, 1, '.');
    push_char(&mut out, '\n');
    push_str(&mut out, e.text.as_str());
    push_blank_line(&mut out);
    assert(out@ =~= sbv_block(e@));
    out
}

/// The file as SRT: numbered blocks separated by blank lines.
pub fn serialize_srt(file: &SubtitleFile) -> (r: String)
    ensures
        r@ == srt_text(cues_of(file.entries@)),
{
    let mut out = String::new();
    let mut i: usize = 0;
    while i < file.entries.len()
        invariant
            i <= file.entries.len(),
            out@ == srt_text(cues_of(file.entries@).subrange(0, i as int)),
        decreases file.entries.len() - i,
    {
        let block = srt_block_string(i, &file.entries[i]);
        push_str(&mut out, block.as_str());
        proof {
            let sub = cues_of(file.entries@).subrange(0, i + 1);
            assert(sub.drop_last() =~= cues_of(file.entries@).subrange(0, i as int));
        }
        i = i + 1;
    }
    assert(cues_of(file.entries@).subrange(0, file.entries.len() as int) =~= cues_of(file.entries@));
    out
}

/// The file as WebVTT: the `WEBVTT` header, then one block per cue.
pub fn serialize_vtt(file: &SubtitleFile) -> (r: String)
    ensures
        r@ == vtt_header() + vtt_cues(cues_of(file.entries@)),
{
    let mut out = String::new();
    push_str(&mut out, "WEBVTT");
    push_blank_line(&mut out);
    proof {
        reveal_strlit("WEBVTT");
        assert(out@ =~= vtt_header() + vtt_cues(cues_of(file.entries@).subrange(0, 0)));
    }
    let mut i: usize = 0;
    while i < file.entries.len()
        invariant
            i <= file.entries.len(),
            out@ == vtt_header() + vtt_cues(cues_of(file.entries@).subrange(0, i as int)),
        decreases file.entries.len() - i,
    {
        let block = vtt_block_string(&file.entries[i]);
        let ghost before = out@;
        push_str(&mut out, block.as_str());
        proof {
            let sub = cues_of(file.entries@).subrange(0, i + 1);
            assert(sub.drop_last() =~= cues_of(file.entries@).subrange(0, i as int));
            assert(out@ =~= vtt_header() + vtt_cues(sub));
        }
        i = i + 1;
    }
    assert(cues_of(file.entries@).subrange(0, file.entries.len() as int) =~= cues_of(file.entries@));
    out
}

/// The file as SBV: `start,end` lines, each followed by its text and a blank line.
pub fn serialize_sbv(file: &SubtitleFile) -> (r: String)
    ensures
        r@ == sbv_text(cues_of(file.entries@)),
{
    let mut out = String::new();
    let mut i: usize = 0;
    while i < file.entries.len()
        invariant
            i <= file.entries.len(),
            out@ == sbv_text(cues_of(file.entries@).subrange(0, i as int)),
        decreases file.entries.len() - i,
    {
        let block = sbv_block_string(&file.entries[i]);
        push_str(&mut out, block.as_str());
        proof {
            let sub = cues_of(file.entries@).subrange(0, i + 1);
            assert(sub.drop_last() =~= cues_of(file.entries@).subrange(0, i as int));
        }
        i = i + 1;
    }
    assert(cues_of(file.entries@).subrange(0, file.entries.len() as int) =~= cues_of(file.entries@));
    out
}


/// A cue as values: index, start, end (milliseconds), text.
pub type CueModel = (Option<u64>, u64, u64, Seq<char>);

impl View for Subtitle {
    type V = CueModel;

    open spec fn view(&self) -> CueModel {
        (self.index, self.start, self.end, self.text@)
    }
}

pub open spec fn cues_of(es: Seq<Subtitle>) -> Seq<CueModel> {
    es.map_values(|e: Subtitle| e@)
}

/// `h` hours, `m` minutes, `s` seconds and `ms` milliseconds, if that fits.
pub open spec fn clock_ms(h: nat, m: nat, s: nat, ms: nat) -> Option<u64> {
    let t = h * 3600000 + m * 60000 + s * 1000 + ms;
    if t <= u64::MAX {
        Some(t as u64)
    } else {
        None
    }
}

/// A timestamp `h:m:s` + `sep` + `ms`, blanks around it ignored; with `short`
/// also `m:s` + `sep` + `ms`.
pub open spec fn parse_timestamp(s: Seq<char>, sep: char, short: bool) -> Option<u64> {
    let t = scan::trim(s);
    match scan::find(t, seq![sep]) {
        None => None,
        Some(i) => {
            let ms = scan::parse_u64(scan::trim(t.subrange(i + 1, t.len() as int)));
            let parts = scan::split(scan::trim(t.subrange(0, i)), seq![':']);
            if ms is None {
                None
            } else if parts.len() == 3 {
                match (scan::parse_u64(parts[0]), scan::parse_u64(parts[1]), scan::parse_u64(parts[2])) {
                    (Some(h), Some(m), Some(x)) => clock_ms(h as nat, m as nat, x as nat, ms->0 as nat),
                    _ => None,
                }
            } else if short && parts.len() == 2 {
                match (scan::parse_u64(parts[0]), scan::parse_u64(parts[1])) {
                    (Some(m), Some(x)) => clock_ms(0, m as nat, x as nat, ms->0 as nat),
                    _ => None,
                }
            } else {
                None
            }
        },
    }
}

fn clock_ms_exec(h: u64, m: u64, s: u64, ms: u64) -> (r: Option<u64>)
    ensures
        r == clock_ms(h as nat, m as nat, s as nat, ms as nat),
{
    let a = match h.checked_mul(3600000) {
        Some(x) => x,
        None => return None,
    };
    let b = match m.checked_mul(60000) {
        Some(x) => x,
        None => return None,
    };
    let c = match s.checked_mul(1000) {
        Some(x) => x,
        None => return None,
    };
    let ab = match a.checked_add(b) {
        Some(x) => x,
        None => return None,
    };
    let abc = match ab.checked_add(c) {
        Some(x) => x,
        None => return None,
    };
    abc.checked_add(ms)
}

fn parse_timestamp_range(s: &Vec<char>, lo: usize, hi: usize, sep: char, short: bool) -> (r: Option<u64>)
    requires
        lo <= hi <= s@.len(),
    ensures
        r == parse_timestamp(s@.subrange(lo as int, hi as int), sep, short),
{
    let ghost whole = s@.subrange(lo as int, hi as int);
    let (t0, t1) = trim_range(s, lo, hi);
    let ghost t = s@.subrange(t0 as int, t1 as int);
    let mut sep_pat: Vec<char> = Vec::new();
    sep_pat.push(sep);
    assert(sep_pat@ =~= seq![sep]);
    let i = match find_in(s, t0, t1, &sep_pat) {
        Some(i) => i,
        None => return None,
    };
    assert(scan::find(t, seq![sep]) == Some(i - t0));
    assert(t == scan::trim(whole));
    let (m0, m1) = trim_range(s, i + 1, t1);
    let (p0, p1) = trim_range(s, t0, i);
    proof {
        assert(t.subrange(i + 1 - t0, t.len() as int) =~= s@.subrange(i + 1, t1 as int));
        assert(t.subrange(0, i - t0) =~= s@.subrange(t0 as int, i as int));
    }
    let ghost msv = scan::parse_u64(scan::trim(t.subrange(i + 1 - t0, t.len() as int)));
    assert(s@.subrange(m0 as int, m1 as int) == scan::trim(t.subrange(i + 1 - t0, t.len() as int)));
    let ms = match parse_u64_range(s, m0, m1) {
        Some(x) => x,
        None => {
            assert(msv is None);
            return None;
        },
    };
    let mut colon: Vec<char> = Vec::new();
    colon.push(':');
    assert(colon@ =~= seq![':']);
    let parts = split_ranges(s, p0, p1, &colon);
    let ghost pm = scan::split(s@.subrange(p0 as int, p1 as int), seq![':']);
    assert(parts@.len() == pm.len());
    if parts.len() == 3 {
        assert(pm[0] == s@.subrange(parts@[0].0 as int, parts@[0].1 as int));
        assert(pm[1] == s@.subrange(parts@[1].0 as int, parts@[1].1 as int));
        assert(pm[2] == s@.subrange(parts@[2].0 as int, parts@[2].1 as int));
        let h = parse_u64_range(s, parts[0].0, parts[0].1);
        let m = parse_u64_range(s, parts[1].0, parts[1].1);
        let x = parse_u64_range(s, parts[2].0, parts[2].1);
        match (h, m, x) {
            (Some(h), Some(m), Some(x)) => clock_ms_exec(h, m, x, ms),
            _ => None,
        }
    } else if short && parts.len() == 2 {
        assert(pm[0] == s@.subrange(parts@[0].0 as int, parts@[0].1 as int));
        assert(pm[1] == s@.subrange(parts@[1].0 as int, parts@[1].1 as int));
        let m = parse_u64_range(s, parts[0].0, parts[0].1);
        let x = parse_u64_range(s, parts[1].0, parts[1].1);
        match (m, x) {
            (Some(m), Some(x)) => clock_ms_exec(0, m, x, ms),
            _ => None,
        }
    } else {
        None
    }
}


pub open spec fn arrow_pat() -> Seq<char> {
    seq!['-', '-', '>']
}

pub open spec fn contains_arrow(t: Seq<char>) -> bool {
    scan::find(t, arrow_pat()) is Some
}

/// The end time field: the first word after the arrow, or all of it when it has none.
pub open spec fn end_field(rest: Seq<char>) -> Seq<char> {
    match scan::first_word(rest) {
        Some(w) => w,
        None => scan::trim(rest),
    }
}

/// A timing line `start --> end [settings]`, as start and end times.
pub open spec fn timing(t: Seq<char>, sep: char, short: bool) -> Option<(u64, u64)> {
    match scan::find(t, arrow_pat()) {
        None => None,
        Some(i) => match (
            parse_timestamp(t.subrange(0, i), sep, short),
            parse_timestamp(end_field(t.subrange(i + 3, t.len() as int)), sep, short),
        ) {
            (Some(a), Some(z)) => Some((a, z)),
            _ => None,
        },
    }
}

/// An SRT block: an optional index line, a timing line, then text lines. A
/// block with no text whose start equals its end is no cue.
#[verifier::opaque]
pub open spec fn srt_cue(block: Seq<char>) -> Option<CueModel> {
    let b = scan::trim(block);
    let ls = scan::lines(b);
    if b.len() == 0 || ls.len() == 0 {
        None
    } else {
        let first = scan::trim(ls[0]);
        let head: Option<(Option<u64>, Seq<char>, int)> = match scan::parse_u64(first) {
            Some(n) => if ls.len() >= 2 {
                Some((Some(n), scan::trim(ls[1]), 2int))
            } else {
                None
            },
            None => if contains_arrow(first) {
                Some((None::<u64>, first, 1int))
            } else {
                None
            },
        };
        match head {
            None => None,
            Some((index, t, k)) => match timing(t, ',', false) {
                None => None,
                Some((a, z)) => {
                    let txt = scan::join_with(ls.subrange(k, ls.len() as int), '\n');
                    if txt.len() == 0 && a == z {
                        None
                    } else {
                        Some((index, a, z, txt))
                    }
                },
            },
        }
    }
}

/// A WebVTT block: an optional identifier line, a timing line, then text lines.
#[verifier::opaque]
pub open spec fn vtt_cue(block: Seq<char>) -> Option<CueModel> {
    let b = scan::trim(block);
    let ls = scan::lines(b);
    if b.len() == 0 || ls.len() == 0 {
        None
    } else {
        let head: Option<(Seq<char>, int)> = if contains_arrow(ls[0]) {
            Some((ls[0], 1int))
        } else if ls.len() >= 2 {
            Some((ls[1], 2int))
        } else {
            None
        };
        match head {
            None => None,
            Some((t, k)) => match timing(t, '.', true) {
                None => None,
                Some((a, z)) => Some((None::<u64>, a, z, scan::join_with(ls.subrange(k, ls.len() as int), '\n'))),
            },
        }
    }
}

/// An SBV block: `start,end`, then text lines.
#[verifier::opaque]
pub open spec fn sbv_cue(block: Seq<char>) -> Option<CueModel> {
    let b = scan::trim(block);
    let ls = scan::lines(b);
    if b.len() == 0 || ls.len() == 0 {
        None
    } else {
        let t = scan::trim(ls[0]);
        match scan::find(t, seq![',']) {
            None => None,
            Some(i) => match (
                parse_timestamp(t.subrange(0, i), '.', false),
                parse_timestamp(t.subrange(i + 1, t.len() as int), '.', false),
            ) {
                (Some(a), Some(z)) => Some((None::<u64>, a, z, scan::join_with(ls.subrange(1, ls.len() as int), '\n'))),
                _ => None,
            },
        }
    }
}

/// A subtitle text format.
#[derive(Debug, Clone, Copy, PartialEq, Eq, Structural)]
pub enum SubtitleFormat {
    Srt,
    Vtt,
    Sbv,
}

pub open spec fn cue(f: SubtitleFormat, block: Seq<char>) -> Option<CueModel> {
    match f {
        SubtitleFormat::Srt => srt_cue(block),
        SubtitleFormat::Vtt => vtt_cue(block),
        SubtitleFormat::Sbv => sbv_cue(block),
    }
}

/// The cues of the blocks that parse, in order.
pub open spec fn cues(f: SubtitleFormat, blocks: Seq<Seq<char>>) -> Seq<CueModel>
    decreases blocks.len(),
{
    if blocks.len() == 0 {
        Seq::empty()
    } else {
        let prev = cues(f, blocks.drop_last());
        match cue(f, blocks.last()) {
            Some(c) => prev.push(c),
            None => prev,
        }
    }
}

pub open spec fn blank_line_pat() -> Seq<char> {
    seq!['\n', '\n']
}

/// `t` without a leading byte order mark.
pub open spec fn strip_bom(t: Seq<char>) -> Seq<char> {
    if t.len() > 0 && t[0] == '\u{feff}' {
        t.drop_first()
    } else {
        t
    }
}

/// The cues of the blank-line separated blocks of `t`.
pub open spec fn block_cues(f: SubtitleFormat, t: Seq<char>) -> Seq<CueModel> {
    cues(f, scan::split(t, blank_line_pat()))
}

fn timing_range(s: &Vec<char>, lo: usize, hi: usize, sep: char, short: bool) -> (r: Option<(u64, u64)>)
    requires
        lo <= hi <= s@.len(),
    ensures
        r == timing(s@.subrange(lo as int, hi as int), sep, short),
{
    let ghost t = s@.subrange(lo as int, hi as int);
    let mut arrow: Vec<char> = Vec::new();
    arrow.push('-');
    arrow.push('-');
    arrow.push('>');
    assert(arrow@ =~= arrow_pat());
    let i = match find_in(s, lo, hi, &arrow) {
        Some(i) => i,
        None => return None,
    };
    proof {
        assert(t.subrange(0, i - lo) =~= s@.subrange(lo as int, i as int));
        assert(t.subrange(i - lo + 3, t.len() as int) =~= s@.subrange(i + 3, hi as int));
    }
    let a = parse_timestamp_range(s, lo, i, sep, short);
    let (e0, e1) = match first_word_range(s, i + 3, hi) {
        Some(w) => w,
        None => trim_range(s, i + 3, hi),
    };
    let z = parse_timestamp_range(s, e0, e1, sep, short);
    match (a, z) {
        (Some(a), Some(z)) => Some((a, z)),
        _ => None,
    }
}

fn contains_arrow_range(s: &Vec<char>, lo: usize, hi: usize) -> (r: bool)
    requires
        lo <= hi <= s@.len(),
    ensures
        r == contains_arrow(s@.subrange(lo as int, hi as int)),
{
    let mut arrow: Vec<char> = Vec::new();
    arrow.push('-');
    arrow.push('-');
    arrow.push('>');
    assert(arrow@ =~= arrow_pat());
    find_in(s, lo, hi, &arrow).is_some()
}

/// The line ranges of the trimmed block `s[lo..hi]`; `None` when it has none.
fn block_lines(s: &Vec<char>, lo: usize, hi: usize) -> (r: Option<Vec<(usize, usize)>>)
    requires
        lo <= hi <= s@.len(),
    ensures
        ({
            let b = scan::trim(s@.subrange(lo as int, hi as int));
            if b.len() == 0 || scan::lines(b).len() == 0 {
                r is None
            } else {
                r matches Some(v) && scan::pieces(s@, v@) == scan::lines(b) && scan::ranges_within(
                    v@,
                    0,
                    s@.len() as int,
                ) && v@.len() > 0
            }
        }),
{
    let (b0, b1) = trim_range(s, lo, hi);
    if b0 == b1 {
        return None;
    }
    let ls = line_ranges(s, b0, b1);
    if ls.len() == 0 {
        return None;
    }
    Some(ls)
}

fn srt_cue_range(s: &Vec<char>, lo: usize, hi: usize) -> (r: Option<Subtitle>)
    requires
        lo <= hi <= s@.len(),
    ensures
        match srt_cue(s@.subrange(lo as int, hi as int)) {
            Some(c) => r matches Some(e) && e@ == c,
            None => r is None,
        },
{
    reveal(srt_cue);
    let ls = match block_lines(s, lo, hi) {
        Some(v) => v,
        None => return None,
    };
    let ghost lm = scan::pieces(s@, ls@);
    assert(lm[0] == s@.subrange(ls@[0].0 as int, ls@[0].1 as int));
    let (f0, f1) = trim_range(s, ls[0].0, ls[0].1);
    let (index, t0, t1, k) = match parse_u64_range(s, f0, f1) {
        Some(n) => {
            if ls.len() < 2 {
                return None;
            }
            assert(lm[1] == s@.subrange(ls@[1].0 as int, ls@[1].1 as int));
            let (t0, t1) = trim_range(s, ls[1].0, ls[1].1);
            (Some(n), t0, t1, 2usize)
        },
        None => {
            if !contains_arrow_range(s, f0, f1) {
                return None;
            }
            (None, f0, f1, 1usize)
        },
    };
    let (a, z) = match timing_range(s, t0, t1, ',', false) {
        Some(p) => p,
        None => return None,
    };
    let text = join_ranges(s, &ls, k, '\n');
    if text.as_str().unicode_len() == 0 && a == z {
        return None;
    }
    Some(Subtitle { index, start: a, end: z, text })
}

fn vtt_cue_range(s: &Vec<char>, lo: usize, hi: usize) -> (r: Option<Subtitle>)
    requires
        lo <= hi <= s@.len(),
    ensures
        match vtt_cue(s@.subrange(lo as int, hi as int)) {
            Some(c) => r matches Some(e) && e@ == c,
            None => r is None,
        },
{
    reveal(vtt_cue);
    let ls = match block_lines(s, lo, hi) {
        Some(v) => v,
        None => return None,
    };
    let ghost lm = scan::pieces(s@, ls@);
    assert(lm[0] == s@.subrange(ls@[0].0 as int, ls@[0].1 as int));
    let (t0, t1, k) = if contains_arrow_range(s, ls[0].0, ls[0].1) {
        (ls[0].0, ls[0].1, 1usize)
    } else if ls.len() >= 2 {
        assert(lm[1] == s@.subrange(ls@[1].0 as int, ls@[1].1 as int));
        (ls[1].0, ls[1].1, 2usize)
    } else {
        return None;
    };
    let (a, z) = match timing_range(s, t0, t1, '.', true) {
        Some(p) => p,
        None => return None,
    };
    let text = join_ranges(s, &ls, k, '\n');
    Some(Subtitle { index: None, start: a, end: z, text })
}

fn sbv_cue_range(s: &Vec<char>, lo: usize, hi: usize) -> (r: Option<Subtitle>)
    requires
        lo <= hi <= s@.len(),
    ensures
        match sbv_cue(s@.subrange(lo as int, hi as int)) {
            Some(c) => r matches Some(e) && e@ == c,
            None => r is None,
        },
{
    reveal(sbv_cue);
    let ls = match block_lines(s, lo, hi) {
        Some(v) => v,
        None => return None,
    };
    let ghost lm = scan::pieces(s@, ls@);
    assert(lm[0] == s@.subrange(ls@[0].0 as int, ls@[0].1 as int));
    let (t0, t1) = trim_range(s, ls[0].0, ls[0].1);
    let ghost t = s@.subrange(t0 as int, t1 as int);
    let mut comma: Vec<char> = Vec::new();
    comma.push(',');
    assert(comma@ =~= seq![',']);
    let i = match find_in(s, t0, t1, &comma) {
        Some(i) => i,
        None => return None,
    };
    proof {
        assert(t.subrange(0, i - t0) =~= s@.subrange(t0 as int, i as int));
        assert(t.subrange(i - t0 + 1, t.len() as int) =~= s@.subrange(i + 1, t1 as int));
    }
    let a = parse_timestamp_range(s, t0, i, '.', false);
    let z = parse_timestamp_range(s, i + 1, t1, '.', false);
    match (a, z) {
        (Some(a), Some(z)) => {
            let text = join_ranges(s, &ls, 1, '\n');
            Some(Subtitle { index: None, start: a, end: z, text })
        },
        _ => None,
    }
}


fn cue_range(s: &Vec<char>, lo: usize, hi: usize, f: &SubtitleFormat) -> (r: Option<Subtitle>)
    requires
        lo <= hi <= s@.len(),
    ensures
        match cue(*f, s@.subrange(lo as int, hi as int)) {
            Some(c) => r matches Some(e) && e@ == c,
            None => r is None,
        },
{
    match f {
        SubtitleFormat::Srt => srt_cue_range(s, lo, hi),
        SubtitleFormat::Vtt => vtt_cue_range(s, lo, hi),
        SubtitleFormat::Sbv => sbv_cue_range(s, lo, hi),
    }
}

/// The cues of the blank-line separated blocks of `s[lo..hi]`.
fn cues_in(s: &Vec<char>, lo: usize, hi: usize, f: &SubtitleFormat) -> (r: Vec<Subtitle>)
    requires
        lo <= hi <= s@.len(),
    ensures
        cues_of(r@) == block_cues(*f, s@.subrange(lo as int, hi as int)),
{
    let mut sep: Vec<char> = Vec::new();
    sep.push('\n');
    sep.push('\n');
    assert(sep@ =~= blank_line_pat());
    let blocks = split_ranges(s, lo, hi, &sep);
    let ghost bm = scan::pieces(s@, blocks@);
    let mut out: Vec<Subtitle> = Vec::new();
    let mut k: usize = 0;
    while k < blocks.len()
        invariant
            k <= blocks@.len(),
            hi <= s@.len(),
            bm == scan::pieces(s@, blocks@),
            scan::ranges_within(blocks@, lo as int, hi as int),
            cues_of(out@) == cues(*f, bm.subrange(0, k as int)),
        decreases blocks.len() - k,
    {
        let (a, b) = blocks[k];
        assert(bm[k as int] == s@.subrange(a as int, b as int));
        let c = cue_range(s, a, b, f);
        let ghost before = out@;
        proof {
            let sub = bm.subrange(0, k + 1);
            assert(sub.drop_last() =~= bm.subrange(0, k as int));
            assert(sub.last() == bm[k as int]);
        }
        match c {
            Some(e) => {
                let ghost em = e@;
                out.push(e);
                assert(cues_of(out@) =~= cues_of(before).push(em));
            },
            None => {},
        }
        proof {
            let sub = bm.subrange(0, k + 1);
            assert(cues_of(out@) == cues(*f, sub));
        }
        k = k + 1;
    }
    assert(bm.subrange(0, blocks@.len() as int) =~= bm);
    out
}

/// The characters of the UTF-8 text `input`, without a leading byte order mark.
fn text_chars(input: &[u8]) -> (r: Option<(Vec<char>, usize)>)
    ensures
        match text::utf8_decoding(input@) {
            Some(t) => r matches Some(p) && p.1 <= p.0@.len() && p.0@.subrange(p.1 as int, p.0@.len() as int)
                == strip_bom(t),
            None => r is None,
        },
{
    let t = match text::decode_utf8(input) {
        Some(t) => t,
        None => return None,
    };
    let cs = scan::chars_of(t);
    let start: usize = if cs.len() > 0 && cs[0] == '\u{feff}' {
        1
    } else {
        0
    };
    assert(cs@.subrange(start as int, cs@.len() as int) =~= strip_bom(t@));
    Some((cs, start))
}

fn invalid_utf8() -> (r: ConvertError)
    ensures
        r is InvalidInput,
{
    ConvertError::InvalidInput("Invalid UTF-8".to_string())
}

/// Parses SRT text: blank-line separated blocks, each an optional index, a
/// `start --> end` line and text; blocks that do not parse are skipped.
pub fn parse_srt(input: &[u8]) -> (r: Result<SubtitleFile, ConvertError>)
    ensures
        match text::utf8_decoding(input@) {
            Some(t) => r matches Ok(file) && cues_of(file.entries@) == block_cues(
                SubtitleFormat::Srt,
                strip_bom(t),
            ),
            None => r matches Err(ConvertError::InvalidInput(_)),
        },
{
    let (cs, start) = match text_chars(input) {
        Some(p) => p,
        None => return Err(invalid_utf8()),
    };
    Ok(SubtitleFile { entries: cues_in(&cs, start, cs.len(), &SubtitleFormat::Srt) })
}

/// Parses SBV text: blank-line separated blocks, each a `start,end` line and text.
pub fn parse_sbv(input: &[u8]) -> (r: Result<SubtitleFile, ConvertError>)
    ensures
        match text::utf8_decoding(input@) {
            Some(t) => r matches Ok(file) && cues_of(file.entries@) == block_cues(
                SubtitleFormat::Sbv,
                strip_bom(t),
            ),
            None => r matches Err(ConvertError::InvalidInput(_)),
        },
{
    let (cs, start) = match text_chars(input) {
        Some(p) => p,
        None => return Err(invalid_utf8()),
    };
    Ok(SubtitleFile { entries: cues_in(&cs, start, cs.len(), &SubtitleFormat::Sbv) })
}

/// `u` starts, after blanks, with `WEBVTT`.
pub open spec fn has_vtt_signature(u: Seq<char>) -> bool {
    let v = u.subrange(scan::lead(u), u.len() as int);
    v.len() >= 6 && v.subrange(0, 6) == seq!['W', 'E', 'B', 'V', 'T', 'T']
}

/// The cues of WebVTT text `u`: none before its first blank line.
pub open spec fn vtt_body_cues(u: Seq<char>) -> Seq<CueModel> {
    match scan::find(u, blank_line_pat()) {
        Some(p) => block_cues(SubtitleFormat::Vtt, u.subrange(p + 2, u.len() as int)),
        None => Seq::empty(),
    }
}

/// Parses WebVTT text: the `WEBVTT` signature, a header up to the first blank
/// line, then blocks of an optional identifier, a timing line and text.
pub fn parse_vtt(input: &[u8]) -> (r: Result<SubtitleFile, ConvertError>)
    ensures
        match text::utf8_decoding(input@) {
            Some(t) => if has_vtt_signature(strip_bom(t)) {
                r matches Ok(file) && cues_of(file.entries@) == vtt_body_cues(strip_bom(t))
            } else {
                r matches Err(ConvertError::InvalidInput(_))
            },
            None => r matches Err(ConvertError::InvalidInput(_)),
        },
{
    let (cs, start) = match text_chars(input) {
        Some(p) => p,
        None => return Err(invalid_utf8()),
    };
    let ghost u = cs@.subrange(start as int, cs@.len() as int);
    let mut a = start;
    while a < cs.len() && scan::is_whitespace(cs[a])
        invariant
            start <= a <= cs@.len(),
            forall|j: int| start <= j < a ==> scan::is_ws(#[trigger] cs@[j]),
        decreases cs.len() - a,
    {
        a = a + 1;
    }
    proof {
        assert forall|j: int| 0 <= j < a - start implies scan::is_ws(#[trigger] u[j]) by {
            assert(u[j] == cs@[start + j]);
        }
        scan::lemma_lead(u, a - start);
    }
    let signed = cs.len() - a >= 6 && cs[a] == 'W' && cs[a + 1] == 'E' && cs[a + 2] == 'B' && cs[a
        + 3] == 'V' && cs[a + 4] == 'T' && cs[a + 5] == 'T';
    proof {
        let v = u.subrange(a - start, u.len() as int);
        if v.len() >= 6 {
            assert(v.subrange(0, 6) =~= cs@.subrange(a as int, a + 6));
            if signed {
                assert(cs@.subrange(a as int, a + 6) =~= seq!['W', 'E', 'B', 'V', 'T', 'T']);
            } else {
                if v.subrange(0, 6) == seq!['W', 'E', 'B', 'V', 'T', 'T'] {
                    assert(v.subrange(0, 6)[0] == cs@[a as int]);
                    assert(v.subrange(0, 6)[1] == cs@[a + 1]);
                    assert(v.subrange(0, 6)[2] == cs@[a + 2]);
                    assert(v.subrange(0, 6)[3] == cs@[a + 3]);
                    assert(v.subrange(0, 6)[4] == cs@[a + 4]);
                    assert(v.subrange(0, 6)[5] == cs@[a + 5]);
                }
            }
        }
    }
    if !signed {
        return Err(ConvertError::InvalidInput("VTT file must start with WEBVTT".to_string()));
    }
    let mut sep: Vec<char> = Vec::new();
    sep.push('\n');
    sep.push('\n');
    assert(sep@ =~= blank_line_pat());
    match find_in(&cs, start, cs.len(), &sep) {
        Some(p) => {
            assert(u.subrange(p - start + 2, u.len() as int) =~= cs@.subrange(p + 2, cs@.len() as int));
            Ok(SubtitleFile { entries: cues_in(&cs, p + 2, cs.len(), &SubtitleFormat::Vtt) })
        },
        None => {
            let entries: Vec<Subtitle> = Vec::new();
            assert(cues_of(entries@) =~= Seq::<CueModel>::empty());
            Ok(SubtitleFile { entries })
        },
    }
}


/// The cues of text `t` in format `f`, if it parses.
pub open spec fn parsed(f: SubtitleFormat, t: Seq<char>) -> Option<Seq<CueModel>> {
    let u = strip_bom(t);
    match f {
        SubtitleFormat::Vtt => if has_vtt_signature(u) {
            Some(vtt_body_cues(u))
        } else {
            None
        },
        _ => Some(block_cues(f, u)),
    }
}

/// Cues written in format `f`.
pub open spec fn rendered(f: SubtitleFormat, cs: Seq<CueModel>) -> Seq<char> {
    match f {
        SubtitleFormat::Srt => srt_text(cs),
        SubtitleFormat::Vtt => vtt_header() + vtt_cues(cs),
        SubtitleFormat::Sbv => sbv_text(cs),
    }
}

/// The `format` property value of `f`.
pub open spec fn format_name(f: SubtitleFormat) -> Seq<char> {
    match f {
        SubtitleFormat::Srt => "srt"@,
        SubtitleFormat::Vtt => "vtt"@,
        SubtitleFormat::Sbv => "sbv"@,
    }
}

impl SubtitleFormat {
    /// The `format` property value.
    pub fn name(&self) -> (r: &'static str)
        ensures
            r@ == format_name(*self),
    {
        match self {
            SubtitleFormat::Srt => "srt",
            SubtitleFormat::Vtt => "vtt",
            SubtitleFormat::Sbv => "sbv",
        }
    }

    /// Parses `input` in this format.
    pub fn parse(&self, input: &[u8]) -> (r: Result<SubtitleFile, ConvertError>)
        ensures
            match text::utf8_decoding(input@) {
                Some(t) => match parsed(*self, t) {
                    Some(cs) => r matches Ok(file) && cues_of(file.entries@) == cs,
                    None => r matches Err(ConvertError::InvalidInput(_)),
                },
                None => r matches Err(ConvertError::InvalidInput(_)),
            },
    {
        match self {
            SubtitleFormat::Srt => parse_srt(input),
            SubtitleFormat::Vtt => parse_vtt(input),
            SubtitleFormat::Sbv => parse_sbv(input),
        }
    }

    /// Writes `file` in this format.
    pub fn serialize(&self, file: &SubtitleFile) -> (r: String)
        ensures
            r@ == rendered(*self, cues_of(file.entries@)),
    {
        match self {
            SubtitleFormat::Srt => serialize_srt(file),
            SubtitleFormat::Vtt => serialize_vtt(file),
            SubtitleFormat::Sbv => serialize_sbv(file),
        }
    }
}

/// The id of the converter from `from` to `to`: `subtitle.<from>-to-<to>`.
pub open spec fn converter_id(from: SubtitleFormat, to: SubtitleFormat) -> Seq<char> {
    "subtitle."@ + format_name(from) + "-to-"@ + format_name(to)
}

fn converter_id_string(from: SubtitleFormat, to: SubtitleFormat) -> (r: String)
    ensures
        r@ == converter_id(from, to),
{
    let mut id = String::new();
    push_str(&mut id, "subtitle.");
    push_str(&mut id, from.name());
    push_str(&mut id, "-to-");
    push_str(&mut id, to.name());
    id
}

/// Rewrites subtitles from one format to another.
pub struct SubtitleConverter {
    decl: ConverterDecl,
    from: SubtitleFormat,
    to: SubtitleFormat,
}

impl SubtitleConverter {
    #[verifier::type_invariant]
    closed spec fn inv(&self) -> bool {
        self.decl@ == converter::format_decl_model(
            converter_id(self.from, self.to),
            format_name(self.from),
            format_name(self.to),
        )
    }

    /// The declaration: from `format == <from>` to `format == <to>`.
    pub closed spec fn declared(&self) -> DeclModel {
        self.decl@
    }

    pub closed spec fn source(&self) -> SubtitleFormat {
        self.from
    }

    pub closed spec fn target(&self) -> SubtitleFormat {
        self.to
    }

    pub fn new(from: SubtitleFormat, to: SubtitleFormat) -> (r: SubtitleConverter)
        ensures
            r.source() == from,
            r.target() == to,
            r.declared() == converter::format_decl_model(
                converter_id(from, to),
                format_name(from),
                format_name(to),
            ),
    {
        let id = converter_id_string(from, to);
        let decl = converter::format_decl(id.as_str(), from.name(), to.name());
        SubtitleConverter { decl, from, to }
    }
}

impl Converter for SubtitleConverter {
    open spec fn converts(&self, input: Seq<u8>, props: EntriesModel, out: Result<ConvertOutput, ConvertError>) -> bool {
        &&& (match text::utf8_decoding(input) {
                Some(t) => match parsed(self.source(), t) {
                    Some(cs) => out matches Ok(ConvertOutput::Single(d, p)) && d@ == text::utf8_encoding(
                        rendered(self.target(), cs),
                    ) && p@ == properties::upsert(
                        props,
                        "format"@,
                        ValueModel::Str(format_name(self.target())),
                    ),
                    None => out matches Err(ConvertError::InvalidInput(_)),
                },
                None => out matches Err(ConvertError::InvalidInput(_)),
            })
        &&& (out matches Ok(ConvertOutput::Single(_, p)) ==> self.declared().produces(p@))
    }

    open spec fn states_decl(&self) -> bool {
        true
    }

    open spec fn decl_model(&self) -> DeclModel {
        self.declared()
    }

    fn decl(&self) -> (r: &ConverterDecl)
        ensures
            r@ == self.declared(),
    {
        &self.decl
    }

    /// Parses in the source format and writes in the target format; `format`
    /// becomes the target's name.
    fn convert(&self, input: &[u8], props: &Properties) -> (r: Result<ConvertOutput, ConvertError>)
        ensures
            match text::utf8_decoding(input@) {
                Some(t) => match parsed(self.source(), t) {
                    Some(cs) => r matches Ok(ConvertOutput::Single(d, p)) && d@ == text::utf8_encoding(
                        rendered(self.target(), cs),
                    ) && p@ == properties::upsert(
                        props@,
                        "format"@,
                        ValueModel::Str(format_name(self.target())),
                    ),
                    None => r matches Err(ConvertError::InvalidInput(_)),
                },
                None => r matches Err(ConvertError::InvalidInput(_)),
            },
            r matches Ok(ConvertOutput::Single(_, p)) ==> self.declared().produces(p@),
    {
        proof {
            use_type_invariant(self);
        }
        let file = self.from.parse(input)?;
        let out_text = self.to.serialize(&file);
        let out = converter::with_format(props, self.to.name());
        proof {
            converter::lemma_format_produced(self.decl@, format_name(self.to), out@);
        }
        Ok(ConvertOutput::Single(text::into_bytes(out_text), out))
    }
}

/// The declarations that `register_all` adds, in order.
pub open spec fn subtitle_models() -> Seq<DeclModel> {
    seq![
        converter::format_decl_model(converter_id(SubtitleFormat::Srt, SubtitleFormat::Vtt), format_name(SubtitleFormat::Srt), format_name(SubtitleFormat::Vtt)),
        converter::format_decl_model(converter_id(SubtitleFormat::Vtt, SubtitleFormat::Srt), format_name(SubtitleFormat::Vtt), format_name(SubtitleFormat::Srt)),
        converter::format_decl_model(converter_id(SubtitleFormat::Srt, SubtitleFormat::Sbv), format_name(SubtitleFormat::Srt), format_name(SubtitleFormat::Sbv)),
        converter::format_decl_model(converter_id(SubtitleFormat::Sbv, SubtitleFormat::Srt), format_name(SubtitleFormat::Sbv), format_name(SubtitleFormat::Srt)),
        converter::format_decl_model(converter_id(SubtitleFormat::Vtt, SubtitleFormat::Sbv), format_name(SubtitleFormat::Vtt), format_name(SubtitleFormat::Sbv)),
        converter::format_decl_model(converter_id(SubtitleFormat::Sbv, SubtitleFormat::Vtt), format_name(SubtitleFormat::Sbv), format_name(SubtitleFormat::Vtt))
    ]
}

/// Registers the six converters between SRT, WebVTT and SBV, in order, stopping at the first whose id is taken.
pub fn register_all(registry: &mut Registry<SubtitleConverter>) -> (r: Result<(), RegisterError>)
    ensures
        r is Ok <==> forall|i: int| 0 <= i < subtitle_models().len() ==> !crate::registry::has_id(old(registry)@, #[trigger] subtitle_models()[i].id),
        r is Ok ==> final(registry)@ == old(registry)@ + subtitle_models(),
{
    let mut cs: Vec<SubtitleConverter> = Vec::new();
    cs.push(SubtitleConverter::new(SubtitleFormat::Srt, SubtitleFormat::Vtt));
    cs.push(SubtitleConverter::new(SubtitleFormat::Vtt, SubtitleFormat::Srt));
    cs.push(SubtitleConverter::new(SubtitleFormat::Srt, SubtitleFormat::Sbv));
    cs.push(SubtitleConverter::new(SubtitleFormat::Sbv, SubtitleFormat::Srt));
    cs.push(SubtitleConverter::new(SubtitleFormat::Vtt, SubtitleFormat::Sbv));
    cs.push(SubtitleConverter::new(SubtitleFormat::Sbv, SubtitleFormat::Vtt));
    proof {
        reveal_strlit("subtitle.");
        reveal_strlit("-to-");
        reveal_strlit("srt");
        reveal_strlit("vtt");
        reveal_strlit("sbv");
        let m = subtitle_models();
        assert(crate::registry::models_of(cs@) =~= m);
        assert forall|i: int, j: int| 0 <= i < j < cs@.len() implies #[trigger] cs@[i].decl_model().id != #[trigger] cs@[j].decl_model().id by {
            assert(cs@[i].decl_model() == m[i]);
            assert(cs@[j].decl_model() == m[j]);
            if i == 0 && j == 1 { assert(m[0].id[9] != m[1].id[9]); }
            if i == 0 && j == 2 { assert(m[0].id[16] != m[2].id[16]); }
            if i == 0 && j == 3 { assert(m[0].id[10] != m[3].id[10]); }
            if i == 0 && j == 4 { assert(m[0].id[9] != m[4].id[9]); }
            if i == 0 && j == 5 { assert(m[0].id[10] != m[5].id[10]); }
            if i == 1 && j == 2 { assert(m[1].id[9] != m[2].id[9]); }
            if i == 1 && j == 3 { assert(m[1].id[9] != m[3].id[9]); }
            if i == 1 && j == 4 { assert(m[1].id[17] != m[4].id[17]); }
            if i == 1 && j == 5 { assert(m[1].id[9] != m[5].id[9]); }
            if i == 2 && j == 3 { assert(m[2].id[10] != m[3].id[10]); }
            if i == 2 && j == 4 { assert(m[2].id[9] != m[4].id[9]); }
            if i == 2 && j == 5 { assert(m[2].id[10] != m[5].id[10]); }
            if i == 3 && j == 4 { assert(m[3].id[9] != m[4].id[9]); }
            if i == 3 && j == 5 { assert(m[3].id[16] != m[5].id[16]); }
            if i == 4 && j == 5 { assert(m[4].id[9] != m[5].id[9]); }
        }
        assert forall|i: int| 0 <= i < cs@.len() implies #[trigger] cs@[i].states_decl() by {}
        assert forall|i: int| 0 <= i < cs@.len() implies (!crate::registry::has_id(registry@, #[trigger] cs@[i].decl_model().id) <==> !crate::registry::has_id(registry@, m[i].id)) by {
            assert(cs@[i].decl_model() == m[i]);
        }
    }
    registry.register_each(cs)
}


proof fn lemma_digits_are_digits(n: nat)
    ensures
        text::digits(n).len() >= 1,
        scan::all_digits(text::digits(n)),
        scan::digits_value(text::digits(n)) == n,
    decreases n,
{
    assert((text::digit_char(n % 10) as u32) == 48 + n % 10);
    let ds = text::digits(n);
    assert(ds.last() == text::digit_char(n % 10));
    assert(scan::digits_value(ds) == scan::digits_value(ds.drop_last()) * 10 + ((ds.last() as u32) - 48) as nat);
    if n >= 10 {
        lemma_digits_are_digits(n / 10);
        let d = text::digits(n / 10);
        assert(text::digits(n).drop_last() =~= d);
        assert(n == n / 10 * 10 + n % 10) by (nonlinear_arith);
    } else {
        assert(text::digits(n).drop_last() =~= Seq::<char>::empty());
    }
}

proof fn lemma_leading_zeros(k: nat, d: Seq<char>)
    ensures
        scan::digits_value(Seq::new(k, |i: int| '0') + d) == scan::digits_value(d),
    decreases d.len(), k,
{
    if d.len() == 0 {
        assert(Seq::new(k, |i: int| '0') + d =~= Seq::new(k, |i: int| '0'));
        if k > 0 {
            assert(Seq::new(k, |i: int| '0').drop_last() =~= Seq::new((k - 1) as nat, |i: int| '0'));
            lemma_leading_zeros((k - 1) as nat, d);
            assert(Seq::new((k - 1) as nat, |i: int| '0') + d =~= Seq::new((k - 1) as nat, |i: int| '0'));
        }
    } else {
        lemma_leading_zeros(k, d.drop_last());
        assert((Seq::new(k, |i: int| '0') + d).drop_last() =~= Seq::new(k, |i: int| '0') + d.drop_last());
    }
}

proof fn lemma_padded_parses(n: nat, w: nat)
    requires
        n <= u64::MAX,
    ensures
        text::padded(n, w).len() >= 1,
        scan::all_digits(text::padded(n, w)),
        scan::parse_u64(text::padded(n, w)) == Some(n as u64),
        forall|i: int| 0 <= i < text::padded(n, w).len() ==> scan::is_digit(#[trigger] text::padded(n, w)[i]),
{
    lemma_digits_are_digits(n);
    let d = text::digits(n);
    let p = text::padded(n, w);
    if d.len() < w {
        lemma_leading_zeros((w - d.len()) as nat, d);
    }
    assert(scan::all_digits(p)) by {
        assert forall|i: int| 0 <= i < p.len() implies scan::is_digit(#[trigger] p[i]) by {
            if d.len() < w && i < w - d.len() {
            } else if d.len() < w {
                assert(p[i] == d[i - (w - d.len())]);
            }
        }
    }
    assert(scan::unsigned_part(p) == p);
}

proof fn lemma_no_ws_trim(s: Seq<char>)
    requires
        forall|i: int| 0 <= i < s.len() ==> !scan::is_ws(#[trigger] s[i]),
    ensures
        scan::trim(s) == s,
{
    scan::lemma_lead(s, 0);
    assert(s.subrange(0, s.len() as int) =~= s);
    scan::lemma_trail(s, 0);
    assert(s.subrange(0, s.len() as int) =~= s);
}

proof fn lemma_find_char(s: Seq<char>, c: char, i: int)
    requires
        0 <= i < s.len(),
        s[i] == c,
        forall|j: int| 0 <= j < i ==> s[j] != c,
    ensures
        scan::find(s, seq![c]) == Some(i),
{
    assert(s.subrange(i, i + 1) =~= seq![c]);
    assert forall|j: int| 0 <= j < i implies !scan::occurs_at(s, seq![c], j) by {
        if scan::occurs_at(s, seq![c], j) {
            assert(s.subrange(j, j + 1)[0] == s[j]);
        }
    }
    scan::lemma_find_first(s, seq![c], i);
}

proof fn lemma_find_none_char(s: Seq<char>, c: char)
    requires
        forall|j: int| 0 <= j < s.len() ==> s[j] != c,
    ensures
        scan::find(s, seq![c]) is None,
{
    assert forall|j: int| 0 <= j implies !scan::occurs_at(s, seq![c], j) by {
        if scan::occurs_at(s, seq![c], j) {
            assert(s.subrange(j, j + 1)[0] == s[j]);
        }
    }
    scan::lemma_find_none(s, seq![c]);
}

proof fn lemma_split_three(a: Seq<char>, b: Seq<char>, c: Seq<char>)
    requires
        scan::all_digits(a),
        scan::all_digits(b),
        scan::all_digits(c),
    ensures
        scan::split(a + seq![':'] + b + seq![':'] + c, seq![':']) == seq![a, b, c],
{
    let s = a + seq![':'] + b + seq![':'] + c;
    lemma_find_char(s, ':', a.len() as int);
    let r1 = s.subrange(a.len() as int + 1, s.len() as int);
    assert(r1 =~= b + seq![':'] + c);
    assert(s.subrange(0, a.len() as int) =~= a);
    lemma_find_char(r1, ':', b.len() as int);
    let r2 = r1.subrange(b.len() as int + 1, r1.len() as int);
    assert(r2 =~= c);
    assert(r1.subrange(0, b.len() as int) =~= b);
    lemma_find_none_char(c, ':');
    assert(scan::split(c, seq![':']) == seq![c]);
    assert(scan::split(r1, seq![':']) =~= seq![b, c]);
    assert(scan::split(s, seq![':']) =~= seq![a, b, c]);
}

proof fn lemma_clock_parts(t: nat)
    ensures
        ({
            let (h, m, s, ms) = clock_parts(t);
            h * 3600000 + m * 60000 + s * 1000 + ms == t && m < 60 && s < 60 && ms < 1000
        }),
{
    let x = t / 1000;
    let y = x / 60;
    assert(t == x * 1000 + t % 1000) by (nonlinear_arith)
        requires
            x == t / 1000,
    ;
    assert(x == y * 60 + x % 60) by (nonlinear_arith)
        requires
            y == x / 60,
    ;
    assert(y == y / 60 * 60 + y % 60) by (nonlinear_arith);
    assert((y / 60 * 60 + y % 60) * 60000 == y / 60 * 3600000 + (y % 60) * 60000) by (nonlinear_arith);
    assert((y * 60 + x % 60) * 1000 == y * 60000 + (x % 60) * 1000) by (nonlinear_arith);
}

/// A timestamp as the serializers write it reads back as the same time.
pub proof fn lemma_timestamp_round_trip(t: u64, hour_width: nat, sep: char, short: bool)
    requires
        !scan::is_digit(sep),
        sep != ':',
        !scan::is_ws(sep),
    ensures
        parse_timestamp(timestamp(t as nat, hour_width, sep), sep, short) == Some(t),
{
    let (h, m, s, ms) = clock_parts(t as nat);
    lemma_clock_parts(t as nat);
    assert(h <= t);
    lemma_padded_parses(h, hour_width);
    lemma_padded_parses(m, 2);
    lemma_padded_parses(s, 2);
    lemma_padded_parses(ms, 3);
    let ph = text::padded(h, hour_width);
    let pm = text::padded(m, 2);
    let ps = text::padded(s, 2);
    let pms = text::padded(ms, 3);
    let time = ph + seq![':'] + pm + seq![':'] + ps;
    let whole = time + seq![sep] + pms;
    assert(whole =~= timestamp(t as nat, hour_width, sep));
    assert forall|i: int| 0 <= i < whole.len() implies !scan::is_ws(#[trigger] whole[i]) by {
        if i < ph.len() {
            assert(whole[i] == ph[i]);
        } else if i == ph.len() {
        } else if i < ph.len() + 1 + pm.len() {
            assert(whole[i] == pm[i - ph.len() - 1]);
        } else if i == ph.len() + 1 + pm.len() {
        } else if i < time.len() {
            assert(whole[i] == ps[i - ph.len() - 2 - pm.len()]);
        } else if i == time.len() {
        } else {
            assert(whole[i] == pms[i - time.len() - 1]);
        }
    }
    lemma_no_ws_trim(whole);
    assert forall|j: int| 0 <= j < time.len() implies time[j] != sep by {
        if j < ph.len() {
            assert(time[j] == ph[j]);
        } else if j == ph.len() {
        } else if j < ph.len() + 1 + pm.len() {
            assert(time[j] == pm[j - ph.len() - 1]);
        } else if j == ph.len() + 1 + pm.len() {
        } else {
            assert(time[j] == ps[j - ph.len() - 2 - pm.len()]);
        }
    }
    lemma_find_char(whole, sep, time.len() as int);
    assert(whole.subrange(time.len() as int + 1, whole.len() as int) =~= pms);
    assert(whole.subrange(0, time.len() as int) =~= time);
    assert forall|i: int| 0 <= i < pms.len() implies !scan::is_ws(#[trigger] pms[i]) by {}
    lemma_no_ws_trim(pms);
    assert forall|i: int| 0 <= i < time.len() implies !scan::is_ws(#[trigger] time[i]) by {
        assert(time[i] == whole[i]);
    }
    lemma_no_ws_trim(time);
    lemma_split_three(ph, pm, ps);
}


/// SRT, WebVTT and SBV timestamps, as written, read back as the time written.
pub proof fn lemma_format_timestamps_round_trip(t: u64)
    ensures
        parse_timestamp(srt_timestamp(t as nat), ',', false) == Some(t),
        parse_timestamp(vtt_timestamp(t as nat), '.', true) == Some(t),
        parse_timestamp(sbv_timestamp(t as nat), '.', false) == Some(t),
{
    lemma_timestamp_round_trip(t, 2, ',', false);
    lemma_timestamp_round_trip(t, 2, '.', true);
    lemma_timestamp_round_trip(t, 1, '.', false);
}

} // verus!
