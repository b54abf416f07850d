use vstd::prelude::*;
use crate::message::{CanFrame, FrameView, hex_bytes, push_hex_bytes, rx_text};
use crate::text::{chars_of, push_digits, padded, digits, string_of, str_eq};

verus! {

/// The two trace file formats.
#[derive(Debug, Clone, Copy, PartialEq, Eq, Structural)]
pub enum TraceFormat {
    Csv,
    Trc,
}

pub open spec fn lower(c: char) -> char {
    if 'A' <= c && c <= 'Z' { (((c as u32) + 32) as u8) as char } else { c }
}

pub open spec fn same_ignoring_case(a: Seq<char>, b: Seq<char>) -> bool {
    a.len() == b.len() && forall|i: int| 0 <= i < a.len() ==> lower(#[trigger] a[i]) == lower(b[i])
}

pub open spec fn csv_text() -> Seq<char> {
    seq!['c', 's', 'v']
}

pub open spec fn trc_text() -> Seq<char> {
    seq!['t', 'r', 'c']
}

fn lower_exec(c: char) -> (r: char)
    ensures
        r == lower(c),
{
    if 'A' <= c && c <= 'Z' {
        (((c as u32) + 32) as u8) as char
    } else {
        c
    }
}

fn eq_ignoring_case(a: &Vec<char>, b: &Vec<char>) -> (r: bool)
    ensures
        r == same_ignoring_case(a@, b@),
{
    if a.len() != b.len() {
        return false;
    }
    let mut i: usize = 0;
    while i < a.len()
        invariant
            a.len() == b.len(),
            i <= a.len(),
            forall|j: int| 0 <= j < i ==> lower(#[trigger] a@[j]) == lower(b@[j]),
        decreases a.len() - i,
    {
        if lower_exec(a[i]) != lower_exec(b[i]) {
            return false;
        }
        i = i + 1;
    }
    true
}

impl TraceFormat {
    /// The format named by a file extension, in any case.
    pub fn from_extension(ext: &str) -> (r: Option<TraceFormat>)
        ensures
            r == if same_ignoring_case(ext@, csv_text()) {
                Some(TraceFormat::Csv)
            } else if same_ignoring_case(ext@, trc_text()) {
                Some(TraceFormat::Trc)
            } else {
                None
            },
    {
        let e = chars_of(ext);
        proof {
            reveal_strlit("csv");
            reveal_strlit("trc");
            assert("csv"@ =~= csv_text());
            assert("trc"@ =~= trc_text());
        }
        if eq_ignoring_case(&e, &chars_of("csv")) {
            Some(TraceFormat::Csv)
        } else if eq_ignoring_case(&e, &chars_of("trc")) {
            Some(TraceFormat::Trc)
        } else {
            None
        }
    }

    /// The file extension of the format.
    pub fn extension(&self) -> (r: &'static str)
        ensures
            r@ == match self {
                TraceFormat::Csv => csv_text(),
                TraceFormat::Trc => trc_text(),
            },
    {
        proof {
            reveal_strlit("csv");
            reveal_strlit("trc");
            assert("csv"@ =~= csv_text());
            assert("trc"@ =~= trc_text());
        }
        match self {
            TraceFormat::Csv => "csv",
            TraceFormat::Trc => "trc",
        }
    }
}

/// The header line of a CSV trace.
pub open spec fn csv_header() -> Seq<char> {
    "Time,ID,Extended,Remote,DLC,Data,Direction,Channel\n"@
}

/// A wall-clock instant, as the header of a TRC trace shows it.
#[derive(Debug, Clone, Copy, PartialEq, Eq, Structural)]
pub struct WallClock {
    pub year: u32,
    pub month: u8,
    pub day: u8,
    pub hour: u8,
    pub minute: u8,
    pub second: u8,
    pub millisecond: u16,
}

/// `YYYY-MM-DD HH:MM:SS.mmm`.
pub open spec fn clock_text(c: WallClock) -> Seq<char> {
    padded(c.year as nat, 10, 4) + seq!['-'] + padded(c.month as nat, 10, 2) + seq!['-'] + padded(
        c.day as nat,
        10,
        2,
    ) + seq![' '] + padded(c.hour as nat, 10, 2) + seq![':'] + padded(c.minute as nat, 10, 2) + seq![':']
        + padded(c.second as nat, 10, 2) + seq!['.'] + padded(c.millisecond as nat, 10, 3)
}

/// The header of a trace: the column line for CSV; the file version and the start time for
/// TRC.
pub open spec fn header_text(format: TraceFormat, start: WallClock) -> Seq<char> {
    match format {
        TraceFormat::Csv => csv_header(),
        TraceFormat::Trc => "$FILEVERSION=2.0\n$STARTTIME="@ + clock_text(start) + seq!['\n'],
    }
}

/// The header of a trace in `format` started at `start`.
pub fn header(format: TraceFormat, start: WallClock) -> (r: String)
    ensures
        r@ == header_text(format, start),
{
    match format {
        TraceFormat::Csv => String::from_str("Time,ID,Extended,Remote,DLC,Data,Direction,Channel\n"),
        TraceFormat::Trc => {
            let mut out = chars_of("$FILEVERSION=2.0\n$STARTTIME=");
            push_digits(&mut out, start.year as u64, 10, 4);
            out.push('-');
            push_digits(&mut out, start.month as u64, 10, 2);
            out.push('-');
            push_digits(&mut out, start.day as u64, 10, 2);
            out.push(' ');
            push_digits(&mut out, start.hour as u64, 10, 2);
            out.push(':');
            push_digits(&mut out, start.minute as u64, 10, 2);
            out.push(':');
            push_digits(&mut out, start.second as u64, 10, 2);
            out.push('.');
            push_digits(&mut out, start.millisecond as u64, 10, 3);
            out.push('\n');
            assert(out@ =~= header_text(format, start));
            string_of(out.as_slice())
        },
    }
}

pub open spec fn abs(t: int) -> nat {
    if t < 0 { (-t) as nat } else { t as nat }
}

/// A microsecond count as seconds with six decimals, `-` in front when negative.
pub open spec fn micros_text(t: int) -> Seq<char> {
    (if t < 0 { seq!['-'] } else { Seq::empty() }) + digits(abs(t) / 1_000_000, 10) + seq!['.'] + padded(
        abs(t) % 1_000_000,
        10,
        6,
    )
}

pub open spec fn bool_text(b: bool) -> Seq<char> {
    if b { seq!['t', 'r', 'u', 'e'] } else { seq!['f', 'a', 'l', 's', 'e'] }
}

/// `a`, a comma, then `rest`.
pub open spec fn join(a: Seq<char>, rest: Seq<char>) -> Seq<char> {
    a + seq![','] + rest
}

/// A CSV row without its line end: time, id, flags, dlc, data, direction, channel.
pub open spec fn csv_line(f: FrameView) -> Seq<char> {
    join(
        micros_text(f.timestamp_us as int),
        join(
            f.id_hex(),
            join(
                bool_text(f.is_extended),
                join(
                    bool_text(f.is_remote),
                    join(digits(f.dlc as nat, 10), join(hex_bytes(f.data), join(f.direction, f.channel))),
                ),
            ),
        ),
    )
}

fn push_str(out: &mut Vec<char>, s: &str)
    ensures
        final(out)@ == old(out)@ + s@,
{
    let cs = chars_of(s);
    let mut i: usize = 0;
    let ghost start = out@;
    while i < cs.len()
        invariant
            i <= cs@.len(),
            out@ == start + cs@.subrange(0, i as int),
        decreases cs.len() - i,
    {
        out.push(cs[i]);
        i = i + 1;
        assert(out@ =~= start + cs@.subrange(0, i as int));
    }
    assert(cs@.subrange(0, cs@.len() as int) =~= cs@);
}

fn push_bool(out: &mut Vec<char>, b: bool)
    ensures
        final(out)@ == old(out)@ + bool_text(b),
{
    proof {
        reveal_strlit("true");
        reveal_strlit("false");
        assert("true"@ =~= bool_text(true));
        assert("false"@ =~= bool_text(false));
    }
    if b {
        push_str(out, "true");
    } else {
        push_str(out, "false");
    }
}

/// Appends `micros_text(t)`.
fn push_micros(out: &mut Vec<char>, t: i64)
    ensures
        final(out)@ == old(out)@ + micros_text(t as int),
{
    let ghost start = out@;
    let a: u64 = if t < 0 { (-(t as i128)) as u64 } else { t as u64 };
    if t < 0 {
        out.push('-');
    }
    push_digits(out, a / 1_000_000, 10, 0);
    out.push('.');
    push_digits(out, a % 1_000_000, 10, 6);
    assert(padded((a / 1_000_000) as nat, 10, 0) == digits((a / 1_000_000) as nat, 10));
    assert(out@ =~= start + micros_text(t as int));
}

fn join_exec(a: Vec<char>, rest: Vec<char>) -> (r: Vec<char>)
    ensures
        r@ == join(a@, rest@),
{
    let mut out = a;
    let ghost start = out@;
    out.push(',');
    let mut i: usize = 0;
    let ghost mid = out@;
    while i < rest.len()
        invariant
            i <= rest@.len(),
            out@ == mid + rest@.subrange(0, i as int),
        decreases rest.len() - i,
    {
        out.push(rest[i]);
        i = i + 1;
        assert(out@ =~= mid + rest@.subrange(0, i as int));
    }
    assert(out@ =~= join(start, rest@));
    out
}

/// The CSV row of a frame, line end included.
pub fn format_csv_row(f: &CanFrame) -> (r: String)
    ensures
        r@ == csv_line(f@) + seq!['\n'],
{
    let mut t: Vec<char> = Vec::new();
    push_micros(&mut t, f.timestamp_us);
    assert(t@ =~= micros_text(f.timestamp_us as int));
    let mut id: Vec<char> = Vec::new();
    push_digits(&mut id, f.id as u64, 16, if f.is_extended { 8 } else { 3 });
    assert(id@ =~= f@.id_hex());
    let mut ext: Vec<char> = Vec::new();
    push_bool(&mut ext, f.is_extended);
    assert(ext@ =~= bool_text(f.is_extended));
    let mut rem: Vec<char> = Vec::new();
    push_bool(&mut rem, f.is_remote);
    assert(rem@ =~= bool_text(f.is_remote));
    let mut dlc: Vec<char> = Vec::new();
    push_digits(&mut dlc, f.dlc as u64, 10, 0);
    assert(padded(f.dlc as nat, 10, 0) == digits(f.dlc as nat, 10));
    assert(dlc@ =~= digits(f.dlc as nat, 10));
    let mut data: Vec<char> = Vec::new();
    push_hex_bytes(&mut data, &f.data);
    assert(data@ =~= hex_bytes(f.data@));
    let mut dir: Vec<char> = Vec::new();
    push_str(&mut dir, f.direction.as_str());
    assert(dir@ =~= f.direction@);
    let mut chan: Vec<char> = Vec::new();
    push_str(&mut chan, f.channel.as_str());
    assert(chan@ =~= f.channel@);
    let tail = join_exec(dir, chan);
    let tail = join_exec(data, tail);
    let tail = join_exec(dlc, tail);
    let tail = join_exec(rem, tail);
    let tail = join_exec(ext, tail);
    let tail = join_exec(id, tail);
    let mut out = join_exec(t, tail);
    out.push('\n');
    string_of(out.as_slice())
}

/// `s` with spaces in front up to `width` characters.
pub open spec fn pad_left(s: Seq<char>, width: nat) -> Seq<char> {
    if s.len() < width { Seq::new((width - s.len()) as nat, |i: int| ' ') + s } else { s }
}

/// A microsecond count as milliseconds with six decimals.
pub open spec fn millis_text(t: int) -> Seq<char> {
    (if t < 0 { seq!['-'] } else { Seq::empty() }) + digits(abs(t) / 1000, 10) + seq!['.'] + padded(
        (abs(t) % 1000) * 1000,
        10,
        6,
    )
}

/// The TRC direction tag: `Rx`/`Tx` for an extended frame, `rx`/`tx` for a standard one.
pub open spec fn trc_type(f: FrameView) -> Seq<char> {
    if f.is_extended {
        if f.direction == rx_text() { seq!['R', 'x'] } else { seq!['T', 'x'] }
    } else {
        if f.direction == rx_text() { seq!['r', 'x'] } else { seq!['t', 'x'] }
    }
}

/// A TRC row: the time in milliseconds right-aligned in eleven columns, the tag, the id,
/// the dlc and the data.
pub open spec fn trc_row(f: FrameView) -> Seq<char> {
    seq![' '] + pad_left(millis_text(f.timestamp_us as int), 11) + seq![' '] + trc_type(f) + seq![' '] + f.id_hex()
        + seq![' '] + digits(f.dlc as nat, 10) + seq![' '] + hex_bytes(f.data) + seq!['\n']
}

/// `pad_left(millis_text(t), 11)`.
fn millis_field(t: i64) -> (r: Vec<char>)
    ensures
        r@ == pad_left(millis_text(t as int), 11),
{
    let mut ms: Vec<char> = Vec::new();
    let a: u64 = if t < 0 { (-(t as i128)) as u64 } else { t as u64 };
    if t < 0 {
        ms.push('-');
    }
    push_digits(&mut ms, a / 1000, 10, 0);
    ms.push('.');
    push_digits(&mut ms, (a % 1000) * 1000, 10, 6);
    assert(padded((a / 1000) as nat, 10, 0) == digits((a / 1000) as nat, 10));
    assert(ms@ =~= millis_text(t as int));
    let mut out: Vec<char> = Vec::new();
    if ms.len() < 11 {
        let mut k: usize = 11 - ms.len();
        while k > 0
            invariant
                k <= 11 - ms@.len(),
                ms@.len() < 11,
                out@ =~= Seq::new((11 - ms@.len() - k) as nat, |i: int| ' '),
            decreases k,
        {
            out.push(' ');
            k = k - 1;
        }
    }
    let mut i: usize = 0;
    let ghost mid = out@;
    while i < ms.len()
        invariant
            i <= ms@.len(),
            out@ =~= mid + ms@.subrange(0, i as int),
        decreases ms.len() - i,
    {
        out.push(ms[i]);
        i = i + 1;
    }
    assert(ms@.subrange(0, ms@.len() as int) =~= ms@);
    assert(out@ =~= pad_left(millis_text(t as int), 11));
    out
}

/// The TRC row of a frame, line end included.
pub fn format_trc_row(f: &CanFrame) -> (r: String)
    ensures
        r@ == trc_row(f@),
{
    let t = f.timestamp_us;
    let ms = millis_field(t);
    let mut out: Vec<char> = Vec::new();
    out.push(' ');
    let mut i: usize = 0;
    let ghost mid = out@;
    while i < ms.len()
        invariant
            i <= ms@.len(),
            out@ =~= mid + ms@.subrange(0, i as int),
        decreases ms.len() - i,
    {
        out.push(ms[i]);
        i = i + 1;
    }
    assert(ms@.subrange(0, ms@.len() as int) =~= ms@);
    out.push(' ');
    proof {
        reveal_strlit("rx");
        assert("rx"@ =~= rx_text());
    }
    let is_rx = str_eq(f.direction.as_str(), "rx");
    if f.is_extended {
        out.push(if is_rx { 'R' } else { 'T' });
    } else {
        out.push(if is_rx { 'r' } else { 't' });
    }
    out.push('x');
    out.push(' ');
    push_digits(&mut out, f.id as u64, 16, if f.is_extended { 8 } else { 3 });
    out.push(' ');
    push_digits(&mut out, f.dlc as u64, 10, 0);
    assert(padded(f.dlc as nat, 10, 0) == digits(f.dlc as nat, 10));
    out.push(' ');
    push_hex_bytes(&mut out, &f.data);
    out.push('\n');
    assert(out@ =~= trc_row(f@));
    string_of(out.as_slice())
}

} // verus!
