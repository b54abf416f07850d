use vstd::prelude::*;
use crate::message::{CanFrame, FrameView, rx_string, tx_string, rx_text, tx_text, STANDARD_ID_MAX};
use crate::decimal::{Decimal, pow10, pow10_exec};
use crate::dbc_parser::{dec_value, dec_word, decimal_value, decimal_word, sub_chars};
use crate::text::{
    all_digits, chars_of, find_char, first_of, lemma_first_of, parse_digits, push_digits, padded, digits,
    split_words, string_of, trim, trim_bounds, value_of, views_of, words, word_is, starts_with_at,
};

verus! {

/// The pieces of `s` between the separators `c`.
pub open spec fn split_on(s: Seq<char>, c: char) -> Seq<Seq<char>>
    decreases s.len(),
    via split_on_decreases
{
    let k = first_of(s, c);
    if k >= s.len() {
        seq![s]
    } else {
        seq![s.subrange(0, k)] + split_on(s.subrange(k + 1, s.len() as int), c)
    }
}

#[via_fn]
proof fn split_on_decreases(s: Seq<char>, c: char) {
    lemma_first_of(s, c);
}

/// The pieces of `s[start..end]` between the separators `c`.
pub fn split_fields(s: &Vec<char>, start: usize, end: usize, c: char) -> (r: Vec<Vec<char>>)
    requires
        start <= end <= s.len(),
    ensures
        views_of(r@) == split_on(s@.subrange(start as int, end as int), c),
{
    let mut fields: Vec<Vec<char>> = Vec::new();
    let mut i: usize = start;
    loop
        invariant
            start <= i <= end <= s.len(),
            split_on(s@.subrange(start as int, end as int), c) == views_of(fields@) + split_on(s@.subrange(i as int, end as int), c),
        decreases end - i,
    {
        let k = find_char(s, i, end, c);
        let piece = sub_chars(s, i, i + k);
        let ghost rest = s@.subrange(i as int, end as int);
        let ghost old_f = fields@;
        fields.push(piece);
        assert(views_of(fields@) =~= views_of(old_f).push(piece@));
        if i + k >= end {
            assert(split_on(rest, c) == seq![rest]);
            assert(piece@ =~= rest);
            assert(views_of(old_f) + seq![rest] =~= views_of(fields@));
            return fields;
        }
        assert(rest.subrange(0, k as int) =~= piece@);
        assert(rest.subrange(k + 1, rest.len() as int) =~= s@.subrange(i + k + 1, end as int));
        assert(views_of(old_f) + (seq![piece@] + split_on(s@.subrange(i + k + 1, end as int), c)) =~= views_of(fields@) + split_on(s@.subrange(i + k + 1, end as int), c));
        i = i + k + 1;
    }
}

/// A decimal count of `unit`s in microseconds, where `per` is the number of microseconds
/// of one unit written as `10^exp`... (`exp` is 6 for seconds and 3 for milliseconds):
/// digits beyond the microsecond are dropped, toward zero.
pub open spec fn to_micros(d: Decimal, exp: nat) -> int {
    if d.scale <= exp {
        d.mantissa * pow10((exp - d.scale) as nat)
    } else {
        let q = abs_int(d.mantissa as int) / pow10((d.scale - exp) as nat);
        if d.mantissa < 0 { -q } else { q }
    }
}

pub open spec fn abs_int(x: int) -> int {
    if x < 0 { -x } else { x }
}

/// `to_micros(d, exp)` for a decimal of at most 18 fraction digits.
pub fn to_micros_exec(d: Decimal, exp: u8) -> (r: i128)
    requires
        d.scale <= 18,
        exp <= 6,
    ensures
        r == to_micros(d, exp as nat),
        -0x1000_0000_0000_0000_0000_0000_0000_0000 <= r <= 0x1000_0000_0000_0000_0000_0000_0000_0000,
{
    if d.scale <= exp {
        let p = pow10_exec(exp - d.scale);
        proof {
            assert(-0x8000_0000_0000_0000 * 1_000_000_000_000_000_000 <= (d.mantissa as int) * (p as int)
                <= 0x7fff_ffff_ffff_ffff * 1_000_000_000_000_000_000) by (nonlinear_arith)
                requires
                    -0x8000_0000_0000_0000 <= d.mantissa <= 0x7fff_ffff_ffff_ffff,
                    1 <= p <= 1_000_000_000_000_000_000;
        }
        (d.mantissa as i128) * p
    } else {
        let p = pow10_exec(d.scale - exp);
        let m = d.mantissa as i128;
        let a: i128 = if m < 0 { -m } else { m };
        let q = a / p;
        assert(q <= a) by (nonlinear_arith)
            requires
                q == a / p,
                a >= 0,
                p >= 1;
        if m < 0 { -q } else { q }
    }
}

pub open spec fn fits_i64(v: int) -> bool {
    i64::MIN <= v <= i64::MAX
}

pub open spec fn true_text() -> Seq<char> {
    seq!['t', 'r', 'u', 'e']
}

/// `w` without one leading "0x" or "0X".
pub open spec fn strip_hex_prefix(w: Seq<char>) -> Seq<char> {
    if w.len() >= 2 && w[0] == '0' && (w[1] == 'x' || w[1] == 'X') { w.subrange(2, w.len() as int) } else { w }
}

/// The hexadecimal value of a word, where it is one and is at most `limit`.
pub open spec fn hex_value(w: Seq<char>, limit: int) -> Option<int> {
    if w.len() > 0 && all_digits(w, 16) && value_of(w, 16) <= limit {
        Some(value_of(w, 16))
    } else {
        None
    }
}

/// The bytes of hexadecimal words, where each is one.
pub open spec fn hex_byte_words(ws: Seq<Seq<char>>) -> Option<Seq<u8>>
    decreases ws.len(),
{
    if ws.len() == 0 {
        Some(Seq::empty())
    } else {
        match (hex_byte_words(ws.drop_last()), hex_value(ws.last(), 255)) {
            (Some(bs), Some(b)) => Some(bs.push(b as u8)),
            _ => None,
        }
    }
}

/// The frame a CSV row stands for, where it reads as one: eight fields or more, the time in
/// seconds, the id in hexadecimal (an "0x" in front allowed), the flags as "true" (anything
/// else is false), the dlc, the data bytes in hexadecimal, the direction and the channel.
pub open spec fn csv_record(line: Seq<char>) -> Option<FrameView> {
    let p = split_on(line, ',');
    if p.len() < 8 {
        None
    } else {
        match (decimal_value(trim(p[0])), hex_value(strip_hex_prefix(trim(p[1])), u32::MAX as int), dec_value(trim(p[4]), 255),
            hex_byte_words(words(trim(p[5])))) {
            (Some(ts), Some(id), Some(dlc), Some(data)) => if fits_i64(to_micros(ts, 6)) {
                Some(
                    FrameView {
                        id: id as u32,
                        is_extended: trim(p[2]) == true_text(),
                        is_remote: trim(p[3]) == true_text(),
                        dlc: dlc as u8,
                        data,
                        timestamp_us: to_micros(ts, 6) as i64,
                        channel: trim(p[7]),
                        direction: trim(p[6]),
                    },
                )
            } else {
                None
            },
            _ => None,
        }
    }
}

/// The hexadecimal value of a word, where it is one and is at most `limit`.
pub fn hex_word(w: &Vec<char>, limit: u64) -> (r: Option<u64>)
    ensures
        r is None <==> hex_value(w@, limit as int) is None,
        r matches Some(v) ==> hex_value(w@, limit as int) == Some(v as int) && v <= limit,
{
    assert(w@.subrange(0, w@.len() as int) =~= w@);
    proof {
        if all_digits(w@, 16) {
            crate::text::lemma_value_nonneg(w@, 16);
        }
    }
    parse_digits(w, 0, w.len(), 16, limit)
}

/// The bytes of hexadecimal words `ws[from..to]`.
pub fn hex_bytes_of(ws: &Vec<Vec<char>>, from: usize, to: usize) -> (r: Option<Vec<u8>>)
    requires
        from <= to <= ws@.len(),
    ensures
        match hex_byte_words(views_of(ws@).subrange(from as int, to as int)) {
            None => r is None,
            Some(bs) => r matches Some(v) && v@ == bs,
        },
{
    let mut out: Vec<u8> = Vec::new();
    let mut i: usize = from;
    let ghost all = views_of(ws@);
    while i < to
        invariant
            from <= i <= to <= ws@.len(),
            all == views_of(ws@),
            hex_byte_words(all.subrange(from as int, i as int)) == Some(out@),
        decreases to - i,
    {
        let ghost sub = all.subrange(from as int, i + 1);
        assert(sub.drop_last() =~= all.subrange(from as int, i as int));
        assert(sub.last() == ws@[i as int]@);
        match hex_word(&ws[i], 255) {
            None => {
                proof {
                    lemma_hex_words_none(all.subrange(from as int, to as int), (i - from) as nat);
                    assert(all.subrange(from as int, to as int).subrange(0, i + 1 - from) =~= sub);
                }
                return None;
            },
            Some(b) => {
                out.push(b as u8);
            },
        }
        i = i + 1;
    }
    Some(out)
}

proof fn lemma_hex_words_none(ws: Seq<Seq<char>>, k: nat)
    requires
        k < ws.len(),
        hex_byte_words(ws.subrange(0, (k + 1) as int)) is None,
    ensures
        hex_byte_words(ws) is None,
    decreases ws.len(),
{
    if k + 1 < ws.len() {
        assert(ws.drop_last().subrange(0, (k + 1) as int) =~= ws.subrange(0, (k + 1) as int));
        lemma_hex_words_none(ws.drop_last(), k);
    } else {
        assert(ws.subrange(0, (k + 1) as int) =~= ws);
    }
}

fn trimmed(f: &Vec<char>) -> (r: Vec<char>)
    ensures
        r@ == trim(f@),
{
    let (a, b) = trim_bounds(f, 0, f.len());
    assert(f@.subrange(0, f@.len() as int) =~= f@);
    sub_chars(f, a, b)
}

fn strip_hex_prefix_exec(w: &Vec<char>) -> (r: Vec<char>)
    ensures
        r@ == strip_hex_prefix(w@),
{
    if w.len() >= 2 && w[0] == '0' && (w[1] == 'x' || w[1] == 'X') {
        sub_chars(w, 2, w.len())
    } else {
        sub_chars(w, 0, w.len())
    }
}

/// Why a trace line does not read as a frame.
#[derive(Debug, Clone, Copy, PartialEq, Eq, Structural)]
pub enum LineError {
    TooFewFields,
    BadTimestamp,
    BadId,
    BadDlc,
    BadData,
    BadBus,
    MissingData,
}

/// The frame of a CSV row.
pub fn parse_csv_line(line: &str) -> (r: Result<CanFrame, LineError>)
    ensures
        match csv_record(line@) {
            None => r is Err,
            Some(f) => r matches Ok(x) && x@ == f,
        },
{
    let cs = chars_of(line);
    assert(cs@.subrange(0, cs@.len() as int) =~= cs@);
    let p = split_fields(&cs, 0, cs.len(), ',');
    let ghost pv = views_of(p@);
    if p.len() < 8 {
        return Err(LineError::TooFewFields);
    }
    assert(pv[0] == p@[0]@ && pv[1] == p@[1]@ && pv[2] == p@[2]@ && pv[3] == p@[3]@);
    assert(pv[4] == p@[4]@ && pv[5] == p@[5]@ && pv[6] == p@[6]@ && pv[7] == p@[7]@);
    let t0 = trimmed(&p[0]);
    let ts = match decimal_word(&t0, 0, t0.len()) {
        None => {
            assert(t0@.subrange(0, t0@.len() as int) =~= t0@);
            return Err(LineError::BadTimestamp);
        },
        Some(d) => d,
    };
    assert(t0@.subrange(0, t0@.len() as int) =~= t0@);
    let us = to_micros_exec(ts, 6);
    let id = match hex_word(&strip_hex_prefix_exec(&trimmed(&p[1])), u32::MAX as u64) {
        None => return Err(LineError::BadId),
        Some(v) => v as u32,
    };
    proof {
        reveal_strlit("true");
        assert("true"@ =~= true_text());
    }
    let is_extended = word_is(&trimmed(&p[2]), "true");
    let is_remote = word_is(&trimmed(&p[3]), "true");
    let dlc = match dec_word(&trimmed(&p[4]), 255) {
        None => return Err(LineError::BadDlc),
        Some(v) => v as u8,
    };
    let t5 = trimmed(&p[5]);
    let ws = split_words(&t5, 0, t5.len());
    assert(t5@.subrange(0, t5@.len() as int) =~= t5@);
    assert(views_of(ws@).subrange(0, ws@.len() as int) =~= views_of(ws@));
    let data = match hex_bytes_of(&ws, 0, ws.len()) {
        None => return Err(LineError::BadData),
        Some(d) => d,
    };
    if us < i64::MIN as i128 || us > i64::MAX as i128 {
        return Err(LineError::BadTimestamp);
    }
    let direction = string_of(trimmed(&p[6]).as_slice());
    let channel = string_of(trimmed(&p[7]).as_slice());
    Ok(CanFrame { id, is_extended, is_remote, dlc, data, timestamp_us: us as i64, channel, direction })
}

/// Microseconds in a day.
pub const DAY_MICROS: i128 = 86_400_000_000;
/// Days from the start of the MS-Basic day count to the Unix epoch.
pub const EPOCH_DAYS: i128 = 25569;

/// A start time in MS-Basic days as Unix microseconds, digits beyond the microsecond
/// dropped toward zero.
pub open spec fn start_micros(d: Decimal) -> int {
    let q = abs_int(d.mantissa * 86_400_000_000) / pow10(d.scale as nat);
    (if d.mantissa < 0 { -q } else { q }) - 25569 * 86_400_000_000
}

/// `start_micros(d)` for a decimal of at most 18 fraction digits.
pub fn start_micros_exec(d: Decimal) -> (r: i128)
    requires
        d.scale <= 18,
    ensures
        r == start_micros(d),
        -0x1000_0000_0000_0000_0000_0000_0000 <= r <= 0x1000_0000_0000_0000_0000_0000_0000,
{
    proof {
        assert(-0x8000_0000_0000_0000 * 86_400_000_000 <= (d.mantissa as int) * 86_400_000_000
            <= 0x7fff_ffff_ffff_ffff * 86_400_000_000) by (nonlinear_arith)
            requires
                -0x8000_0000_0000_0000 <= d.mantissa <= 0x7fff_ffff_ffff_ffff;
    }
    let p = pow10_exec(d.scale);
    let m: i128 = (d.mantissa as i128) * DAY_MICROS;
    let a: i128 = if m < 0 { -m } else { m };
    let q = a / p;
    assert(q <= a) by (nonlinear_arith)
        requires
            q == a / p,
            a >= 0,
            p >= 1;
    (if m < 0 { -q } else { q }) - EPOCH_DAYS * DAY_MICROS
}

/// Which fields of a TRC row hold the offset, bus, id, direction, dlc and first data byte:
/// a row whose third field reads as a bus number has no type field.
pub open spec fn trc_shape(p: Seq<Seq<char>>) -> (int, int, int, int, int, int) {
    if dec_value(p[2], 255) is Some { (1, 2, 4, 3, 6, 7) } else { (1, 3, 4, 5, 7, 8) }
}

/// The channel of a bus: its mapping where there is one (the first), else `channel_<n>`.
pub open spec fn bus_channel(map: Seq<(u8, String)>, bus: u8) -> Seq<char>
    decreases map.len(),
{
    if map.len() == 0 {
        "channel_"@ + digits(bus as nat, 10)
    } else if map[0].0 == bus {
        map[0].1@
    } else {
        bus_channel(map.drop_first(), bus)
    }
}

/// The frame a TRC row stands for, where it reads as one. Its time is the start time plus
/// the row's offset in milliseconds, or the offset alone without a start time.
pub open spec fn trc_record(line: Seq<char>, start: Option<Decimal>, map: Seq<(u8, String)>) -> Option<FrameView> {
    let p = words(line);
    if p.len() < 8 {
        None
    } else {
        let (o, b, i, d, l, ds) = trc_shape(p);
        match (decimal_value(p[o]), dec_value(p[b], 255), hex_value(p[i], u32::MAX as int), dec_value(p[l], 255)) {
            (Some(off), Some(bus), Some(id), Some(dlc)) => {
                let ts = match start {
                    Some(sd) => start_micros(sd) + to_micros(off, 3),
                    None => to_micros(off, 3),
                };
                if p.len() >= ds + dlc && fits_i64(ts) {
                    match hex_byte_words(p.subrange(ds, ds + dlc)) {
                        Some(data) => Some(
                            FrameView {
                                id: id as u32,
                                is_extended: id > STANDARD_ID_MAX,
                                is_remote: false,
                                dlc: dlc as u8,
                                data,
                                timestamp_us: ts as i64,
                                channel: bus_channel(map, bus as u8),
                                direction: if p[d].len() > 0 && crate::trace_format::lower(p[d][0]) == 'r' {
                                    rx_text()
                                } else {
                                    tx_text()
                                },
                            },
                        ),
                        None => None,
                    }
                } else {
                    None
                }
            },
            _ => None,
        }
    }
}

fn bus_channel_exec(map: &Vec<(u8, String)>, bus: u8) -> (r: String)
    ensures
        r@ == bus_channel(map@, bus),
{
    let mut i: usize = 0;
    assert(map@.subrange(0, map@.len() as int) =~= map@);
    while i < map.len()
        invariant
            i <= map@.len(),
            bus_channel(map@, bus) == bus_channel(map@.subrange(i as int, map@.len() as int), bus),
        decreases map.len() - i,
    {
        let ghost rest = map@.subrange(i as int, map@.len() as int);
        assert(rest.drop_first() =~= map@.subrange(i + 1, map@.len() as int));
        assert(rest[0] == map@[i as int]);
        if map[i].0 == bus {
            return crate::text::copy_string(&map[i].1);
        }
        i = i + 1;
    }
    let mut out = chars_of("channel_");
    push_digits(&mut out, bus as u64, 10, 0);
    assert(padded(bus as nat, 10, 0) == digits(bus as nat, 10));
    assert(map@.subrange(i as int, map@.len() as int).len() == 0);
    string_of(out.as_slice())
}

/// The frame of a TRC row, given the start time of the file in MS-Basic days, if any, and
/// the channels of the buses.
pub fn parse_trc_line(line: &str, start: Option<Decimal>, map: &Vec<(u8, String)>) -> (r: Result<CanFrame, LineError>)
    requires
        start matches Some(d) ==> d.scale <= 18,
    ensures
        match trc_record(line@, start, map@) {
            None => r is Err,
            Some(f) => r matches Ok(x) && x@ == f,
        },
{
    let cs = chars_of(line);
    assert(cs@.subrange(0, cs@.len() as int) =~= cs@);
    let p = split_words(&cs, 0, cs.len());
    let ghost pv = views_of(p@);
    if p.len() < 8 {
        return Err(LineError::TooFewFields);
    }
    assert(pv[2] == p@[2]@);
    let no_type = dec_word(&p[2], 255).is_some();
    let (o, b, i, d, l, ds): (usize, usize, usize, usize, usize, usize) = if no_type {
        (1, 2, 4, 3, 6, 7)
    } else {
        (1, 3, 4, 5, 7, 8)
    };
    assert(pv[o as int] == p@[o as int]@ && pv[b as int] == p@[b as int]@ && pv[i as int] == p@[i as int]@);
    assert(pv[d as int] == p@[d as int]@ && pv[l as int] == p@[l as int]@);
    let off = match decimal_word(&p[o], 0, p[o].len()) {
        None => {
            assert(p@[o as int]@.subrange(0, p@[o as int]@.len() as int) =~= p@[o as int]@);
            return Err(LineError::BadTimestamp);
        },
        Some(v) => v,
    };
    assert(p@[o as int]@.subrange(0, p@[o as int]@.len() as int) =~= p@[o as int]@);
    let off_us = to_micros_exec(off, 3);
    let ts: i128 = match start {
        Some(sd) => start_micros_exec(sd) + off_us,
        None => off_us,
    };
    let bus = match dec_word(&p[b], 255) {
        None => return Err(LineError::BadBus),
        Some(v) => v as u8,
    };
    let id = match hex_word(&p[i], u32::MAX as u64) {
        None => return Err(LineError::BadId),
        Some(v) => v as u32,
    };
    let dlc = match dec_word(&p[l], 255) {
        None => return Err(LineError::BadDlc),
        Some(v) => v as usize,
    };
    if p.len() < ds + dlc {
        return Err(LineError::MissingData);
    }
    if ts < i64::MIN as i128 || ts > i64::MAX as i128 {
        return Err(LineError::BadTimestamp);
    }
    let data = match hex_bytes_of(&p, ds, ds + dlc) {
        None => return Err(LineError::BadData),
        Some(v) => v,
    };
    let dw = &p[d];
    let direction = if dw.len() > 0 && (dw[0] == 'r' || dw[0] == 'R') { rx_string() } else { tx_string() };
    Ok(CanFrame {
        id,
        is_extended: id > STANDARD_ID_MAX,
        is_remote: false,
        dlc: dlc as u8,
        data,
        timestamp_us: ts as i64,
        channel: bus_channel_exec(map, bus),
        direction,
    })
}

pub open spec fn frames_view(v: Seq<CanFrame>) -> Seq<FrameView> {
    v.map_values(|f: CanFrame| f@)
}

/// Timestamps never decrease along the sequence.
pub open spec fn sorted_by_time(v: Seq<FrameView>) -> bool {
    forall|i: int, j: int| 0 <= i < j < v.len() ==> v[i].timestamp_us <= v[j].timestamp_us
}

/// `a` holds the frames of `b` rearranged by the one-to-one index map `p`
/// (`a[i] == b[p[i]]`), with frames of equal time kept in their order in `b`.
pub open spec fn stable_reorder(a: Seq<FrameView>, b: Seq<FrameView>, p: Seq<int>) -> bool {
    &&& p.len() == a.len() && a.len() == b.len()
    &&& forall|i: int| 0 <= i < p.len() ==> 0 <= #[trigger] p[i] < b.len() && a[i] == b[p[i]]
    &&& forall|i: int, j: int| 0 <= i < j < p.len() ==> #[trigger] p[i] != #[trigger] p[j]
    &&& forall|i: int, j: int|
        0 <= i < j < p.len() && a[i].timestamp_us == a[j].timestamp_us ==> #[trigger] p[i] < #[trigger] p[j]
}

/// `a` is the stable sort of `b` by timestamp.
pub open spec fn stable_sorted_of(a: Seq<FrameView>, b: Seq<FrameView>) -> bool {
    sorted_by_time(a) && exists|p: Seq<int>| stable_reorder(a, b, p)
}

/// Relies on `slice::sort_by_key`: a stable sort, so the frames come out ordered by
/// timestamp, every one of them kept, and frames of equal timestamp in their former order.
#[verifier::external_body]
fn sort_by_timestamp(v: &mut Vec<CanFrame>)
    ensures
        sorted_by_time(frames_view(final(v)@)),
        frames_view(final(v)@).to_multiset() == frames_view(old(v)@).to_multiset(),
        stable_sorted_of(frames_view(final(v)@), frames_view(old(v)@)),
{
    v.sort_by_key(|f| f.timestamp_us)
}

pub open spec fn starts(s: Seq<char>, p: Seq<char>) -> bool {
    p.len() <= s.len() && s.subrange(0, p.len() as int) == p
}

pub open spec fn contains_text(s: Seq<char>, p: Seq<char>) -> bool {
    exists|i: int| 0 <= i && i + p.len() <= s.len() && #[trigger] s.subrange(i, i + p.len()) == p
}

/// A line of a TRC file that holds data rather than a header or a comment.
pub open spec fn is_trc_data_line(l: Seq<char>) -> bool {
    !starts(l, "$"@) && !starts(l, ";"@) && trim(l).len() > 0 && !contains_text(l, "Message"@) && !starts(
        l,
        "---+---"@,
    ) && l.len() > 10
}

/// The start time (the last `;$STARTTIME=` line before the data) and the index of the first
/// data line (0 where there is none) of TRC lines, from line `i` on.
pub open spec fn trc_preamble(lines: Seq<Seq<char>>, i: int, st: Option<Decimal>) -> (Option<Decimal>, int)
    decreases lines.len() - i,
{
    if i < 0 || i >= lines.len() {
        (st, 0)
    } else {
        let l = lines[i];
        let st2 = if starts(l, ";$STARTTIME="@) { decimal_value(trim(l.subrange(12, l.len() as int))) } else { st };
        if is_trc_data_line(l) { (st2, i) } else { trc_preamble(lines, i + 1, st2) }
    }
}

/// The index after the CSV header line (one starting with "Time" or "time"), from line
/// `i` on; 0 where there is none.
pub open spec fn csv_data_start(lines: Seq<Seq<char>>, i: int) -> int
    decreases lines.len() - i,
{
    if i < 0 || i >= lines.len() {
        0
    } else if starts(lines[i], "Time"@) || starts(lines[i], "time"@) {
        i + 1
    } else {
        csv_data_start(lines, i + 1)
    }
}

/// The frame a non-blank line stands for in `format`.
pub open spec fn record_of(line: Seq<char>, format: crate::trace_format::TraceFormat, start: Option<Decimal>, map: Seq<(u8, String)>) -> Option<FrameView> {
    if trim(line).len() == 0 {
        None
    } else {
        match format {
            crate::trace_format::TraceFormat::Csv => csv_record(line),
            crate::trace_format::TraceFormat::Trc => trc_record(line, start, map),
        }
    }
}

/// The frames of the lines that read as frames, in order.
pub open spec fn parsed_lines(lines: Seq<Seq<char>>, format: crate::trace_format::TraceFormat, start: Option<Decimal>, map: Seq<(u8, String)>) -> Seq<FrameView>
    decreases lines.len(),
{
    if lines.len() == 0 {
        Seq::empty()
    } else {
        let r = parsed_lines(lines.drop_last(), format, start, map);
        match record_of(lines.last(), format, start, map) {
            Some(f) => r.push(f),
            None => r,
        }
    }
}

/// The frames of a trace file: the data lines that read as frames, ordered by timestamp.
pub open spec fn trace_frames(content: Seq<char>, format: crate::trace_format::TraceFormat, map: Seq<(u8, String)>) -> Seq<FrameView> {
    let lines = split_on(content, '\n');
    let (start, from) = match format {
        crate::trace_format::TraceFormat::Trc => trc_preamble(lines, 0, None),
        crate::trace_format::TraceFormat::Csv => (None, csv_data_start(lines, 0)),
    };
    parsed_lines(lines.subrange(from, lines.len() as int), format, start, map)
}

fn line_starts(l: &Vec<char>, p: &str) -> (r: bool)
    ensures
        r == starts(l@, p@),
{
    assert(l@.subrange(0, l@.len() as int) =~= l@);
    starts_with_at_all(l, p)
}

fn starts_with_at_all(l: &Vec<char>, p: &str) -> (r: bool)
    ensures
        r == starts(l@, p@),
{
    let r = crate::text::starts_with_at(l, 0, l.len(), p);
    assert(l@.subrange(0, l@.len() as int) =~= l@);
    r
}

fn contains_exec(l: &Vec<char>, p: &str) -> (r: bool)
    ensures
        r == contains_text(l@, p@),
{
    let pc = chars_of(p);
    let n = l.len();
    let m = pc.len();
    if m > n {
        return false;
    }
    if m == 0 {
        assert(l@.subrange(0, 0 + p@.len() as int) =~= p@);
        return true;
    }
    let mut i: usize = 0;
    while i <= n - m
        invariant
            pc@ == p@,
            m == pc@.len(),
            n == l@.len(),
            1 <= m <= n,
            i <= n - m + 1,
            forall|j: int| 0 <= j < i ==> #[trigger] l@.subrange(j, j + m) != p@,
        decreases n - m + 1 - i,
    {
        if crate::text::starts_with_at(l, i, n, p) {
            return true;
        }
        i = i + 1;
    }
    false
}

fn is_trc_data_exec(l: &Vec<char>) -> (r: bool)
    ensures
        r == is_trc_data_line(l@),
{
    let (a, b) = trim_bounds(l, 0, l.len());
    assert(l@.subrange(0, l@.len() as int) =~= l@);
    !line_starts(l, "$") && !line_starts(l, ";") && a < b && !contains_exec(l, "Message") && !line_starts(l, "---+---")
        && l.len() > 10
}

/// The frames of a trace file in `format`: the data lines that read as frames (others are
/// left out), ordered by timestamp, given the channels of the TRC buses.
pub fn parse_trace(content: &str, format: crate::trace_format::TraceFormat, map: &Vec<(u8, String)>) -> (r: Vec<CanFrame>)
    ensures
        sorted_by_time(frames_view(r@)),
        frames_view(r@).to_multiset() == trace_frames(content@, format, map@).to_multiset(),
        stable_sorted_of(frames_view(r@), trace_frames(content@, format, map@)),
{
    let cs = chars_of(content);
    assert(cs@.subrange(0, cs@.len() as int) =~= cs@);
    let lines = split_fields(&cs, 0, cs.len(), '\n');
    let ghost lv = views_of(lines@);
    let mut start: Option<Decimal> = None;
    let mut from: usize = 0;
    match format {
        crate::trace_format::TraceFormat::Trc => {
            let mut i: usize = 0;
            let mut found = false;
            while i < lines.len() && !found
                invariant
                    i <= lines@.len(),
                    lv == views_of(lines@),
                    start matches Some(d) ==> d.scale <= 18,
                    found ==> from < lines@.len() && trc_preamble(lv, 0, None) == (start, from as int),
                    !found ==> trc_preamble(lv, 0, None) == trc_preamble(lv, i as int, start) && from == 0,
                decreases lines.len() - i + if found { 0int } else { 1int },
            {
                let l = &lines[i];
                assert(lv[i as int] == l@);
                let ghost st0 = start;
                proof {
                    reveal_strlit(";$STARTTIME=");
                }
                if line_starts(l, ";$STARTTIME=") {
                    let t = trimmed_from(l, 12);
                    start = decimal_word(&t, 0, t.len());
                    assert(t@.subrange(0, t@.len() as int) =~= t@);
                }
                if is_trc_data_exec(l) {
                    from = i;
                    found = true;
                } else {
                    i = i + 1;
                }
            }
            if !found {
                assert(trc_preamble(lv, i as int, start) == (start, 0int));
            }
        },
        crate::trace_format::TraceFormat::Csv => {
            let mut i: usize = 0;
            let mut found = false;
            while i < lines.len() && !found
                invariant
                    i <= lines@.len(),
                    lv == views_of(lines@),
                    found ==> from <= lines@.len() && csv_data_start(lv, 0) == from as int,
                    !found ==> csv_data_start(lv, 0) == csv_data_start(lv, i as int) && from == 0,
                decreases lines.len() - i + if found { 0int } else { 1int },
            {
                let l = &lines[i];
                assert(lv[i as int] == l@);
                if line_starts(l, "Time") || line_starts(l, "time") {
                    from = i + 1;
                    found = true;
                } else {
                    i = i + 1;
                }
            }
            if !found {
                assert(csv_data_start(lv, i as int) == 0);
            }
        },
    }
    let ghost pre = match format {
        crate::trace_format::TraceFormat::Trc => trc_preamble(lv, 0, None),
        crate::trace_format::TraceFormat::Csv => (None, csv_data_start(lv, 0)),
    };
    assert(pre == (start, from as int));
    let mut out: Vec<CanFrame> = Vec::new();
    let mut k: usize = from;
    assert(lv.subrange(from as int, from as int) =~= Seq::<Seq<char>>::empty());
    while k < lines.len()
        invariant
            from <= k <= lines@.len(),
            lv == views_of(lines@),
            start matches Some(d) ==> d.scale <= 18,
            frames_view(out@) == parsed_lines(lv.subrange(from as int, k as int), format, start, map@),
        decreases lines.len() - k,
    {
        let l = &lines[k];
        assert(lv[k as int] == l@);
        let ghost sub = lv.subrange(from as int, k + 1);
        assert(sub.drop_last() =~= lv.subrange(from as int, k as int));
        assert(sub.last() == l@);
        let (a, b) = trim_bounds(l, 0, l.len());
        assert(l@.subrange(0, l@.len() as int) =~= l@);
        if a < b {
            let ls = string_of(l.as_slice());
            let rec = match format {
                crate::trace_format::TraceFormat::Csv => parse_csv_line(ls.as_str()),
                crate::trace_format::TraceFormat::Trc => parse_trc_line(ls.as_str(), start, map),
            };
            match rec {
                Ok(f) => {
                    let ghost before = out@;
                    out.push(f);
                    assert(frames_view(out@) =~= frames_view(before).push(f@));
                },
                Err(_) => {},
            }
        }
        k = k + 1;
    }
    assert(lv =~= split_on(content@, '\n'));
    assert(lv.subrange(from as int, lv.len() as int) == lv.subrange(from as int, k as int));
    assert(frames_view(out@) == trace_frames(content@, format, map@));
    sort_by_timestamp(&mut out);
    out
}

fn trimmed_from(l: &Vec<char>, a: usize) -> (r: Vec<char>)
    requires
        a <= l@.len(),
    ensures
        r@ == trim(l@.subrange(a as int, l@.len() as int)),
{
    let (x, y) = trim_bounds(l, a, l.len());
    sub_chars(l, x, y)
}

} // verus!
