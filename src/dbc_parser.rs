use vstd::prelude::*;
use crate::dbc::{ByteOrder, DbcDatabase, Message, Signal, ValueTable, ValueType, signal_wf, table_named};
use crate::decimal::{Decimal, MAX_SCALE, decimal_text, parse_decimal};
use crate::trace_parse::split_fields;
use crate::text::trim;
use crate::text::{
    all_digits, chars_of, find_char, first_of, parse_digits, seq_eq, split_words,
    string_of, trim_bounds, starts_with_at, value_of, views_of, words, word_is,
};

verus! {

/// The parser of DBC text.
pub struct DbcParser;

/// The unsigned decimal value of a word, where it is one and is at most `limit`.
pub open spec fn dec_value(w: Seq<char>, limit: int) -> Option<int> {
    if w.len() > 0 && all_digits(w, 10) && value_of(w, 10) <= limit {
        Some(value_of(w, 10))
    } else {
        None
    }
}

/// The signed decimal value of a word: an optional sign and digits, within `i64`.
pub open spec fn int_value(w: Seq<char>) -> Option<int> {
    if w.len() > 0 && w[0] == '-' {
        match dec_value(w.drop_first(), 0x8000_0000_0000_0000) {
            Some(v) => Some(-v),
            None => None,
        }
    } else if w.len() > 0 && w[0] == '+' {
        dec_value(w.drop_first(), 0x7fff_ffff_ffff_ffff)
    } else {
        dec_value(w, 0x7fff_ffff_ffff_ffff)
    }
}

/// `w` without its trailing colons.
pub open spec fn strip_colons(w: Seq<char>) -> Seq<char>
    decreases w.len(),
{
    if w.len() > 0 && w.last() == ':' { strip_colons(w.drop_last()) } else { w }
}

/// `w` without the quotes at either end.
pub open spec fn strip_quotes(w: Seq<char>) -> Seq<char>
    decreases w.len(),
{
    if w.len() > 0 && w[0] == '"' {
        strip_quotes(w.drop_first())
    } else if w.len() > 0 && w.last() == '"' {
        strip_quotes(w.drop_last())
    } else {
        w
    }
}

/// A message record `BO_ <id> <name>: <dlc> [<sender>]`, given its words.
pub open spec fn message_record(ws: Seq<Seq<char>>) -> Option<(u32, Seq<char>, u8, Option<Seq<char>>)> {
    if ws.len() < 4 {
        None
    } else {
        match (dec_value(ws[1], u32::MAX as int), dec_value(ws[3], 255)) {
            (Some(id), Some(dlc)) => Some(
                (id as u32, strip_colons(ws[2]), dlc as u8, if ws.len() > 4 { Some(ws[4]) } else { None }),
            ),
            _ => None,
        }
    }
}

/// The value/label pairs at the front of `ws`: a signed value, then a quoted label.
pub open spec fn value_pairs(ws: Seq<Seq<char>>) -> Seq<(i64, Seq<char>)>
    decreases ws.len(),
{
    if ws.len() >= 2 && int_value(ws[0]) is Some {
        seq![(int_value(ws[0])->0 as i64, strip_quotes(ws[1]))] + value_pairs(ws.subrange(2, ws.len() as int))
    } else {
        Seq::empty()
    }
}

/// A value-table record `VAL_ <id> <signal> <v> "<label>" ... ;`, given its words.
pub open spec fn value_table_record(ws: Seq<Seq<char>>) -> Option<(Seq<char>, Seq<(i64, Seq<char>)>)> {
    if ws.len() < 4 {
        None
    } else {
        Some((ws[2], value_pairs(ws.subrange(3, ws.len() as int))))
    }
}

/// `s` without its leading copies of `p`.
pub open spec fn strip_prefixes(s: Seq<char>, p: Seq<char>) -> Seq<char>
    decreases s.len(),
{
    if p.len() > 0 && p.len() <= s.len() && s.subrange(0, p.len() as int) == p {
        strip_prefixes(s.subrange(p.len() as int, s.len() as int), p)
    } else {
        s
    }
}

pub open spec fn bu_tag() -> Seq<char> {
    seq!['B', 'U', '_', ':']
}

pub open spec fn pairs_view(v: Seq<(i64, String)>) -> Seq<(i64, Seq<char>)> {
    v.map_values(|p: (i64, String)| (p.0, p.1@))
}

/// The numbers of a layout word `<start>|<length>@<order><sign>`.
pub open spec fn layout_record(w: Seq<char>) -> Option<(u8, u8, ByteOrder, ValueType)> {
    let a = first_of(w, '|');
    let b = first_of(w, '@');
    if a < b && b + 3 == w.len() {
        match (dec_value(w.subrange(0, a), 255), dec_value(w.subrange(a + 1, b), 255)) {
            (Some(st), Some(len)) => {
                let o = w[b + 1];
                let sg = w[b + 2];
                if (o == '0' || o == '1') && (sg == '+' || sg == '-') {
                    Some(
                        (
                            st as u8,
                            len as u8,
                            if o == '0' { ByteOrder::BigEndian } else { ByteOrder::LittleEndian },
                            if sg == '+' { ValueType::Unsigned } else { ValueType::Signed },
                        ),
                    )
                } else {
                    None
                }
            },
            _ => None,
        }
    } else {
        None
    }
}

/// A decimal within the kept scale and an `i64` mantissa.
pub open spec fn decimal_value(w: Seq<char>) -> Option<Decimal> {
    match decimal_text(w) {
        Some((m, sc)) => if sc <= MAX_SCALE && i64::MIN < m <= i64::MAX {
            Some(Decimal { mantissa: m as i64, scale: sc as u8 })
        } else {
            None
        },
        None => None,
    }
}

/// The factor and offset of a word `(<factor>,<offset>)`.
pub open spec fn scaling_record(w: Seq<char>) -> Option<(Decimal, Decimal)> {
    if w.len() >= 2 && w[0] == '(' && w.last() == ')' {
        let inner = w.subrange(1, w.len() - 1);
        let k = first_of(inner, ',');
        if k < inner.len() {
            match (decimal_value(inner.subrange(0, k)), decimal_value(inner.subrange(k + 1, inner.len() as int))) {
                (Some(f), Some(o)) => Some((f, o)),
                _ => None,
            }
        } else {
            None
        }
    } else {
        None
    }
}

/// The bounds of a word `[<min>|<max>]`: `None` where it has no '|', else each bound where
/// it reads as a decimal.
pub open spec fn range_record(w: Seq<char>) -> Option<(Option<Decimal>, Option<Decimal>)> {
    let inner = w.subrange(1, w.len() - 1);
    let k = first_of(inner, '|');
    if k < inner.len() {
        Some((decimal_value(inner.subrange(0, k)), decimal_value(inner.subrange(k + 1, inner.len() as int))))
    } else {
        None
    }
}

pub open spec fn is_range_word(w: Seq<char>) -> bool {
    w.len() >= 2 && w[0] == '[' && w.last() == ']'
}

pub open spec fn sg_tag() -> Seq<char> {
    seq!['S', 'G', '_']
}

pub open spec fn colon() -> Seq<char> {
    seq![':']
}

/// A signal record `SG_ <name> : <layout> (<factor>,<offset>) [[<min>|<max>]] "<unit>"
/// <receivers>`: the words before the first quote, the unit up to the next quote, the
/// receivers after it. The length must lie between 1 and 64.
pub open spec fn signal_record(line: Seq<char>) -> Option<SignalParts> {
    let q = first_of(line, '"');
    let rest = line.subrange(q + 1, line.len() as int);
    let q2 = first_of(rest, '"');
    let head = words(line.subrange(0, q));
    if q < line.len() && q2 < rest.len() && (head.len() == 5 || (head.len() == 6 && is_range_word(head[5])))
        && head[0] == sg_tag() && head[2] == colon() {
        match (layout_record(head[3]), scaling_record(head[4])) {
            (Some((st, len, order, vt)), Some((f, o))) => {
                let range = if head.len() == 6 { range_record(head[5]) } else { Some((None, None)) };
                match range {
                    Some((mn, mx)) => if 1 <= len <= 64 {
                        Some(
                            SignalParts {
                                name: head[1],
                                start_bit: st,
                                length: len,
                                byte_order: order,
                                value_type: vt,
                                factor: f,
                                offset: o,
                                minimum: mn,
                                maximum: mx,
                                unit: rest.subrange(0, q2),
                                receivers: words(rest.subrange(q2 + 1, rest.len() as int)),
                            },
                        )
                    } else {
                        None
                    },
                    None => None,
                }
            },
            _ => None,
        }
    } else {
        None
    }
}

/// The parts of a signal record.
pub struct SignalParts {
    pub name: Seq<char>,
    pub start_bit: u8,
    pub length: u8,
    pub byte_order: ByteOrder,
    pub value_type: ValueType,
    pub factor: Decimal,
    pub offset: Decimal,
    pub minimum: Option<Decimal>,
    pub maximum: Option<Decimal>,
    pub unit: Seq<char>,
    pub receivers: Seq<Seq<char>>,
}

/// A signal freshly read from a record: no comment and no value table yet.
pub open spec fn matches_parts(s: Signal, p: SignalParts) -> bool {
    &&& s.name@ == p.name
    &&& s.start_bit == p.start_bit
    &&& s.length == p.length
    &&& s.byte_order == p.byte_order
    &&& s.value_type == p.value_type
    &&& s.factor == p.factor
    &&& s.offset == p.offset
    &&& s.minimum == p.minimum
    &&& s.maximum == p.maximum
    &&& s.unit@ == p.unit
    &&& strings_view(s.receivers@) == p.receivers
    &&& s.comment is None
    &&& s.value_table is None
}

pub open spec fn strings_view(v: Seq<String>) -> Seq<Seq<char>> {
    v.map_values(|s: String| s@)
}

/// Strings of the words `ws[from..]`.
pub fn strings_of(ws: &Vec<Vec<char>>, from: usize) -> (r: Vec<String>)
    ensures
        strings_view(r@) == if from <= ws@.len() { views_of(ws@).subrange(from as int, ws@.len() as int) } else { Seq::empty() },
{
    let mut r: Vec<String> = Vec::new();
    if from > ws.len() {
        assert(strings_view(r@) =~= Seq::<Seq<char>>::empty());
        return r;
    }
    let mut i: usize = from;
    while i < ws.len()
        invariant
            from <= i <= ws@.len(),
            strings_view(r@) == views_of(ws@).subrange(from as int, i as int),
        decreases ws.len() - i,
    {
        let ghost old_r = r@;
        let st = string_of(ws[i].as_slice());
        assert(st@ == ws@[i as int]@);
        r.push(st);
        assert(strings_view(r@) =~= strings_view(old_r).push(ws@[i as int]@));
        assert(views_of(ws@).subrange(from as int, i + 1) =~= views_of(ws@).subrange(from as int, i as int).push(ws@[i as int]@));
        i = i + 1;
    }
    r
}

/// The unsigned value of a word, where it is one and is at most `limit`.
pub fn dec_word(w: &Vec<char>, limit: u64) -> (r: Option<u64>)
    ensures
        r is None <==> dec_value(w@, limit as int) is None,
        r matches Some(v) ==> dec_value(w@, limit as int) == Some(v as int) && v <= limit,
{
    assert(w@.subrange(0, w@.len() as int) =~= w@);
    proof {
        if all_digits(w@, 10) {
            crate::text::lemma_value_nonneg(w@, 10);
        }
    }
    parse_digits(w, 0, w.len(), 10, limit)
}

/// The signed value of a word, where it is one.
pub fn int_word(w: &Vec<char>) -> (r: Option<i64>)
    ensures
        match int_value(w@) {
            None => r is None,
            Some(v) => r matches Some(x) && x as int == v,
        },
{
    if w.len() > 0 && (w[0] == '-' || w[0] == '+') {
        let neg = w[0] == '-';
        let limit: u64 = if neg { 0x8000_0000_0000_0000 } else { 0x7fff_ffff_ffff_ffff };
        let rest = sub_chars(w, 1, w.len());
        assert(rest@ =~= w@.drop_first());
        match dec_word(&rest, limit) {
            None => None,
            Some(v) => if neg {
                if v == 0x8000_0000_0000_0000 {
                    Some(i64::MIN)
                } else {
                    Some(-(v as i64))
                }
            } else {
                Some(v as i64)
            },
        }
    } else {
        match dec_word(w, 0x7fff_ffff_ffff_ffff) {
            None => None,
            Some(v) => Some(v as i64),
        }
    }
}

/// `w` without its trailing colons.
pub fn strip_colons_exec(w: &Vec<char>) -> (r: Vec<char>)
    ensures
        r@ == strip_colons(w@),
{
    let mut n: usize = w.len();
    assert(w@.subrange(0, w@.len() as int) =~= w@);
    while n > 0 && w[n - 1] == ':'
        invariant
            n <= w@.len(),
            strip_colons(w@) == strip_colons(w@.subrange(0, n as int)),
        decreases n,
    {
        assert(w@.subrange(0, n as int).drop_last() =~= w@.subrange(0, n - 1));
        n = n - 1;
    }
    let mut r: Vec<char> = Vec::new();
    let mut i: usize = 0;
    while i < n
        invariant
            i <= n <= w@.len(),
            r@ == w@.subrange(0, i as int),
        decreases n - i,
    {
        r.push(w[i]);
        i = i + 1;
        assert(r@ =~= w@.subrange(0, i as int));
    }
    r
}

/// Characters `w[a..b]`.
pub fn sub_chars(w: &Vec<char>, a: usize, b: usize) -> (r: Vec<char>)
    requires
        a <= b <= w@.len(),
    ensures
        r@ == w@.subrange(a as int, b as int),
{
    let mut r: Vec<char> = Vec::new();
    let mut i: usize = a;
    while i < b
        invariant
            a <= i <= b <= w@.len(),
            r@ == w@.subrange(a as int, i as int),
        decreases b - i,
    {
        r.push(w[i]);
        i = i + 1;
        assert(r@ =~= w@.subrange(a as int, i as int));
    }
    r
}

/// `w` without the quotes at either end.
pub fn strip_quotes_exec(w: &Vec<char>) -> (r: Vec<char>)
    ensures
        r@ == strip_quotes(w@),
{
    let mut a: usize = 0;
    let mut b: usize = w.len();
    assert(w@.subrange(0, w@.len() as int) =~= w@);
    while a < b && (w[a] == '"' || w[b - 1] == '"')
        invariant
            a <= b <= w@.len(),
            strip_quotes(w@) == strip_quotes(w@.subrange(a as int, b as int)),
        decreases b - a,
    {
        if w[a] == '"' {
            assert(w@.subrange(a as int, b as int).drop_first() =~= w@.subrange(a + 1, b as int));
            a = a + 1;
        } else {
            assert(w@.subrange(a as int, b as int).drop_last() =~= w@.subrange(a as int, b - 1));
            b = b - 1;
        }
    }
    sub_chars(w, a, b)
}

/// A decimal word, within the kept scale.
pub fn decimal_word(w: &Vec<char>, a: usize, b: usize) -> (r: Option<Decimal>)
    requires
        a <= b <= w@.len(),
    ensures
        r == decimal_value(w@.subrange(a as int, b as int)),
{
    let r = parse_decimal(w, a, b);
    match r {
        Some(d) => {
            assert(d == Decimal { mantissa: d.mantissa, scale: d.scale });
        },
        None => {},
    }
    r
}

impl DbcParser {
    /// The id, name, dlc and sender of a message record `BO_ <id> <name>: <dlc> [<sender>]`.
    pub fn parse_message(line: &str) -> (r: Option<(u32, String, u8, Option<String>)>)
        ensures
            match message_record(words(line@)) {
                None => r is None,
                Some((id, name, dlc, sender)) => r matches Some((rid, rname, rdlc, rsender)) && rid
                    == id && rname@ == name && rdlc == dlc && match sender {
                    None => rsender is None,
                    Some(sv) => rsender matches Some(x) && x@ == sv,
                },
            },
    {
        let cs = chars_of(line);
        let ws = split_words(&cs, 0, cs.len());
        assert(cs@.subrange(0, cs@.len() as int) =~= cs@);
        if ws.len() < 4 {
            return None;
        }
        let ghost wv = views_of(ws@);
        assert(wv[1] == ws@[1]@ && wv[2] == ws@[2]@ && wv[3] == ws@[3]@);
        assert(ws@.len() > 4 ==> wv[4] == ws@[4]@);
        let id = match dec_word(&ws[1], u32::MAX as u64) {
            None => return None,
            Some(v) => v as u32,
        };
        let dlc = match dec_word(&ws[3], 255) {
            None => return None,
            Some(v) => v as u8,
        };
        let name = string_of(strip_colons_exec(&ws[2]).as_slice());
        let sender = if ws.len() > 4 { Some(string_of(ws[4].as_slice())) } else { None };
        Some((id, name, dlc, sender))
    }

    /// The node names of a record `BU_: <node>...`.
    pub fn parse_nodes(line: &str) -> (r: Vec<String>)
        ensures
            strings_view(r@) == words(strip_prefixes(line@, bu_tag())),
    {
        let cs = chars_of(line);
        let mut a: usize = 0;
        proof {
            reveal_strlit("BU_:");
            assert("BU_:"@ =~= bu_tag());
        }
        assert(cs@.subrange(0, cs@.len() as int) =~= cs@);
        while starts_with_at(&cs, a, cs.len(), "BU_:")
            invariant
                a <= cs@.len(),
                "BU_:"@ == bu_tag(),
                strip_prefixes(line@, bu_tag()) == strip_prefixes(cs@.subrange(a as int, cs@.len() as int), bu_tag()),
            decreases cs.len() - a,
        {
            assert(cs@.subrange(a as int, cs@.len() as int).subrange(4, cs@.len() - a) =~= cs@.subrange(a + 4, cs@.len() as int));
            assert(cs@.subrange(a as int, cs@.len() as int).subrange(0, 4) =~= cs@.subrange(a as int, a + 4));
            a = a + 4;
        }
        assert(cs@.subrange(a as int, cs@.len() as int).len() < 4 || cs@.subrange(a as int, cs@.len() as int).subrange(0, 4) != bu_tag()) by {
            if cs@.len() - a >= 4 {
                assert(cs@.subrange(a as int, cs@.len() as int).subrange(0, 4) =~= cs@.subrange(a as int, a + 4));
            }
        }
        let ws = split_words(&cs, a, cs.len());
        strings_of(&ws, 0)
    }

    /// The signal name and the value/label pairs of a record
    /// `VAL_ <id> <signal> <v> "<label>" ... ;`.
    pub fn parse_value_table(line: &str) -> (r: Option<(String, Vec<(i64, String)>)>)
        ensures
            match value_table_record(words(line@)) {
                None => r is None,
                Some((name, pairs)) => r matches Some((rn, rp)) && rn@ == name && pairs_view(rp@) == pairs,
            },
    {
        let cs = chars_of(line);
        let ws = split_words(&cs, 0, cs.len());
        assert(cs@.subrange(0, cs@.len() as int) =~= cs@);
        if ws.len() < 4 {
            return None;
        }
        let name = string_of(ws[2].as_slice());
        let mut pairs: Vec<(i64, String)> = Vec::new();
        let mut i: usize = 3;
        let ghost all = views_of(ws@);
        let mut go = true;
        while go && i < ws.len() - 1
            invariant
                3 <= i <= ws@.len(),
                !go ==> i + 1 < ws@.len() && int_value(all[i as int]) is None,
                all == views_of(ws@),
                value_pairs(all.subrange(3, all.len() as int)) == pairs_view(pairs@) + value_pairs(all.subrange(i as int, all.len() as int)),
            decreases ws.len() - i + if go { 1int } else { 0int },
        {
            let v = match int_word(&ws[i]) {
                Some(x) => x,
                None => {
                    go = false;
                    0
                },
            };
            if go {
                let label = string_of(strip_quotes_exec(&ws[i + 1]).as_slice());
                let ghost tail = all.subrange(i as int, all.len() as int);
                assert(tail[0] == ws@[i as int]@);
                assert(tail[1] == ws@[i + 1]@);
                assert(tail.subrange(2, tail.len() as int) =~= all.subrange(i + 2, all.len() as int));
                let ghost old_pairs = pairs@;
                pairs.push((v, label));
                assert(pairs_view(pairs@) =~= pairs_view(old_pairs).push((v, label@)));
                assert(pairs_view(pairs@) + value_pairs(all.subrange(i + 2, all.len() as int)) =~= pairs_view(old_pairs) + value_pairs(tail));
                i = i + 2;
            } else {
                assert(all[i as int] == ws@[i as int]@);
            }
        }
        proof {
            let tail = all.subrange(i as int, all.len() as int);
            if i + 1 < ws@.len() {
                assert(tail[0] == ws@[i as int]@);
                assert(tail[0] == all[i as int]);
            }
            assert(value_pairs(tail) =~= Seq::<(i64, Seq<char>)>::empty());
            assert(pairs_view(pairs@) + Seq::<(i64, Seq<char>)>::empty() =~= pairs_view(pairs@));
        }
        Some((name, pairs))
    }
}

/// The numbers of a layout word `<start>|<length>@<order><sign>`.
pub fn layout_word(w: &Vec<char>) -> (r: Option<(u8, u8, ByteOrder, ValueType)>)
    ensures
        r == layout_record(w@),
{
    let n = w.len();
    assert(w@.subrange(0, n as int) =~= w@);
    let a = find_char(w, 0, n, '|');
    let b = find_char(w, 0, n, '@');
    if !(a < b && n >= 3 && b == n - 3) {
        return None;
    }
    let sv = sub_chars(w, 0, a);
    let lv = sub_chars(w, a + 1, b);
    let st = match dec_word(&sv, 255) {
        None => return None,
        Some(v) => v as u8,
    };
    let len = match dec_word(&lv, 255) {
        None => return None,
        Some(v) => v as u8,
    };
    let o = w[b + 1];
    let sg = w[b + 2];
    if (o == '0' || o == '1') && (sg == '+' || sg == '-') {
        Some(
            (
                st,
                len,
                if o == '0' { ByteOrder::BigEndian } else { ByteOrder::LittleEndian },
                if sg == '+' { ValueType::Unsigned } else { ValueType::Signed },
            ),
        )
    } else {
        None
    }
}

/// The factor and offset of a word `(<factor>,<offset>)`.
pub fn scaling_word(w: &Vec<char>) -> (r: Option<(Decimal, Decimal)>)
    ensures
        r == scaling_record(w@),
{
    let n = w.len();
    if !(n >= 2 && w[0] == '(' && w[n - 1] == ')') {
        return None;
    }
    let inner = sub_chars(w, 1, n - 1);
    let m = inner.len();
    assert(inner@.subrange(0, m as int) =~= inner@);
    let k = find_char(&inner, 0, m, ',');
    if k >= m {
        return None;
    }
    let f = decimal_word(&inner, 0, k);
    let o = decimal_word(&inner, k + 1, m);
    match (f, o) {
        (Some(f), Some(o)) => Some((f, o)),
        _ => None,
    }
}

/// The bounds of a word `[<min>|<max>]`.
pub fn range_word(w: &Vec<char>) -> (r: Option<(Option<Decimal>, Option<Decimal>)>)
    requires
        is_range_word(w@),
    ensures
        r == range_record(w@),
{
    let n = w.len();
    let inner = sub_chars(w, 1, n - 1);
    let m = inner.len();
    assert(inner@.subrange(0, m as int) =~= inner@);
    let k = find_char(&inner, 0, m, '|');
    if k >= m {
        return None;
    }
    Some((decimal_word(&inner, 0, k), decimal_word(&inner, k + 1, m)))
}

impl DbcParser {
    /// A signal from a record `SG_ <name> : <layout> (<factor>,<offset>) [[<min>|<max>]]
    /// "<unit>" <receivers>`, with no comment and no value table yet.
    pub fn parse_signal(line: &str) -> (r: Option<Signal>)
        ensures
            match signal_record(line@) {
                None => r is None,
                Some(p) => r matches Some(s) && matches_parts(s, p),
            },
            r matches Some(s) ==> signal_wf(s),
    {
        let cs = chars_of(line);
        let n = cs.len();
        assert(cs@.subrange(0, n as int) =~= cs@);
        let q = find_char(&cs, 0, n, '"');
        if q >= n {
            return None;
        }
        let ghost rest = cs@.subrange(q + 1, n as int);
        let q2r = find_char(&cs, q + 1, n, '"');
        if q2r >= n - (q + 1) {
            return None;
        }
        let q2 = q + 1 + q2r;
        let head = split_words(&cs, 0, q);
        let ghost hv = views_of(head@);
        if !(head.len() == 5 || head.len() == 6) {
            return None;
        }
        assert(hv[0] == head@[0]@ && hv[1] == head@[1]@ && hv[2] == head@[2]@ && hv[3] == head@[3]@ && hv[4] == head@[4]@);
        assert(head@.len() == 6 ==> hv[5] == head@[5]@);
        if head.len() == 6 {
            let w5 = &head[5];
            let k5 = w5.len();
            if !(k5 >= 2 && w5[0] == '[' && w5[k5 - 1] == ']') {
                return None;
            }
        }
        proof {
            reveal_strlit("SG_");
            reveal_strlit(":");
            assert("SG_"@ =~= sg_tag());
            assert(":"@ =~= colon());
        }
        if !word_is(&head[0], "SG_") || !word_is(&head[2], ":") {
            return None;
        }
        let (st, len, order, vt) = match layout_word(&head[3]) {
            None => return None,
            Some(x) => x,
        };
        let (f, o) = match scaling_word(&head[4]) {
            None => return None,
            Some(x) => x,
        };
        let (mn, mx) = if head.len() == 6 {
            match range_word(&head[5]) {
                None => return None,
                Some(x) => x,
            }
        } else {
            (None, None)
        };
        if len < 1 || len > 64 {
            return None;
        }
        let unit_chars = sub_chars(&cs, q + 1, q2);
        assert(unit_chars@ =~= rest.subrange(0, q2r as int));
        let rws = split_words(&cs, q2 + 1, n);
        assert(cs@.subrange(q2 + 1, n as int) =~= rest.subrange(q2r + 1, rest.len() as int));
        let receivers = strings_of(&rws, 0);
        assert(views_of(rws@).subrange(0, rws@.len() as int) =~= views_of(rws@));
        Some(Signal {
            name: string_of(head[1].as_slice()),
            start_bit: st,
            length: len,
            byte_order: order,
            value_type: vt,
            factor: f,
            offset: o,
            minimum: mn,
            maximum: mx,
            unit: string_of(unit_chars.as_slice()),
            receivers,
            comment: None,
            value_table: None,
        })
    }
}

/// The quoted text of a line: the words before the first quote, and the text up to the
/// next quote, which must be non-empty and follow whitespace.
pub open spec fn quoted(line: Seq<char>) -> Option<(Seq<Seq<char>>, Seq<char>, Seq<char>)> {
    let q = first_of(line, '"');
    let rest = line.subrange(q + 1, line.len() as int);
    let q2 = first_of(rest, '"');
    if 1 <= q < line.len() && crate::text::is_ws(line[q - 1]) && 0 < q2 < rest.len() {
        Some((words(line.subrange(0, q)), rest.subrange(0, q2), rest.subrange(q2 + 1, rest.len() as int)))
    } else {
        None
    }
}

pub open spec fn version_tag() -> Seq<char> {
    seq!['V', 'E', 'R', 'S', 'I', 'O', 'N']
}

/// The version of a record `VERSION "<version>"`.
pub open spec fn version_record(line: Seq<char>) -> Option<Seq<char>> {
    match quoted(line) {
        Some((head, text, _)) => if head =~= seq![version_tag()] { Some(text) } else { None },
        None => None,
    }
}

pub open spec fn cm_tag() -> Seq<char> {
    seq!['C', 'M', '_']
}

pub open spec fn bo_tag() -> Seq<char> {
    seq!['B', 'O', '_']
}

/// A comment record: `CM_ BO_ <id> "<text>";` gives the message id and no signal;
/// `CM_ SG_ <id> <signal> "<text>";` gives both.
pub open spec fn comment_record(line: Seq<char>) -> Option<(u32, Option<Seq<char>>, Seq<char>)> {
    match quoted(line) {
        Some((head, text, after)) => if after.len() > 0 && after[0] == ';' && head.len() >= 3 && head[0] == cm_tag() {
            match dec_value(head[2], u32::MAX as int) {
                Some(id) => if head.len() == 3 && head[1] == bo_tag() {
                    Some((id as u32, None, text))
                } else if head.len() == 4 && head[1] == sg_tag() {
                    Some((id as u32, Some(head[3]), text))
                } else {
                    None
                },
                None => None,
            }
        } else {
            None
        },
        None => None,
    }
}

/// Every value-table reference of a signal names a table of the database.
pub open spec fn refs_resolve(db: DbcDatabase) -> bool {
    forall|i: int, j: int|
        0 <= i < db.messages@.len() && 0 <= j < db.messages@[i].signals@.len()
            ==> resolves(db.value_tables@, #[trigger] db.messages@[i].signals@[j])
}

/// The signal's value-table reference, if any, names one of `tables`.
pub open spec fn resolves(tables: Seq<ValueTable>, s: Signal) -> bool {
    match s.value_table {
        None => true,
        Some(n) => exists|t: int| 0 <= t < tables.len() && tables[t].name@ == n@,
    }
}

/// The parts of the quoted text of a line.
fn quoted_parts(cs: &Vec<char>) -> (r: Option<(Vec<Vec<char>>, Vec<char>, usize)>)
    ensures
        match quoted(cs@) {
            None => r is None,
            Some((head, text, after)) => r matches Some((h, t, a)) && views_of(h@) == head && t@ == text
                && a <= cs@.len() && cs@.subrange(a as int, cs@.len() as int) == after,
        },
{
    let n = cs.len();
    assert(cs@.subrange(0, n as int) =~= cs@);
    let q = find_char(cs, 0, n, '"');
    if q >= n || q < 1 || !crate::text::is_ws_exec(cs[q - 1]) {
        return None;
    }
    let ghost rest = cs@.subrange(q + 1, n as int);
    let q2r = find_char(cs, q + 1, n, '"');
    if q2r == 0 || q2r >= n - (q + 1) {
        return None;
    }
    let head = split_words(cs, 0, q);
    let text = sub_chars(cs, q + 1, q + 1 + q2r);
    assert(text@ =~= rest.subrange(0, q2r as int));
    assert(cs@.subrange(q + 2 + q2r, n as int) =~= rest.subrange(q2r + 1, rest.len() as int));
    Some((head, text, q + 2 + q2r))
}

impl DbcParser {
    /// The version of a record `VERSION "<version>"`.
    pub fn parse_version(line: &str) -> (r: Option<String>)
        ensures
            match version_record(line@) {
                None => r is None,
                Some(v) => r matches Some(x) && x@ == v,
            },
    {
        let cs = chars_of(line);
        match quoted_parts(&cs) {
            None => None,
            Some((head, text, _)) => {
                proof {
                    reveal_strlit("VERSION");
                    assert("VERSION"@ =~= version_tag());
                }
                if head.len() == 1 && word_is(&head[0], "VERSION") {
                    assert(views_of(head@) =~= seq![version_tag()]);
                    Some(string_of(text.as_slice()))
                } else {
                    assert(!(views_of(head@) =~= seq![version_tag()]) ) by {
                        if head@.len() == 1 {
                            assert(views_of(head@)[0] == head@[0]@);
                        }
                    }
                    None
                }
            },
        }
    }

    /// The message id, the signal name for a signal comment, and the text of a comment
    /// record.
    pub fn parse_comment_record(line: &str) -> (r: Option<(u32, Option<String>, String)>)
        ensures
            match comment_record(line@) {
                None => r is None,
                Some((id, sig, text)) => r matches Some((rid, rsig, rtext)) && rid == id && rtext@ == text
                    && match sig {
                    None => rsig is None,
                    Some(sn) => rsig matches Some(x) && x@ == sn,
                },
            },
    {
        let cs = chars_of(line);
        let (head, text, a) = match quoted_parts(&cs) {
            None => return None,
            Some(x) => x,
        };
        let ghost hv = views_of(head@);
        if !(a < cs.len() && cs[a] == ';' && head.len() >= 3) {
            assert(a < cs@.len() ==> cs@.subrange(a as int, cs@.len() as int)[0] == cs@[a as int]);
            return None;
        }
        assert(cs@.subrange(a as int, cs@.len() as int)[0] == cs@[a as int]);
        assert(hv[0] == head@[0]@ && hv[1] == head@[1]@ && hv[2] == head@[2]@);
        assert(head@.len() == 4 ==> hv[3] == head@[3]@);
        proof {
            reveal_strlit("CM_");
            reveal_strlit("BO_");
            reveal_strlit("SG_");
            assert("CM_"@ =~= cm_tag());
            assert("BO_"@ =~= bo_tag());
            assert("SG_"@ =~= sg_tag());
        }
        if !word_is(&head[0], "CM_") {
            return None;
        }
        let id = match dec_word(&head[2], u32::MAX as u64) {
            None => return None,
            Some(v) => v as u32,
        };
        if head.len() == 3 && word_is(&head[1], "BO_") {
            Some((id, None, string_of(text.as_slice())))
        } else if head.len() == 4 && word_is(&head[1], "SG_") {
            Some((id, Some(string_of(head[3].as_slice())), string_of(text.as_slice())))
        } else {
            None
        }
    }
}

/// The database invariants the parser keeps: well-formed signals whose value-table
/// references resolve.
pub open spec fn parsed_inv(db: DbcDatabase) -> bool {
    db.wf() && refs_resolve(db)
}

/// The message ids of `a` and `b` agree position by position, and so do their version and
/// nodes.
pub open spec fn same_outline(a: DbcDatabase, b: DbcDatabase) -> bool {
    &&& a.messages@.len() == b.messages@.len()
    &&& forall|i: int| 0 <= i < a.messages@.len() ==> (#[trigger] a.messages@[i]).id == b.messages@[i].id
    &&& a.version == b.version
    &&& a.nodes == b.nodes
}

pub open spec fn has_id(db: DbcDatabase, id: u32) -> bool {
    exists|i: int| 0 <= i < db.messages@.len() && (#[trigger] db.messages@[i]).id == id
}

pub proof fn lemma_outline_ids(a: DbcDatabase, b: DbcDatabase)
    requires
        same_outline(a, b),
    ensures
        forall|id: u32| has_id(a, id) <==> has_id(b, id),
{
    assert forall|id: u32| has_id(a, id) <==> has_id(b, id) by {
        if has_id(a, id) {
            let k = choose|k: int| 0 <= k < a.messages@.len() && (#[trigger] a.messages@[k]).id == id;
            assert(b.messages@[k].id == id);
        }
        if has_id(b, id) {
            let k = choose|k: int| 0 <= k < b.messages@.len() && (#[trigger] b.messages@[k]).id == id;
            assert(a.messages@[k].id == id);
        }
    }
}

/// The fields of a signal that its record gives (its comment and value table come later).
pub struct SigCore {
    pub name: Seq<char>,
    pub start_bit: u8,
    pub length: u8,
    pub byte_order: ByteOrder,
    pub value_type: ValueType,
    pub factor: Decimal,
    pub offset: Decimal,
    pub minimum: Option<Decimal>,
    pub maximum: Option<Decimal>,
    pub unit: Seq<char>,
    pub receivers: Seq<Seq<char>>,
}

/// A message's id, name, length, sender and the record fields of its signals.
pub struct MsgCore {
    pub id: u32,
    pub name: Seq<char>,
    pub dlc: u8,
    pub sender: Option<Seq<char>>,
    pub signals: Seq<SigCore>,
}

pub open spec fn sig_core(s: Signal) -> SigCore {
    SigCore {
        name: s.name@,
        start_bit: s.start_bit,
        length: s.length,
        byte_order: s.byte_order,
        value_type: s.value_type,
        factor: s.factor,
        offset: s.offset,
        minimum: s.minimum,
        maximum: s.maximum,
        unit: s.unit@,
        receivers: strings_view(s.receivers@),
    }
}

pub open spec fn parts_core(p: SignalParts) -> SigCore {
    SigCore {
        name: p.name,
        start_bit: p.start_bit,
        length: p.length,
        byte_order: p.byte_order,
        value_type: p.value_type,
        factor: p.factor,
        offset: p.offset,
        minimum: p.minimum,
        maximum: p.maximum,
        unit: p.unit,
        receivers: p.receivers,
    }
}

pub open spec fn msg_core(m: Message) -> MsgCore {
    MsgCore {
        id: m.id,
        name: m.name@,
        dlc: m.dlc,
        sender: opt_view(m.sender),
        signals: m.signals@.map_values(|s: Signal| sig_core(s)),
    }
}

pub open spec fn db_core(db: DbcDatabase) -> Seq<MsgCore> {
    db.messages@.map_values(|m: Message| msg_core(m))
}

/// The index of the first message with `id`, or the length where there is none.
pub open spec fn core_index(ms: Seq<MsgCore>, id: u32) -> int
    decreases ms.len(),
{
    if ms.len() == 0 {
        0
    } else if ms[0].id == id {
        0
    } else {
        1 + core_index(ms.drop_first(), id)
    }
}

proof fn lemma_core_index(ms: Seq<MsgCore>, id: u32, k: int)
    requires
        0 <= k <= ms.len(),
        forall|j: int| 0 <= j < k ==> ms[j].id != id,
        k < ms.len() ==> ms[k].id == id,
    ensures
        core_index(ms, id) == k,
    decreases ms.len(),
{
    if k > 0 {
        let t = ms.drop_first();
        assert forall|j: int| 0 <= j < k - 1 implies t[j].id != id by {
            assert(t[j] == ms[j + 1]);
        }
        if k - 1 < t.len() {
            assert(t[k - 1] == ms[k]);
        }
        lemma_core_index(t, id, k - 1);
    }
}

/// `m` in place of the message with its id, or added.
pub open spec fn core_put(ms: Seq<MsgCore>, m: MsgCore) -> Seq<MsgCore> {
    let i = core_index(ms, m.id);
    if i < ms.len() { ms.update(i, m) } else { ms.push(m) }
}

/// `s` added to the message with `id`, where there is one.
pub open spec fn core_add(ms: Seq<MsgCore>, id: u32, s: SigCore) -> Seq<MsgCore> {
    let i = core_index(ms, id);
    if i < ms.len() { ms.update(i, MsgCore { signals: ms[i].signals.push(s), ..ms[i] }) } else { ms }
}

/// A line that the parser reads as a signal record.
pub open spec fn is_signal_line(l: Seq<char>) -> bool {
    !skipped(l) && !starts(l, "VERSION"@) && !starts(l, "BO_"@) && starts(l, "SG_"@)
}

/// The id of the last message record that reads as one.
pub open spec fn current_after(ls: Seq<Seq<char>>) -> Option<u32>
    decreases ls.len(),
{
    if ls.len() == 0 {
        None
    } else if is_message_line(ls.last()) && message_record(words(ls.last())) is Some {
        let (id, _, _, _) = message_record(words(ls.last()))->0;
        Some(id)
    } else {
        current_after(ls.drop_last())
    }
}

/// The messages that the message and signal records of `ls` build: each message record
/// puts a message without signals in place of the one with its id (or adds it), and each
/// signal record adds its signal to the message of the last message record.
pub open spec fn core_after(ls: Seq<Seq<char>>) -> Seq<MsgCore>
    decreases ls.len(),
{
    if ls.len() == 0 {
        Seq::empty()
    } else {
        let prev = core_after(ls.drop_last());
        let l = ls.last();
        if is_message_line(l) && message_record(words(l)) is Some {
            let (id, name, dlc, sender) = message_record(words(l))->0;
            core_put(prev, MsgCore { id, name, dlc, sender, signals: Seq::empty() })
        } else if is_signal_line(l) && signal_record(l) is Some && current_after(ls.drop_last()) is Some {
            core_add(prev, current_after(ls.drop_last())->0, parts_core(signal_record(l)->0))
        } else {
            prev
        }
    }
}

/// No signal refers to a value table yet.
pub open spec fn no_refs(db: DbcDatabase) -> bool {
    forall|i: int, j: int|
        0 <= i < db.messages@.len() && 0 <= j < db.messages@[i].signals@.len() ==> (
        #[trigger] db.messages@[i].signals@[j]).value_table is None
}

/// The index of the first message with `id`.
fn message_slot(db: &DbcDatabase, id: u32) -> (r: Option<usize>)
    ensures
        r matches Some(i) ==> i < db.messages@.len() && db.messages@[i as int].id == id,
        match r {
            Some(i) => core_index(db_core(*db), id) == i,
            None => core_index(db_core(*db), id) == db.messages@.len(),
        },
{
    let mut i: usize = 0;
    while i < db.messages.len()
        invariant
            i <= db.messages@.len(),
            forall|j: int| 0 <= j < i ==> db.messages@[j].id != id,
        decreases db.messages.len() - i,
    {
        if db.messages[i].id == id {
            proof {
                assert forall|j: int| 0 <= j < i implies db_core(*db)[j].id != id by {}
                lemma_core_index(db_core(*db), id, i as int);
            }
            return Some(i);
        }
        i = i + 1;
    }
    proof {
        assert forall|j: int| 0 <= j < i implies db_core(*db)[j].id != id by {}
        lemma_core_index(db_core(*db), id, i as int);
    }
    None
}

/// Puts `m` in place of the message with its id, or adds it.
fn put_message(db: &mut DbcDatabase, m: Message)
    requires
        parsed_inv(*old(db)),
        m.signals@.len() == 0,
    ensures
        no_refs(*old(db)) ==> no_refs(*final(db)),
        final(db).value_tables == old(db).value_tables,
        parsed_inv(*final(db)),
        forall|id: u32| has_id(*final(db), id) <==> (has_id(*old(db), id) || id == m.id),
        final(db).version == old(db).version && final(db).nodes == old(db).nodes,
        db_core(*final(db)) == core_put(db_core(*old(db)), msg_core(m)),
{
    let ghost mid = m.id;
    let ghost mc = msg_core(m);
    match message_slot(db, m.id) {
        Some(i) => {
            db.messages[i] = m;
            assert forall|id: u32| has_id(*db, id) <==> (has_id(*old(db), id) || id == mid) by {
                if has_id(*old(db), id) {
                    let k = choose|k: int| 0 <= k < old(db).messages@.len() && (#[trigger] old(db).messages@[k]).id == id;
                    if k != i {
                        assert(db.messages@[k] == old(db).messages@[k]);
                    }
                }
                if has_id(*db, id) {
                    let k = choose|k: int| 0 <= k < db.messages@.len() && (#[trigger] db.messages@[k]).id == id;
                    if k != i {
                        assert(db.messages@[k] == old(db).messages@[k]);
                    }
                }
                if id == mid {
                    assert(db.messages@[i as int].id == id);
                }
            }
            assert(db_core(*db) =~= db_core(*old(db)).update(i as int, mc));
        },
        None => {
            db.messages.push(m);
            assert(db_core(*db) =~= db_core(*old(db)).push(mc));
            assert forall|id: u32| has_id(*db, id) <==> (has_id(*old(db), id) || id == mid) by {
                if has_id(*old(db), id) {
                    let k = choose|k: int| 0 <= k < old(db).messages@.len() && (#[trigger] old(db).messages@[k]).id == id;
                    assert(db.messages@[k] == old(db).messages@[k]);
                }
                if has_id(*db, id) {
                    let k = choose|k: int| 0 <= k < db.messages@.len() && (#[trigger] db.messages@[k]).id == id;
                    if k < old(db).messages@.len() {
                        assert(db.messages@[k] == old(db).messages@[k]);
                    }
                }
                if id == mid {
                    assert(db.messages@[old(db).messages@.len() as int].id == id);
                }
            }
        },
    }
    assert forall|i: int, j: int|
        0 <= i < db.messages@.len() && 0 <= j < db.messages@[i].signals@.len() implies signal_wf(
            #[trigger] db.messages@[i].signals@[j],
        ) && resolves(db.value_tables@, db.messages@[i].signals@[j]) by {
        assert(db.messages@[i] == old(db).messages@[i]);
    }
}

/// Adds `s` to the message with `id`, where there is one.
fn add_signal(db: &mut DbcDatabase, id: u32, s: Signal)
    requires
        parsed_inv(*old(db)),
        signal_wf(s),
        s.value_table is None,
    ensures
        no_refs(*old(db)) ==> no_refs(*final(db)),
        final(db).value_tables == old(db).value_tables,
        parsed_inv(*final(db)),
        same_outline(*final(db), *old(db)),
        db_core(*final(db)) == core_add(db_core(*old(db)), id, sig_core(s)),
{
    let ghost sc = sig_core(s);
    match message_slot(db, id) {
        Some(i) => {
            let ghost before = db.messages@[i as int];
            db.messages[i].signals.push(s);
            assert(db.messages@[i as int].signals@.map_values(|x: Signal| sig_core(x)) =~= before.signals@.map_values(|x: Signal| sig_core(x)).push(sc));
            assert(db_core(*db) =~= db_core(*old(db)).update(i as int, MsgCore { signals: db_core(*old(db))[i as int].signals.push(sc), ..db_core(*old(db))[i as int] }));
            assert forall|a: int, b: int|
                0 <= a < db.messages@.len() && 0 <= b < db.messages@[a].signals@.len() implies signal_wf(
                    #[trigger] db.messages@[a].signals@[b],
                ) && resolves(db.value_tables@, db.messages@[a].signals@[b]) by {
                if a == i && b == before.signals@.len() {
                } else if a == i {
                    assert(db.messages@[a].signals@[b] == before.signals@[b]);
                    assert(old(db).messages@[a].signals@[b] == before.signals@[b]);
                } else {
                    assert(db.messages@[a] == old(db).messages@[a]);
                }
            }
        },
        None => {},
    }
}

/// Sets the comment of the message with `id`, or of its first signal named `sig`.
fn put_comment(db: &mut DbcDatabase, id: u32, sig: Option<String>, text: String)
    requires
        parsed_inv(*old(db)),
    ensures
        no_refs(*old(db)) ==> no_refs(*final(db)),
        final(db).value_tables == old(db).value_tables,
        parsed_inv(*final(db)),
        same_outline(*final(db), *old(db)),
        db_core(*final(db)) == db_core(*old(db)),
{
    let i = match message_slot(db, id) {
        None => return,
        Some(i) => i,
    };
    match sig {
        None => {
            let ghost before = db.messages@[i as int];
            db.messages[i].comment = Some(text);
            assert(db_core(*db) =~= db_core(*old(db)));
            assert forall|a: int, b: int|
                0 <= a < db.messages@.len() && 0 <= b < db.messages@[a].signals@.len() implies signal_wf(
                    #[trigger] db.messages@[a].signals@[b],
                ) && resolves(db.value_tables@, db.messages@[a].signals@[b]) by {
                if a != i {
                    assert(db.messages@[a] == old(db).messages@[a]);
                }
            }
        },
        Some(name) => {
            let target = chars_of(name.as_str());
            let mut j: usize = 0;
            while j < db.messages[i].signals.len()
                invariant
                    i < db.messages@.len(),
                    j <= db.messages@[i as int].signals@.len(),
                    *db == *old(db),
                    parsed_inv(*old(db)),
                decreases db.messages@[i as int].signals@.len() - j,
            {
                let cand = chars_of(db.messages[i].signals[j].name.as_str());
                if seq_eq(&cand, &target) {
                    let ghost before = db.messages@[i as int];
                    assert(old(db).wf());
                    assert(j < old(db).messages@[i as int].signals@.len());
                    assert(signal_wf(old(db).messages@[i as int].signals@[j as int]));
                    db.messages[i].signals[j].comment = Some(text);
                    assert(db.messages@[i as int].signals@.map_values(|x: Signal| sig_core(x)) =~= old(db).messages@[i as int].signals@.map_values(|x: Signal| sig_core(x)));
                    assert(db_core(*db) =~= db_core(*old(db)));
                    assert forall|a: int, b: int|
                        0 <= a < db.messages@.len() && 0 <= b < db.messages@[a].signals@.len() implies signal_wf(
                            #[trigger] db.messages@[a].signals@[b],
                        ) && resolves(db.value_tables@, db.messages@[a].signals@[b]) by {
                        if a != i {
                            assert(db.messages@[a] == old(db).messages@[a]);
                        } else if b != j {
                            assert(db.messages@[a].signals@[b] == old(db).messages@[a].signals@[b]);
                        } else {
                            let o = old(db).messages@[a].signals@[b];
                            let nw = db.messages@[a].signals@[b];
                            assert(o.value_table == nw.value_table && o.length == nw.length && o.value_type
                                == nw.value_type && o.factor == nw.factor && o.offset == nw.offset);
                            assert(signal_wf(o));
                        }
                    }
                    return;
                }
                j = j + 1;
            }
        },
    }
}

pub type PendView = Seq<(Seq<char>, Seq<(i64, Seq<char>)>)>;

pub open spec fn pend_view(v: Seq<(String, Vec<(i64, String)>)>) -> PendView {
    v.map_values(|e: (String, Vec<(i64, String)>)| (e.0@, pairs_view(e.1@)))
}

/// The index of the first table named `n`, or the length where there is none.
pub open spec fn pend_index(ps: PendView, n: Seq<char>) -> int
    decreases ps.len(),
{
    if ps.len() == 0 {
        0
    } else if ps[0].0 == n {
        0
    } else {
        1 + pend_index(ps.drop_first(), n)
    }
}

proof fn lemma_pend_index(ps: PendView, n: Seq<char>, k: int)
    requires
        0 <= k <= ps.len(),
        forall|j: int| 0 <= j < k ==> ps[j].0 != n,
        k < ps.len() ==> ps[k].0 == n,
    ensures
        pend_index(ps, n) == k,
    decreases ps.len(),
{
    if k > 0 {
        let t = ps.drop_first();
        assert forall|j: int| 0 <= j < k - 1 implies t[j].0 != n by {
            assert(t[j] == ps[j + 1]);
        }
        if k - 1 < t.len() {
            assert(t[k - 1] == ps[k]);
        }
        lemma_pend_index(t, n, k - 1);
    }
}

proof fn lemma_pend_index_facts(ps: PendView, n: Seq<char>)
    ensures
        0 <= pend_index(ps, n) <= ps.len(),
        forall|j: int| 0 <= j < pend_index(ps, n) ==> ps[j].0 != n,
        pend_index(ps, n) < ps.len() ==> ps[pend_index(ps, n)].0 == n,
    decreases ps.len(),
{
    if ps.len() > 0 && ps[0].0 != n {
        lemma_pend_index_facts(ps.drop_first(), n);
        assert forall|j: int| 0 <= j < pend_index(ps, n) implies ps[j].0 != n by {
            if j > 0 {
                assert(ps[j] == ps.drop_first()[j - 1]);
            }
        }
    }
}

/// The pairs of table `n` put in place of the earlier ones of that name, or added.
pub open spec fn pend_put(ps: PendView, n: Seq<char>, pairs: Seq<(i64, Seq<char>)>) -> PendView {
    let k = pend_index(ps, n);
    if k < ps.len() { ps.update(k, (n, pairs)) } else { ps.push((n, pairs)) }
}

pub open spec fn unique_names(ps: PendView) -> bool {
    forall|a: int, b: int| 0 <= a < b < ps.len() ==> ps[a].0 != ps[b].0
}

proof fn lemma_pend_put_unique(ps: PendView, n: Seq<char>, pairs: Seq<(i64, Seq<char>)>)
    requires
        unique_names(ps),
    ensures
        unique_names(pend_put(ps, n, pairs)),
{
    lemma_pend_index_facts(ps, n);
}

/// A line that the parser reads as a value-table record.
pub open spec fn is_val_line(l: Seq<char>) -> bool {
    !skipped(l) && !starts(l, "VERSION"@) && !starts(l, "BO_"@) && !starts(l, "SG_"@) && starts(l, "VAL_"@)
}

/// The value tables of the value-table records of `ls`: the last record of each signal
/// name counts.
pub open spec fn pend_after(ls: Seq<Seq<char>>) -> PendView
    decreases ls.len(),
{
    if ls.len() == 0 {
        Seq::empty()
    } else {
        let prev = pend_after(ls.drop_last());
        let l = ls.last();
        if is_val_line(l) && value_table_record(words(l)) is Some {
            let (n, pairs) = value_table_record(words(l))->0;
            pend_put(prev, n, pairs)
        } else {
            prev
        }
    }
}

proof fn lemma_pend_after_unique(ls: Seq<Seq<char>>)
    ensures
        unique_names(pend_after(ls)),
    decreases ls.len(),
{
    if ls.len() > 0 {
        lemma_pend_after_unique(ls.drop_last());
        let l = ls.last();
        if is_val_line(l) && value_table_record(words(l)) is Some {
            let (n, pairs) = value_table_record(words(l))->0;
            lemma_pend_put_unique(pend_after(ls.drop_last()), n, pairs);
        }
    }
}

/// Signal `j` of message `i` is the first, in message order, named `n`.
pub open spec fn is_first_sig(ms: Seq<MsgCore>, n: Seq<char>, i: int, j: int) -> bool {
    &&& 0 <= i < ms.len() && 0 <= j < ms[i].signals.len()
    &&& ms[i].signals[j].name == n
    &&& forall|a: int, b: int|
        (0 <= a < i && 0 <= b < ms[a].signals.len()) || (a == i && 0 <= b < j) ==> (#[trigger] ms[a].signals[b]).name != n
}

pub open spec fn has_sig_named(ms: Seq<MsgCore>, n: Seq<char>) -> bool {
    exists|a: int, b: int| 0 <= a < ms.len() && 0 <= b < ms[a].signals.len() && (#[trigger] ms[a].signals[b]).name == n
}

/// Records the pairs of a value table for the signal `name`, in place of earlier ones.
fn put_pending(pending: &mut Vec<(String, Vec<(i64, String)>)>, name: String, pairs: Vec<(i64, String)>)
    ensures
        pend_view(final(pending)@) == pend_put(pend_view(old(pending)@), name@, pairs_view(pairs@)),
{
    let target = chars_of(name.as_str());
    let ghost nv = name@;
    let ghost pv = pairs_view(pairs@);
    let mut k: usize = 0;
    while k < pending.len()
        invariant
            k <= pending@.len(),
            *pending == *old(pending),
            target@ == nv,
            nv == name@,
            pv == pairs_view(pairs@),
            forall|j: int| 0 <= j < k ==> pend_view(pending@)[j].0 != nv,
        decreases pending.len() - k,
    {
        let cand = chars_of(pending[k].0.as_str());
        if seq_eq(&cand, &target) {
            proof {
                lemma_pend_index(pend_view(pending@), nv, k as int);
            }
            let entry = (name, pairs);
            assert(entry.0@ == nv && pairs_view(entry.1@) == pv);
            let ghost before = pending@;
            pending.set(k, entry);
            assert(pending@ == before.update(k as int, entry));
            assert(pend_view(pending@) =~= pend_view(old(pending)@).update(k as int, (nv, pv)));
            return;
        }
        k = k + 1;
    }
    proof {
        lemma_pend_index(pend_view(pending@), nv, k as int);
    }
    pending.push((name, pairs));
    assert(pend_view(pending@) =~= pend_view(old(pending)@).push((nv, pv)));
}

proof fn lemma_table_named_push(ts: Seq<ValueTable>, t: ValueTable, n: Seq<char>)
    ensures
        table_named(ts.push(t), n) == match table_named(ts, n) {
            Some(x) => Some(x),
            None => if t.name@ == n { Some(t) } else { None },
        },
    decreases ts.len(),
{
    if ts.len() > 0 {
        assert(ts.push(t).drop_first() =~= ts.drop_first().push(t));
        assert(ts.push(t)[0] == ts[0]);
        lemma_table_named_push(ts.drop_first(), t, n);
    } else {
        assert(ts.push(t).drop_first() =~= Seq::<ValueTable>::empty());
        assert(ts.push(t)[0] == t);
        assert(ts.push(t).len() == 1);
        assert(table_named(Seq::<ValueTable>::empty(), n) is None);
    }
}

proof fn lemma_table_named_none(ts: Seq<ValueTable>, n: Seq<char>)
    requires
        forall|x: int| 0 <= x < ts.len() ==> (#[trigger] ts[x]).name@ != n,
    ensures
        table_named(ts, n) is None,
    decreases ts.len(),
{
    if ts.len() > 0 {
        assert forall|x: int| 0 <= x < ts.drop_first().len() implies (#[trigger] ts.drop_first()[x]).name@ != n by {
            assert(ts.drop_first()[x] == ts[x + 1]);
        }
        lemma_table_named_none(ts.drop_first(), n);
    }
}

proof fn lemma_first_sig_unique(ms: Seq<MsgCore>, n: Seq<char>, i: int, j: int, a: int, b: int)
    requires
        is_first_sig(ms, n, i, j),
        is_first_sig(ms, n, a, b),
    ensures
        i == a && j == b,
{
    if a < i || (a == i && b < j) {
        assert(ms[a].signals[b].name == n);
    } else if i < a || (i == a && j < b) {
        assert(ms[i].signals[j].name == n);
    }
}

/// The position of the first signal named `n`, in message order.
fn find_first_signal(db: &DbcDatabase, n: &Vec<char>) -> (r: Option<(usize, usize)>)
    ensures
        match r {
            Some((i, j)) => is_first_sig(db_core(*db), n@, i as int, j as int),
            None => !has_sig_named(db_core(*db), n@),
        },
{
    let ghost c = db_core(*db);
    let mut i: usize = 0;
    while i < db.messages.len()
        invariant
            i <= db.messages@.len(),
            c == db_core(*db),
            forall|a: int, b: int| 0 <= a < i && 0 <= b < c[a].signals.len() ==> (#[trigger] c[a].signals[b]).name != n@,
        decreases db.messages.len() - i,
    {
        let m = &db.messages[i];
        let mut j: usize = 0;
        while j < m.signals.len()
            invariant
                i < db.messages@.len(),
                *m == db.messages@[i as int],
                c == db_core(*db),
                j <= m.signals@.len(),
                forall|a: int, b: int| 0 <= a < i && 0 <= b < c[a].signals.len() ==> (#[trigger] c[a].signals[b]).name != n@,
                forall|b: int| 0 <= b < j ==> (#[trigger] c[i as int].signals[b]).name != n@,
            decreases m.signals.len() - j,
        {
            let cand = chars_of(m.signals[j].name.as_str());
            assert(c[i as int].signals[j as int] == sig_core(m.signals@[j as int]));
            if seq_eq(&cand, n) {
                return Some((i, j));
            }
            j = j + 1;
        }
        assert(c[i as int].signals.len() == m.signals@.len());
        i = i + 1;
    }
    None
}

/// Moves the pending tables, in their order, to the database: each is bound to the first
/// signal of its name, in message order, and skipped where no signal has that name.
fn link_tables(db: &mut DbcDatabase, pending: &mut Vec<(String, Vec<(i64, String)>)>)
    requires
        parsed_inv(*old(db)),
        old(db).value_tables@.len() == 0,
        unique_names(pend_view(old(pending)@)),
    ensures
        parsed_inv(*final(db)),
        same_outline(*final(db), *old(db)),
        db_core(*final(db)) == db_core(*old(db)),
        forall|i: int, j: int|
            0 <= i < final(db).messages@.len() && 0 <= j < final(db).messages@[i].signals@.len() ==> opt_view(
                (#[trigger] final(db).messages@[i].signals@[j]).value_table,
            ) == if pend_index(pend_view(old(pending)@), db_core(*old(db))[i].signals[j].name) < pend_view(
                old(pending)@,
            ).len() && is_first_sig(db_core(*old(db)), db_core(*old(db))[i].signals[j].name, i, j) {
                Some(db_core(*old(db))[i].signals[j].name)
            } else {
                opt_view(old(db).messages@[i].signals@[j].value_table)
            },
        forall|q: int|
            0 <= q < pend_view(old(pending)@).len() && has_sig_named(db_core(*old(db)), #[trigger] pend_view(old(pending)@)[q].0)
                ==> (table_named(final(db).value_tables@, pend_view(old(pending)@)[q].0) matches Some(t) && pairs_view(
                t.values@,
            ) == pend_view(old(pending)@)[q].1),
{
    let ghost pp = pend_view(pending@);
    let ghost c = db_core(*db);
    let ghost d0 = *db;
    let mut k: usize = 0;
    proof {
        assert forall|nm: Seq<char>| #[trigger] pend_index(pp, nm) >= 0 by {
            lemma_pend_index_facts(pp, nm);
        }
    }
    while k < pending.len()
        invariant
            k <= pending@.len(),
            pending@.len() == pp.len(),
            unique_names(pp),
            forall|q: int| 0 <= q < pp.len() ==> (#[trigger] pending@[q]).0@ == pp[q].0,
            forall|q: int| k <= q < pp.len() ==> pairs_view((#[trigger] pending@[q]).1@) == pp[q].1,
            parsed_inv(*db),
            same_outline(*db, d0),
            db_core(*db) == c,
            c == db_core(d0),
            forall|i: int, j: int|
                0 <= i < db.messages@.len() && 0 <= j < db.messages@[i].signals@.len() ==> opt_view(
                    (#[trigger] db.messages@[i].signals@[j]).value_table,
                ) == if pend_index(pp, c[i].signals[j].name) < k && is_first_sig(c, c[i].signals[j].name, i, j) {
                    Some(c[i].signals[j].name)
                } else {
                    opt_view(d0.messages@[i].signals@[j].value_table)
                },
            forall|q: int|
                0 <= q < k && has_sig_named(c, #[trigger] pp[q].0) ==> (table_named(db.value_tables@, pp[q].0) matches Some(
                    t,
                ) && pairs_view(t.values@) == pp[q].1),
            forall|x: int| 0 <= x < db.value_tables@.len() ==> exists|q: int| 0 <= q < k && (#[trigger] db.value_tables@[x]).name@ == pp[q].0,
        decreases pp.len() - k,
    {
        let n = chars_of(pending[k].0.as_str());
        proof {
            lemma_pend_index(pp, n@, k as int);
            assert forall|q: int| 0 <= q < k implies pp[q].0 != n@ by {}
            lemma_pend_index(pp, n@, k as int);
        }
        assert(pend_index(pp, n@) == k);
        let ghost d1 = *db;
        match find_first_signal(db, &n) {
            Some((i, j)) => {
                let mut vals: Vec<(i64, String)> = Vec::new();
                let ghost pk = pending@[k as int];
                std::mem::swap(&mut vals, &mut pending[k].1);
                assert(pairs_view(vals@) == pp[k as int].1);
                let tname = string_of(n.as_slice());
                let vname = string_of(n.as_slice());
                let t = ValueTable { name: tname, values: vals };
                proof {
                    lemma_table_named_push(db.value_tables@, t, n@);
                    assert forall|x: int| 0 <= x < db.value_tables@.len() implies (#[trigger] db.value_tables@[x]).name@ != n@ by {
                        let q = choose|q: int| 0 <= q < k && db.value_tables@[x].name@ == pp[q].0;
                    }
                    lemma_table_named_none(db.value_tables@, n@);
                    assert forall|q: int| 0 <= q < k && has_sig_named(c, #[trigger] pp[q].0) implies table_named(
                        db.value_tables@.push(t),
                        pp[q].0,
                    ) == table_named(db.value_tables@, pp[q].0) by {
                        lemma_table_named_push(db.value_tables@, t, pp[q].0);
                    }
                }
                db.value_tables.push(t);
                db.messages[i].signals[j].value_table = Some(vname);
                assert(db.messages@[i as int].signals@.map_values(|x: Signal| sig_core(x)) =~= d1.messages@[i as int].signals@.map_values(|x: Signal| sig_core(x)));
                assert(db_core(*db) =~= db_core(d1));
                proof {
                    let tt = (db.value_tables@.len() - 1) as int;
                    assert(db.value_tables@[tt].name@ == n@);
                    assert forall|a: int, b: int|
                        0 <= a < db.messages@.len() && 0 <= b < db.messages@[a].signals@.len() implies signal_wf(
                            #[trigger] db.messages@[a].signals@[b],
                        ) && resolves(db.value_tables@, db.messages@[a].signals@[b]) by {
                        if a == i && b == j {
                        } else {
                            if a != i {
                                assert(db.messages@[a] == d1.messages@[a]);
                            } else {
                                assert(db.messages@[a].signals@[b] == d1.messages@[a].signals@[b]);
                            }
                            let sg = d1.messages@[a].signals@[b];
                            assert(signal_wf(sg));
                            assert(resolves(d1.value_tables@, sg));
                            match sg.value_table {
                                None => {},
                                Some(nn) => {
                                    let w = choose|w: int| 0 <= w < d1.value_tables@.len() && d1.value_tables@[w].name@ == nn@;
                                    assert(db.value_tables@[w] == d1.value_tables@[w]);
                                },
                            }
                        }
                    }
                    assert(signal_wf(d1.messages@[i as int].signals@[j as int]));
                    assert forall|a: int, b: int|
                        0 <= a < db.messages@.len() && 0 <= b < db.messages@[a].signals@.len() implies opt_view(
                            (#[trigger] db.messages@[a].signals@[b]).value_table,
                        ) == if pend_index(pp, c[a].signals[b].name) < k + 1 && is_first_sig(c, c[a].signals[b].name, a, b) {
                            Some(c[a].signals[b].name)
                        } else {
                            opt_view(d0.messages@[a].signals@[b].value_table)
                        } by {
                        let nm = c[a].signals[b].name;
                        lemma_pend_index_facts(pp, nm);
                        if a == i && b == j {
                        } else {
                            if a != i {
                                assert(db.messages@[a] == d1.messages@[a]);
                            } else {
                                assert(db.messages@[a].signals@[b] == d1.messages@[a].signals@[b]);
                            }
                            if nm == n@ && is_first_sig(c, nm, a, b) {
                                lemma_first_sig_unique(c, n@, i as int, j as int, a, b);
                            }
                        }
                    }
                    assert forall|x: int| 0 <= x < db.value_tables@.len() implies exists|q: int|
                        0 <= q < k + 1 && (#[trigger] db.value_tables@[x]).name@ == pp[q].0 by {
                        if x < d1.value_tables@.len() {
                            assert(db.value_tables@[x] == d1.value_tables@[x]);
                            let q = choose|q: int| 0 <= q < k && d1.value_tables@[x].name@ == pp[q].0;
                        } else {
                            assert(db.value_tables@[x].name@ == pp[k as int].0);
                        }
                    }
                }
            },
            None => {
                proof {
                    assert forall|a: int, b: int|
                        0 <= a < db.messages@.len() && 0 <= b < db.messages@[a].signals@.len() implies opt_view(
                            (#[trigger] db.messages@[a].signals@[b]).value_table,
                        ) == if pend_index(pp, c[a].signals[b].name) < k + 1 && is_first_sig(c, c[a].signals[b].name, a, b) {
                            Some(c[a].signals[b].name)
                        } else {
                            opt_view(d0.messages@[a].signals@[b].value_table)
                        } by {
                        let nm = c[a].signals[b].name;
                        lemma_pend_index_facts(pp, nm);
                        if nm == n@ {
                            assert(!has_sig_named(c, n@));
                        }
                    }
                }
            },
        }
        k = k + 1;
    }
}

/// The value tables of `db` come from `pp`: a signal refers to a table exactly when it
/// is the first signal, in message order, named after one of `pp`, and then to the table
/// of its name, which holds that entry's pairs.
pub open spec fn bindings_from(db: DbcDatabase, c: Seq<MsgCore>, pp: PendView) -> bool {
    &&& forall|i: int, j: int|
        0 <= i < db.messages@.len() && 0 <= j < db.messages@[i].signals@.len() ==> opt_view(
            (#[trigger] db.messages@[i].signals@[j]).value_table,
        ) == if pend_index(pp, c[i].signals[j].name) < pp.len() && is_first_sig(c, c[i].signals[j].name, i, j) {
            Some(c[i].signals[j].name)
        } else {
            None
        }
    &&& forall|q: int|
        0 <= q < pp.len() && has_sig_named(c, #[trigger] pp[q].0) ==> (table_named(db.value_tables@, pp[q].0) matches Some(
            t,
        ) && pairs_view(t.values@) == pp[q].1)
}

/// The trimmed lines of a text.
pub open spec fn trimmed_lines(content: Seq<char>) -> Seq<Seq<char>> {
    crate::trace_parse::split_on(content, '\n').map_values(|l: Seq<char>| trim(l))
}

pub open spec fn skipped(l: Seq<char>) -> bool {
    l.len() == 0 || starts(l, "//"@)
}

pub open spec fn starts(s: Seq<char>, p: Seq<char>) -> bool {
    crate::trace_parse::starts(s, p)
}

/// A line that the parser reads as a version record.
pub open spec fn is_version_line(l: Seq<char>) -> bool {
    !skipped(l) && starts(l, "VERSION"@)
}

/// A line that the parser reads as a message record.
pub open spec fn is_message_line(l: Seq<char>) -> bool {
    !skipped(l) && !starts(l, "VERSION"@) && starts(l, "BO_"@)
}

/// A line that the parser reads as a node list.
pub open spec fn is_nodes_line(l: Seq<char>) -> bool {
    !skipped(l) && !starts(l, "VERSION"@) && !starts(l, "BO_"@) && !starts(l, "SG_"@) && !starts(l, "VAL_"@)
        && !starts(l, "CM_"@) && starts(l, "BU_:"@)
}

/// The version of the last version record that reads as one.
pub open spec fn version_after(ls: Seq<Seq<char>>) -> Option<Seq<char>>
    decreases ls.len(),
{
    if ls.len() == 0 {
        None
    } else if is_version_line(ls.last()) && version_record(ls.last()) is Some {
        version_record(ls.last())
    } else {
        version_after(ls.drop_last())
    }
}

/// The nodes of the last node list.
pub open spec fn nodes_after(ls: Seq<Seq<char>>) -> Seq<Seq<char>>
    decreases ls.len(),
{
    if ls.len() == 0 {
        Seq::empty()
    } else if is_nodes_line(ls.last()) {
        words(strip_prefixes(ls.last(), bu_tag()))
    } else {
        nodes_after(ls.drop_last())
    }
}

/// Some message record that reads as one has id `id`.
pub open spec fn id_recorded(ls: Seq<Seq<char>>, id: u32) -> bool
    decreases ls.len(),
{
    ls.len() > 0 && (id_recorded(ls.drop_last(), id) || (is_message_line(ls.last()) && (message_record(
        words(ls.last()),
    ) matches Some(r) && r.0 == id)))
}

pub open spec fn opt_view(o: Option<String>) -> Option<Seq<char>> {
    match o {
        Some(s) => Some(s@),
        None => None,
    }
}

fn line_has(l: &Vec<char>, p: &str) -> (r: bool)
    ensures
        r == starts(l@, p@),
{
    let r = starts_with_at(l, 0, l.len(), p);
    assert(l@.subrange(0, l@.len() as int) =~= l@);
    r
}

impl DbcParser {
    /// A database from DBC text, line by line. Blank lines, `//` comments and lines that do
    /// not parse are skipped; afterwards each value table moves into the database and is
    /// bound to the first signal of its name. The version is that of the last version
    /// record, the nodes those of the last node list, and the messages are exactly those
    /// of the message records, one for each id. Every signal is well formed and every
    /// value-table reference names a table of the database.
    pub fn parse(content: &str) -> (r: Result<DbcDatabase, String>)
        ensures
            r matches Ok(db) && parsed_inv(db) && opt_view(db.version) == version_after(trimmed_lines(content@))
                && strings_view(db.nodes@) == nodes_after(trimmed_lines(content@)) && (forall|id: u32|
                has_id(db, id) <==> id_recorded(trimmed_lines(content@), id)) && db_core(db) == core_after(
                trimmed_lines(content@),
            ) && bindings_from(db, core_after(trimmed_lines(content@)), pend_after(trimmed_lines(content@))),
    {
        let cs = chars_of(content);
        let n = cs.len();
        assert(cs@.subrange(0, n as int) =~= cs@);
        let lines = split_fields(&cs, 0, n, '\n');
        let ghost tl = trimmed_lines(content@);
        assert(views_of(lines@) == crate::trace_parse::split_on(content@, '\n'));
        let mut db = DbcDatabase::new();
        let mut current: Option<u32> = None;
        let mut pending: Vec<(String, Vec<(i64, String)>)> = Vec::new();
        let mut k: usize = 0;
        proof {
            reveal_strlit("//");
            reveal_strlit("VERSION");
            reveal_strlit("BO_");
            reveal_strlit("SG_");
            reveal_strlit("VAL_");
            reveal_strlit("CM_");
            reveal_strlit("BU_:");
            assert("BU_:"@ =~= bu_tag());
            assert(strings_view(db.nodes@) =~= Seq::<Seq<char>>::empty());
        }
        while k < lines.len()
            invariant
                k <= lines@.len(),
                tl == trimmed_lines(content@),
                tl.len() == lines@.len(),
                forall|j: int| 0 <= j < lines@.len() ==> tl[j] == trim(#[trigger] lines@[j]@),
                "BU_:"@ == bu_tag(),
                parsed_inv(db),
                opt_view(db.version) == version_after(tl.subrange(0, k as int)),
                strings_view(db.nodes@) == nodes_after(tl.subrange(0, k as int)),
                forall|id: u32| has_id(db, id) <==> id_recorded(tl.subrange(0, k as int), id),
                db_core(db) == core_after(tl.subrange(0, k as int)),
                current == current_after(tl.subrange(0, k as int)),
                db.value_tables@.len() == 0,
                pend_view(pending@) == pend_after(tl.subrange(0, k as int)),
                no_refs(db),
            decreases lines.len() - k,
        {
            let ghost pre = tl.subrange(0, k as int);
            let ghost next = tl.subrange(0, k + 1);
            assert(next.drop_last() =~= pre);
            let raw = &lines[k];
            let (x, y) = trim_bounds(raw, 0, raw.len());
            assert(raw@.subrange(0, raw@.len() as int) =~= raw@);
            let lc = sub_chars(raw, x, y);
            assert(lc@ == tl[k as int]);
            assert(next.last() == lc@);
            let line = string_of(lc.as_slice());
            let l = line.as_str();
            let ghost d_start = db;
            if lc.len() == 0 || line_has(&lc, "//") {
            } else if line_has(&lc, "VERSION") {
                match DbcParser::parse_version(l) {
                    Some(v) => {
                        db.version = Some(v);
                    },
                    None => {},
                }
            } else if line_has(&lc, "BO_") {
                assert(l@ == lc@);
                assert(is_message_line(lc@));
                match DbcParser::parse_message(l) {
                    Some((id, name, dlc, sender)) => {
                        let m = Message { id, name, dlc, sender, signals: Vec::new(), comment: None };
                        proof {
                            let (rid, rname, rdlc, rsender) = message_record(words(lc@))->0;
                            assert(m.signals@.map_values(|x: Signal| sig_core(x)) =~= Seq::<SigCore>::empty());
                            assert(msg_core(m) == (MsgCore {
                                id: rid,
                                name: rname,
                                dlc: rdlc,
                                sender: rsender,
                                signals: Seq::empty(),
                            }));
                        }
                        let ghost d0 = db;
                        put_message(&mut db, m);
                        current = Some(id);
                        assert(message_record(words(lc@)) matches Some(r) && r.0 == id);
                        assert forall|x: u32| has_id(db, x) <==> id_recorded(next, x) by {
                            assert(has_id(db, x) <==> (has_id(d0, x) || x == id));
                            assert(has_id(d0, x) <==> id_recorded(pre, x));
                        }
                    },
                    None => {
                        assert(message_record(words(lc@)) is None);
                    },
                }
            } else if line_has(&lc, "SG_") {
                match (DbcParser::parse_signal(l), current) {
                    (Some(s), Some(id)) => {
                        assert(is_signal_line(lc@));
                        assert(sig_core(s) == parts_core(signal_record(lc@)->0));
                        let ghost d0 = db;
                        add_signal(&mut db, id, s);
                        proof {
                            lemma_outline_ids(db, d0);
                        }
                    },
                    _ => {},
                }
            } else if line_has(&lc, "VAL_") {
                assert(is_val_line(lc@));
                match DbcParser::parse_value_table(l) {
                    Some((name, pairs)) => put_pending(&mut pending, name, pairs),
                    None => {},
                }
            } else if line_has(&lc, "CM_") {
                match DbcParser::parse_comment_record(l) {
                    Some((id, sig, text)) => {
                        let ghost d0 = db;
                        put_comment(&mut db, id, sig, text);
                        proof {
                            lemma_outline_ids(db, d0);
                        }
                    },
                    None => {},
                }
            } else if line_has(&lc, "BU_:") {
                db.nodes = DbcParser::parse_nodes(l);
            }
            assert(forall|id: u32| id_recorded(next, id) == (id_recorded(pre, id) || (is_message_line(lc@) && (message_record(
                words(lc@),
            ) matches Some(r) && r.0 == id))));
            proof {
                if !is_message_line(lc@) {
                    assert(same_outline(db, d_start) || (db.messages == d_start.messages));
                    if db.messages == d_start.messages {
                        assert forall|x: u32| has_id(db, x) == has_id(d_start, x) by {
                            if has_id(db, x) {
                                let q = choose|q: int| 0 <= q < db.messages@.len() && (#[trigger] db.messages@[q]).id == x;
                                assert(d_start.messages@[q].id == x);
                            }
                        }
                    } else {
                        lemma_outline_ids(db, d_start);
                    }
                }
            }
            k = k + 1;
        }
        assert(tl.subrange(0, lines@.len() as int) =~= tl);
        proof {
            lemma_pend_after_unique(tl);
        }
        let ghost d0 = db;
        link_tables(&mut db, &mut pending);
        proof {
            lemma_outline_ids(db, d0);
            assert forall|i: int, j: int|
                0 <= i < db.messages@.len() && 0 <= j < db.messages@[i].signals@.len() implies (#[trigger] d0.messages@[i].signals@[j]).value_table is None by {
                assert(d0.messages@[i].signals@.len() == db_core(d0)[i].signals.len());
            }
        }
        Ok(db)
    }
}

} // verus!
