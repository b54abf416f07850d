use vstd::prelude::*;
use crate::dbc::{ByteOrder, DbcDatabase, Message, Signal, ValueTable, ValueType, signal_wf};
use crate::dbc_parser::{
    has_id, same_outline,
    dec_value, dec_word, decimal_value, decimal_word, parsed_inv, resolves, strip_prefixes,
    sub_chars,
};
use crate::decimal::Decimal;
use crate::text::{
    chars_of, copy_string, find_char, first_of, is_dec_digit, seq_eq, split_words, starts_with_at, string_of, trim,
    trim_bounds, views_of, word_is, words,
};

verus! {

/// The parser of PCAN symbol files.
pub struct SymParser;

/// `w` without its leading copies of `p`.
pub fn strip_prefixes_word(w: &Vec<char>, p: &str) -> (r: Vec<char>)
    ensures
        r@ == strip_prefixes(w@, p@),
{
    let mut a: usize = 0;
    let pc = chars_of(p);
    assert(w@.subrange(0, w@.len() as int) =~= w@);
    if pc.len() == 0 {
        return sub_chars(w, 0, w.len());
    }
    while starts_with_at(w, a, w.len(), p)
        invariant
            a <= w@.len(),
            pc@ == p@,
            pc@.len() > 0,
            strip_prefixes(w@, p@) == strip_prefixes(w@.subrange(a as int, w@.len() as int), p@),
        decreases w.len() - a,
    {
        assert(w@.subrange(a as int, w@.len() as int).subrange(p@.len() as int, w@.len() - a) =~= w@.subrange(a + p@.len(), w@.len() as int));
        assert(w@.subrange(a as int, w@.len() as int).subrange(0, p@.len() as int) =~= w@.subrange(a as int, a + p@.len()));
        a = a + pc.len();
    }
    assert(w@.subrange(a as int, w@.len() as int).len() < p@.len() || w@.subrange(a as int, w@.len() as int).subrange(0, p@.len() as int) != p@) by {
        if w@.len() - a >= p@.len() {
            assert(w@.subrange(a as int, w@.len() as int).subrange(0, p@.len() as int) =~= w@.subrange(a as int, a + p@.len()));
        }
    }
    sub_chars(w, a, w.len())
}

/// The signal name and bit position of an assignment `Sig=<name> <bit>`.
pub open spec fn assignment_record(ws: Seq<Seq<char>>) -> Option<(Seq<char>, u8)> {
    if ws.len() < 2 {
        None
    } else {
        match dec_value(ws[1], 255) {
            Some(b) => Some((strip_prefixes(ws[0], "Sig="@), b as u8)),
            None => None,
        }
    }
}

/// The attributes of a signal definition.
pub struct Attrs {
    pub factor: Decimal,
    pub offset: Decimal,
    pub unit: Seq<char>,
    pub minimum: Option<Decimal>,
    pub maximum: Option<Decimal>,
    pub value_table: Option<Seq<char>>,
}

pub open spec fn default_attrs() -> Attrs {
    Attrs {
        factor: Decimal { mantissa: 1, scale: 0 },
        offset: Decimal { mantissa: 0, scale: 0 },
        unit: Seq::empty(),
        minimum: None,
        maximum: None,
        value_table: None,
    }
}

pub open spec fn has(w: Seq<char>, p: Seq<char>) -> bool {
    p.len() <= w.len() && w.subrange(0, p.len() as int) == p
}

/// One attribute word applied: `/f:` factor (1 where unreadable), `/o:` offset (0 where
/// unreadable), `/u:` unit, `/e:` value table, `/max:` and `/min:` bounds.
pub open spec fn apply_attr(a: Attrs, w: Seq<char>) -> Attrs {
    if has(w, "/f:"@) {
        Attrs {
            factor: match decimal_value(strip_prefixes(w, "/f:"@)) {
                Some(d) => d,
                None => Decimal { mantissa: 1, scale: 0 },
            },
            ..a
        }
    } else if has(w, "/o:"@) {
        Attrs {
            offset: match decimal_value(strip_prefixes(w, "/o:"@)) {
                Some(d) => d,
                None => Decimal { mantissa: 0, scale: 0 },
            },
            ..a
        }
    } else if has(w, "/u:"@) {
        Attrs { unit: strip_prefixes(w, "/u:"@), ..a }
    } else if has(w, "/e:"@) {
        Attrs { value_table: Some(strip_prefixes(w, "/e:"@)), ..a }
    } else if has(w, "/max:"@) {
        Attrs { maximum: decimal_value(strip_prefixes(w, "/max:"@)), ..a }
    } else if has(w, "/min:"@) {
        Attrs { minimum: decimal_value(strip_prefixes(w, "/min:"@)), ..a }
    } else {
        a
    }
}

/// The attribute words applied in order.
pub open spec fn attrs_of(ws: Seq<Seq<char>>) -> Attrs
    decreases ws.len(),
{
    if ws.len() == 0 { default_attrs() } else { apply_attr(attrs_of(ws.drop_last()), ws.last()) }
}

/// The exec form of `Attrs`.
struct AttrsExec {
    factor: Decimal,
    offset: Decimal,
    unit: Vec<char>,
    minimum: Option<Decimal>,
    maximum: Option<Decimal>,
    value_table: Option<Vec<char>>,
}

spec fn attrs_view(a: AttrsExec) -> Attrs {
    Attrs {
        factor: a.factor,
        offset: a.offset,
        unit: a.unit@,
        minimum: a.minimum,
        maximum: a.maximum,
        value_table: match a.value_table {
            Some(v) => Some(v@),
            None => None,
        },
    }
}

fn has_exec(w: &Vec<char>, p: &str) -> (r: bool)
    ensures
        r == has(w@, p@),
{
    let r = starts_with_at(w, 0, w.len(), p);
    assert(w@.subrange(0, w@.len() as int) =~= w@);
    r
}

fn decimal_of_word(w: &Vec<char>) -> (r: Option<Decimal>)
    ensures
        r == decimal_value(w@),
{
    let r = decimal_word(w, 0, w.len());
    assert(w@.subrange(0, w@.len() as int) =~= w@);
    r
}

/// The attributes of the words `ws[from..]`.
fn read_attrs(ws: &Vec<Vec<char>>, from: usize) -> (r: AttrsExec)
    requires
        from <= ws@.len(),
    ensures
        attrs_view(r) == attrs_of(views_of(ws@).subrange(from as int, ws@.len() as int)),
        r.factor.scale <= 18 && r.offset.scale <= 18,
{
    let mut a = AttrsExec {
        factor: Decimal { mantissa: 1, scale: 0 },
        offset: Decimal { mantissa: 0, scale: 0 },
        unit: Vec::new(),
        minimum: None,
        maximum: None,
        value_table: None,
    };
    let mut i: usize = from;
    let ghost all = views_of(ws@);
    assert(attrs_view(a) =~= default_attrs()) by {
        assert(a.unit@ =~= Seq::<char>::empty());
    }
    assert(all.subrange(from as int, from as int) =~= Seq::<Seq<char>>::empty());
    proof {
        reveal_strlit("/f:");
        reveal_strlit("/o:");
        reveal_strlit("/u:");
        reveal_strlit("/e:");
        reveal_strlit("/max:");
        reveal_strlit("/min:");
    }
    while i < ws.len()
        invariant
            from <= i <= ws@.len(),
            all == views_of(ws@),
            attrs_view(a) == attrs_of(all.subrange(from as int, i as int)),
            a.factor.scale <= 18 && a.offset.scale <= 18,
        decreases ws.len() - i,
    {
        let w = &ws[i];
        let ghost sub = all.subrange(from as int, i + 1);
        assert(sub.drop_last() =~= all.subrange(from as int, i as int));
        assert(sub.last() == w@);
        if has_exec(w, "/f:") {
            a.factor = match decimal_of_word(&strip_prefixes_word(w, "/f:")) {
                Some(d) => d,
                None => Decimal { mantissa: 1, scale: 0 },
            };
        } else if has_exec(w, "/o:") {
            a.offset = match decimal_of_word(&strip_prefixes_word(w, "/o:")) {
                Some(d) => d,
                None => Decimal { mantissa: 0, scale: 0 },
            };
        } else if has_exec(w, "/u:") {
            a.unit = strip_prefixes_word(w, "/u:");
        } else if has_exec(w, "/e:") {
            a.value_table = Some(strip_prefixes_word(w, "/e:"));
        } else if has_exec(w, "/max:") {
            a.maximum = decimal_of_word(&strip_prefixes_word(w, "/max:"));
        } else if has_exec(w, "/min:") {
            a.minimum = decimal_of_word(&strip_prefixes_word(w, "/min:"));
        }
        i = i + 1;
    }
    a
}

/// The kind and length of a signal definition `Sig=<name> <type> <bits>`: float and
/// double have fixed lengths; another type reads as unsigned.
pub open spec fn sig_kind(ty: Seq<char>, bits: Seq<char>) -> Option<(ValueType, u8)> {
    if ty == "float"@ {
        Some((ValueType::Float, 32))
    } else if ty == "double"@ {
        Some((ValueType::Double, 64))
    } else {
        match dec_value(bits, 255) {
            Some(n) => Some((if ty == "signed"@ { ValueType::Signed } else { ValueType::Unsigned }, n as u8)),
            None => None,
        }
    }
}

/// The kind of a variable's type: `bit` and unknown types read as unsigned.
pub open spec fn var_kind(ty: Seq<char>) -> ValueType {
    if ty == "signed"@ {
        ValueType::Signed
    } else if ty == "float"@ {
        ValueType::Float
    } else if ty == "double"@ {
        ValueType::Double
    } else {
        ValueType::Unsigned
    }
}

/// The parts of a signal read from a definition.
pub struct SymSignal {
    pub name: Seq<char>,
    pub start_bit: u8,
    pub length: u8,
    pub value_type: ValueType,
    pub attrs: Attrs,
}

pub open spec fn wf_parts(p: SymSignal) -> bool {
    &&& 1 <= p.length <= 64
    &&& p.value_type == ValueType::Float ==> p.length == 32
    &&& p.value_type == ValueType::Double ==> p.length == 64
}

/// A signal definition `Sig=<name> <type> <bits> [attributes]`, at bit 0 until a message
/// places it; only a well-formed signal is kept.
pub open spec fn sig_record(ws: Seq<Seq<char>>) -> Option<SymSignal> {
    if ws.len() < 3 {
        None
    } else {
        match sig_kind(ws[1], ws[2]) {
            Some((vt, len)) => {
                let p = SymSignal {
                    name: strip_prefixes(ws[0], "Sig="@),
                    start_bit: 0,
                    length: len,
                    value_type: vt,
                    attrs: attrs_of(ws.subrange(3, ws.len() as int)),
                };
                if wf_parts(p) { Some(p) } else { None }
            },
            None => None,
        }
    }
}

/// A variable `Var=<name> <type> <bit>,<length> [attributes]`; only a well-formed signal is
/// kept.
pub open spec fn var_record(ws: Seq<Seq<char>>) -> Option<SymSignal> {
    if ws.len() < 3 {
        None
    } else {
        let w = ws[2];
        let k = first_of(w, ',');
        let rest = if k < w.len() { w.subrange(k + 1, w.len() as int) } else { Seq::empty() };
        let len_text = rest.subrange(0, first_of(rest, ','));
        match (dec_value(w.subrange(0, k), 255), if k < w.len() { dec_value(len_text, 255) } else { None }) {
            (Some(b), Some(n)) => {
                let p = SymSignal {
                    name: strip_prefixes(ws[0], "Var="@),
                    start_bit: b as u8,
                    length: n as u8,
                    value_type: var_kind(ws[1]),
                    attrs: attrs_of(ws.subrange(3, ws.len() as int)),
                };
                if wf_parts(p) { Some(p) } else { None }
            },
            _ => None,
        }
    }
}

/// The signal built from its parts: little-endian, no receivers, no comment.
pub open spec fn built_from(s: Signal, p: SymSignal) -> bool {
    &&& s.name@ == p.name
    &&& s.start_bit == p.start_bit
    &&& s.length == p.length
    &&& s.byte_order == ByteOrder::LittleEndian
    &&& s.value_type == p.value_type
    &&& s.factor == p.attrs.factor
    &&& s.offset == p.attrs.offset
    &&& s.minimum == p.attrs.minimum
    &&& s.maximum == p.attrs.maximum
    &&& s.unit@ == p.attrs.unit
    &&& s.receivers@.len() == 0
    &&& s.comment is None
    &&& match p.attrs.value_table {
        None => s.value_table is None,
        Some(v) => s.value_table matches Some(x) && x@ == v,
    }
}

fn build_signal(name: Vec<char>, start_bit: u8, length: u8, value_type: ValueType, a: AttrsExec) -> (r: Signal)
    ensures
        built_from(r, SymSignal { name: name@, start_bit, length, value_type, attrs: attrs_view(a) }),
{
    Signal {
        name: string_of(name.as_slice()),
        start_bit,
        length,
        byte_order: ByteOrder::LittleEndian,
        value_type,
        factor: a.factor,
        offset: a.offset,
        minimum: a.minimum,
        maximum: a.maximum,
        unit: string_of(a.unit.as_slice()),
        receivers: Vec::new(),
        comment: None,
        value_table: match a.value_table {
            Some(v) => Some(string_of(v.as_slice())),
            None => None,
        },
    }
}

impl SymParser {
    /// The signal name and bit position of an assignment `Sig=<name> <bit>`.
    pub fn parse_signal_assignment(line: &str) -> (r: Option<(String, u8)>)
        ensures
            match assignment_record(words(line@)) {
                None => r is None,
                Some((n, b)) => r matches Some((rn, rb)) && rn@ == n && rb == b,
            },
    {
        let cs = chars_of(line);
        let ws = split_words(&cs, 0, cs.len());
        assert(cs@.subrange(0, cs@.len() as int) =~= cs@);
        if ws.len() < 2 {
            return None;
        }
        assert(views_of(ws@)[0] == ws@[0]@ && views_of(ws@)[1] == ws@[1]@);
        let bit = match dec_word(&ws[1], 255) {
            None => return None,
            Some(b) => b as u8,
        };
        let name = strip_prefixes_word(&ws[0], "Sig=");
        Some((string_of(name.as_slice()), bit))
    }

    /// A signal definition of the signals section.
    pub fn parse_signal(line: &str) -> (r: Option<Signal>)
        ensures
            match sig_record(words(line@)) {
                None => r is None,
                Some(p) => r matches Some(s) && built_from(s, p),
            },
            r matches Some(s) ==> signal_wf(s),
    {
        let cs = chars_of(line);
        let ws = split_words(&cs, 0, cs.len());
        assert(cs@.subrange(0, cs@.len() as int) =~= cs@);
        if ws.len() < 3 {
            return None;
        }
        let ghost wv = views_of(ws@);
        assert(wv[0] == ws@[0]@ && wv[1] == ws@[1]@ && wv[2] == ws@[2]@);
        proof {
            reveal_strlit("float");
            reveal_strlit("double");
            reveal_strlit("signed");
        }
        let ty = &ws[1];
        let (vt, len): (ValueType, u8) = if word_is(ty, "float") {
            (ValueType::Float, 32)
        } else if word_is(ty, "double") {
            (ValueType::Double, 64)
        } else {
            match dec_word(&ws[2], 255) {
                None => return None,
                Some(n) => (if word_is(ty, "signed") { ValueType::Signed } else { ValueType::Unsigned }, n as u8),
            }
        };
        let a = read_attrs(&ws, 3);
        if len < 1 || len > 64 || (vt == ValueType::Float && len != 32) || (vt == ValueType::Double && len != 64) {
            return None;
        }
        let name = strip_prefixes_word(&ws[0], "Sig=");
        Some(build_signal(name, 0, len, vt, a))
    }

    /// A variable of the send/receive section.
    pub fn parse_variable(line: &str) -> (r: Option<Signal>)
        ensures
            match var_record(words(line@)) {
                None => r is None,
                Some(p) => r matches Some(s) && built_from(s, p),
            },
            r matches Some(s) ==> signal_wf(s),
    {
        let cs = chars_of(line);
        let ws = split_words(&cs, 0, cs.len());
        assert(cs@.subrange(0, cs@.len() as int) =~= cs@);
        if ws.len() < 3 {
            return None;
        }
        let ghost wv = views_of(ws@);
        assert(wv[0] == ws@[0]@ && wv[1] == ws@[1]@ && wv[2] == ws@[2]@);
        let w = &ws[2];
        let n = w.len();
        assert(w@.subrange(0, n as int) =~= w@);
        let k = find_char(w, 0, n, ',');
        let bv = sub_chars(w, 0, k);
        let bit = match dec_word(&bv, 255) {
            None => return None,
            Some(b) => b as u8,
        };
        if k >= n {
            return None;
        }
        let rest = sub_chars(w, k + 1, n);
        let m = rest.len();
        assert(rest@.subrange(0, m as int) =~= rest@);
        let k2 = find_char(&rest, 0, m, ',');
        let lv = sub_chars(&rest, 0, k2);
        let len = match dec_word(&lv, 255) {
            None => return None,
            Some(b) => b as u8,
        };
        proof {
            reveal_strlit("float");
            reveal_strlit("double");
            reveal_strlit("signed");
        }
        let ty = &ws[1];
        let vt = if word_is(ty, "signed") {
            ValueType::Signed
        } else if word_is(ty, "float") {
            ValueType::Float
        } else if word_is(ty, "double") {
            ValueType::Double
        } else {
            ValueType::Unsigned
        };
        let a = read_attrs(&ws, 3);
        if len < 1 || len > 64 || (vt == ValueType::Float && len != 32) || (vt == ValueType::Double && len != 64) {
            return None;
        }
        let name = strip_prefixes_word(&ws[0], "Var=");
        Some(build_signal(name, bit, len, vt, a))
    }
}

/// The number of decimal digits at the front of `s`.
pub open spec fn digit_run(s: Seq<char>) -> int
    decreases s.len(),
{
    if s.len() > 0 && is_dec_digit(s[0]) { 1 + digit_run(s.drop_first()) } else { 0 }
}

proof fn lemma_digit_run(s: Seq<char>)
    ensures
        0 <= digit_run(s) <= s.len(),
    decreases s.len(),
{
    if s.len() > 0 && is_dec_digit(s[0]) {
        lemma_digit_run(s.drop_first());
    }
}

proof fn lemma_digit_run_is(s: Seq<char>, k: int)
    requires
        0 <= k <= s.len(),
        forall|i: int| 0 <= i < k ==> is_dec_digit(#[trigger] s[i]),
        k < s.len() ==> !is_dec_digit(s[k]),
    ensures
        digit_run(s) == k,
    decreases s.len(),
{
    if k > 0 {
        let t = s.drop_first();
        assert forall|i: int| 0 <= i < k - 1 implies is_dec_digit(#[trigger] t[i]) by {
            assert(t[i] == s[i + 1]);
        }
        if k - 1 < t.len() {
            assert(t[k - 1] == s[k]);
        }
        lemma_digit_run_is(t, k - 1);
    }
}

/// The pairs `<digits>="<label>"` of an enumeration body, from left to right, as a
/// pattern search finds them; a pair whose number does not fit is passed over.
pub open spec fn enum_pairs(s: Seq<char>) -> Seq<(i64, Seq<char>)>
    decreases s.len(),
    via enum_pairs_decreases
{
    if s.len() == 0 {
        Seq::empty()
    } else {
        let d = digit_run(s);
        if d == 0 {
            enum_pairs(s.drop_first())
        } else {
            let rest = s.subrange(d + 2, s.len() as int);
            let q = first_of(rest, '"');
            if d + 1 < s.len() && s[d] == '=' && s[d + 1] == '"' && 0 < q < rest.len() {
                let after = rest.subrange(q + 1, rest.len() as int);
                match dec_value(s.subrange(0, d), 0x7fff_ffff_ffff_ffff) {
                    Some(v) => seq![(v as i64, rest.subrange(0, q))] + enum_pairs(after),
                    None => enum_pairs(after),
                }
            } else {
                enum_pairs(s.subrange(d, s.len() as int))
            }
        }
    }
}

#[via_fn]
proof fn enum_pairs_decreases(s: Seq<char>) {
    lemma_digit_run(s);
    if s.len() > 0 && digit_run(s) > 0 && digit_run(s) + 1 < s.len() {
        let d = digit_run(s);
        crate::text::lemma_first_of(s.subrange(d + 2, s.len() as int), '"');
    }
}

pub open spec fn pairs_of(v: Seq<(i64, Vec<char>)>) -> Seq<(i64, Seq<char>)> {
    v.map_values(|p: (i64, Vec<char>)| (p.0, p.1@))
}

/// The pairs of `s[a..b]`.
fn scan_enum(s: &Vec<char>, a: usize, b: usize) -> (r: Vec<(i64, Vec<char>)>)
    requires
        a <= b <= s@.len(),
    ensures
        pairs_of(r@) == enum_pairs(s@.subrange(a as int, b as int)),
{
    let mut out: Vec<(i64, Vec<char>)> = Vec::new();
    let mut i: usize = a;
    while i < b
        invariant
            a <= i <= b <= s@.len(),
            enum_pairs(s@.subrange(a as int, b as int)) == pairs_of(out@) + enum_pairs(s@.subrange(i as int, b as int)),
        decreases b - i,
    {
        let ghost t = s@.subrange(i as int, b as int);
        let mut j: usize = i;
        while j < b && '0' <= s[j] && s[j] <= '9'
            invariant
                i <= j <= b <= s@.len(),
                forall|x: int| i <= x < j ==> is_dec_digit(s@[x]),
            decreases b - j,
        {
            j = j + 1;
        }
        proof {
            assert forall|x: int| 0 <= x < j - i implies is_dec_digit(#[trigger] t[x]) by {
                assert(t[x] == s@[i + x]);
            }
            if j < b {
                assert(t[j - i] == s@[j as int]);
            }
            lemma_digit_run_is(t, (j - i) as int);
        }
        let d = j - i;
        let ghost before = out@;
        if d == 0 {
            assert(t.drop_first() =~= s@.subrange(i + 1, b as int));
            i = i + 1;
        } else if j < b && b - j > 1 && s[j] == '=' && s[j + 1] == '"' {
            let ghost rest = t.subrange(d + 2, t.len() as int);
            assert(rest =~= s@.subrange(j + 2, b as int));
            let q = find_char(s, j + 2, b, '"');
            if q > 0 && q < b - (j + 2) {
                let dv = sub_chars(s, i, j);
                assert(dv@ =~= t.subrange(0, d as int));
                let label = sub_chars(s, j + 2, j + 2 + q);
                assert(label@ =~= rest.subrange(0, q as int));
                assert(rest.subrange(q + 1, rest.len() as int) =~= s@.subrange(j + 3 + q, b as int));
                match dec_word(&dv, 0x7fff_ffff_ffff_ffff) {
                    Some(v) => {
                        out.push((v as i64, label));
                        assert(pairs_of(out@) =~= pairs_of(before).push((v as i64, label@)));
                        assert(pairs_of(before) + (seq![(v as i64, label@)] + enum_pairs(s@.subrange(j + 3 + q, b as int)))
                            =~= pairs_of(out@) + enum_pairs(s@.subrange(j + 3 + q, b as int)));
                    },
                    None => {},
                }
                i = j + 3 + q;
            } else {
                assert(t.subrange(d as int, t.len() as int) =~= s@.subrange(j as int, b as int));
                i = j;
            }
        } else {
            assert(t.subrange(d as int, t.len() as int) =~= s@.subrange(j as int, b as int));
            i = j;
        }
    }
    assert(enum_pairs(s@.subrange(i as int, b as int)) =~= Seq::<(i64, Seq<char>)>::empty());
    assert(pairs_of(out@) + Seq::<(i64, Seq<char>)>::empty() =~= pairs_of(out@));
    out
}

/// An enumeration `enum <name>(<pairs>)` or `Enum=<name>(<pairs>)`: the name before the
/// first parenthesis, trimmed, and the pairs up to the last closing one.
pub open spec fn enum_record(line: Seq<char>) -> Option<(Seq<char>, Seq<(i64, Seq<char>)>)> {
    if has(line, "enum "@) || has(line, "Enum="@) {
        let body = line.subrange(5, line.len() as int);
        let op = first_of(body, '(');
        let cp = crate::trace_logger::last_of(body, ')');
        if op < body.len() && cp > op {
            Some((trim(body.subrange(0, op)), enum_pairs(body.subrange(op + 1, cp))))
        } else {
            None
        }
    } else {
        None
    }
}

impl SymParser {
    /// The name and value/label pairs of an enumeration record.
    pub fn parse_enum(line: &str) -> (r: Option<(String, Vec<(i64, String)>)>)
        ensures
            match enum_record(line@) {
                None => r is None,
                Some((n, ps)) => r matches Some((rn, rp)) && rn@ == n && crate::dbc_parser::pairs_view(rp@) == ps,
            },
    {
        let cs = chars_of(line);
        proof {
            reveal_strlit("enum ");
            reveal_strlit("Enum=");
        }
        if !(has_exec(&cs, "enum ") || has_exec(&cs, "Enum=")) {
            return None;
        }
        let body = sub_chars(&cs, 5, cs.len());
        let n = body.len();
        assert(body@.subrange(0, n as int) =~= body@);
        let op = find_char(&body, 0, n, '(');
        proof {
            crate::trace_logger::lemma_last_of(body@, ')');
        }
        let cp = match crate::trace_logger::last_index(&body, ')') {
            None => return None,
            Some(c) => c,
        };
        if !(op < n && cp > op) {
            return None;
        }
        let (x, y) = trim_bounds(&body, 0, op);
        let name = string_of(sub_chars(&body, x, y).as_slice());
        let ps = scan_enum(&body, op + 1, cp);
        let mut out: Vec<(i64, String)> = Vec::new();
        let mut k: usize = 0;
        while k < ps.len()
            invariant
                k <= ps@.len(),
                crate::dbc_parser::pairs_view(out@) == pairs_of(ps@).subrange(0, k as int),
            decreases ps.len() - k,
        {
            let ghost before = out@;
            let l = string_of(ps[k].1.as_slice());
            out.push((ps[k].0, l));
            assert(crate::dbc_parser::pairs_view(out@) =~= crate::dbc_parser::pairs_view(before).push((ps@[k as int].0, ps@[k as int].1@)));
            assert(pairs_of(ps@).subrange(0, k + 1) =~= pairs_of(ps@).subrange(0, k as int).push((ps@[k as int].0, ps@[k as int].1@)));
            k = k + 1;
        }
        assert(pairs_of(ps@).subrange(0, ps@.len() as int) =~= pairs_of(ps@));
        Some((name, out))
    }
}

/// A copy of `s` placed at `start_bit`.
fn placed_copy(s: &Signal, start_bit: u8) -> (r: Signal)
    ensures
        r.name@ == s.name@ && r.start_bit == start_bit && r.length == s.length,
        r.byte_order == s.byte_order && r.value_type == s.value_type,
        r.factor == s.factor && r.offset == s.offset && r.minimum == s.minimum && r.maximum == s.maximum,
        r.unit@ == s.unit@,
        match s.value_table {
            None => r.value_table is None,
            Some(v) => r.value_table matches Some(x) && x@ == v@,
        },
{
    let mut receivers: Vec<String> = Vec::new();
    let mut i: usize = 0;
    while i < s.receivers.len()
        invariant
            i <= s.receivers@.len(),
        decreases s.receivers.len() - i,
    {
        receivers.push(copy_string(&s.receivers[i]));
        i = i + 1;
    }
    Signal {
        name: copy_string(&s.name),
        start_bit,
        length: s.length,
        byte_order: s.byte_order,
        value_type: s.value_type,
        factor: s.factor,
        offset: s.offset,
        minimum: s.minimum,
        maximum: s.maximum,
        unit: copy_string(&s.unit),
        receivers,
        comment: match &s.comment {
            Some(c) => Some(copy_string(c)),
            None => None,
        },
        value_table: match &s.value_table {
            Some(v) => Some(copy_string(v)),
            None => None,
        },
    }
}

fn name_eq(a: &String, b: &String) -> (r: bool)
    ensures
        r == (a@ == b@),
{
    let x = chars_of(a.as_str());
    let y = chars_of(b.as_str());
    seq_eq(&x, &y)
}

/// Puts `m` in place of the message with its id, or adds it.
fn sym_put_message(db: &mut DbcDatabase, m: Message)
    requires
        old(db).wf(),
        m.signals@.len() == 0,
    ensures
        final(db).version == old(db).version,
        forall|x: u32| has_id(*final(db), x) ==> has_id(*old(db), x) || x == m.id,
        final(db).wf(),
        final(db).value_tables@ == old(db).value_tables@,
{
    let mut i: usize = 0;
    while i < db.messages.len()
        invariant
            i <= db.messages@.len(),
            *db == *old(db),
            db.wf(),
            m.signals@.len() == 0,
        decreases db.messages.len() - i,
    {
        if db.messages[i].id == m.id {
            let ghost mid = m.id;
            db.messages[i] = m;
            assert forall|a: int, b: int|
                0 <= a < db.messages@.len() && 0 <= b < db.messages@[a].signals@.len() implies signal_wf(
                    #[trigger] db.messages@[a].signals@[b],
                ) by {
                if a != i {
                    assert(db.messages@[a] == old(db).messages@[a]);
                }
            }
            assert forall|x: u32| has_id(*db, x) implies has_id(*old(db), x) || x == mid by {
                let q = choose|q: int| 0 <= q < db.messages@.len() && (#[trigger] db.messages@[q]).id == x;
                if q != i {
                    assert(db.messages@[q] == old(db).messages@[q]);
                }
            }
            return;
        }
        i = i + 1;
    }
    let ghost mid = m.id;
    db.messages.push(m);
    assert forall|x: u32| has_id(*db, x) implies has_id(*old(db), x) || x == mid by {
        let q = choose|q: int| 0 <= q < db.messages@.len() && (#[trigger] db.messages@[q]).id == x;
        if q < old(db).messages@.len() {
            assert(db.messages@[q] == old(db).messages@[q]);
        }
    }
    assert forall|a: int, b: int|
        0 <= a < db.messages@.len() && 0 <= b < db.messages@[a].signals@.len() implies signal_wf(
            #[trigger] db.messages@[a].signals@[b],
        ) by {
        assert(db.messages@[a] == old(db).messages@[a]);
    }
}

/// Adds `s` to the message with `id`, where there is one.
fn sym_add_signal(db: &mut DbcDatabase, id: u32, s: Signal)
    requires
        old(db).wf(),
        signal_wf(s),
    ensures
        final(db).version == old(db).version,
        same_outline(*final(db), *old(db)),
        final(db).wf(),
        final(db).value_tables@ == old(db).value_tables@,
{
    let mut i: usize = 0;
    while i < db.messages.len()
        invariant
            i <= db.messages@.len(),
            *db == *old(db),
            db.wf(),
            signal_wf(s),
        decreases db.messages.len() - i,
    {
        if db.messages[i].id == id {
            let ghost before = db.messages@[i as int];
            db.messages[i].signals.push(s);
            assert forall|a: int, b: int|
                0 <= a < db.messages@.len() && 0 <= b < db.messages@[a].signals@.len() implies signal_wf(
                    #[trigger] db.messages@[a].signals@[b],
                ) by {
                if a == i && b == before.signals@.len() {
                } else if a == i {
                    assert(db.messages@[a].signals@[b] == before.signals@[b]);
                    assert(old(db).messages@[a].signals@[b] == before.signals@[b]);
                } else {
                    assert(db.messages@[a] == old(db).messages@[a]);
                }
            }
            return;
        }
        i = i + 1;
    }
}

/// Binds each signal's value-table reference: to a table already moved to the database, or
/// by moving the pending table of that name; a reference that names no table is dropped.
fn resolve_tables(db: &mut DbcDatabase, pending: &mut Vec<(String, Vec<(i64, String)>)>)
    requires
        old(db).wf(),
        old(db).value_tables@.len() == 0,
    ensures
        parsed_inv(*final(db)),
        final(db).version == old(db).version,
        same_outline(*final(db), *old(db)),
{
    let mut i: usize = 0;
    while i < db.messages.len()
        invariant
            i <= db.messages@.len(),
            db.messages@.len() == old(db).messages@.len(),
            db.version == old(db).version,
            same_outline(*db, *old(db)),
            db.wf(),
            forall|a: int, b: int|
                0 <= a < i && 0 <= b < db.messages@[a].signals@.len() ==> resolves(db.value_tables@, #[trigger] db.messages@[a].signals@[b]),
        decreases db.messages@.len() - i,
    {
        let mut j: usize = 0;
        while j < db.messages[i].signals.len()
            invariant
                i < db.messages@.len(),
                db.messages@.len() == old(db).messages@.len(),
                db.version == old(db).version,
                same_outline(*db, *old(db)),
                j <= db.messages@[i as int].signals@.len(),
                db.wf(),
                forall|a: int, b: int|
                    0 <= a < i && 0 <= b < db.messages@[a].signals@.len() ==> resolves(db.value_tables@, #[trigger] db.messages@[a].signals@[b]),
                forall|b: int| 0 <= b < j ==> resolves(db.value_tables@, #[trigger] db.messages@[i as int].signals@[b]),
            decreases db.messages@[i as int].signals@.len() - j,
        {
            let ghost d0 = *db;
            let vt = match &db.messages[i].signals[j].value_table {
                None => None,
                Some(n) => Some(copy_string(n)),
            };
            match vt {
                None => {},
                Some(n) => {
                    let mut t: usize = 0;
                    let mut known = false;
                    while t < db.value_tables.len() && !known
                        invariant
                            t <= db.value_tables@.len(),
                            *db == d0,
                            known ==> t < db.value_tables@.len() && db.value_tables@[t as int].name@ == n@,
                        decreases db.value_tables.len() - t + if known { 0int } else { 1int },
                    {
                        if name_eq(&db.value_tables[t].name, &n) {
                            known = true;
                        } else {
                            t = t + 1;
                        }
                    }
                    if !known {
                        let mut k: usize = 0;
                        let mut found: Option<usize> = None;
                        while k < pending.len()
                            invariant
                                k <= pending@.len(),
                                found matches Some(x) ==> x < pending@.len(),
                            decreases pending.len() - k,
                        {
                            if found.is_none() && name_eq(&pending[k].0, &n) {
                                found = Some(k);
                            }
                            k = k + 1;
                        }
                        match found {
                            Some(k) => {
                                let (_, values) = pending.remove(k);
                                db.value_tables.push(ValueTable { name: copy_string(&n), values });
                                t = db.value_tables.len() - 1;
                            },
                            None => {
                                db.messages[i].signals[j].value_table = None;
                            },
                        }
                    }
                    proof {
                        assert forall|a: int, b: int|
                            0 <= a < db.messages@.len() && 0 <= b < db.messages@[a].signals@.len() implies signal_wf(
                                #[trigger] db.messages@[a].signals@[b],
                            ) by {
                            if a != i {
                                assert(db.messages@[a] == d0.messages@[a]);
                            } else if b != j {
                                assert(db.messages@[a].signals@[b] == d0.messages@[a].signals@[b]);
                            } else {
                                let o = d0.messages@[a].signals@[b];
                                let nw = db.messages@[a].signals@[b];
                                assert(o.length == nw.length && o.value_type == nw.value_type && o.factor == nw.factor
                                    && o.offset == nw.offset);
                                assert(signal_wf(o));
                            }
                        }
                        assert forall|a: int, b: int|
                            0 <= a < i && 0 <= b < db.messages@[a].signals@.len() implies resolves(db.value_tables@, #[trigger] db.messages@[a].signals@[b]) by {
                            assert(db.messages@[a] == d0.messages@[a]);
                            let sg = d0.messages@[a].signals@[b];
                            assert(resolves(d0.value_tables@, sg));
                            match sg.value_table {
                                None => {},
                                Some(nn) => {
                                    let w = choose|w: int| 0 <= w < d0.value_tables@.len() && d0.value_tables@[w].name@ == nn@;
                                    assert(db.value_tables@[w] == d0.value_tables@[w]);
                                },
                            }
                        }
                        assert forall|b: int| 0 <= b < j + 1 implies resolves(db.value_tables@, #[trigger] db.messages@[i as int].signals@[b]) by {
                            if b < j {
                                assert(db.messages@[i as int].signals@[b] == d0.messages@[i as int].signals@[b]);
                                let sg = d0.messages@[i as int].signals@[b];
                                assert(resolves(d0.value_tables@, sg));
                                match sg.value_table {
                                    None => {},
                                    Some(nn) => {
                                        let w = choose|w: int| 0 <= w < d0.value_tables@.len() && d0.value_tables@[w].name@ == nn@;
                                        assert(db.value_tables@[w] == d0.value_tables@[w]);
                                    },
                                }
                            } else {
                                if db.messages@[i as int].signals@[b].value_table is Some {
                                    assert(db.value_tables@[t as int].name@ == n@);
                                }
                            }
                        }
                    }
                },
            }
            j = j + 1;
        }
        i = i + 1;
    }
}

/// Text after `p` in `l`, up to the first whitespace, where `l` starts with `p`.
fn first_word_after(l: &Vec<char>, p: usize) -> (r: Vec<char>)
    requires
        p <= l@.len(),
    ensures
        r@ == first_word(l@.subrange(p as int, l@.len() as int)),
{
    let ws = split_words(l, p, l.len());
    if ws.len() > 0 {
        assert(views_of(ws@)[0] == ws@[0]@);
        assert(ws@[0]@.subrange(0, ws@[0]@.len() as int) =~= ws@[0]@);
        sub_chars(&ws[0], 0, ws[0].len())
    } else {
        let r: Vec<char> = Vec::new();
        assert(r@ =~= Seq::<char>::empty());
        r
    }
}

/// The first word of `s`, empty where there is none.
pub open spec fn first_word(s: Seq<char>) -> Seq<char> {
    if words(s).len() > 0 { words(s)[0] } else { Seq::empty() }
}

/// `w` without its trailing `h`s.
pub open spec fn strip_h(w: Seq<char>) -> Seq<char>
    decreases w.len(),
{
    if w.len() > 0 && w.last() == 'h' { strip_h(w.drop_last()) } else { w }
}

/// A line `ID=<hex>h` that gives id `v`.
pub open spec fn id_line_value(l: Seq<char>, v: u32) -> bool {
    crate::dbc_parser::starts(l, "ID="@) && l.len() >= 3 && crate::trace_parse::hex_value(
        strip_h(first_word(l.subrange(3, l.len() as int))),
        u32::MAX as int,
    ) == Some(v as int)
}

/// Some line of `ls` is an id record giving `v`.
pub open spec fn sym_id_recorded(ls: Seq<Seq<char>>, v: u32) -> bool {
    exists|j: int| 0 <= j < ls.len() && id_line_value(#[trigger] ls[j], v)
}

impl SymParser {
    /// A database from symbol-file text. Lines are read by section: enumerations anywhere,
    /// signal definitions in `{SIGNALS}`, messages with their ids, lengths, placed signals
    /// and variables in `{SENDRECEIVE}`; lines that do not parse are skipped. Afterwards
    /// each signal's value-table reference is bound to the table of that name, and a
    /// reference to no table is dropped. Every signal is well formed and every
    /// value-table reference names a table of the database.
    pub fn parse(content: &str) -> (r: Result<DbcDatabase, String>)
        ensures
            r matches Ok(db) && parsed_inv(db) && crate::dbc_parser::opt_view(db.version) == sym_version_after(
                crate::dbc_parser::trimmed_lines(content@),
            ) && forall|x: u32| has_id(db, x) ==> sym_id_recorded(crate::dbc_parser::trimmed_lines(content@), x),
    {
        let cs = chars_of(content);
        let n = cs.len();
        assert(cs@.subrange(0, n as int) =~= cs@);
        let lines = crate::trace_parse::split_fields(&cs, 0, n, '\n');
        let ghost tl = crate::dbc_parser::trimmed_lines(content@);
        assert(views_of(lines@) == crate::trace_parse::split_on(content@, '\n'));
        let mut db = DbcDatabase::new();
        let mut defs: Vec<Signal> = Vec::new();
        let mut pending: Vec<(String, Vec<(i64, String)>)> = Vec::new();
        let mut cur_id: Option<u32> = None;
        let mut cur_name: Option<String> = None;
        let mut cur_dlc: Option<u8> = None;
        let mut cur_ext = false;
        let mut in_signals = false;
        let mut in_sendreceive = false;
        let mut k: usize = 0;
        proof {
            reveal_strlit("//");
            reveal_strlit("{SIGNALS}");
            reveal_strlit("{SENDRECEIVE}");
            reveal_strlit("FormatVersion=");
        }
        while k < lines.len()
            invariant
                k <= lines@.len(),
                tl == crate::dbc_parser::trimmed_lines(content@),
                tl.len() == lines@.len(),
                forall|j: int| 0 <= j < lines@.len() ==> tl[j] == trim(#[trigger] lines@[j]@),
                db.wf(),
                db.value_tables@.len() == 0,
                forall|q: int| 0 <= q < defs@.len() ==> signal_wf(#[trigger] defs@[q]),
                crate::dbc_parser::opt_view(db.version) == sym_version_after(tl.subrange(0, k as int)),
                forall|x: u32| has_id(db, x) ==> sym_id_recorded(tl.subrange(0, k as int), x),
                cur_id matches Some(v) ==> sym_id_recorded(tl.subrange(0, k as int), v),
            decreases lines.len() - k,
        {
            let ghost pre = tl.subrange(0, k as int);
            let ghost next = tl.subrange(0, k + 1);
            assert(next.drop_last() =~= pre);
            let raw = &lines[k];
            let (x, y) = trim_bounds(raw, 0, raw.len());
            assert(raw@.subrange(0, raw@.len() as int) =~= raw@);
            let lc = sub_chars(raw, x, y);
            assert(lc@ == tl[k as int]);
            assert(next.last() == lc@);
            assert forall|v: u32| sym_id_recorded(pre, v) implies sym_id_recorded(next, v) by {
                let j = choose|j: int| 0 <= j < pre.len() && id_line_value(#[trigger] pre[j], v);
                assert(next[j] == pre[j]);
            }
            let ln = lc.len();
            let line = string_of(lc.as_slice());
            let l = line.as_str();
            let ghost ver0 = db.version;
            let ghost db_top = db;
            k = k + 1;
            let is_v = ln > 0 && !starts_with_at(&lc, 0, ln, "//") && !word_is(&lc, "{SIGNALS}") && !word_is(
                &lc,
                "{SENDRECEIVE}",
            ) && starts_with_at(&lc, 0, ln, "FormatVersion=");
            assert(lc@.subrange(0, ln as int) =~= lc@);
            assert(is_v == is_sym_version_line(lc@));
            if !is_v {
                assert(sym_version_after(next) == sym_version_after(pre));
            }
            if ln == 0 || starts_with_at(&lc, 0, ln, "//") {
                continue;
            }
            if word_is(&lc, "{SIGNALS}") {
                in_signals = true;
                in_sendreceive = false;
                continue;
            } else if word_is(&lc, "{SENDRECEIVE}") {
                in_signals = false;
                in_sendreceive = true;
                continue;
            } else if lc[0] == '{' {
                in_signals = false;
                in_sendreceive = false;
            }
            proof {
                reveal_strlit("FormatVersion=");
                reveal_strlit("Type=");
                reveal_strlit("ID=");
                reveal_strlit("DLC=");
                reveal_strlit("Len=");
            }
            if starts_with_at(&lc, 0, ln, "FormatVersion=") {
                let eqr = find_char(&lc, 14, ln, '=');
                let (vx, vy) = trim_bounds(&lc, 14, 14 + eqr);
                assert(lc@.subrange(14, ln as int).subrange(0, eqr as int) =~= lc@.subrange(14, 14 + eqr));
                db.version = Some(string_of(sub_chars(&lc, vx, vy).as_slice()));
                assert(sym_version_after(next) == Some(sym_version_value(lc@)));
            } else if starts_with_at(&lc, 0, ln, "enum ") || starts_with_at(&lc, 0, ln, "Enum=") {
                match SymParser::parse_enum(l) {
                    Some((name, values)) => {
                        let mut k: usize = 0;
                        let mut done = false;
                        while k < pending.len()
                            invariant
                                k <= pending@.len(),
                            decreases pending.len() - k,
                        {
                            if name_eq(&pending[k].0, &name) {
                                done = true;
                                break;
                            }
                            k = k + 1;
                        }
                        if done && k < pending.len() {
                            pending[k] = (name, values);
                        } else {
                            pending.push((name, values));
                        }
                    },
                    None => {},
                }
            } else if in_signals && starts_with_at(&lc, 0, ln, "Sig=") {
                match SymParser::parse_signal(l) {
                    Some(sg) => {
                        let mut k: usize = 0;
                        let mut at: Option<usize> = None;
                        while k < defs.len()
                            invariant
                                k <= defs@.len(),
                                at matches Some(x) ==> x < defs@.len(),
                            decreases defs.len() - k,
                        {
                            if at.is_none() && name_eq(&defs[k].name, &sg.name) {
                                at = Some(k);
                            }
                            k = k + 1;
                        }
                        match at {
                            Some(k) => {
                                defs[k] = sg;
                            },
                            None => {
                                defs.push(sg);
                            },
                        }
                        assert forall|k: int| 0 <= k < defs@.len() implies signal_wf(#[trigger] defs@[k]) by {}
                    },
                    None => {},
                }
            } else if in_sendreceive && lc[0] == '[' && find_char(&lc, 0, ln, ']') < ln {
                let close = find_char(&lc, 0, ln, ']');
                if close >= 1 {
                    cur_name = Some(string_of(sub_chars(&lc, 1, close).as_slice()));
                } else {
                    cur_name = Some(String::new());
                }
                cur_id = None;
                cur_dlc = None;
                cur_ext = false;
            } else if in_sendreceive && cur_name.is_some() && starts_with_at(&lc, 0, ln, "Type=") {
                let w = first_word_after(&lc, 5);
                cur_ext = ascii_eq_ignore_case(&w, "Extended");
            } else if in_sendreceive && cur_name.is_some() && (starts_with_at(&lc, 0, ln, "ID=")) {
                let w = first_word_after(&lc, 3);
                let mut e = w.len();
                assert(w@.subrange(0, w@.len() as int) =~= w@);
                while e > 0 && w[e - 1] == 'h'
                    invariant
                        e <= w@.len(),
                        strip_h(w@) == strip_h(w@.subrange(0, e as int)),
                    decreases e,
                {
                    assert(w@.subrange(0, e as int).drop_last() =~= w@.subrange(0, e - 1));
                    e = e - 1;
                }
                let hv = sub_chars(&w, 0, e);
                match crate::trace_parse::hex_word(&hv, u32::MAX as u64) {
                    Some(v) => {
                        assert(id_line_value(lc@, v as u32));
                        assert(next[next.len() - 1] == lc@);
                        assert(sym_id_recorded(next, v as u32));
                        cur_id = Some(v as u32);
                        let ghost d0 = db;
                        try_create_message(&mut db, &mut cur_name, &mut cur_id, &mut cur_dlc, &mut cur_ext);
                        assert forall|x: u32| has_id(db, x) implies sym_id_recorded(next, x) by {
                            if has_id(d0, x) {
                                assert(sym_id_recorded(pre, x));
                            }
                        }
                    },
                    None => {},
                }
            } else if in_sendreceive && cur_name.is_some() && (starts_with_at(&lc, 0, ln, "DLC=") || starts_with_at(
                &lc,
                0,
                ln,
                "Len=",
            )) {
                let w = first_word_after(&lc, 4);
                match dec_word(&w, 255) {
                    Some(v) => {
                        cur_dlc = Some(v as u8);
                        let ghost d0 = db;
                        let ghost c0 = cur_id;
                        try_create_message(&mut db, &mut cur_name, &mut cur_id, &mut cur_dlc, &mut cur_ext);
                        assert forall|x: u32| has_id(db, x) implies sym_id_recorded(next, x) by {
                            if has_id(d0, x) {
                                assert(sym_id_recorded(pre, x));
                            } else {
                                assert(c0 matches Some(w) && x == w);
                                assert(sym_id_recorded(pre, x));
                            }
                        }
                    },
                    None => {},
                }
            } else if in_sendreceive && cur_id.is_some() && starts_with_at(&lc, 0, ln, "Sig=") {
                match SymParser::parse_signal_assignment(l) {
                    Some((sname, bit)) => {
                        let mut d: usize = 0;
                        assert forall|x: u32| has_id(db, x) implies sym_id_recorded(next, x) by {
                            assert(sym_id_recorded(pre, x));
                        }
                        while d < defs.len()
                            invariant
                                d <= defs@.len(),
                                db.wf(),
                                db.version == ver0,
                                forall|x: u32| has_id(db, x) ==> sym_id_recorded(next, x),
                                db.value_tables@.len() == 0,
                                forall|q: int| 0 <= q < defs@.len() ==> signal_wf(#[trigger] defs@[q]),
                            decreases defs.len() - d,
                        {
                            if name_eq(&defs[d].name, &sname) {
                                let sg = placed_copy(&defs[d], bit);
                                assert(signal_wf(defs@[d as int]));
                                match cur_id {
                                    Some(id) => {
                                        let ghost d0 = db;
                                        sym_add_signal(&mut db, id, sg);
                                        proof {
                                            crate::dbc_parser::lemma_outline_ids(db, d0);
                                        }
                                    },
                                    None => {},
                                }
                                break;
                            }
                            d = d + 1;
                        }
                    },
                    None => {},
                }
            } else if in_sendreceive && cur_id.is_some() && starts_with_at(&lc, 0, ln, "Var=") {
                match (SymParser::parse_variable(l), cur_id) {
                    (Some(sg), Some(id)) => {
                        let ghost d0 = db;
                        sym_add_signal(&mut db, id, sg);
                        proof {
                            crate::dbc_parser::lemma_outline_ids(db, d0);
                        }
                    },
                    _ => {},
                }
            }
            proof {
                if db.messages == db_top.messages {
                    assert forall|x: u32| has_id(db, x) implies sym_id_recorded(next, x) by {
                        let q = choose|q: int| 0 <= q < db.messages@.len() && (#[trigger] db.messages@[q]).id == x;
                        assert(db_top.messages@[q].id == x);
                        assert(has_id(db_top, x));
                        assert(sym_id_recorded(pre, x));
                    }
                }
            }
        }
        assert(tl.subrange(0, lines@.len() as int) =~= tl);
        let ghost d0 = db;
        resolve_tables(&mut db, &mut pending);
        proof {
            crate::dbc_parser::lemma_outline_ids(db, d0);
        }
        Ok(db)
    }
}

/// A line that the symbol parser reads as a version record.
pub open spec fn is_sym_version_line(l: Seq<char>) -> bool {
    !crate::dbc_parser::skipped(l) && l != "{SIGNALS}"@ && l != "{SENDRECEIVE}"@ && crate::dbc_parser::starts(
        l,
        "FormatVersion="@,
    )
}

/// The version of a version record: the text after `FormatVersion=` up to the next `=`,
/// trimmed.
pub open spec fn sym_version_value(l: Seq<char>) -> Seq<char> {
    let rest = l.subrange(14, l.len() as int);
    trim(rest.subrange(0, first_of(rest, '=')))
}

/// The version of the last version record.
pub open spec fn sym_version_after(ls: Seq<Seq<char>>) -> Option<Seq<char>>
    decreases ls.len(),
{
    if ls.len() == 0 {
        None
    } else if is_sym_version_line(ls.last()) {
        Some(sym_version_value(ls.last()))
    } else {
        sym_version_after(ls.drop_last())
    }
}

fn ascii_eq_ignore_case(w: &Vec<char>, p: &str) -> bool {
    let pc = chars_of(p);
    if w.len() != pc.len() {
        return false;
    }
    let mut i: usize = 0;
    while i < w.len()
        invariant
            w.len() == pc.len(),
            i <= w.len(),
        decreases w.len() - i,
    {
        let a = w[i];
        let b = pc[i];
        let la = if 'A' <= a && a <= 'Z' { (((a as u32) + 32) as u8) as char } else { a };
        let lb = if 'A' <= b && b <= 'Z' { (((b as u32) + 32) as u8) as char } else { b };
        if la != lb {
            return false;
        }
        i = i + 1;
    }
    true
}

/// Inserts the message under construction once its name, id and dlc are all known.
fn try_create_message(
    db: &mut DbcDatabase,
    name: &mut Option<String>,
    id: &mut Option<u32>,
    dlc: &mut Option<u8>,
    extended: &mut bool,
)
    requires
        old(db).wf(),
        old(db).value_tables@.len() == 0,
    ensures
        final(db).version == old(db).version,
        final(db).wf(),
        final(db).value_tables@.len() == 0,
        *final(id) == *old(id),
        forall|x: u32| has_id(*final(db), x) ==> has_id(*old(db), x) || (*old(id) matches Some(v) && x == v),
{
    match (&*name, *id, *dlc) {
        (Some(_), Some(mid), Some(mdlc)) => {
            let mut taken: Option<String> = None;
            std::mem::swap(&mut taken, name);
            let message_name = match taken {
                Some(s) => s,
                None => String::new(),
            };
            *dlc = None;
            let m = Message { id: mid, name: message_name, dlc: mdlc, sender: None, signals: Vec::new(), comment: None };
            sym_put_message(db, m);
            *id = Some(mid);
            *extended = false;
        },
        _ => {},
    }
}

} // verus!
