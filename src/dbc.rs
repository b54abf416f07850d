use vstd::prelude::*;
use crate::decimal::{Decimal, WideDecimal, MAX_SCALE, scale_value, scaled_mantissa, factor_part, fits_i128};
use crate::text::{chars_of, copy_string, seq_eq};

verus! {

/// Bit order of a signal in the payload.
#[derive(Debug, Clone, Copy, PartialEq, Eq, Structural)]
pub enum ByteOrder {
    LittleEndian,
    BigEndian,
}

/// How the raw bits of a signal are read.
#[derive(Debug, Clone, Copy, PartialEq, Eq, Structural)]
pub enum ValueType {
    Unsigned,
    Signed,
    Float,
    Double,
}

/// Labels for raw values of a signal.
#[derive(Debug, Clone)]
pub struct ValueTable {
    pub name: String,
    pub values: Vec<(i64, String)>,
}

/// A signal: a bit range of a message payload with its scaling.
#[derive(Debug, Clone)]
pub struct Signal {
    pub name: String,
    pub start_bit: u8,
    pub length: u8,
    pub byte_order: ByteOrder,
    pub value_type: ValueType,
    pub factor: Decimal,
    pub offset: Decimal,
    pub minimum: Option<Decimal>,
    pub maximum: Option<Decimal>,
    pub unit: String,
    pub receivers: Vec<String>,
    pub comment: Option<String>,
    pub value_table: Option<String>,
}

/// A message: an id, a name, a declared length and its signals.
#[derive(Debug, Clone)]
pub struct Message {
    pub id: u32,
    pub name: String,
    pub dlc: u8,
    pub sender: Option<String>,
    pub signals: Vec<Signal>,
    pub comment: Option<String>,
}

/// A symbolic database. Message ids are unique, and so are value-table names.
#[derive(Debug, Clone)]
pub struct DbcDatabase {
    pub version: Option<String>,
    pub messages: Vec<Message>,
    pub nodes: Vec<String>,
    pub value_tables: Vec<ValueTable>,
}

/// One decoded signal.
#[derive(Debug, Clone)]
pub struct DecodedSignal {
    pub name: String,
    pub raw_value: i64,
    pub physical_value: Option<WideDecimal>,
    pub unit: String,
    pub value_name: Option<String>,
}

/// What a decoded signal stands for.
pub struct DecodedView {
    pub name: Seq<char>,
    pub raw_value: i64,
    pub physical_value: Option<WideDecimal>,
    pub unit: Seq<char>,
    pub value_name: Option<Seq<char>>,
}

impl View for DecodedSignal {
    type V = DecodedView;

    open spec fn view(&self) -> DecodedView {
        DecodedView {
            name: self.name@,
            raw_value: self.raw_value,
            physical_value: self.physical_value,
            unit: self.unit@,
            value_name: match self.value_name {
                Some(s) => Some(s@),
                None => None,
            },
        }
    }
}

pub open spec fn pow2(n: nat) -> int
    decreases n,
{
    if n == 0 { 1 } else { 2 * pow2((n - 1) as nat) }
}

pub proof fn lemma_pow2_pos(n: nat)
    ensures
        pow2(n) >= 1,
    decreases n,
{
    if n > 0 {
        lemma_pow2_pos((n - 1) as nat);
    }
}

/// Bit `g` of a payload: bit `g % 8` of byte `g / 8`, bit 0 being the least significant.
pub open spec fn bit_at(data: Seq<u8>, g: int) -> u8 {
    (data[g / 8] >> ((g % 8) as u8)) & 1u8
}

/// The payload bit that big-endian extraction visits `k`-th: down within a byte, then from
/// the top of the next byte.
pub open spec fn be_position(start: int, k: nat) -> int
    decreases k,
{
    if k == 0 {
        start
    } else {
        let p = be_position(start, (k - 1) as nat);
        if p % 8 == 0 { p + 15 } else { p - 1 }
    }
}

/// The payload bit that extraction visits `k`-th.
pub open spec fn position(order: ByteOrder, start: int, k: nat) -> int {
    match order {
        ByteOrder::LittleEndian => start + k,
        ByteOrder::BigEndian => be_position(start, k),
    }
}

/// Every bit the signal needs lies in the payload.
pub open spec fn in_payload(s: Signal, data: Seq<u8>) -> bool {
    forall|k: nat| k < s.length ==> #[trigger] position(s.byte_order, s.start_bit as int, k) / 8 < data.len()
}

/// The value of the first `k` bits visited: little-endian puts the first bit lowest,
/// big-endian highest.
pub open spec fn raw_bits(s: Signal, data: Seq<u8>, k: nat) -> int
    decreases k,
{
    if k == 0 {
        0
    } else {
        let b = bit_at(data, position(s.byte_order, s.start_bit as int, (k - 1) as nat)) as int;
        match s.byte_order {
            ByteOrder::LittleEndian => raw_bits(s, data, (k - 1) as nat) + b * pow2((k - 1) as nat),
            ByteOrder::BigEndian => raw_bits(s, data, (k - 1) as nat) * 2 + b,
        }
    }
}

/// The raw integer of a signal whose bits `v` were read: sign-extended when signed, taken
/// as a two's-complement 64-bit value otherwise.
pub open spec fn raw_integer(s: Signal, v: int) -> int {
    match s.value_type {
        ValueType::Signed => if v >= pow2((s.length - 1) as nat) { v - pow2(s.length as nat) } else { v },
        _ => if v >= pow2(63) { v - pow2(64) } else { v },
    }
}

/// A well-formed signal: a length between 1 and 64, 32 bits for a float and 64 for a
/// double, and scales that decimals keep.
pub open spec fn signal_wf(s: Signal) -> bool {
    &&& 1 <= s.length <= 64
    &&& s.value_type == ValueType::Float ==> s.length == 32
    &&& s.value_type == ValueType::Double ==> s.length == 64
    &&& s.factor.scale <= MAX_SCALE
    &&& s.offset.scale <= MAX_SCALE
}

/// The IEEE-754 number with `mbits` fraction bits, `ebits` exponent bits and exponent
/// bias `bias` whose bit pattern is `bits`, truncated toward zero and held within `i64`:
/// NaN gives zero, an infinity the bound of its sign.
pub open spec fn ieee_trunc(bits: int, mbits: nat, ebits: nat, bias: int) -> int {
    let m = bits % pow2(mbits);
    let e = (bits / pow2(mbits)) % pow2(ebits);
    let neg = (bits / pow2(mbits + ebits)) % 2 == 1;
    if e == pow2(ebits) - 1 {
        if m != 0 { 0 } else if neg { i64::MIN as int } else { i64::MAX as int }
    } else {
        let full = if e == 0 { m } else { m + pow2(mbits) };
        let sh = (if e == 0 { 1 } else { e }) - bias - mbits;
        let mag = if sh >= 0 { full * pow2(sh as nat) } else { full / pow2((-sh) as nat) };
        let v = if neg { -mag } else { mag };
        if v > i64::MAX { i64::MAX as int } else if v < i64::MIN { i64::MIN as int } else { v }
    }
}

/// The raw value of a signal in a payload, where its bits lie in the payload: a float or
/// double is read as an IEEE-754 number and truncated.
pub open spec fn raw_value(s: Signal, data: Seq<u8>) -> Option<int> {
    if in_payload(s, data) {
        let v = raw_bits(s, data, s.length as nat);
        Some(
            match s.value_type {
                ValueType::Float => ieee_trunc(v, 23, 8, 127),
                ValueType::Double => ieee_trunc(v, 52, 11, 1023),
                _ => raw_integer(s, v),
            },
        )
    } else {
        None
    }
}

/// The label of `k` in a table's entries: the last entry with that key, as later entries
/// replace earlier ones.
pub open spec fn label_of(values: Seq<(i64, String)>, k: i64) -> Option<Seq<char>>
    decreases values.len(),
{
    if values.len() == 0 {
        None
    } else if values.last().0 == k {
        Some(values.last().1@)
    } else {
        label_of(values.drop_last(), k)
    }
}

/// The first table named `name`.
pub open spec fn table_named(tables: Seq<ValueTable>, name: Seq<char>) -> Option<ValueTable>
    decreases tables.len(),
{
    if tables.len() == 0 {
        None
    } else if tables[0].name@ == name {
        Some(tables[0])
    } else {
        table_named(tables.drop_first(), name)
    }
}

/// The label that the signal's table gives to `raw`, if any.
pub open spec fn signal_label(db: DbcDatabase, s: Signal, raw: i64) -> Option<Seq<char>> {
    match s.value_table {
        None => None,
        Some(n) => match table_named(db.value_tables@, n@) {
            None => None,
            Some(t) => label_of(t.values@, raw),
        },
    }
}

/// The decoding of one signal, where its bits lie in the payload.
pub open spec fn decode_one(db: DbcDatabase, s: Signal, data: Seq<u8>) -> Option<DecodedView> {
    match raw_value(s, data) {
        None => None,
        Some(r) => Some(
            DecodedView {
                name: s.name@,
                raw_value: r as i64,
                physical_value: if fits_i128(factor_part(r, s.factor, s.offset)) && fits_i128(
                    scaled_mantissa(r, s.factor, s.offset),
                ) {
                    Some(
                        WideDecimal {
                            mantissa: scaled_mantissa(r, s.factor, s.offset) as i128,
                            scale: if s.factor.scale >= s.offset.scale { s.factor.scale } else { s.offset.scale },
                        },
                    )
                } else {
                    None
                },
                unit: s.unit@,
                value_name: signal_label(db, s, r as i64),
            },
        ),
    }
}

/// The decodings of the signals, in order, leaving out those whose bits do not lie in the
/// payload.
pub open spec fn decode_all(db: DbcDatabase, sigs: Seq<Signal>, data: Seq<u8>) -> Seq<DecodedView>
    decreases sigs.len(),
{
    if sigs.len() == 0 {
        Seq::empty()
    } else {
        let rest = decode_all(db, sigs.drop_last(), data);
        match decode_one(db, sigs.last(), data) {
            Some(d) => rest.push(d),
            None => rest,
        }
    }
}

/// The index of the first message with `id`.
pub open spec fn message_index(msgs: Seq<Message>, id: u32) -> Option<int>
    decreases msgs.len(),
{
    if msgs.len() == 0 {
        None
    } else if msgs[0].id == id {
        Some(0)
    } else {
        match message_index(msgs.drop_first(), id) {
            Some(i) => Some(i + 1),
            None => None,
        }
    }
}

pub proof fn lemma_message_index(msgs: Seq<Message>, id: u32)
    ensures
        message_index(msgs, id) matches Some(i) ==> 0 <= i < msgs.len() && msgs[i].id == id && forall|
            j: int,
        | 0 <= j < i ==> msgs[j].id != id,
        message_index(msgs, id) is None ==> forall|j: int| 0 <= j < msgs.len() ==> msgs[j].id != id,
    decreases msgs.len(),
{
    if msgs.len() > 0 {
        lemma_message_index(msgs.drop_first(), id);
        assert forall|j: int| 1 <= j < msgs.len() implies msgs[j] == msgs.drop_first()[j - 1] by {}
    }
}

impl DbcDatabase {
    /// Every signal of every message is well formed.
    pub open spec fn wf(self) -> bool {
        forall|i: int, j: int|
            0 <= i < self.messages@.len() && 0 <= j < self.messages@[i].signals@.len() ==> signal_wf(
                #[trigger] self.messages@[i].signals@[j],
            )
    }

    /// Whether every signal is well formed.
    pub fn is_well_formed(&self) -> (r: bool)
        ensures
            r == self.wf(),
    {
        let mut i: usize = 0;
        while i < self.messages.len()
            invariant
                i <= self.messages@.len(),
                forall|a: int, b: int|
                    0 <= a < i && 0 <= b < self.messages@[a].signals@.len() ==> signal_wf(
                        #[trigger] self.messages@[a].signals@[b],
                    ),
            decreases self.messages.len() - i,
        {
            let m = &self.messages[i];
            let mut j: usize = 0;
            while j < m.signals.len()
                invariant
                    i < self.messages@.len(),
                    *m == self.messages@[i as int],
                    j <= m.signals@.len(),
                    forall|a: int, b: int|
                        0 <= a < i && 0 <= b < self.messages@[a].signals@.len() ==> signal_wf(
                            #[trigger] self.messages@[a].signals@[b],
                        ),
                    forall|b: int| 0 <= b < j ==> signal_wf(#[trigger] self.messages@[i as int].signals@[b]),
                decreases m.signals.len() - j,
            {
                let s = &m.signals[j];
                if !(1 <= s.length && s.length <= 64 && (s.value_type != ValueType::Float || s.length == 32) && (
                s.value_type != ValueType::Double || s.length == 64) && s.factor.scale <= MAX_SCALE
                    && s.offset.scale <= MAX_SCALE) {
                    return false;
                }
                j = j + 1;
            }
            i = i + 1;
        }
        true
    }

    /// An empty database.
    pub fn new() -> (r: DbcDatabase)
        ensures
            r.version is None,
            r.messages@.len() == 0,
            r.nodes@.len() == 0,
            r.value_tables@.len() == 0,
    {
        DbcDatabase { version: None, messages: Vec::new(), nodes: Vec::new(), value_tables: Vec::new() }
    }

    /// The message with `id`, if any.
    pub fn get_message(&self, id: u32) -> (r: Option<&Message>)
        ensures
            match message_index(self.messages@, id) {
                None => r is None,
                Some(i) => r == Some(&self.messages@[i]),
            },
    {
        let mut i: usize = 0;
        proof {
            lemma_message_index(self.messages@, id);
        }
        while i < self.messages.len()
            invariant
                i <= self.messages@.len(),
                forall|j: int| 0 <= j < i ==> self.messages@[j].id != id,
                message_index(self.messages@, id) matches Some(k) ==> 0 <= k < self.messages@.len()
                    && self.messages@[k].id == id && forall|j: int| 0 <= j < k ==> self.messages@[j].id != id,
                message_index(self.messages@, id) is None ==> forall|j: int|
                    0 <= j < self.messages@.len() ==> self.messages@[j].id != id,
            decreases self.messages.len() - i,
        {
            if self.messages[i].id == id {
                return Some(&self.messages[i]);
            }
            i = i + 1;
        }
        None
    }

    /// The table named `name`, if any.
    fn find_table(&self, name: &String) -> (r: Option<usize>)
        ensures
            match table_named(self.value_tables@, name@) {
                None => r is None,
                Some(t) => r matches Some(i) && i < self.value_tables@.len() && self.value_tables@[i as int] == t,
            },
    {
        let target = chars_of(name.as_str());
        let mut i: usize = 0;
        assert(self.value_tables@.subrange(0, self.value_tables@.len() as int) =~= self.value_tables@);
        while i < self.value_tables.len()
            invariant
                i <= self.value_tables@.len(),
                table_named(self.value_tables@, name@) == table_named(self.value_tables@.subrange(i as int, self.value_tables@.len() as int), name@),
                target@ == name@,
            decreases self.value_tables.len() - i,
        {
            let ghost rest = self.value_tables@.subrange(i as int, self.value_tables@.len() as int);
            assert(rest.drop_first() =~= self.value_tables@.subrange(i + 1, self.value_tables@.len() as int));
            assert(rest[0] == self.value_tables@[i as int]);
            let cand = chars_of(self.value_tables[i].name.as_str());
            if seq_eq(&cand, &target) {
                return Some(i);
            }
            i = i + 1;
        }
        None
    }

    /// The label of `raw` in the table the signal refers to, if any.
    fn label_for(&self, s: &Signal, raw: i64) -> (r: Option<String>)
        ensures
            match r {
                None => signal_label(*self, *s, raw) is None,
                Some(l) => signal_label(*self, *s, raw) == Some(l@),
            },
    {
        match &s.value_table {
            None => None,
            Some(n) => match self.find_table(n) {
                None => None,
                Some(ti) => {
                    let t = &self.value_tables[ti];
                    let mut n: usize = t.values.len();
                    assert(t.values@.subrange(0, t.values@.len() as int) =~= t.values@);
                    assert(signal_label(*self, *s, raw) == label_of(t.values@, raw));
                    while n > 0
                        invariant
                            n <= t.values@.len(),
                            signal_label(*self, *s, raw) == label_of(t.values@, raw),
                            label_of(t.values@, raw) == label_of(t.values@.subrange(0, n as int), raw),
                        decreases n,
                    {
                        let ghost pre = t.values@.subrange(0, n as int);
                        assert(pre.drop_last() =~= t.values@.subrange(0, n - 1));
                        assert(pre.last() == t.values@[n - 1]);
                        if t.values[n - 1].0 == raw {
                            let l = copy_string(&t.values[n - 1].1);
                            return Some(l);
                        }
                        n = n - 1;
                    }
                    None
                },
            },
        }
    }

    fn decode_with(&self, s: &Signal, data: &[u8]) -> (r: Option<DecodedSignal>)
        requires
            signal_wf(*s),
        ensures
            match r {
                None => decode_one(*self, *s, data@) is None,
                Some(d) => decode_one(*self, *s, data@) == Some(d@),
            },
    {
        let raw = match s.extract_raw_value(data) {
            None => return None,
            Some(v) => v,
        };
        let physical_value = scale_value(raw, s.factor, s.offset);
        let value_name = self.label_for(s, raw);
        let d = DecodedSignal {
            name: copy_string(&s.name),
            raw_value: raw,
            physical_value,
            unit: copy_string(&s.unit),
            value_name,
        };
        Some(d)
    }

    /// The decoding of the signal named `signal_name` of message `message_id`, where both
    /// exist and the signal's bits lie in `data`.
    pub fn decode_signal(&self, message_id: u32, signal_name: &str, data: &[u8]) -> (r: Option<DecodedSignal>)
        requires
            self.wf(),
        ensures
            match message_index(self.messages@, message_id) {
                None => r is None,
                Some(i) => match signal_index(self.messages@[i].signals@, signal_name@) {
                    None => r is None,
                    Some(j) => match r {
                        None => decode_one(*self, self.messages@[i].signals@[j], data@) is None,
                        Some(d) => decode_one(*self, self.messages@[i].signals@[j], data@) == Some(d@),
                    },
                },
            },
    {
        proof {
            lemma_message_index(self.messages@, message_id);
        }
        let m = match self.get_message(message_id) {
            None => return None,
            Some(m) => m,
        };
        let ghost mi = message_index(self.messages@, message_id)->0;
        assert(message_index(self.messages@, message_id) == Some(mi));
        let target = chars_of(signal_name);
        let mut j: usize = 0;
        assert(m.signals@.subrange(0, m.signals@.len() as int) =~= m.signals@);
        while j < m.signals.len()
            invariant
                0 <= mi < self.messages@.len(),
                *m == self.messages@[mi],
                message_index(self.messages@, message_id) == Some(mi),
                self.wf(),
                j <= m.signals@.len(),
                target@ == signal_name@,
                signal_index(m.signals@, signal_name@) == match signal_index(m.signals@.subrange(j as int, m.signals@.len() as int), signal_name@) {
                    Some(k) => Some(k + j),
                    None => None,
                },
            decreases m.signals.len() - j,
        {
            let ghost rest = m.signals@.subrange(j as int, m.signals@.len() as int);
            assert(rest.drop_first() =~= m.signals@.subrange(j + 1, m.signals@.len() as int));
            assert(rest[0] == m.signals@[j as int]);
            let cand = chars_of(m.signals[j].name.as_str());
            if seq_eq(&cand, &target) {
                assert(signal_index(rest, signal_name@) == Some(0int));
                assert(signal_index(self.messages@[mi].signals@, signal_name@) == Some(j as int));
                assert(signal_wf(self.messages@[mi].signals@[j as int]));
                let r = self.decode_with(&m.signals[j], data);
                assert(message_index(self.messages@, message_id) == Some(mi));
                return r;
            }
            j = j + 1;
        }
        None
    }

    /// The decodings of the signals of message `message_id`, in order, leaving out those
    /// whose bits do not lie in `data`; empty where there is no such message.
    pub fn decode_message(&self, message_id: u32, data: &[u8]) -> (r: Vec<DecodedSignal>)
        requires
            self.wf(),
        ensures
            r@.map_values(|d: DecodedSignal| d@) == match message_index(self.messages@, message_id) {
                None => Seq::empty(),
                Some(i) => decode_all(*self, self.messages@[i].signals@, data@),
            },
    {
        proof {
            lemma_message_index(self.messages@, message_id);
        }
        let mut out: Vec<DecodedSignal> = Vec::new();
        let m = match self.get_message(message_id) {
            None => {
                assert(out@.map_values(|d: DecodedSignal| d@) =~= Seq::<DecodedView>::empty());
                return out;
            },
            Some(m) => m,
        };
        let ghost mi = message_index(self.messages@, message_id)->0;
        let mut j: usize = 0;
        while j < m.signals.len()
            invariant
                0 <= mi < self.messages@.len(),
                *m == self.messages@[mi],
                self.wf(),
                j <= m.signals@.len(),
                out@.map_values(|d: DecodedSignal| d@) == decode_all(*self, m.signals@.subrange(0, j as int), data@),
            decreases m.signals.len() - j,
        {
            assert(signal_wf(self.messages@[mi].signals@[j as int]));
            let ghost sub = m.signals@.subrange(0, j + 1);
            assert(sub.drop_last() =~= m.signals@.subrange(0, j as int));
            assert(sub.last() == m.signals@[j as int]);
            match self.decode_with(&m.signals[j], data) {
                Some(d) => {
                    out.push(d);
                    assert(out@.map_values(|d: DecodedSignal| d@) =~= decode_all(*self, sub, data@));
                },
                None => {},
            }
            j = j + 1;
        }
        assert(m.signals@.subrange(0, m.signals@.len() as int) =~= m.signals@);
        out
    }
}

/// The index of the first signal named `name`.
pub open spec fn signal_index(sigs: Seq<Signal>, name: Seq<char>) -> Option<int>
    decreases sigs.len(),
{
    if sigs.len() == 0 {
        None
    } else if sigs[0].name@ == name {
        Some(0)
    } else {
        match signal_index(sigs.drop_first(), name) {
            Some(i) => Some(i + 1),
            None => None,
        }
    }
}

impl Signal {
    /// The raw value of the signal in `data`, where its bits lie there.
    pub fn extract_raw_value(&self, data: &[u8]) -> (r: Option<i64>)
        requires
            signal_wf(*self),
        ensures
            match raw_value(*self, data@) {
                None => r is None,
                Some(v) => r matches Some(x) && x as int == v,
            },
    {
        let bits = match self.extract_unsigned(data) {
            None => return None,
            Some(b) => b,
        };
        let ghost v = raw_bits(*self, data@, self.length as nat);
        match self.value_type {
            ValueType::Signed => self.extract_signed(bits),
            ValueType::Float => Some(ieee_to_int(bits, 23, 8, 127)),
            ValueType::Double => Some(ieee_to_int(bits, 52, 11, 1023)),
            _ => {
                proof {
                    lemma_pow2_64();
                }
                if bits >= 0x8000_0000_0000_0000u64 {
                    Some(((bits as i128) - 0x1_0000_0000_0000_0000i128) as i64)
                } else {
                    Some(bits as i64)
                }
            },
        }
    }

    /// The bits of the signal read as an unsigned number, where they lie in `data`.
    pub fn extract_unsigned(&self, data: &[u8]) -> (r: Option<u64>)
        requires
            1 <= self.length <= 64,
        ensures
            r is Some <==> in_payload(*self, data@),
            r matches Some(v) ==> v as int == raw_bits(*self, data@, self.length as nat) && (v as int)
                < pow2(self.length as nat),
    {
        let mut value: u128 = 0;
        let mut w: u128 = 1;
        let mut p: usize = self.start_bit as usize;
        let mut k: u8 = 0;
        proof {
            lemma_pow2_64();
        }
        while k < self.length
            invariant
                k <= self.length <= 64,
                value as int == raw_bits(*self, data@, k as nat),
                0 <= value < pow2(k as nat),
                w as int == pow2(k as nat),
                p as int == position(self.byte_order, self.start_bit as int, k as nat),
                p <= 255 + 15 * (k as int),
                pow2(64) == 0x1_0000_0000_0000_0000,
                forall|j: nat| j < k ==> #[trigger] position(self.byte_order, self.start_bit as int, j) / 8 < data@.len(),
            decreases self.length - k,
        {
            if p / 8 >= data.len() {
                assert(position(self.byte_order, self.start_bit as int, k as nat) / 8 >= data@.len());
                return None;
            }
            let byte: u8 = data[p / 8];
            let sh: u8 = (p % 8) as u8;
            let bit: u8 = (byte >> sh) & 1u8;
            assert(bit == bit_at(data@, p as int));
            assert(bit <= 1) by (bit_vector)
                requires
                    bit == (byte >> sh) & 1u8;
            proof {
                lemma_pow2_mono(k as nat, 63);
                assert((bit as int) * (w as int) <= w as int) by (nonlinear_arith)
                    requires
                        bit <= 1,
                        w >= 0;
                assert(pow2((k + 1) as nat) == 2 * pow2(k as nat));
            }
            match self.byte_order {
                ByteOrder::LittleEndian => {
                    value = value + (bit as u128) * w;
                    w = w * 2;
                    p = p + 1;
                },
                ByteOrder::BigEndian => {
                    value = value * 2 + (bit as u128);
                    w = w * 2;
                    p = if p % 8 == 0 { p + 15 } else { p - 1 };
                },
            }
            k = k + 1;
        }
        proof {
            lemma_pow2_mono(self.length as nat, 64);
        }
        Some(value as u64)
    }

    /// The sign extension of the signal's `bits`.
    fn extract_signed(&self, bits: u64) -> (r: Option<i64>)
        requires
            1 <= self.length <= 64,
            bits < pow2(self.length as nat),
        ensures
            r matches Some(x) && x as int == (if bits >= pow2((self.length - 1) as nat) { bits - pow2(self.length as nat) } else { bits as int }),
    {
        proof {
            lemma_pow2_64();
            lemma_pow2_mono((self.length - 1) as nat, 63);
            lemma_pow2_mono(self.length as nat, 64);
            assert(pow2(self.length as nat) == 2 * pow2((self.length - 1) as nat));
        }
        let half: u128 = pow2_exec(self.length - 1);
        if (bits as u128) >= half {
            let full: i128 = (half as i128) * 2;
            Some(((bits as i128) - full) as i64)
        } else {
            Some(bits as i64)
        }
    }
}

/// A signal whose bits do not all lie in the payload is left out of the decoding, and the
/// others decode as they would without it.
pub proof fn lemma_out_of_payload_omitted(db: DbcDatabase, sigs: Seq<Signal>, data: Seq<u8>, i: int)
    requires
        0 <= i < sigs.len(),
        !in_payload(sigs[i], data),
    ensures
        decode_all(db, sigs, data) == decode_all(db, sigs.remove(i), data),
    decreases sigs.len(),
{
    if i == sigs.len() - 1 {
        assert(sigs.remove(i) =~= sigs.drop_last());
    } else {
        lemma_out_of_payload_omitted(db, sigs.drop_last(), data, i);
        assert(sigs.remove(i).drop_last() =~= sigs.drop_last().remove(i));
        assert(sigs.remove(i).last() == sigs.last());
    }
}

proof fn lemma_pow2_64()
    ensures
        pow2(63) == 0x8000_0000_0000_0000,
        pow2(64) == 0x1_0000_0000_0000_0000,
{
    reveal_with_fuel(pow2, 65);
}

proof fn lemma_pow2_mono(a: nat, b: nat)
    requires
        a <= b,
    ensures
        pow2(a) <= pow2(b),
    decreases b,
{
    if a < b {
        lemma_pow2_mono(a, (b - 1) as nat);
        lemma_pow2_pos((b - 1) as nat);
    }
}

proof fn lemma_pow2_add(a: nat, b: nat)
    ensures
        pow2(a + b) == pow2(a) * pow2(b),
    decreases b,
{
    if b > 0 {
        lemma_pow2_add(a, (b - 1) as nat);
        assert(pow2(a + b) == 2 * pow2((a + b - 1) as nat));
        assert(pow2(a) * pow2(b) == pow2(a) * (2 * pow2((b - 1) as nat)));
        assert(pow2(a) * (2 * pow2((b - 1) as nat)) == 2 * (pow2(a) * pow2((b - 1) as nat))) by (nonlinear_arith);
    }
}

/// `ieee_trunc(bits, mbits, ebits, bias)` for the two IEEE-754 binary formats.
fn ieee_to_int(bits: u64, mbits: u8, ebits: u8, bias: i64) -> (r: i64)
    requires
        (mbits == 23 && ebits == 8 && bias == 127 && bits < pow2(32)) || (mbits == 52 && ebits == 11 && bias
            == 1023),
    ensures
        r as int == ieee_trunc(bits as int, mbits as nat, ebits as nat, bias as int),
{
    proof {
        lemma_pow2_64();
        lemma_pow2_mono(mbits as nat, 52);
        lemma_pow2_mono(ebits as nat, 11);
        lemma_pow2_mono((mbits + ebits) as nat, 63);
        lemma_pow2_pos(mbits as nat);
        lemma_pow2_pos(ebits as nat);
        lemma_pow2_pos((mbits + ebits) as nat);
        reveal_with_fuel(pow2, 12);
        lemma_pow2_mono(52, 63);
    }
    let pm = pow2_exec(mbits);
    let pe = pow2_exec(ebits);
    let ps = pow2_exec(mbits + ebits);
    let b = bits as u128;
    let m = b % pm;
    let e = (b / pm) % pe;
    let neg = (b / ps) % 2 == 1;
    if e == pe - 1 {
        return if m != 0 { 0 } else if neg { i64::MIN } else { i64::MAX };
    }
    let full: u128 = if e == 0 { m } else { m + pm };
    let ee: i64 = if e == 0 { 1 } else { e as i64 };
    let sh: i64 = ee - bias - mbits as i64;
    assert(full < 2 * pow2(mbits as nat));
    let mag: u128 = if sh >= 0 {
        if sh > 63 {
            proof {
                lemma_pow2_mono(64, sh as nat);
                assert(e != 0);
                assert((full as int) * pow2(sh as nat) >= pow2(sh as nat)) by (nonlinear_arith)
                    requires
                        full >= 1,
                        pow2(sh as nat) >= 1;
            }
            return if neg { i64::MIN } else { i64::MAX };
        }
        let p = pow2_exec(sh as u8);
        proof {
            lemma_pow2_mono(sh as nat, 63);
            lemma_pow2_mono((mbits + 1) as nat, 53);
            assert(2 * pow2(mbits as nat) == pow2((mbits + 1) as nat));
            lemma_pow2_add(53, 63);
            assert((full as int) * (p as int) <= pow2(53) * pow2(63)) by (nonlinear_arith)
                requires
                    full <= pow2(53),
                    p <= pow2(63),
                    full >= 0,
                    p >= 0;
            reveal_with_fuel(pow2, 54);
        }
        full * p
    } else {
        let k = -sh;
        if k >= 64 {
            proof {
                lemma_pow2_mono(64, k as nat);
                lemma_pow2_mono((mbits + 1) as nat, 64);
                assert(2 * pow2(mbits as nat) == pow2((mbits + 1) as nat));
                assert((full as int) / pow2(k as nat) == 0) by (nonlinear_arith)
                    requires
                        0 <= full < pow2(k as nat);
            }
            0
        } else {
            let p = pow2_exec(k as u8);
            proof {
                lemma_pow2_pos(k as nat);
            }
            full / p
        }
    };
    let lim: u128 = 0x8000_0000_0000_0000;
    if neg {
        if mag >= lim { i64::MIN } else { -(mag as i64) }
    } else {
        if mag >= lim { i64::MAX } else { mag as i64 }
    }
}

/// `2^n` for `n` up to 64.
fn pow2_exec(n: u8) -> (r: u128)
    requires
        n <= 64,
    ensures
        r as int == pow2(n as nat),
{
    let mut r: u128 = 1;
    let mut i: u8 = 0;
    proof {
        lemma_pow2_64();
    }
    while i < n
        invariant
            i <= n <= 64,
            r as int == pow2(i as nat),
            pow2(64) == 0x1_0000_0000_0000_0000,
        decreases n - i,
    {
        proof {
            lemma_pow2_mono((i + 1) as nat, 64);
        }
        r = r * 2;
        i = i + 1;
    }
    r
}

} // verus!
