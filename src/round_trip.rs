use vstd::prelude::*;
use crate::decimal::{Decimal, first_dot, pow10, lemma_pow10_pos};
use crate::dbc_parser::{dec_value, decimal_value};
use crate::message::{FrameView, hex_bytes};
use crate::text::{
    all_digits, digit_value, digits, hex_digit, is_ws, lead, padded, split_state, trail, trim, value_of, words,
    zeros, lemma_first_of_unique,
};
use crate::trace_format::{abs, bool_text, csv_line, join, micros_text};
use crate::trace_parse::{csv_record, hex_byte_words, hex_value, split_on, strip_hex_prefix, to_micros, true_text};

verus! {

pub open spec fn lacks(s: Seq<char>, c: char) -> bool {
    forall|i: int| 0 <= i < s.len() ==> s[i] != c
}

pub open spec fn no_ws(s: Seq<char>) -> bool {
    forall|i: int| 0 <= i < s.len() ==> !is_ws(#[trigger] s[i])
}

proof fn lemma_hex_digit(d: nat)
    requires
        d < 16,
    ensures
        digit_value(hex_digit(d)) == d,
        !is_ws(hex_digit(d)),
        hex_digit(d) != ',' && hex_digit(d) != '.' && hex_digit(d) != 'x' && hex_digit(d) != 'X' && hex_digit(d) != '-'
            && hex_digit(d) != '+',
{
    if d == 0 {} else if d == 1 {} else if d == 2 {} else if d == 3 {} else if d == 4 {} else if d == 5 {}
    else if d == 6 {} else if d == 7 {} else if d == 8 {} else if d == 9 {} else if d == 10 {} else if d == 11 {}
    else if d == 12 {} else if d == 13 {} else if d == 14 {} else {}
}

/// Digits read back give the number they write.
proof fn lemma_digits(v: nat, base: nat)
    requires
        2 <= base <= 16,
    ensures
        digits(v, base).len() >= 1,
        all_digits(digits(v, base), base),
        value_of(digits(v, base), base) == v,
        no_ws(digits(v, base)),
        lacks(digits(v, base), ','),
        lacks(digits(v, base), '.'),
        digits(v, base)[0] != '-' && digits(v, base)[0] != '+' && digits(v, base)[0] != 'x',
        v < pow10(6) && base == 10 ==> digits(v, base).len() <= 6,
    decreases v,
{
    let d = digits(v, base);
    if v < base {
        lemma_hex_digit(v % 16);
        assert(d.drop_last() =~= Seq::<char>::empty());
        assert(v % 16 == v);
        assert(value_of(Seq::<char>::empty(), base) == 0);
        assert(value_of(d, base) == value_of(d.drop_last(), base) * base + digit_value(d.last()));
        if base == 10 {
            reveal_with_fuel(pow10, 2);
        }
    } else {
        assert(v / base < v) by (nonlinear_arith)
            requires
                base >= 2,
                v >= base;
        lemma_digits(v / base, base);
        lemma_hex_digit(v % base);
        let p = digits(v / base, base);
        assert(d.drop_last() =~= p);
        assert(v == (v / base) * base + v % base) by (nonlinear_arith)
            requires
                base > 0;
        assert forall|i: int| 0 <= i < d.len() implies digit_value(#[trigger] d[i]) < base by {
            if i < p.len() {
                assert(d[i] == p[i]);
            }
        }
        assert forall|i: int| 0 <= i < d.len() implies !is_ws(#[trigger] d[i]) by {
            if i < p.len() {
                assert(d[i] == p[i]);
            }
        }
        assert forall|i: int| 0 <= i < d.len() implies d[i] != ',' && d[i] != '.' by {
            if i < p.len() {
                assert(d[i] == p[i]);
            }
        }
        assert(d[0] == p[0]);
        if base == 10 && v < pow10(6) {
            reveal_with_fuel(pow10, 7);
            assert(v / 10 < pow10(5));
            lemma_digits_len_10(v / 10, 5);
        }
    }
}

proof fn lemma_digits_len_10(v: nat, k: nat)
    requires
        v < pow10(k),
    ensures
        digits(v, 10).len() <= k || (k == 0 && digits(v, 10).len() == 1),
        k >= 1 ==> digits(v, 10).len() <= k,
    decreases k,
{
    lemma_pow10_pos(k);
    if k == 0 {
        assert(v < 1);
    } else if v < 10 {
    } else {
        assert(pow10(k) == 10 * pow10((k - 1) as nat));
        assert(v / 10 < pow10((k - 1) as nat)) by (nonlinear_arith)
            requires
                v < 10 * pow10((k - 1) as nat);
        lemma_digits_len_10(v / 10, (k - 1) as nat);
        if k == 1 {
            assert(v < 10);
        }
    }
}

proof fn lemma_zeros_value(n: nat, base: nat)
    ensures
        value_of(zeros(n), base) == 0,
        all_digits(zeros(n), base) || base == 0,
    decreases n,
{
    if n > 0 {
        assert(zeros(n).drop_last() =~= zeros((n - 1) as nat));
        lemma_zeros_value((n - 1) as nat, base);
    }
}

proof fn lemma_prefix_zeros(n: nat, d: Seq<char>, base: nat)
    requires
        base >= 1,
    ensures
        value_of(zeros(n) + d, base) == value_of(d, base),
    decreases d.len(),
{
    if d.len() == 0 {
        assert(zeros(n) + d =~= zeros(n));
        lemma_zeros_value(n, base);
    } else {
        lemma_prefix_zeros(n, d.drop_last(), base);
        assert((zeros(n) + d).drop_last() =~= zeros(n) + d.drop_last());
        assert((zeros(n) + d).last() == d.last());
    }
}

/// Padded digits read back give the number they write.
proof fn lemma_padded(v: nat, base: nat, w: nat)
    requires
        2 <= base <= 16,
    ensures
        padded(v, base, w).len() >= 1,
        all_digits(padded(v, base, w), base),
        value_of(padded(v, base, w), base) == v,
        no_ws(padded(v, base, w)),
        lacks(padded(v, base, w), ','),
        lacks(padded(v, base, w), '.'),
        padded(v, base, w)[0] != '-' && padded(v, base, w)[0] != '+',
        padded(v, base, w).len() >= 2 ==> padded(v, base, w)[1] != 'x' && padded(v, base, w)[1] != 'X',
        base == 10 && v < pow10(w) && w >= 1 ==> padded(v, base, w).len() == w,
{
    lemma_digits(v, base);
    let d = digits(v, base);
    if d.len() < w {
        let z = zeros((w - d.len()) as nat);
        lemma_prefix_zeros((w - d.len()) as nat, d, base);
        let p = z + d;
        assert forall|i: int| 0 <= i < p.len() implies digit_value(#[trigger] p[i]) < base && !is_ws(p[i]) && p[i] != ','
            && p[i] != '.' && p[i] != 'x' && p[i] != 'X' by {
            if i >= z.len() {
                assert(p[i] == d[i - z.len()]);
                lemma_hex_digit(digit_value(d[i - z.len()]) as nat);
                assert(digit_value(d[i - z.len()]) < 16);
                assert(d[i - z.len()] != 'x') by {
                    if d[i - z.len()] == 'x' {
                        assert(digit_value('x') == 16);
                    }
                }
                assert(d[i - z.len()] != 'X') by {
                    if d[i - z.len()] == 'X' {
                        assert(digit_value('X') == 16);
                    }
                }
            } else {
                assert(p[i] == '0');
            }
        }
    } else {
        assert forall|i: int| 0 <= i < d.len() implies d[i] != 'x' && d[i] != 'X' by {
            assert(digit_value(d[i]) < base);
            if d[i] == 'x' {
                assert(digit_value('x') == 16);
            }
            if d[i] == 'X' {
                assert(digit_value('X') == 16);
            }
        }
        if base == 10 && v < pow10(w) && w >= 1 {
            lemma_digits_len_10(v, w);
        }
    }
}

/// A string without whitespace at its ends is its own trim.
proof fn lemma_trim_id(s: Seq<char>)
    requires
        s.len() == 0 || (!is_ws(s[0]) && !is_ws(s.last())),
    ensures
        trim(s) == s,
{
    assert(lead(s) == 0);
    assert(s.subrange(0, s.len() as int) =~= s);
    assert(trail(s) == 0);
}

/// Splitting at the first separator.
proof fn lemma_split_head(a: Seq<char>, rest: Seq<char>, c: char)
    requires
        lacks(a, c),
    ensures
        split_on(a + seq![c] + rest, c) == seq![a] + split_on(rest, c),
{
    let s = a + seq![c] + rest;
    assert forall|i: int| 0 <= i < a.len() implies s[i] != c by {
        assert(s[i] == a[i]);
    }
    lemma_first_of_unique(s, c, a.len() as int);
    assert(s.subrange(0, a.len() as int) =~= a);
    assert(s.subrange(a.len() as int + 1, s.len() as int) =~= rest);
}

proof fn lemma_split_last(a: Seq<char>, c: char)
    requires
        lacks(a, c),
    ensures
        split_on(a, c) == seq![a],
{
    lemma_first_of_unique(a, c, a.len() as int);
}

/// Reading a non-whitespace word onto the current word.
proof fn lemma_split_state_word(s: Seq<char>, w: Seq<char>)
    requires
        no_ws(w),
    ensures
        split_state(s + w) == (split_state(s).0, split_state(s).1 + w),
    decreases w.len(),
{
    if w.len() == 0 {
        assert(s + w =~= s);
        assert(split_state(s).1 + w =~= split_state(s).1);
    } else {
        lemma_split_state_word(s, w.drop_last());
        assert((s + w).drop_last() =~= s + w.drop_last());
        assert((s + w).last() == w.last());
        assert(!is_ws(w.last()));
        assert(split_state(s).1 + w.drop_last() + seq![w.last()] =~= split_state(s).1 + w);
        assert((split_state(s).1 + w.drop_last()).push(w.last()) =~= split_state(s).1 + w);
    }
}

proof fn lemma_words_append(s: Seq<char>, w: Seq<char>)
    requires
        no_ws(w),
        w.len() > 0,
    ensures
        words(s + seq![' '] + w) == words(s).push(w),
{
    lemma_split_state_word(s + seq![' '], w);
    assert((s + seq![' ']).drop_last() =~= s);
    assert(split_state(s + seq![' ']).1 =~= Seq::<char>::empty());
    assert(Seq::<char>::empty() + w =~= w);
}

proof fn lemma_words_single(w: Seq<char>)
    requires
        no_ws(w),
        w.len() > 0,
    ensures
        words(w) == seq![w],
{
    lemma_split_state_word(Seq::empty(), w);
    assert(Seq::<char>::empty() + w =~= w);
    assert(Seq::<char>::empty() + w =~= w);
    assert(split_state(Seq::<char>::empty()) == (Seq::<Seq<char>>::empty(), Seq::<char>::empty()));
}

/// The payload text reads back as the payload.
proof fn lemma_hex_bytes(d: Seq<u8>)
    ensures
        hex_byte_words(words(hex_bytes(d))) == Some(d),
        lacks(hex_bytes(d), ','),
        hex_bytes(d).len() == 0 || (!is_ws(hex_bytes(d)[0]) && !is_ws(hex_bytes(d).last())),
    decreases d.len(),
{
    if d.len() == 0 {
        assert(words(Seq::<char>::empty()) =~= Seq::<Seq<char>>::empty());
    } else {
        let p = padded(d.last() as nat, 16, 2);
        lemma_padded(d.last() as nat, 16, 2);
        assert(hex_value(p, 255) == Some(d.last() as int));
        if d.len() == 1 {
            lemma_words_single(p);
            assert(seq![p].drop_last() =~= Seq::<Seq<char>>::empty());
            assert(d.drop_last() =~= Seq::<u8>::empty());
            assert(Seq::<u8>::empty().push(d.last()) =~= d);
            assert(p == padded(d[0] as nat, 16, 2));
        } else {
            let h = hex_bytes(d.drop_last());
            lemma_hex_bytes(d.drop_last());
            lemma_words_append(h, p);
            assert(words(h).push(p).drop_last() =~= words(h));
            assert(d.drop_last().push(d.last()) =~= d);
            let t = h + seq![' '] + p;
            assert forall|i: int| 0 <= i < t.len() implies t[i] != ',' by {
                if i < h.len() {
                    assert(t[i] == h[i]);
                } else if i > h.len() {
                    assert(t[i] == p[i - h.len() - 1]);
                }
            }
            assert(t[0] == h[0]);
            assert(t.last() == p.last());
        }
    }
}

proof fn lemma_first_dot_at(a: Seq<char>, b: Seq<char>)
    requires
        lacks(a, '.'),
    ensures
        first_dot(a + seq!['.'] + b) == a.len(),
    decreases a.len(),
{
    let s = a + seq!['.'] + b;
    if a.len() == 0 {
        assert(s[0] == '.');
    } else {
        assert(s[0] == a[0]);
        assert(s.drop_first() =~= a.drop_first() + seq!['.'] + b);
        lemma_first_dot_at(a.drop_first(), b);
    }
}

/// A timestamp written with six decimals reads back as the same number of microseconds.
proof fn lemma_micros(t: int)
    requires
        i64::MIN < t <= i64::MAX,
    ensures
        decimal_value(micros_text(t)) == Some(Decimal { mantissa: t as i64, scale: 6 }),
        to_micros(Decimal { mantissa: t as i64, scale: 6 }, 6) == t,
        lacks(micros_text(t), ','),
        !is_ws(micros_text(t)[0]) && !is_ws(micros_text(t).last()),
{
    let q = abs(t) / 1_000_000;
    let r = abs(t) % 1_000_000;
    let dq = digits(q, 10);
    let pr = padded(r, 10, 6);
    lemma_digits(q, 10);
    reveal_with_fuel(pow10, 7);
    lemma_padded(r, 10, 6);
    let sign = if t < 0 { seq!['-'] } else { Seq::<char>::empty() };
    let s = micros_text(t);
    let body = dq + seq!['.'] + pr;
    assert(s =~= sign + body);
    let signed = s.len() > 0 && (s[0] == '-' || s[0] == '+');
    if t < 0 {
        assert(s[0] == '-');
        assert(s.drop_first() =~= body);
    } else {
        assert(s =~= body);
        assert(s[0] == dq[0]);
    }
    lemma_first_dot_at(dq, pr);
    assert(body.subrange(0, dq.len() as int) =~= dq);
    assert(body.subrange(dq.len() as int + 1, body.len() as int) =~= pr);
    assert(abs(t) == q * 1_000_000 + r);
    assert(pow10(6) == 1_000_000);
    assert(pow10(0) == 1);
    assert((t as i64) as int == t);
    let dd = Decimal { mantissa: t as i64, scale: 6 };
    assert(to_micros(dd, 6) == (dd.mantissa as int) * pow10(0));
    assert forall|i: int| 0 <= i < s.len() implies s[i] != ',' by {
        if t < 0 && i == 0 {
        } else {
            let j = if t < 0 { i - 1 } else { i };
            assert(s[i] == body[j]);
            if j < dq.len() {
                assert(body[j] == dq[j]);
            } else if j > dq.len() {
                assert(body[j] == pr[j - dq.len() - 1]);
            }
        }
    }
    assert(s.last() == pr.last());
    assert(!is_ws(pr.last()));
    if t >= 0 {
        assert(!is_ws(dq[0]));
    }
}

proof fn lemma_fields_lack_commas(f: FrameView)
    requires
        f.timestamp_us > i64::MIN,
    ensures
        lacks(micros_text(f.timestamp_us as int), ','),
        lacks(f.id_hex(), ','),
        lacks(bool_text(f.is_extended), ','),
        lacks(bool_text(f.is_remote), ','),
        lacks(digits(f.dlc as nat, 10), ','),
        lacks(hex_bytes(f.data), ','),
{
    lemma_micros(f.timestamp_us as int);
    lemma_padded(f.id as nat, 16, if f.is_extended { 8 } else { 3 });
    lemma_digits(f.dlc as nat, 10);
    lemma_hex_bytes(f.data);
}

/// The fields of a CSV row.
#[verifier::rlimit(100)]
proof fn lemma_csv_fields(f: FrameView)
    requires
        lacks(f.direction, ',') && lacks(f.channel, ','),
        f.timestamp_us > i64::MIN,
    ensures
        split_on(csv_line(f), ',') == seq![
            micros_text(f.timestamp_us as int),
            f.id_hex(),
            bool_text(f.is_extended),
            bool_text(f.is_remote),
            digits(f.dlc as nat, 10),
            hex_bytes(f.data),
            f.direction,
            f.channel,
        ],
{
    let a0 = micros_text(f.timestamp_us as int);
    let a1 = f.id_hex();
    let a2 = bool_text(f.is_extended);
    let a3 = bool_text(f.is_remote);
    let a4 = digits(f.dlc as nat, 10);
    let a5 = hex_bytes(f.data);
    let a6 = f.direction;
    let a7 = f.channel;
    lemma_fields_lack_commas(f);
    let r6 = join(a6, a7);
    let r5 = join(a5, r6);
    let r4 = join(a4, r5);
    let r3 = join(a3, r4);
    let r2 = join(a2, r3);
    let r1 = join(a1, r2);
    lemma_split_last(a7, ',');
    lemma_split_head(a6, a7, ',');
    assert(split_on(r6, ',') =~= seq![a6, a7]);
    lemma_split_head(a5, r6, ',');
    assert(split_on(r5, ',') =~= seq![a5, a6, a7]);
    lemma_split_head(a4, r5, ',');
    assert(split_on(r4, ',') =~= seq![a4, a5, a6, a7]);
    lemma_split_head(a3, r4, ',');
    assert(split_on(r3, ',') =~= seq![a3, a4, a5, a6, a7]);
    lemma_split_head(a2, r3, ',');
    assert(split_on(r2, ',') =~= seq![a2, a3, a4, a5, a6, a7]);
    lemma_split_head(a1, r2, ',');
    assert(split_on(r1, ',') =~= seq![a1, a2, a3, a4, a5, a6, a7]);
    lemma_split_head(a0, r1, ',');
    assert(split_on(csv_line(f), ',') =~= seq![a0, a1, a2, a3, a4, a5, a6, a7]);
}

/// A frame written as a CSV row reads back as the same frame, where its direction and
/// channel hold no comma and have no whitespace at their ends, and its timestamp is not the
/// least `i64`.
pub proof fn lemma_csv_round_trip(f: FrameView)
    requires
        lacks(f.direction, ',') && lacks(f.channel, ','),
        trim(f.direction) == f.direction && trim(f.channel) == f.channel,
        f.timestamp_us > i64::MIN,
    ensures
        csv_record(csv_line(f)) == Some(f),
{
    let a0 = micros_text(f.timestamp_us as int);
    let a1 = f.id_hex();
    let a2 = bool_text(f.is_extended);
    let a3 = bool_text(f.is_remote);
    let a4 = digits(f.dlc as nat, 10);
    let a5 = hex_bytes(f.data);
    lemma_csv_fields(f);
    lemma_micros(f.timestamp_us as int);
    lemma_padded(f.id as nat, 16, if f.is_extended { 8 } else { 3 });
    lemma_digits(f.dlc as nat, 10);
    lemma_hex_bytes(f.data);
    let p = split_on(csv_line(f), ',');
    assert(p[0] == a0 && p[1] == a1 && p[2] == a2 && p[3] == a3 && p[4] == a4 && p[5] == a5);
    assert(p[6] == f.direction && p[7] == f.channel);
    lemma_trim_id(a0);
    lemma_trim_id(a1);
    lemma_trim_id(a2);
    lemma_trim_id(a3);
    lemma_trim_id(a4);
    lemma_trim_id(a5);
    assert(strip_hex_prefix(a1) == a1);
    assert(hex_value(a1, u32::MAX as int) == Some(f.id as int));
    assert(dec_value(a4, 255) == Some(f.dlc as int));
    assert((a2 == true_text()) == f.is_extended);
    assert((a3 == true_text()) == f.is_remote);
}

} // verus!
