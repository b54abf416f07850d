use vstd::prelude::*;
use vstd::std_specs::iter::IteratorSpec;

verus! {

/// The characters of `s`, in order.
pub fn chars_of(s: &str) -> (r: Vec<char>)
    ensures
        r@ == s@,
{
    let mut r: Vec<char> = Vec::new();
    for c in it: s.chars()
        invariant
            r@ == it.history(),
    {
        r.push(c);
    }
    r
}

/// Relies on `String`'s `FromIterator<char>`: the string holds the given characters in order.
#[verifier::external_body]
pub(crate) fn string_of(cs: &[char]) -> (r: String)
    ensures
        r@ == cs@,
{
    cs.iter().collect()
}

/// A copy of `s`.
pub fn copy_string(s: &String) -> (r: String)
    ensures
        r@ == s@,
{
    s.clone()
}

/// Text equality of a string and a literal, character by character.
pub fn str_eq(a: &str, b: &str) -> (r: bool)
    ensures
        r == (a@ == b@),
{
    let x = chars_of(a);
    let y = chars_of(b);
    seq_eq(&x, &y)
}

/// Equality of two character vectors.
pub fn seq_eq(x: &Vec<char>, y: &Vec<char>) -> (r: bool)
    ensures
        r == (x@ == y@),
{
    if x.len() != y.len() {
        return false;
    }
    let mut i: usize = 0;
    while i < x.len()
        invariant
            x.len() == y.len(),
            i <= x.len(),
            forall|j: int| 0 <= j < i ==> x@[j] == y@[j],
        decreases x.len() - i,
    {
        if x[i] != y[i] {
            return false;
        }
        i = i + 1;
    }
    assert(x@ =~= y@);
    true
}

/// The upper-case hexadecimal digit of `d` (below sixteen).
pub open spec fn hex_digit(d: nat) -> char {
    if d == 0 { '0' } else if d == 1 { '1' } else if d == 2 { '2' } else if d == 3 { '3' }
    else if d == 4 { '4' } else if d == 5 { '5' } else if d == 6 { '6' } else if d == 7 { '7' }
    else if d == 8 { '8' } else if d == 9 { '9' } else if d == 10 { 'A' } else if d == 11 { 'B' }
    else if d == 12 { 'C' } else if d == 13 { 'D' } else if d == 14 { 'E' } else { 'F' }
}

/// The value of a decimal or hexadecimal digit, in either case.
pub open spec fn digit_value(c: char) -> int {
    if '0' <= c && c <= '9' {
        c as int - '0' as int
    } else if 'a' <= c && c <= 'f' {
        c as int - 'a' as int + 10
    } else if 'A' <= c && c <= 'F' {
        c as int - 'A' as int + 10
    } else {
        16
    }
}

pub open spec fn is_dec_digit(c: char) -> bool {
    '0' <= c && c <= '9'
}

/// Digits of `v` in `base`, most significant first, without leading zeros ("0" for zero).
pub open spec fn digits(v: nat, base: nat) -> Seq<char>
    recommends
        2 <= base <= 16,
    decreases v,
    via digits_decreases
{
    if base < 2 || v < base {
        seq![hex_digit(v % 16)]
    } else {
        digits(v / base, base).push(hex_digit(v % base))
    }
}

#[via_fn]
proof fn digits_decreases(v: nat, base: nat) {
    if !(base < 2 || v < base) {
        assert(v / base < v) by (nonlinear_arith)
            requires
                base >= 2,
                v >= base,
        ;
    }
}

pub open spec fn zeros(n: nat) -> Seq<char> {
    Seq::new(n, |i: int| '0')
}

/// `digits(v, base)` with zeros in front up to `width` characters.
pub open spec fn padded(v: nat, base: nat, width: nat) -> Seq<char> {
    let d = digits(v, base);
    if d.len() < width {
        zeros((width - d.len()) as nat) + d
    } else {
        d
    }
}

/// The value of a sequence of digits in `base`, read most significant first.
pub open spec fn value_of(s: Seq<char>, base: nat) -> int
    decreases s.len(),
{
    if s.len() == 0 {
        0
    } else {
        value_of(s.drop_last(), base) * base + digit_value(s.last())
    }
}

pub open spec fn all_digits(s: Seq<char>, base: nat) -> bool {
    forall|i: int| 0 <= i < s.len() ==> digit_value(#[trigger] s[i]) < base
}

fn hex_digit_exec(d: u64) -> (c: char)
    requires
        d < 16,
    ensures
        c == hex_digit(d as nat),
{
    if d == 0 { '0' } else if d == 1 { '1' } else if d == 2 { '2' } else if d == 3 { '3' }
    else if d == 4 { '4' } else if d == 5 { '5' } else if d == 6 { '6' } else if d == 7 { '7' }
    else if d == 8 { '8' } else if d == 9 { '9' } else if d == 10 { 'A' } else if d == 11 { 'B' }
    else if d == 12 { 'C' } else if d == 13 { 'D' } else if d == 14 { 'E' } else { 'F' }
}

/// Appends `padded(v, base, width)` to `out`.
pub fn push_digits(out: &mut Vec<char>, v: u64, base: u64, width: usize)
    requires
        2 <= base <= 16,
    ensures
        final(out)@ == old(out)@ + padded(v as nat, base as nat, width as nat),
{
    let mut ds: Vec<char> = Vec::new();
    let mut x: u64 = v;
    while x >= base
        invariant
            2 <= base <= 16,
            digits(v as nat, base as nat) == digits(x as nat, base as nat) + ds@,
        decreases x,
    {
        let d = hex_digit_exec(x % base);
        let ghost before = ds@;
        ds.insert(0, d);
        assert(ds@ =~= seq![d] + before);
        let ghost xn = x as nat;
        x = x / base;
        assert(digits(xn, base as nat) == digits(x as nat, base as nat).push(d));
        assert(digits(x as nat, base as nat).push(d) + before =~= digits(x as nat, base as nat) + ds@);
    }
    let d0 = hex_digit_exec(x);
    ds.insert(0, d0);
    assert(digits(x as nat, base as nat) == seq![d0]);
    let ghost dv = digits(v as nat, base as nat);
    assert(ds@ =~= dv);
    let ghost before = out@;
    if ds.len() < width {
        let mut k: usize = width - ds.len();
        while k > 0
            invariant
                k <= width - ds.len(),
                out@ =~= before + zeros((width - ds.len() - k) as nat),
            decreases k,
        {
            out.push('0');
            k = k - 1;
        }
    }
    let mut i: usize = 0;
    let ghost mid = out@;
    while i < ds.len()
        invariant
            i <= ds.len(),
            out@ =~= mid + ds@.subrange(0, i as int),
        decreases ds.len() - i,
    {
        out.push(ds[i]);
        i = i + 1;
    }
    assert(ds@.subrange(0, ds.len() as int) =~= ds@);
}

/// The digit value of `c`, 16 where it is no hexadecimal digit.
pub fn digit_value_exec(c: char) -> (r: u64)
    ensures
        r as int == digit_value(c),
{
    if '0' <= c && c <= '9' {
        (c as u32 - '0' as u32) as u64
    } else if 'a' <= c && c <= 'f' {
        (c as u32 - 'a' as u32 + 10) as u64
    } else if 'A' <= c && c <= 'F' {
        (c as u32 - 'A' as u32 + 10) as u64
    } else {
        16
    }
}

/// Reads `s[start..end]` as an unsigned number in `base`: `None` where it is empty, holds a
/// character that is no digit in `base`, or exceeds `limit`.
pub fn parse_digits(s: &Vec<char>, start: usize, end: usize, base: u64, limit: u64) -> (r: Option<u64>)
    requires
        start <= end <= s.len(),
        2 <= base <= 16,
    ensures
        r matches Some(v) ==> v as int == value_of(s@.subrange(start as int, end as int), base as nat),
        r is Some <==> (start < end && all_digits(s@.subrange(start as int, end as int), base as nat)
            && value_of(s@.subrange(start as int, end as int), base as nat) <= limit),
{
    if start == end {
        return None;
    }
    let mut acc: u64 = 0;
    let mut i: usize = start;
    let ghost base_n = base as nat;
    while i < end
        invariant
            start <= i <= end <= s.len(),
            2 <= base <= 16,
            base_n == base as nat,
            acc as int == value_of(s@.subrange(start as int, i as int), base_n),
            all_digits(s@.subrange(start as int, i as int), base_n),
            acc <= limit,
        decreases end - i,
    {
        let d = digit_value_exec(s[i]);
        let ghost pre = s@.subrange(start as int, i as int);
        let ghost next = s@.subrange(start as int, i + 1);
        assert(next.drop_last() =~= pre);
        assert(next.last() == s@[i as int]);
        if d >= base {
            assert(!all_digits(s@.subrange(start as int, end as int), base_n)) by {
                assert(s@.subrange(start as int, end as int)[i - start] == s@[i as int]);
            }
            return None;
        }
        assert((acc as int) * (base as int) + (d as int) < 0x1_0000_0000_0000_0000_0000_0000_0000_0000) by (nonlinear_arith)
            requires
                acc <= limit,
                limit < 0x1_0000_0000_0000_0000,
                base <= 16,
                d < base,
        ;
        let wide: u128 = (acc as u128) * (base as u128) + (d as u128);
        if wide > limit as u128 {
            proof {
                if all_digits(s@.subrange(start as int, end as int), base_n) {
                    lemma_value_monotone(s@.subrange(start as int, end as int), (i + 1 - start) as nat, base_n);
                    assert(s@.subrange(start as int, end as int).subrange(0, (i + 1 - start) as int) =~= next);
                }
            }
            return None;
        }
        acc = wide as u64;
        i = i + 1;
        assert(all_digits(s@.subrange(start as int, i as int), base_n)) by {
            assert forall|j: int| 0 <= j < next.len() implies digit_value(#[trigger] next[j]) < base_n by {
                if j < pre.len() {
                    assert(next[j] == pre[j]);
                }
            }
        }
    }
    Some(acc)
}

/// A prefix of a digit string never has a larger value than the whole string.
pub proof fn lemma_value_monotone(s: Seq<char>, k: nat, base: nat)
    requires
        k <= s.len(),
        base >= 1,
        all_digits(s, base),
    ensures
        value_of(s.subrange(0, k as int), base) <= value_of(s, base),
    decreases s.len(),
{
    if k < s.len() {
        let t = s.drop_last();
        assert(all_digits(t, base)) by {
            assert forall|i: int| 0 <= i < t.len() implies digit_value(#[trigger] t[i]) < base by {
                assert(t[i] == s[i]);
            }
        }
        lemma_value_monotone(t, k, base);
        assert(t.subrange(0, k as int) =~= s.subrange(0, k as int));
        lemma_value_nonneg(t, base);
        assert(digit_value(s.last()) >= 0);
        assert(value_of(t, base) * base >= value_of(t, base)) by (nonlinear_arith)
            requires value_of(t, base) >= 0, base >= 1;
    } else {
        assert(s.subrange(0, k as int) =~= s);
    }
}

pub proof fn lemma_value_nonneg(s: Seq<char>, base: nat)
    requires
        all_digits(s, base),
    ensures
        value_of(s, base) >= 0,
    decreases s.len(),
{
    if s.len() > 0 {
        let t = s.drop_last();
        assert(all_digits(t, base)) by {
            assert forall|i: int| 0 <= i < t.len() implies digit_value(#[trigger] t[i]) < base by {
                assert(t[i] == s[i]);
            }
        }
        lemma_value_nonneg(t, base);
        assert(digit_value(s.last()) >= 0);
        assert(value_of(t, base) * base >= 0) by (nonlinear_arith)
            requires value_of(t, base) >= 0;
    }
}

} // verus!

verus! {

/// Whitespace as the line formats use it.
pub open spec fn is_ws(c: char) -> bool {
    c == ' ' || c == '\t' || c == '\r' || c == '\n'
}

pub fn is_ws_exec(c: char) -> (r: bool)
    ensures
        r == is_ws(c),
{
    c == ' ' || c == '\t' || c == '\r' || c == '\n'
}

/// The words finished so far and the word being read, after reading `s`.
pub open spec fn split_state(s: Seq<char>) -> (Seq<Seq<char>>, Seq<char>)
    decreases s.len(),
{
    if s.len() == 0 {
        (Seq::empty(), Seq::empty())
    } else {
        let (ws, cur) = split_state(s.drop_last());
        let c = s.last();
        if is_ws(c) {
            if cur.len() > 0 { (ws.push(cur), Seq::empty()) } else { (ws, Seq::empty()) }
        } else {
            (ws, cur.push(c))
        }
    }
}

/// The maximal runs of non-whitespace characters of `s`, in order.
pub open spec fn words(s: Seq<char>) -> Seq<Seq<char>> {
    let (ws, cur) = split_state(s);
    if cur.len() > 0 { ws.push(cur) } else { ws }
}

pub open spec fn views_of(v: Seq<Vec<char>>) -> Seq<Seq<char>> {
    v.map_values(|w: Vec<char>| w@)
}

/// The words of `s[start..end]`.
pub fn split_words(s: &Vec<char>, start: usize, end: usize) -> (r: Vec<Vec<char>>)
    requires
        start <= end <= s.len(),
    ensures
        views_of(r@) == words(s@.subrange(start as int, end as int)),
{
    let mut ws: Vec<Vec<char>> = Vec::new();
    let mut cur: Vec<char> = Vec::new();
    let mut i: usize = start;
    assert(s@.subrange(start as int, start as int) =~= Seq::<char>::empty());
    while i < end
        invariant
            start <= i <= end <= s.len(),
            (views_of(ws@), cur@) == split_state(s@.subrange(start as int, i as int)),
        decreases end - i,
    {
        let ghost pre = s@.subrange(start as int, i as int);
        let ghost next = s@.subrange(start as int, i + 1);
        assert(next.drop_last() =~= pre);
        assert(next.last() == s@[i as int]);
        let c = s[i];
        if is_ws_exec(c) {
            if cur.len() > 0 {
                let w = cur;
                cur = Vec::new();
                let ghost old_ws = ws@;
                ws.push(w);
                assert(views_of(ws@) =~= views_of(old_ws).push(w@));
            }
        } else {
            cur.push(c);
        }
        i = i + 1;
    }
    if cur.len() > 0 {
        let ghost old_ws = ws@;
        ws.push(cur);
        assert(views_of(ws@) =~= views_of(old_ws).push(ws@.last()@));
    }
    ws
}

/// The index of the first `c` in `s`, or the length where there is none.
pub open spec fn first_of(s: Seq<char>, c: char) -> int
    decreases s.len(),
{
    if s.len() == 0 {
        0
    } else if s[0] == c {
        0
    } else {
        1 + first_of(s.drop_first(), c)
    }
}

pub proof fn lemma_first_of(s: Seq<char>, c: char)
    ensures
        0 <= first_of(s, c) <= s.len(),
        forall|i: int| 0 <= i < first_of(s, c) ==> s[i] != c,
        first_of(s, c) < s.len() ==> s[first_of(s, c)] == c,
    decreases s.len(),
{
    if s.len() > 0 && s[0] != c {
        lemma_first_of(s.drop_first(), c);
        assert forall|i: int| 0 <= i < first_of(s, c) implies s[i] != c by {
            if i > 0 {
                assert(s[i] == s.drop_first()[i - 1]);
            }
        }
    }
}

pub proof fn lemma_first_of_unique(s: Seq<char>, c: char, k: int)
    requires
        0 <= k <= s.len(),
        forall|i: int| 0 <= i < k ==> s[i] != c,
        k < s.len() ==> s[k] == c,
    ensures
        first_of(s, c) == k,
{
    lemma_first_of(s, c);
    if first_of(s, c) < k {
        assert(s[first_of(s, c)] == c);
    }
    if k < first_of(s, c) {
        assert(s[k] != c);
    }
}

/// The index, counted from `start`, of the first `c` in `s[start..end]`, or `end - start`.
pub fn find_char(s: &Vec<char>, start: usize, end: usize, c: char) -> (r: usize)
    requires
        start <= end <= s.len(),
    ensures
        r as int == first_of(s@.subrange(start as int, end as int), c),
        r <= end - start,
{
    let mut k: usize = start;
    while k < end && s[k] != c
        invariant
            start <= k <= end <= s.len(),
            forall|i: int| start <= i < k ==> s@[i] != c,
        decreases end - k,
    {
        k = k + 1;
    }
    proof {
        let t = s@.subrange(start as int, end as int);
        assert forall|i: int| 0 <= i < (k - start) implies t[i] != c by {
            assert(t[i] == s@[start + i]);
        }
        if k < end {
            assert(t[(k - start) as int] == s@[k as int]);
        }
        lemma_first_of_unique(t, c, (k - start) as int);
    }
    k - start
}

/// `s` without whitespace at either end.
pub open spec fn trim(s: Seq<char>) -> Seq<char> {
    s.subrange(lead(s), s.len() - trail(s.subrange(lead(s), s.len() as int)))
}

/// The number of leading whitespace characters.
pub open spec fn lead(s: Seq<char>) -> int
    decreases s.len(),
{
    if s.len() > 0 && is_ws(s[0]) { 1 + lead(s.drop_first()) } else { 0 }
}

/// The number of trailing whitespace characters.
pub open spec fn trail(s: Seq<char>) -> int
    decreases s.len(),
{
    if s.len() > 0 && is_ws(s.last()) { 1 + trail(s.drop_last()) } else { 0 }
}

pub proof fn lemma_lead(s: Seq<char>)
    ensures
        0 <= lead(s) <= s.len(),
    decreases s.len(),
{
    if s.len() > 0 && is_ws(s[0]) {
        lemma_lead(s.drop_first());
    }
}

pub proof fn lemma_trail(s: Seq<char>)
    ensures
        0 <= trail(s) <= s.len(),
    decreases s.len(),
{
    if s.len() > 0 && is_ws(s.last()) {
        lemma_trail(s.drop_last());
    }
}

/// The bounds of `trim(s[start..end])` in `s`.
pub fn trim_bounds(s: &Vec<char>, start: usize, end: usize) -> (r: (usize, usize))
    requires
        start <= end <= s.len(),
    ensures
        start <= r.0 <= r.1 <= end,
        s@.subrange(r.0 as int, r.1 as int) == trim(s@.subrange(start as int, end as int)),
{
    let ghost t = s@.subrange(start as int, end as int);
    let mut a: usize = start;
    while a < end && is_ws_exec(s[a])
        invariant
            start <= a <= end <= s.len(),
            lead(t) == (a - start) + lead(s@.subrange(a as int, end as int)),
        decreases end - a,
    {
        assert(s@.subrange(a as int, end as int).drop_first() =~= s@.subrange(a + 1, end as int));
        a = a + 1;
    }
    assert(lead(s@.subrange(a as int, end as int)) == 0);
    let ghost u = s@.subrange(a as int, end as int);
    assert(t.subrange(lead(t), t.len() as int) =~= u);
    let mut b: usize = end;
    while b > a && is_ws_exec(s[b - 1])
        invariant
            start <= a <= b <= end <= s.len(),
            trail(u) == (end - b) + trail(s@.subrange(a as int, b as int)),
        decreases b - a,
    {
        assert(s@.subrange(a as int, b as int).drop_last() =~= s@.subrange(a as int, b - 1));
        b = b - 1;
    }
    assert(trail(s@.subrange(a as int, b as int)) == 0);
    assert(s@.subrange(a as int, b as int) =~= t.subrange(lead(t), t.len() - trail(u)));
    (a, b)
}

/// Whether `s[start..]` begins with `p`.
pub fn starts_with_at(s: &Vec<char>, start: usize, end: usize, p: &str) -> (r: bool)
    requires
        start <= end <= s.len(),
    ensures
        r == (p@.len() <= end - start && s@.subrange(start as int, start + p@.len()) == p@),
{
    let pc = chars_of(p);
    if pc.len() > end - start {
        return false;
    }
    let mut i: usize = 0;
    while i < pc.len()
        invariant
            pc@ == p@,
            pc.len() <= end - start,
            start <= end <= s.len(),
            i <= pc.len(),
            forall|j: int| 0 <= j < i ==> s@[start + j] == pc@[j],
        decreases pc.len() - i,
    {
        if s[start + i] != pc[i] {
            assert(s@.subrange(start as int, start + p@.len())[i as int] != p@[i as int]);
            return false;
        }
        i = i + 1;
    }
    assert(s@.subrange(start as int, start + p@.len()) =~= p@);
    true
}

/// Equality of a word and a literal.
pub fn word_is(w: &Vec<char>, p: &str) -> (r: bool)
    ensures
        r == (w@ == p@),
{
    let pc = chars_of(p);
    seq_eq(w, &pc)
}

} // verus!
