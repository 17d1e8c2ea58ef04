//! Character-level helpers: comparing strings, and decimal numerals.
use vstd::prelude::*;
use vstd::string::{StrSliceExecFns, StringExecFns};

verus! {

/// Whether `s` consists of exactly the one character `c`.
pub(crate) fn is_single(s: &str, c: char) -> (r: bool)
    ensures
        r == (s@ == seq![c]),
{
    let n = s.unicode_len();
    if n != 1 {
        return false;
    }
    let d = s.get_char(0);
    if d == c {
        assert(s@ =~= seq![c]);
        true
    } else {
        false
    }
}

/// Character-wise equality of two strings.
pub(crate) fn same_text(a: &str, b: &str) -> (r: bool)
    ensures
        r == (a@ == b@),
{
    let n = a.unicode_len();
    if n != b.unicode_len() {
        return false;
    }
    let mut i: usize = 0;
    while i < n
        invariant
            n == a@.len(),
            n == b@.len(),
            i <= n,
            forall|k: int| 0 <= k < i ==> a@[k] == b@[k],
        decreases n - i,
    {
        if a.get_char(i) != b.get_char(i) {
            return false;
        }
        i = i + 1;
    }
    assert(a@ =~= b@);
    true
}

/// The character of a decimal digit.
pub open spec fn digit(d: nat) -> char {
    if d == 0 {
        '0'
    } else if d == 1 {
        '1'
    } else if d == 2 {
        '2'
    } else if d == 3 {
        '3'
    } else if d == 4 {
        '4'
    } else if d == 5 {
        '5'
    } else if d == 6 {
        '6'
    } else if d == 7 {
        '7'
    } else if d == 8 {
        '8'
    } else {
        '9'
    }
}

/// The decimal numeral of `n`, without leading zeros.
pub open spec fn decimal(n: nat) -> Seq<char>
    decreases n,
{
    if n < 10 {
        seq![digit(n)]
    } else {
        decimal(n / 10).push(digit(n % 10))
    }
}

/// One of the characters `0` to `9`.
pub open spec fn is_digit(c: char) -> bool {
    '0' <= c && c <= '9'
}

/// The number a digit character stands for.
pub open spec fn digit_value(c: char) -> nat {
    (c as u32 - '0' as u32) as nat
}

/// The number that a sequence of digits denotes.
pub open spec fn value(ds: Seq<char>) -> nat
    decreases ds.len(),
{
    if ds.len() == 0 {
        0
    } else {
        value(ds.drop_last()) * 10 + digit_value(ds.last())
    }
}

/// A decimal numeral as `decimal` writes it: digits only, no leading zero.
pub open spec fn canonical(ds: Seq<char>) -> bool {
    &&& ds.len() >= 1
    &&& forall|i: int| 0 <= i < ds.len() ==> is_digit(#[trigger] ds[i])
    &&& ds[0] == '0' ==> ds.len() == 1
}

pub(crate) proof fn lemma_digit(d: nat)
    requires
        d < 10,
    ensures
        is_digit(digit(d)),
        digit_value(digit(d)) == d,
        d > 0 ==> digit(d) != '0',
{
}

pub(crate) proof fn lemma_digit_inverse(c: char)
    requires
        is_digit(c),
    ensures
        digit(digit_value(c)) == c,
        digit_value(c) < 10,
{
    let u = c as u32;
    assert(48 <= u <= 57);
}

pub(crate) proof fn lemma_decimal(n: nat)
    ensures
        canonical(decimal(n)),
        value(decimal(n)) == n,
        n > 0 ==> decimal(n)[0] != '0',
    decreases n,
{
    if n < 10 {
        lemma_digit(n);
        assert(decimal(n).drop_last() =~= Seq::<char>::empty());
        assert(value(Seq::<char>::empty()) == 0);
        assert(decimal(n).last() == digit(n));
    } else {
        lemma_decimal(n / 10);
        lemma_digit(n % 10);
        let d = decimal(n);
        assert(d.drop_last() =~= decimal(n / 10));
        assert(d.last() == digit(n % 10));
        assert(d[0] == decimal(n / 10)[0]);
        assert(n == (n / 10) * 10 + n % 10);
    }
}

pub(crate) proof fn lemma_value_positive(ds: Seq<char>)
    requires
        canonical(ds),
        ds[0] != '0',
    ensures
        value(ds) >= 1,
    decreases ds.len(),
{
    if ds.len() == 1 {
        assert(ds.drop_last() =~= Seq::<char>::empty());
        lemma_digit_inverse(ds[0]);
        assert(digit(digit_value(ds[0])) == ds[0]);
    } else {
        let p = ds.drop_last();
        assert(p[0] == ds[0]);
        lemma_value_positive(p);
    }
}

pub(crate) proof fn lemma_canonical_decimal(ds: Seq<char>)
    requires
        canonical(ds),
    ensures
        decimal(value(ds)) == ds,
    decreases ds.len(),
{
    lemma_digit_inverse(ds.last());
    if ds.len() == 1 {
        assert(ds.drop_last() =~= Seq::<char>::empty());
        assert(value(Seq::<char>::empty()) == 0);
        assert(ds.last() == ds[0]);
        assert(value(ds) == digit_value(ds[0]));
        assert(decimal(value(ds)) =~= ds);
    } else {
        let p = ds.drop_last();
        assert(p[0] == ds[0]);
        lemma_value_positive(p);
        lemma_canonical_decimal(p);
        let v = value(ds);
        let d = digit_value(ds.last());
        assert(v / 10 == value(p) && v % 10 == d) by (nonlinear_arith)
            requires
                v == value(p) * 10 + d,
                d < 10,
        ;
        assert(decimal(v) =~= ds);
    }
}

/// The value of a prefix of a digit sequence is at most the value of the
/// whole.
pub(crate) proof fn lemma_value_prefix(ds: Seq<char>, k: int)
    requires
        0 <= k <= ds.len(),
    ensures
        value(ds.take(k)) <= value(ds),
    decreases ds.len(),
{
    if k < ds.len() {
        assert(ds.drop_last().take(k) =~= ds.take(k));
        lemma_value_prefix(ds.drop_last(), k);
    } else {
        assert(ds.take(k) =~= ds);
    }
}

/// The numeral of `v` stands in `t` from `start` on and is not followed by
/// another digit.
pub open spec fn numeral_at(t: Seq<char>, start: int, v: nat) -> bool {
    let e = start + decimal(v).len();
    &&& 0 <= start
    &&& e <= t.len()
    &&& t.subrange(start, e) == decimal(v)
    &&& (e == t.len() || !is_digit(t[e]))
}

/// `[start, e)` is a longest run of digits of `t` that begins at `start`.
pub open spec fn digit_run(t: Seq<char>, start: int, e: int) -> bool {
    &&& 0 <= start <= e <= t.len()
    &&& forall|i: int| start <= i < e ==> is_digit(#[trigger] t[i])
    &&& (e == t.len() || !is_digit(t[e]))
}

pub(crate) proof fn lemma_numeral_run(t: Seq<char>, start: int, v: nat, e: int)
    requires
        numeral_at(t, start, v),
        digit_run(t, start, e),
    ensures
        e == start + decimal(v).len(),
        value(t.subrange(start, e)) == v,
{
    lemma_decimal(v);
    let d = decimal(v);
    let f = start + d.len();
    if e < f {
        assert(t[e] == t.subrange(start, f)[e - start]);
        assert(is_digit(d[e - start]));
    } else if e > f {
        assert(is_digit(t[f]));
    }
}

/// The longest run of digits of `text` from `start` on, and its value, when
/// it is a numeral as `decimal` writes it and fits in `usize`.
pub(crate) fn read_number(text: &str, start: usize) -> (r: Option<(usize, usize)>)
    requires
        start <= text@.len(),
    ensures
        match r {
            Some((v, e)) => digit_run(text@, start as int, e as int) && canonical(
                text@.subrange(start as int, e as int),
            ) && value(text@.subrange(start as int, e as int)) == v,
            None => forall|v: nat| v <= usize::MAX ==> !numeral_at(text@, start as int, v),
        },
{
    let ghost t = text@;
    let n = text.unicode_len();
    let mut e: usize = start;
    loop
        invariant
            t == text@,
            n == t.len(),
            start <= e <= n,
            forall|i: int| start <= i < e ==> is_digit(#[trigger] t[i]),
        ensures
            digit_run(t, start as int, e as int),
        decreases n - e,
    {
        if e >= n {
            break;
        }
        let c = text.get_char(e);
        if !('0' <= c && c <= '9') {
            break;
        }
        e = e + 1;
    }
    if e == start || (e - start > 1 && text.get_char(start) == '0') {
        proof {
            assert forall|v: nat| v <= usize::MAX implies !numeral_at(t, start as int, v) by {
                if numeral_at(t, start as int, v) {
                    lemma_numeral_run(t, start as int, v, e as int);
                    lemma_decimal(v);
                    assert(t.subrange(start as int, e as int)[0] == t[start as int]);
                }
            }
        }
        return None;
    }
    let ghost run = t.subrange(start as int, e as int);
    let mut v: usize = 0;
    let mut k: usize = start;
    while k < e
        invariant
            t == text@,
            run == t.subrange(start as int, e as int),
            digit_run(t, start as int, e as int),
            start <= k <= e,
            v == value(run.take(k - start)),
        decreases e - k,
    {
        let c = text.get_char(k);
        let d = (c as u32 - '0' as u32) as usize;
        assert(run.take(k + 1 - start).drop_last() =~= run.take(k - start));
        assert(run.take(k + 1 - start).last() == c);
        assert(is_digit(t[k as int]));
        if v > (usize::MAX - d) / 10 {
            proof {
                assert(value(run.take(k + 1 - start)) > usize::MAX) by (nonlinear_arith)
                    requires
                        v > (usize::MAX - d) / 10,
                        value(run.take(k + 1 - start)) == v * 10 + d,
                ;
                lemma_value_prefix(run, k + 1 - start);
                assert forall|w: nat| w <= usize::MAX implies !numeral_at(t, start as int, w) by {
                    if numeral_at(t, start as int, w) {
                        lemma_numeral_run(t, start as int, w, e as int);
                    }
                }
            }
            return None;
        }
        assert(v * 10 + d <= usize::MAX) by (nonlinear_arith)
            requires
                v <= (usize::MAX - d) / 10,
        ;
        v = v * 10 + d;
        k = k + 1;
    }
    assert(run.take(e - start) =~= run);
    Some((v, e))
}

pub(crate) fn digit_text(d: usize) -> (r: &'static str)
    requires
        d < 10,
    ensures
        r@ == seq![digit(d as nat)],
{
    proof {
        reveal_strlit("0");
        reveal_strlit("1");
        reveal_strlit("2");
        reveal_strlit("3");
        reveal_strlit("4");
        reveal_strlit("5");
        reveal_strlit("6");
        reveal_strlit("7");
        reveal_strlit("8");
        reveal_strlit("9");
    }
    let r = if d == 0 {
        "0"
    } else if d == 1 {
        "1"
    } else if d == 2 {
        "2"
    } else if d == 3 {
        "3"
    } else if d == 4 {
        "4"
    } else if d == 5 {
        "5"
    } else if d == 6 {
        "6"
    } else if d == 7 {
        "7"
    } else if d == 8 {
        "8"
    } else {
        "9"
    };
    assert(r@ =~= seq![digit(d as nat)]);
    r
}

pub(crate) fn decimal_text(n: usize) -> (r: String)
    ensures
        r@ == decimal(n as nat),
    decreases n,
{
    if n < 10 {
        digit_text(n).to_owned()
    } else {
        let mut r = decimal_text(n / 10);
        r.append(digit_text(n % 10));
        r
    }
}

} // verus!
