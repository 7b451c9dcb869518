//! A self-delimiting length prefix: each balanced-ternary digit of the
//! number, least significant first, is followed by a marker trit that is 1
//! when more digits follow and 0 after the last one.
use vstd::prelude::*;
use crate::trits::{digits, high_part, is_trit, is_trits, low_digit};

verus! {

/// The most digits a prefix may carry: enough for every `usize`.
pub const MAX_DIGITS: usize = 42;

/// The prefix of `n`.
pub open spec fn encoded(n: nat) -> Seq<i8>
    decreases n,
{
    if high_part(n) == 0 {
        seq![low_digit(n), 0i8]
    } else {
        seq![low_digit(n), 1i8] + encoded(high_part(n))
    }
}

/// The value and length of the prefix at the head of `buf`, of any size, or
/// `None` when `buf` ends inside it or a marker is neither 0 nor 1.
pub open spec fn read(buf: Seq<i8>) -> Option<(int, nat)>
    decreases buf.len(),
{
    if buf.len() < 2 {
        None
    } else if buf[1] == 0 {
        Some((buf[0] as int, 2))
    } else if buf[1] == 1 {
        match read(buf.subrange(2, buf.len() as int)) {
            Some((v, c)) => Some((buf[0] + 3 * v, c + 2)),
            None => None,
        }
    } else {
        None
    }
}

/// What `decode` returns: the prefix at the head of `buf` when it ends, has at
/// most `MAX_DIGITS` digits, and its value fits a `usize`.
pub open spec fn decoded(buf: Seq<i8>) -> Option<(nat, nat)> {
    match read(buf) {
        Some((v, c)) => if c <= 2 * MAX_DIGITS && 0 <= v <= usize::MAX {
            Some((v as nat, c))
        } else {
            None
        },
        None => None,
    }
}

pub open spec fn pow3(m: nat) -> int
    decreases m,
{
    if m == 0 {
        1
    } else {
        3 * pow3((m - 1) as nat)
    }
}

proof fn lemma_pow3_odd(m: nat)
    ensures
        pow3(m) % 2 == 1,
        pow3(m) >= 1,
    decreases m,
{
    if m > 0 {
        lemma_pow3_odd((m - 1) as nat);
    }
}

proof fn lemma_pow3_top()
    ensures
        pow3(42) == 109418989131512359209,
        pow3(43) == 328256967394537077627,
{
    reveal_with_fuel(pow3, 44);
}

proof fn lemma_pow3_mono(a: nat, b: nat)
    requires
        a <= b,
    ensures
        pow3(a) <= pow3(b),
    decreases b,
{
    if a < b {
        lemma_pow3_mono(a, (b - 1) as nat);
        lemma_pow3_odd((b - 1) as nat);
    }
}

/// A scan that met no final marker where one was due finds no prefix.
proof fn lemma_read_unfinished(buf: Seq<i8>, count: nat)
    requires
        count + 1 <= MAX_DIGITS,
        forall|k: int| 0 <= k < count ==> #[trigger] buf[2 * k + 1] == 1 && 2 * k + 1 < buf.len(),
        2 * count + 1 >= buf.len() || buf[2 * count + 1 as int] != 0,
        count + 1 == MAX_DIGITS || 2 * count + 1 >= buf.len() || buf[2 * count + 1 as int] != 1,
    ensures
        decoded(buf) is None,
{
    lemma_read_tail(buf, count, 0);
    assert(buf.subrange(0, buf.len() as int) =~= buf);
}

proof fn lemma_read_tail(buf: Seq<i8>, count: nat, k: nat)
    requires
        k <= count,
        count + 1 <= MAX_DIGITS,
        forall|j: int| 0 <= j < count ==> #[trigger] buf[2 * j + 1] == 1 && 2 * j + 1 < buf.len(),
        2 * count + 1 >= buf.len() || buf[2 * count + 1 as int] != 0,
        count + 1 == MAX_DIGITS || 2 * count + 1 >= buf.len() || buf[2 * count + 1 as int] != 1,
    ensures
        2 * k <= buf.len(),
        match read(buf.subrange(2 * k as int, buf.len() as int)) {
            Some((v, c)) => count + 1 == MAX_DIGITS && c >= 2 * (count - k) + 4,
            None => true,
        },
    decreases count - k,
{
    let t = buf.subrange(2 * k as int, buf.len() as int);
    if count > 0 {
        assert(buf[2 * (count - 1) + 1 as int] == 1);
    }
    if k < count {
        lemma_read_tail(buf, count, k + 1);
        assert(buf[2 * k + 1 as int] == 1);
        assert(t[1] == 1 && t.len() >= 2);
        assert(t.subrange(2, t.len() as int) =~= buf.subrange(2 * (k + 1) as int, buf.len() as int));
    } else if 2 * count + 1 < buf.len() {
        assert(t[1] == buf[2 * count + 1 as int]);
        let u = t.subrange(2, t.len() as int);
        if u.len() >= 2 && (u[1] == 0 || u[1] == 1) {
            assert(match read(u) {
                Some((_, c)) => c >= 2,
                None => true,
            });
        }
    }
}

proof fn lemma_digits_fit(n: nat, k: nat)
    requires
        2 * n + 1 <= pow3(k),
    ensures
        digits(n).len() <= k,
    decreases n,
{
    if n > 0 {
        lemma_pow3_odd((k - 1) as nat);
        assert(k > 0);
        let m = (pow3((k - 1) as nat) - 1) / 2;
        assert(pow3((k - 1) as nat) == 2 * m + 1);
        assert(2 * high_part(n) + 1 <= pow3((k - 1) as nat));
        lemma_digits_fit(high_part(n), (k - 1) as nat);
    }
}

proof fn lemma_encoded_len(n: nat)
    ensures
        encoded(n).len() == 2 * (if n == 0 { 1 } else { digits(n).len() }),
    decreases n,
{
    crate::trits::lemma_digits(n);
    if high_part(n) != 0 {
        lemma_encoded_len(high_part(n));
        crate::trits::lemma_digits(high_part(n));
    } else if n > 0 {
        assert(digits(high_part(n)).len() == 0);
    }
}

/// Every `usize` has a prefix of at most `MAX_DIGITS` digits.
pub proof fn lemma_encoded_fits(n: nat)
    requires
        n <= usize::MAX,
    ensures
        encoded(n).len() <= 2 * MAX_DIGITS,
{
    lemma_pow3_top();
    lemma_digits_fit(n, 42);
    lemma_encoded_len(n);
}

proof fn lemma_read_encoded(n: nat, rest: Seq<i8>)
    ensures
        read(encoded(n) + rest) == Some((n as int, encoded(n).len())),
    decreases n,
{
    let buf = encoded(n) + rest;
    if high_part(n) != 0 {
        lemma_read_encoded(high_part(n), rest);
        assert(buf.subrange(2, buf.len() as int) =~= encoded(high_part(n)) + rest);
    } else {
        assert(buf[1] == 0);
    }
}

/// Decoding the prefix of a `usize` gives back the number and the prefix's
/// length, whatever follows it.
pub proof fn lemma_round_trip(n: nat, rest: Seq<i8>)
    requires
        n <= usize::MAX,
    ensures
        decoded(encoded(n) + rest) == Some((n, encoded(n).len())),
{
    lemma_read_encoded(n, rest);
    lemma_encoded_fits(n);
}

/// A prefix is made of trits.
pub proof fn lemma_encoded_trits(n: nat)
    ensures
        is_trits(encoded(n)),
    decreases n,
{
    let e = encoded(n);
    if high_part(n) != 0 {
        lemma_encoded_trits(high_part(n));
        assert forall|i: int| 0 <= i < e.len() implies is_trit(#[trigger] e[i]) by {
            if i >= 2 {
                assert(e[i] == encoded(high_part(n))[i - 2]);
            }
        }
    }
}

/// The prefix of `n`.
pub fn encode(n: usize) -> (r: Vec<i8>)
    ensures
        r@ == encoded(n as nat),
        r@.len() <= 2 * MAX_DIGITS,
{
    proof {
        lemma_encoded_fits(n as nat);
    }
    let mut r: Vec<i8> = Vec::new();
    let mut m: usize = n;
    let mut more = true;
    while more
        invariant
            more ==> r@ + encoded(m as nat) == encoded(n as nat),
            !more ==> r@ == encoded(n as nat),
        decreases m + (if more { 1int } else { 0int }),
    {
        let d: i8 = if m % 3 == 2 { -1 } else { (m % 3) as i8 };
        let h: usize = if m % 3 == 2 { m / 3 + 1 } else { m / 3 };
        r.push(d);
        if h == 0 {
            r.push(0);
            assert(r@ =~= encoded(n as nat));
            more = false;
        } else {
            r.push(1);
            assert(r@ + encoded(h as nat) =~= encoded(n as nat));
            m = h;
        }
    }
    r
}

/// The value of the prefix at the head of `buf` and the number of trits it
/// takes, or `None` when the prefix is malformed: `buf` ends inside it, it
/// has more than `MAX_DIGITS` digits, or its value is not a `usize`.
pub fn decode(buf: &[i8]) -> (r: Option<(usize, usize)>)
    ensures
        r matches Some((v, c)) ==> decoded(buf@) == Some((v as nat, c as nat)) && c <= buf@.len(),
        r is None ==> decoded(buf@) is None,
{
    let len = buf.len();
    let mut count: usize = 0;
    while count + 1 < MAX_DIGITS && 2 * count + 1 < len && buf[2 * count + 1] == 1
        invariant
            count + 1 <= MAX_DIGITS,
            len == buf@.len(),
            forall|k: int| 0 <= k < count ==> #[trigger] buf@[2 * k + 1] == 1 && 2 * k + 1 < len,
        decreases MAX_DIGITS - count,
    {
        count = count + 1;
    }
    // the last digit's marker must be 0
    if 2 * count + 1 >= len || buf[2 * count + 1] != 0 {
        proof {
            lemma_read_unfinished(buf@, count as nat);
        }
        return None;
    }
    let ghost end = (2 * count + 2) as nat;
    proof {
        lemma_pow3_top();
        lemma_pow3_mono(1, MAX_DIGITS as nat + 1);
        reveal_with_fuel(pow3, 2);
        let t = buf@.subrange(2 * count as int, len as int);
        assert(t[1] == 0);
    }
    let mut v: i128 = buf[2 * count] as i128;
    let mut k: usize = count;
    let ghost mut b: int = 128;
    while k > 0
        invariant
            k <= count <= MAX_DIGITS,
            len == buf@.len(),
            2 * count + 1 < len,
            end == 2 * count + 2,
            forall|j: int| 0 <= j < count ==> #[trigger] buf@[2 * j + 1] == 1 && 2 * j + 1 < len,
            read(buf@.subrange(2 * k as int, len as int)) == Some((v as int, (end - 2 * k) as nat)),
            b == 64 * (pow3((count - k + 1) as nat) - 1),
            -b <= v <= b,
            pow3((count - k + 1) as nat) <= pow3(MAX_DIGITS as nat + 1),
        decreases k,
    {
        let ghost tail = buf@.subrange(2 * (k - 1), len as int);
        assert(buf@[2 * (k - 1) + 1] == 1);
        assert(tail[1] == 1 && tail.len() >= 2 && tail[0] == buf@[2 * k - 2]);
        assert(tail.subrange(2, tail.len() as int) =~= buf@.subrange(2 * k as int, len as int));
        proof {
            lemma_pow3_top();
            lemma_pow3_mono((count - k + 2) as nat, MAX_DIGITS as nat + 1);
        }
        v = buf[2 * k - 2] as i128 + 3 * v;
        k = k - 1;
        proof {
            b = 3 * b + 128;
        }
    }
    assert(buf@.subrange(0, len as int) =~= buf@);
    if v < 0 || v > usize::MAX as i128 {
        return None;
    }
    Some((v as usize, 2 * count + 2))
}

} // verus!
