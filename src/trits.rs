//! Trits, hashes, and the balanced-ternary integer helpers.
use vstd::prelude::*;

verus! {

/// Trits in one hash: the rate of the sponge.
pub const HASH_LENGTH: usize = 243;

/// Trits in one fragment of a one-time private key.
pub const KEY_LENGTH: usize = 6561;

/// Trits in one tryte.
pub const TRITS_PER_TRYTE: usize = 3;

/// A trit is an `i8` in {-1, 0, 1}.
pub type Trit = i8;

pub open spec fn is_trit(t: i8) -> bool {
    -1 <= t <= 1
}

pub open spec fn is_trits(s: Seq<i8>) -> bool {
    forall|i: int| 0 <= i < s.len() ==> is_trit(#[trigger] s[i])
}

/// Balanced-ternary sum of two digits: `a + b` brought back into {-1, 0, 1}
/// modulo 3.
pub open spec fn tsum(a: int, b: int) -> i8 {
    (((a + b + 1) % 3) - 1) as i8
}

/// Digit-wise `tsum` of a sequence with the cycled key stream `k`.
pub open spec fn add_stream(s: Seq<i8>, k: Seq<i8>) -> Seq<i8> {
    Seq::new(s.len(), |i: int| tsum(s[i] as int, k[i % HASH_LENGTH as int] as int))
}

/// Digit-wise `tsum` of a sequence with the negated, cycled key stream `k`.
pub open spec fn sub_stream(s: Seq<i8>, k: Seq<i8>) -> Seq<i8> {
    Seq::new(s.len(), |i: int| tsum(s[i] as int, -k[i % HASH_LENGTH as int]))
}

pub fn trit_sum(a: i8, b: i8) -> (r: i8)
    ensures
        r == tsum(a as int, b as int),
        is_trit(r),
{
    let s: i16 = a as i16 + b as i16 + 385;
    assert((s as int) % 3 == (a + b + 1) % 3) by {
        assert(s as int == (a + b + 1) + 3 * 128);
    }
    (s % 3 - 1) as i8
}

pub fn trit_diff(a: i8, b: i8) -> (r: i8)
    ensures
        r == tsum(a as int, -b),
        is_trit(r),
{
    let s: i16 = a as i16 - b as i16 + 385;
    assert((s as int) % 3 == (a - b + 1) % 3) by {
        assert(s as int == (a - b + 1) + 3 * 128);
    }
    (s % 3 - 1) as i8
}

/// The low balanced-ternary digit of `n`.
pub open spec fn low_digit(n: nat) -> i8 {
    if n % 3 == 2 {
        -1i8
    } else {
        (n % 3) as i8
    }
}

/// What is left of `n` once its low digit is taken off.
pub open spec fn high_part(n: nat) -> nat {
    if n % 3 == 2 {
        n / 3 + 1
    } else {
        n / 3
    }
}

/// The balanced-ternary digits of `n`, least significant first, without
/// leading zeros (empty for zero).
pub open spec fn digits(n: nat) -> Seq<i8>
    decreases n,
{
    if n == 0 {
        seq![]
    } else {
        seq![low_digit(n)] + digits(high_part(n))
    }
}

/// The value of a little-endian balanced-ternary sequence.
pub open spec fn value(s: Seq<i8>) -> int
    decreases s.len(),
{
    if s.len() == 0 {
        0
    } else {
        s[0] + 3 * value(s.drop_first())
    }
}

/// The trits of `n` in as few trits as it needs, and at least one.
pub open spec fn int_trits(n: nat) -> Seq<i8> {
    if n == 0 {
        seq![0i8]
    } else {
        digits(n)
    }
}

pub proof fn lemma_digits(n: nat)
    ensures
        value(digits(n)) == n,
        is_trits(digits(n)),
        n > 0 ==> digits(n).len() > 0,
    decreases n,
{
    if n > 0 {
        lemma_digits(high_part(n));
        let s = digits(n);
        assert(s.drop_first() =~= digits(high_part(n)));
    }
}

/// Writes `n` in balanced ternary, in `min_trits(n)` trits.
pub fn int2trits(n: usize) -> (r: Vec<i8>)
    ensures
        r@ == int_trits(n as nat),
        value(r@) == n,
        is_trits(r@),
{
    proof {
        lemma_digits(n as nat);
    }
    if n == 0 {
        let r = vec![0i8];
        assert(r@ =~= seq![0i8]);
        assert(value(r@) == 0) by {
            reveal_with_fuel(value, 2);
        }
        return r;
    }
    let mut r: Vec<i8> = Vec::new();
    let mut m: usize = n;
    while m > 0
        invariant
            r@ + digits(m as nat) == digits(n as nat),
        decreases m,
    {
        let d: i8 = if m % 3 == 2 { -1 } else { (m % 3) as i8 };
        let h: usize = if m % 3 == 2 { m / 3 + 1 } else { m / 3 };
        assert(digits(m as nat) == seq![d] + digits(h as nat));
        r.push(d);
        assert(r@ + digits(h as nat) =~= digits(n as nat));
        m = h;
    }
    assert(r@ =~= digits(n as nat));
    r
}

/// The number of trits in which `int2trits` writes `n`.
pub fn min_trits(n: usize) -> (r: usize)
    ensures
        r == int_trits(n as nat).len(),
{
    let t = int2trits(n);
    t.len()
}

/// One more than `s`, modulo `3^len`, as balanced-ternary digits.
pub open spec fn incremented(s: Seq<i8>) -> Seq<i8>
    decreases s.len(),
{
    if s.len() == 0 {
        s
    } else if s[0] == 1 {
        seq![-1i8] + incremented(s.drop_first())
    } else {
        seq![(s[0] + 1) as i8] + s.drop_first()
    }
}

/// `s` incremented `n` times.
pub open spec fn incremented_by(s: Seq<i8>, n: nat) -> Seq<i8>
    decreases n,
{
    if n == 0 {
        s
    } else {
        incremented(incremented_by(s, (n - 1) as nat))
    }
}

pub proof fn lemma_incremented(s: Seq<i8>)
    requires
        is_trits(s),
    ensures
        is_trits(incremented(s)),
        incremented(s).len() == s.len(),
    decreases s.len(),
{
    if s.len() > 0 {
        lemma_incremented(s.drop_first());
    }
}

/// Adds one to the balanced-ternary integer held in `buf`, wrapping.
pub fn incr(buf: &mut Vec<i8>)
    requires
        is_trits(old(buf)@),
    ensures
        final(buf)@ == incremented(old(buf)@),
        is_trits(final(buf)@),
{
    proof {
        lemma_incremented(old(buf)@);
    }
    let ghost orig = old(buf)@;
    let mut i: usize = 0;
    let mut carry = true;
    assert(orig.subrange(0, orig.len() as int) =~= orig);
    assert(buf@.subrange(0, 0) =~= Seq::<i8>::empty());
    while carry && i < buf.len()
        invariant
            0 <= i <= buf@.len(),
            buf@.len() == orig.len(),
            is_trits(orig),
            carry ==> forall|j: int| i <= j < buf@.len() ==> buf@[j] == orig[j],
            carry ==> incremented(orig) == buf@.subrange(0, i as int) + incremented(
                orig.subrange(i as int, orig.len() as int),
            ),
            !carry ==> buf@ == incremented(orig),
        decreases buf@.len() - i + (if carry { 1int } else { 0int }),
    {
        let ghost tail = orig.subrange(i as int, orig.len() as int);
        assert(tail.drop_first() =~= orig.subrange(i + 1, orig.len() as int));
        let t = buf[i];
        let ghost before = buf@;
        if t == 1 {
            buf.set(i, -1);
            assert(buf@.subrange(0, i + 1) =~= before.subrange(0, i as int) + seq![-1i8]);
            i = i + 1;
        } else {
            buf.set(i, t + 1);
            assert(buf@.subrange(0, i as int) =~= before.subrange(0, i as int));
            assert(incremented(tail) == seq![(t + 1) as i8] + tail.drop_first());
            assert(buf@ =~= buf@.subrange(0, i as int) + incremented(tail));
            carry = false;
        }
    }
    if carry {
        assert(buf@.subrange(0, i as int) =~= buf@);
        assert(orig.subrange(i as int, orig.len() as int).len() == 0);
    }
}

/// Two trit sequences laid one after the other are trits.
pub proof fn lemma_trits_append(a: Seq<i8>, b: Seq<i8>)
    requires
        is_trits(a),
        is_trits(b),
    ensures
        is_trits(a + b),
{
    assert forall|i: int| 0 <= i < (a + b).len() implies is_trit(#[trigger] (a + b)[i]) by {
        if i >= a.len() {
            assert((a + b)[i] == b[i - a.len()]);
        }
    }
}

/// An owned copy of a slice of trits.
pub fn copy_trits(s: &[i8]) -> (r: Vec<i8>)
    ensures
        r@ == s@,
{
    let mut r: Vec<i8> = Vec::new();
    let mut i: usize = 0;
    while i < s.len()
        invariant
            i <= s@.len(),
            r@ == s@.subrange(0, i as int),
        decreases s@.len() - i,
    {
        r.push(s[i]);
        i = i + 1;
    }
    assert(r@ =~= s@);
    r
}

/// The views of a sequence of trit vectors.
pub open spec fn views(s: Seq<Vec<i8>>) -> Seq<Seq<i8>> {
    s.map_values(|v: Vec<i8>| v@)
}

/// The concatenation of a sequence of trit sequences.
pub open spec fn concat(s: Seq<Seq<i8>>) -> Seq<i8>
    decreases s.len(),
{
    if s.len() == 0 {
        seq![]
    } else {
        concat(s.drop_last()) + s.last()
    }
}

/// An owned copy of `s[from..to]`.
pub fn copy_range(s: &[i8], from: usize, to: usize) -> (r: Vec<i8>)
    requires
        from <= to <= s@.len(),
    ensures
        r@ == s@.subrange(from as int, to as int),
{
    let mut r: Vec<i8> = Vec::new();
    let mut i: usize = from;
    while i < to
        invariant
            from <= i <= to <= s@.len(),
            r@ == s@.subrange(from as int, i as int),
        decreases to - i,
    {
        r.push(s[i]);
        assert(r@ =~= s@.subrange(from as int, i + 1));
        i = i + 1;
    }
    r
}

/// Appends `s` to `out`.
pub fn append_trits(out: &mut Vec<i8>, s: &[i8])
    ensures
        final(out)@ == old(out)@ + s@,
{
    let ghost start = out@;
    let mut i: usize = 0;
    while i < s.len()
        invariant
            i <= s@.len(),
            out@ == start + s@.subrange(0, i as int),
        decreases s@.len() - i,
    {
        out.push(s[i]);
        assert(out@ =~= start + s@.subrange(0, i + 1));
        i = i + 1;
    }
    assert(s@.subrange(0, i as int) =~= s@);
}

/// Whether two trit sequences are equal.
pub fn trits_equal(a: &[i8], b: &[i8]) -> (r: bool)
    ensures
        r == (a@ == b@),
{
    if a.len() != b.len() {
        return false;
    }
    let mut i: usize = 0;
    while i < a.len()
        invariant
            a@.len() == b@.len(),
            i <= a@.len(),
            forall|j: int| 0 <= j < i ==> a@[j] == b@[j],
        decreases a@.len() - i,
    {
        if a[i] != b[i] {
            return false;
        }
        i = i + 1;
    }
    assert(a@ =~= b@);
    true
}

} // verus!
