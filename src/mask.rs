//! Masking a payload under a key stream drawn from a list of keys.
use vstd::prelude::*;
use crate::primitives::Curl;
use crate::trits::{HASH_LENGTH, add_stream, is_trit, is_trits, sub_stream, trit_diff, trit_sum, tsum, views};

verus! {

/// The key stream of a list of keys: one hash, the rate after absorbing the
/// keys in order from the zero state.
pub open spec fn key_stream<C: Curl>(keys: Seq<Seq<i8>>) -> Seq<i8> {
    C::squeeze(keys)
}

/// Adding a trit and then subtracting it again gives back the first trit.
pub proof fn lemma_tsum_cancel(p: i8, k: i8)
    requires
        is_trit(p),
        is_trit(k),
    ensures
        tsum(tsum(p as int, k as int) as int, -k) == p,
{
}

/// Unmasking a masked payload under the same keys gives back the payload.
pub proof fn lemma_unmask_mask<C: Curl>(payload: Seq<i8>, keys: Seq<Seq<i8>>)
    requires
        is_trits(payload),
    ensures
        sub_stream(add_stream(payload, key_stream::<C>(keys)), key_stream::<C>(keys)) == payload,
{
    let k = key_stream::<C>(keys);
    C::lemma_squeeze(keys);
    let m = add_stream(payload, k);
    assert forall|i: int| 0 <= i < payload.len() implies sub_stream(m, k)[i] == payload[i] by {
        let j = i % HASH_LENGTH as int;
        assert(0 <= j < HASH_LENGTH);
        lemma_tsum_cancel(payload[i], k[j]);
    }
    assert(sub_stream(m, k) =~= payload);
}

fn absorb_all<C: Curl>(keys: &[Vec<i8>], curl: &mut C)
    ensures
        final(curl).absorbed() == old(curl).absorbed() + views(keys@),
{
    let ghost start = curl.absorbed();
    let mut i: usize = 0;
    assert(views(keys@).subrange(0, 0) =~= Seq::<Seq<i8>>::empty());
    while i < keys.len()
        invariant
            i <= keys@.len(),
            curl.absorbed() == start + views(keys@).subrange(0, i as int),
        decreases keys@.len() - i,
    {
        curl.absorb(keys[i].as_slice());
        assert(start + views(keys@).subrange(0, i + 1) =~= (start + views(keys@).subrange(
            0,
            i as int,
        )).push(keys@[i as int]@));
        i = i + 1;
    }
    assert(views(keys@).subrange(0, i as int) =~= views(keys@));
}

/// Masks `payload`: each trit is added, in balanced ternary, to the trit at
/// the same place modulo one hash of the key stream of `keys`.
pub fn mask<C: Curl>(payload: &[i8], keys: &[Vec<i8>]) -> (r: Vec<i8>)
    ensures
        r@ == add_stream(payload@, key_stream::<C>(views(keys@))),
        is_trits(r@),
{
    let mut curl = C::fresh();
    absorb_all(keys, &mut curl);
    assert(curl.absorbed() =~= views(keys@));
    let stream = curl.rate();
    proof {
        C::lemma_squeeze(views(keys@));
    }
    let mut out: Vec<i8> = Vec::new();
    let mut i: usize = 0;
    while i < payload.len()
        invariant
            i <= payload@.len(),
            stream@ == key_stream::<C>(views(keys@)),
            stream@.len() == HASH_LENGTH,
            out@ == add_stream(payload@, stream@).subrange(0, i as int),
        decreases payload@.len() - i,
    {
        out.push(trit_sum(payload[i], stream[i % HASH_LENGTH]));
        assert(out@ =~= add_stream(payload@, stream@).subrange(0, i + 1));
        i = i + 1;
    }
    assert(out@ =~= add_stream(payload@, stream@));
    out
}

/// Unmasks `payload`: each trit has the trit at the same place modulo one
/// hash of the key stream of `keys` taken away, in balanced ternary.
pub fn unmask<C: Curl>(payload: &[i8], keys: &[Vec<i8>]) -> (r: Vec<i8>)
    ensures
        r@ == sub_stream(payload@, key_stream::<C>(views(keys@))),
        is_trits(r@),
{
    let mut curl = C::fresh();
    absorb_all(keys, &mut curl);
    assert(curl.absorbed() =~= views(keys@));
    let stream = curl.rate();
    proof {
        C::lemma_squeeze(views(keys@));
    }
    let mut out: Vec<i8> = Vec::new();
    let mut i: usize = 0;
    while i < payload.len()
        invariant
            i <= payload@.len(),
            stream@ == key_stream::<C>(views(keys@)),
            stream@.len() == HASH_LENGTH,
            out@ == sub_stream(payload@, stream@).subrange(0, i as int),
        decreases payload@.len() - i,
    {
        out.push(trit_diff(payload[i], stream[i % HASH_LENGTH]));
        assert(out@ =~= sub_stream(payload@, stream@).subrange(0, i + 1));
        i = i + 1;
    }
    assert(out@ =~= sub_stream(payload@, stream@));
    out
}

/// The identifier of a message: the rate after absorbing the rate that
/// `keys`, absorbed onto `curl`'s current state, leaves. `curl` is left
/// holding that inner rate.
pub fn message_id<C: Curl>(keys: &[Vec<i8>], curl: &mut C) -> (r: Vec<i8>)
    ensures
        r@ == C::squeeze(seq![C::squeeze(old(curl).absorbed() + views(keys@))]),
        final(curl).absorbed() == seq![C::squeeze(old(curl).absorbed() + views(keys@))],
{
    absorb_all(keys, curl);
    let inner = curl.rate();
    curl.reset();
    curl.absorb(inner.as_slice());
    assert(curl.absorbed() =~= seq![inner@]);
    curl.rate()
}

} // verus!
