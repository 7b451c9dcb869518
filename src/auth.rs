//! Signing a message into the payload layout, and authenticating a payload
//! against a known root.
use vstd::prelude::*;
use crate::merkle::{fold_root, root};
use crate::pascal::{decode, decoded, encode, encoded};
use crate::primitives::{Curl, HammingNonce, Iss};
use crate::trits::{
    HASH_LENGTH, KEY_LENGTH, TRITS_PER_TRYTE, append_trits, concat, copy_range, int2trits,
    int_trits, is_trit, is_trits, trits_equal, views,
};

verus! {

/// Why a payload is refused.
#[derive(Clone, Copy, Debug, PartialEq, Eq, Structural)]
pub enum MamError {
    /// The hash of the message and nonce admits no security level.
    InvalidHash,
    /// The signature's leaf and the siblings do not fold to the root.
    InvalidSignature,
    /// A length prefix is malformed or a field runs past the payload's end.
    MalformedPayload,
}

/// The hash a signature covers: the sponge's rate after absorbing the
/// message length in trytes, the message, and the nonce.
pub open spec fn bundle_hash<C: Curl>(length: nat, message: Seq<i8>, nonce: Seq<i8>) -> Seq<i8> {
    C::squeeze(seq![int_trits(length), message, nonce])
}

/// The plaintext payload: prefixed message, prefixed nonce, signature,
/// prefixed sibling count, and the siblings one after another.
pub open spec fn layout(
    message: Seq<i8>,
    nonce: Seq<i8>,
    signature: Seq<i8>,
    siblings: Seq<Seq<i8>>,
) -> Seq<i8> {
    encoded(message.len() / 3) + message + encoded(nonce.len() / 3) + nonce + signature
        + encoded(siblings.len()) + concat(siblings)
}

/// `count` hashes laid one after another in `s`.
pub open spec fn chunks(s: Seq<i8>, count: nat) -> Seq<Seq<i8>> {
    Seq::new(
        count,
        |i: int| s.subrange(i * HASH_LENGTH as int, (i + 1) * HASH_LENGTH as int),
    )
}

/// The payload `sign` returns for a message (next root first) and a nonce,
/// or `None` when the nonce's hash does not admit `security`.
pub open spec fn signed<C: Curl, I: Iss>(
    message: Seq<i8>,
    nonce: Seq<i8>,
    key: Seq<i8>,
    siblings: Seq<Seq<i8>>,
    security: nat,
) -> Option<Seq<i8>> {
    let hash = bundle_hash::<C>(message.len() / 3, message, nonce);
    if I::security_of(hash) == security {
        Some(layout(message, nonce, I::signature_of(hash, key), siblings))
    } else {
        None
    }
}

/// What `authenticate` returns: the user message and the next root, or why
/// the payload is refused.
pub open spec fn authenticated<C: Curl, I: Iss>(p: Seq<i8>, root: Seq<i8>, index: nat) -> Result<
    (Seq<i8>, Seq<i8>),
    MamError,
> {
    match decoded(p) {
        None => Err(MamError::MalformedPayload),
        Some((l, e)) => {
            let m_end = e + 3 * l;
            if m_end > p.len() || 3 * l < HASH_LENGTH {
                Err(MamError::MalformedPayload)
            } else {
                let message = p.subrange(e as int, m_end as int);
                match decoded(p.subrange(m_end as int, p.len() as int)) {
                    None => Err(MamError::MalformedPayload),
                    Some((nl, ne)) => {
                        let n_start = m_end + ne;
                        let n_end = n_start + 3 * nl;
                        if n_end > p.len() {
                            Err(MamError::MalformedPayload)
                        } else {
                            let nonce = p.subrange(n_start as int, n_end as int);
                            let hash = bundle_hash::<C>(l, message, nonce);
                            let s = I::security_of(hash);
                            let s_end = n_end + s * KEY_LENGTH;
                            if s == 0 {
                                Err(MamError::InvalidHash)
                            } else if s_end > p.len() {
                                Err(MamError::MalformedPayload)
                            } else {
                                let sig = p.subrange(n_end as int, s_end as int);
                                match decoded(p.subrange(s_end as int, p.len() as int)) {
                                    None => Err(MamError::MalformedPayload),
                                    Some((count, ce)) => {
                                        let h_start = s_end + ce;
                                        let h_end = h_start + count * HASH_LENGTH;
                                        if h_end > p.len() {
                                            Err(MamError::MalformedPayload)
                                        } else {
                                            let sibs = chunks(
                                                p.subrange(h_start as int, h_end as int),
                                                count,
                                            );
                                            let leaf = I::address_of(I::recovered_of(hash, sig));
                                            if fold_root::<C>(leaf, sibs, index) == root {
                                                Ok(
                                                    (
                                                        message.subrange(
                                                            HASH_LENGTH as int,
                                                            message.len() as int,
                                                        ),
                                                        message.subrange(0, HASH_LENGTH as int),
                                                    ),
                                                )
                                            } else {
                                                Err(MamError::InvalidSignature)
                                            }
                                        }
                                    },
                                }
                            }
                        }
                    },
                }
            }
        },
    }
}

/// The views of an authentication result.
pub open spec fn result_view(r: Result<(Vec<i8>, Vec<i8>), MamError>) -> Result<
    (Seq<i8>, Seq<i8>),
    MamError,
> {
    match r {
        Ok((m, n)) => Ok((m@, n@)),
        Err(e) => Err(e),
    }
}

/// Hashes laid one after another are cut back into the same hashes.
pub proof fn lemma_chunks_concat(s: Seq<Seq<i8>>)
    requires
        forall|i: int| 0 <= i < s.len() ==> (#[trigger] s[i]).len() == HASH_LENGTH,
    ensures
        concat(s).len() == s.len() * HASH_LENGTH,
        chunks(concat(s), s.len()) == s,
    decreases s.len(),
{
    if s.len() > 0 {
        let d = s.drop_last();
        lemma_chunks_concat(d);
        let c = concat(s);
        assert(c == concat(d) + s.last());
        assert forall|i: int| 0 <= i < s.len() implies chunks(c, s.len())[i] == s[i] by {
            if i < s.len() - 1 {
                assert(chunks(concat(d), d.len())[i] == d[i]);
                assert(c.subrange(i * HASH_LENGTH as int, (i + 1) * HASH_LENGTH as int) =~= concat(
                    d,
                ).subrange(i * HASH_LENGTH as int, (i + 1) * HASH_LENGTH as int));
            } else {
                assert(c.subrange(i * HASH_LENGTH as int, (i + 1) * HASH_LENGTH as int) =~= s.last());
            }
        }
        assert(chunks(c, s.len()) =~= s);
    }
}

/// Trit sequences laid one after another are trits.
pub proof fn lemma_concat_trits(s: Seq<Seq<i8>>)
    requires
        forall|i: int| 0 <= i < s.len() ==> is_trits(#[trigger] s[i]),
    ensures
        is_trits(concat(s)),
    decreases s.len(),
{
    if s.len() > 0 {
        lemma_concat_trits(s.drop_last());
        let c = concat(s);
        let d = concat(s.drop_last());
        assert forall|i: int| 0 <= i < c.len() implies is_trit(#[trigger] c[i]) by {
            if i >= d.len() {
                assert(c[i] == s.last()[i - d.len()]);
            }
        }
    }
}

/// A payload that `sign` laid out for a key whose leaf folds with the
/// siblings to `root` authenticates against `root`, giving back the user
/// message and the next root.
#[verifier::rlimit(40)]
pub proof fn lemma_authenticate_signed<C: Curl, I: Iss>(
    message: Seq<i8>,
    nonce: Seq<i8>,
    key: Seq<i8>,
    siblings: Seq<Seq<i8>>,
    security: nat,
    index: nat,
    root: Seq<i8>,
)
    requires
        message.len() % 3 == 0,
        HASH_LENGTH <= message.len(),
        message.len() / 3 <= usize::MAX,
        nonce.len() % 3 == 0,
        nonce.len() <= usize::MAX,
        siblings.len() <= usize::MAX,
        forall|i: int| 0 <= i < siblings.len() ==> (#[trigger] siblings[i]).len() == HASH_LENGTH,
        1 <= security <= 3,
        key.len() == security * KEY_LENGTH,
        signed::<C, I>(message, nonce, key, siblings, security) is Some,
        fold_root::<C>(I::address_of(I::digest_of(key)), siblings, index) == root,
    ensures
        authenticated::<C, I>(
            signed::<C, I>(message, nonce, key, siblings, security)->0,
            root,
            index,
        ) == Ok::<(Seq<i8>, Seq<i8>), MamError>(
            (message.subrange(HASH_LENGTH as int, message.len() as int), message.subrange(0, HASH_LENGTH as int)),
        ),
{
    let l = message.len() / 3;
    let hash = bundle_hash::<C>(l, message, nonce);
    let sig = I::signature_of(hash, key);
    I::lemma_shapes(hash, key, seq![], seq![], security);
    I::lemma_recover(hash, key);
    lemma_chunks_concat(siblings);
    let l0 = encoded(l);
    let n0 = encoded(nonce.len() / 3);
    let s0 = encoded(siblings.len());
    let cat = concat(siblings);
    let p = layout(message, nonce, sig, siblings);
    assert(signed::<C, I>(message, nonce, key, siblings, security)->0 == p);
    let e = l0.len();
    let m_end = e + message.len();
    let ne = n0.len();
    let n_start = m_end + ne;
    let n_end = n_start + nonce.len();
    let s_end = n_end + sig.len();
    let ce = s0.len();
    let h_start = s_end + ce;
    assert(p.len() == h_start + cat.len());
    crate::pascal::lemma_round_trip(l, message + n0 + nonce + sig + s0 + cat);
    assert(p =~= l0 + (message + n0 + nonce + sig + s0 + cat));
    assert(p.subrange(e as int, m_end as int) =~= message);
    crate::pascal::lemma_round_trip(nonce.len() / 3, nonce + sig + s0 + cat);
    assert(p.subrange(m_end as int, p.len() as int) =~= n0 + (nonce + sig + s0 + cat));
    assert(p.subrange(n_start as int, n_end as int) =~= nonce);
    assert(p.subrange(n_end as int, s_end as int) =~= sig);
    crate::pascal::lemma_round_trip(siblings.len(), cat);
    assert(p.subrange(s_end as int, p.len() as int) =~= s0 + cat);
    assert(p.subrange(h_start as int, p.len() as int) =~= cat);
}

/// The hash a signature covers, computed with `curl`.
pub fn payload_hash<C: Curl>(length: usize, message: &[i8], nonce: &[i8], curl: &mut C) -> (r: Vec<i8>)
    ensures
        r@ == bundle_hash::<C>(length as nat, message@, nonce@),
        final(curl).absorbed() == Seq::<Seq<i8>>::empty(),
{
    let len_trits = int2trits(length);
    curl.reset();
    curl.absorb(len_trits.as_slice());
    curl.absorb(message);
    curl.absorb(nonce);
    assert(curl.absorbed() =~= seq![int_trits(length as nat), message@, nonce@]);
    let r = curl.rate();
    curl.reset();
    r
}

/// Lays out a signed payload for `message` (the next root followed by the
/// user message) with a given `nonce`; `None` when the nonce's hash does not
/// admit `security`.
pub fn sign_with_nonce<C: Curl, I: Iss>(
    message: &[i8],
    nonce: &[i8],
    key: &[i8],
    hashes: &[Vec<i8>],
    security: u8,
    curl: &mut C,
) -> (r: Option<Vec<i8>>)
    requires
        message@.len() % 3 == 0,
        nonce@.len() % 3 == 0,
    ensures
        r matches Some(p) ==> signed::<C, I>(message@, nonce@, key@, views(hashes@), security as nat)
            == Some(p@),
        r is None ==> signed::<C, I>(message@, nonce@, key@, views(hashes@), security as nat) is None,
        final(curl).absorbed() == Seq::<Seq<i8>>::empty(),
{
    let length = message.len() / TRITS_PER_TRYTE;
    let hash = payload_hash(length, message, nonce, curl);
    if I::checksum_security(hash.as_slice()) != security {
        return None;
    }
    let signature = I::signature(hash.as_slice(), key);
    let mut out = encode(length);
    append_trits(&mut out, message);
    let nonce_prefix = encode(nonce.len() / TRITS_PER_TRYTE);
    append_trits(&mut out, nonce_prefix.as_slice());
    append_trits(&mut out, nonce);
    append_trits(&mut out, signature.as_slice());
    let count_prefix = encode(hashes.len());
    append_trits(&mut out, count_prefix.as_slice());
    let ghost head = out@;
    let mut i: usize = 0;
    assert(views(hashes@).subrange(0, 0) =~= Seq::<Seq<i8>>::empty());
    while i < hashes.len()
        invariant
            i <= hashes@.len(),
            out@ == head + concat(views(hashes@).subrange(0, i as int)),
        decreases hashes@.len() - i,
    {
        append_trits(&mut out, hashes[i].as_slice());
        assert(views(hashes@).subrange(0, i + 1).drop_last() =~= views(hashes@).subrange(0, i as int));
        assert(out@ =~= head + concat(views(hashes@).subrange(0, i + 1)));
        i = i + 1;
    }
    assert(views(hashes@).subrange(0, i as int) =~= views(hashes@));
    assert(out@ =~= layout(message@, nonce@, signature@, views(hashes@)));
    Some(out)
}

/// The payload `sign` lays out for `message` (the next root followed by
/// the user message): the nonce `H` finds, and the signature of the bundle
/// hash; `None` when the search gives up.
pub open spec fn signed_by_search<C: Curl, I: Iss, H: HammingNonce<C, I>>(
    message: Seq<i8>,
    key: Seq<i8>,
    siblings: Seq<Seq<i8>>,
    security: nat,
) -> Option<Seq<i8>> {
    match H::found(message, TRITS_PER_TRYTE as nat, security) {
        Some(nonce) => Some(
            layout(
                message,
                nonce,
                I::signature_of(bundle_hash::<C>(message.len() / 3, message, nonce), key),
                siblings,
            ),
        ),
        None => None,
    }
}

/// Signs `message_in` with the next root `next` in front of it: searches a
/// nonce, signs the bundle hash with `key`, and lays out the payload. `None`
/// when the search gives up.
pub fn sign<C: Curl, I: Iss, H: HammingNonce<C, I>>(
    message_in: &[i8],
    next: &[i8],
    key: &[i8],
    hashes: &[Vec<i8>],
    security: u8,
    curl: &mut C,
) -> (r: Option<Vec<i8>>)
    requires
        next@.len() == HASH_LENGTH,
        message_in@.len() % 3 == 0,
        1 <= security <= 3,
        key@.len() == security * KEY_LENGTH,
    ensures
        match r {
            Some(p) => signed_by_search::<C, I, H>(
                next@ + message_in@,
                key@,
                views(hashes@),
                security as nat,
            ) == Some(p@),
            None => signed_by_search::<C, I, H>(
                next@ + message_in@,
                key@,
                views(hashes@),
                security as nat,
            ) is None,
        },
        r matches Some(p) ==> exists|nonce: Seq<i8>|
            is_trits(nonce) && nonce.len() % 3 == 0 && H::found(
                next@ + message_in@,
                TRITS_PER_TRYTE as nat,
                security as nat,
            ) == Some(nonce) && #[trigger] signed::<C, I>(
                next@ + message_in@,
                nonce,
                key@,
                views(hashes@),
                security as nat,
            ) == Some(p@),
        final(curl).absorbed() == Seq::<Seq<i8>>::empty(),
{
    let mut message = crate::trits::copy_trits(next);
    append_trits(&mut message, message_in);
    match H::search(message.as_slice(), TRITS_PER_TRYTE as u8, security) {
        Some(nonce) => {
            let r = sign_with_nonce::<C, I>(
                message.as_slice(),
                nonce.as_slice(),
                key,
                hashes,
                security,
                curl,
            );
            assert(r is Some);
            r
        },
        None => {
            curl.reset();
            None
        },
    }
}

/// Authenticates a plaintext payload against `expected_root` at position
/// `index`: reads the message and nonce, recomputes their hash, recovers the
/// signer's leaf from the signature, folds it with the siblings, and on a
/// match returns the user message and the next root.
pub fn authenticate<C: Curl, I: Iss>(
    payload: &[i8],
    expected_root: &[i8],
    index: usize,
    curl: &mut C,
) -> (r: Result<(Vec<i8>, Vec<i8>), MamError>)
    ensures
        result_view(r) == authenticated::<C, I>(payload@, expected_root@, index as nat),
        final(curl).absorbed() == Seq::<Seq<i8>>::empty(),
{
    curl.reset();
    let p = payload;
    let len = p.len();
    let (l, e) = match decode(p) {
        Some(d) => d,
        None => return Err(MamError::MalformedPayload),
    };
    if l > (len - e) / 3 || 3 * l < HASH_LENGTH {
        return Err(MamError::MalformedPayload);
    }
    let m_end = e + 3 * l;
    let message = copy_range(p, e, m_end);
    let after_message = copy_range(p, m_end, len);
    let (nl, ne) = match decode(after_message.as_slice()) {
        Some(d) => d,
        None => return Err(MamError::MalformedPayload),
    };
    let n_start = m_end + ne;
    if nl > (len - n_start) / 3 {
        return Err(MamError::MalformedPayload);
    }
    let n_end = n_start + 3 * nl;
    let nonce = copy_range(p, n_start, n_end);
    let hash = payload_hash(l, message.as_slice(), nonce.as_slice(), curl);
    let s = I::checksum_security(hash.as_slice());
    if s == 0 {
        return Err(MamError::InvalidHash);
    }
    let sig_len: usize = s as usize * KEY_LENGTH;
    if sig_len > len - n_end {
        return Err(MamError::MalformedPayload);
    }
    let s_end = n_end + sig_len;
    let signature = copy_range(p, n_end, s_end);
    let after_signature = copy_range(p, s_end, len);
    let (count, ce) = match decode(after_signature.as_slice()) {
        Some(d) => d,
        None => return Err(MamError::MalformedPayload),
    };
    let h_start = s_end + ce;
    if count > (len - h_start) / HASH_LENGTH {
        return Err(MamError::MalformedPayload);
    }
    let h_end = h_start + count * HASH_LENGTH;
    let ghost sibs = chunks(p@.subrange(h_start as int, h_end as int), count as nat);
    let mut siblings: Vec<Vec<i8>> = Vec::new();
    let mut k: usize = 0;
    while k < count
        invariant
            k <= count,
            h_end == h_start + count * HASH_LENGTH,
            h_end <= len == p@.len(),
            sibs == chunks(p@.subrange(h_start as int, h_end as int), count as nat),
            views(siblings@) == sibs.subrange(0, k as int),
        decreases count - k,
    {
        assert(h_start + (k + 1) * HASH_LENGTH <= h_end) by (nonlinear_arith)
            requires
                k < count,
                h_end == h_start + count * HASH_LENGTH,
        ;
        let from = h_start + k * HASH_LENGTH;
        let chunk = copy_range(p, from, from + HASH_LENGTH);
        assert(chunk@ =~= sibs[k as int]);
        let ghost s0 = siblings@;
        assert(views(s0).len() == k);
        siblings.push(chunk);
        assert(views(siblings@) =~= sibs.subrange(0, k + 1));
        k = k + 1;
    }
    assert(views(siblings@) =~= sibs);
    let digest = I::digest_bundle_signature(hash.as_slice(), signature.as_slice());
    let leaf = I::address(digest.as_slice());
    let calculated = root(leaf.as_slice(), siblings.as_slice(), index, curl);
    if trits_equal(calculated.as_slice(), expected_root) {
        let next_root = copy_range(message.as_slice(), 0, HASH_LENGTH);
        let message_out = copy_range(message.as_slice(), HASH_LENGTH, message.len());
        Ok((message_out, next_root))
    } else {
        Err(MamError::InvalidSignature)
    }
}

} // verus!
