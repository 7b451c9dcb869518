//! The capabilities the channel core consumes: a trit sponge, a one-time
//! signature scheme, and a nonce search. Each is a trait whose contract is
//! stated over a mathematical model, so that every implementation plugs in.
use vstd::prelude::*;
use crate::auth::bundle_hash;
use crate::trits::{HASH_LENGTH, KEY_LENGTH, TRITS_PER_TRYTE, is_trits};

verus! {

/// A trit sponge such as Curl.
///
/// Its abstract state is the list of inputs absorbed since the last reset,
/// call by call; its rate is a pure function of that list.
pub trait Curl: Sized {
    /// Inputs absorbed since the last reset, in order.
    spec fn absorbed(&self) -> Seq<Seq<i8>>;

    /// The rate after absorbing `log` from the zero state.
    spec fn squeeze(log: Seq<Seq<i8>>) -> Seq<i8>;

    /// The rate is always one hash of valid trits.
    proof fn lemma_squeeze(log: Seq<Seq<i8>>)
        ensures
            Self::squeeze(log).len() == HASH_LENGTH,
            is_trits(Self::squeeze(log)),
    ;

    fn fresh() -> (r: Self)
        ensures
            r.absorbed() == Seq::<Seq<i8>>::empty(),
    ;

    fn absorb(&mut self, input: &[i8])
        ensures
            final(self).absorbed() == old(self).absorbed().push(input@),
    ;

    fn reset(&mut self)
        ensures
            final(self).absorbed() == Seq::<Seq<i8>>::empty(),
    ;

    fn rate(&self) -> (r: Vec<i8>)
        ensures
            r@ == Self::squeeze(self.absorbed()),
    ;
}

/// The rate of a sponge after absorbing exactly `a` from the zero state.
pub open spec fn hash_one<C: Curl>(a: Seq<i8>) -> Seq<i8> {
    C::squeeze(seq![a])
}

/// The rate of a sponge after absorbing `a` then `b` from the zero state.
pub open spec fn hash_two<C: Curl>(a: Seq<i8>, b: Seq<i8>) -> Seq<i8> {
    C::squeeze(seq![a, b])
}

/// A Winternitz-style one-time signature scheme such as ISS.
pub trait Iss {
    /// The subseed derived from a seed.
    spec fn subseed_of(seed: Seq<i8>) -> Seq<i8>;

    /// The private key of `security` fragments expanded from a subseed.
    spec fn key_of(subseed: Seq<i8>, security: nat) -> Seq<i8>;

    /// The digest of a private key.
    spec fn digest_of(key: Seq<i8>) -> Seq<i8>;

    /// The address (Merkle leaf) of a digest.
    spec fn address_of(digest: Seq<i8>) -> Seq<i8>;

    /// The signature of a hash under a private key.
    spec fn signature_of(hash: Seq<i8>, key: Seq<i8>) -> Seq<i8>;

    /// The digest recovered from a hash and a signature.
    spec fn recovered_of(hash: Seq<i8>, signature: Seq<i8>) -> Seq<i8>;

    /// The security level a hash admits, 0 when it admits none.
    spec fn security_of(hash: Seq<i8>) -> nat;

    /// A signature made with a key of the security a hash admits recovers
    /// that key's digest.
    proof fn lemma_recover(hash: Seq<i8>, key: Seq<i8>)
        requires
            Self::security_of(hash) >= 1,
            key.len() == Self::security_of(hash) * KEY_LENGTH,
        ensures
            Self::recovered_of(hash, Self::signature_of(hash, key)) == Self::digest_of(key),
    ;

    /// The shapes of the scheme's outputs.
    proof fn lemma_shapes(hash: Seq<i8>, key: Seq<i8>, digest: Seq<i8>, subseed: Seq<i8>, security: nat)
        ensures
            is_trits(key) ==> is_trits(Self::signature_of(hash, key)),
            key.len() % (HASH_LENGTH as nat) == 0 ==> Self::signature_of(hash, key).len() == key.len(),
            is_trits(Self::address_of(digest)),
            Self::address_of(digest).len() == HASH_LENGTH,
            1 <= security <= 3 ==> Self::key_of(subseed, security).len() == security * KEY_LENGTH,
            is_trits(Self::key_of(subseed, security)),
    ;

    fn subseed(seed: &[i8]) -> (r: Vec<i8>)
        ensures
            r@ == Self::subseed_of(seed@),
    ;

    fn key(subseed: &[i8], security: u8) -> (r: Vec<i8>)
        requires
            1 <= security <= 3,
        ensures
            r@ == Self::key_of(subseed@, security as nat),
            r@.len() == security * KEY_LENGTH,
    ;

    fn digest_key(key: &[i8]) -> (r: Vec<i8>)
        ensures
            r@ == Self::digest_of(key@),
    ;

    fn address(digest: &[i8]) -> (r: Vec<i8>)
        ensures
            r@ == Self::address_of(digest@),
            r@.len() == HASH_LENGTH,
    ;

    fn signature(hash: &[i8], key: &[i8]) -> (r: Vec<i8>)
        ensures
            r@ == Self::signature_of(hash@, key@),
            key@.len() % (HASH_LENGTH as nat) == 0 ==> r@.len() == key@.len(),
    ;

    fn digest_bundle_signature(hash: &[i8], signature: &[i8]) -> (r: Vec<i8>)
        ensures
            r@ == Self::recovered_of(hash@, signature@),
    ;

    fn checksum_security(hash: &[i8]) -> (r: u8)
        ensures
            r as nat == Self::security_of(hash@),
            r <= 3,
    ;
}

/// A proof-of-work search for a nonce that makes a message's hash, under
/// the sponge `C`, admit a given security level of the scheme `I`.
pub trait HammingNonce<C: Curl, I: Iss> {
    /// The nonce the search finds for `message`, or `None` when it gives up.
    spec fn found(message: Seq<i8>, radix: nat, security: nat) -> Option<Seq<i8>>;

    /// A nonce the search finds is whole trytes of trits, and its bundle
    /// hash with `message` admits exactly `security`.
    proof fn lemma_found(message: Seq<i8>, radix: nat, security: nat)
        ensures
            Self::found(message, radix, security) matches Some(n) ==> {
                &&& n.len() % (TRITS_PER_TRYTE as nat) == 0
                &&& n.len() <= usize::MAX
                &&& is_trits(n)
                &&& I::security_of(bundle_hash::<C>(message.len() / 3, message, n)) == security
            },
    ;

    /// Searches a nonce of whole trytes whose bundle hash with `message`
    /// admits exactly `security`.
    fn search(message: &[i8], radix: u8, security: u8) -> (r: Option<Vec<i8>>)
        ensures
            match r {
                Some(n) => Self::found(message@, radix as nat, security as nat) == Some(n@),
                None => Self::found(message@, radix as nat, security as nat) is None,
            },
            r matches Some(n) ==> {
                &&& n@.len() % (TRITS_PER_TRYTE as nat) == 0
                &&& is_trits(n@)
                &&& I::security_of(bundle_hash::<C>(message@.len() / 3, message@, n@)) == security as nat
            },
    ;
}

} // verus!
