//! A Winternitz one-time signature scheme over the Curl-style sponge: each
//! key fragment is a hash chain link, and a signature walks each chain as
//! far as the signed hash's tryte asks.
use vstd::prelude::*;
use crate::auth::{bundle_hash, chunks, lemma_chunks_concat, lemma_concat_trits, payload_hash};
use crate::primitives::{Curl, HammingNonce, Iss};
use crate::sponge::{CpuCurl, normal};
use crate::trits::{
    HASH_LENGTH, append_trits, concat, copy_range, incr, incremented_by, int2trits, int_trits,
    is_trits, lemma_incremented,
};

verus! {

/// Hash-long fragments in one security level of a key.
pub const FRAGMENTS: usize = 27;

/// Trytes in a hash.
pub const HASH_TRYTES: usize = 81;

/// The longest hash chain: a digest sits this many links past the key.
pub const CHAIN_LENGTH: usize = 26;

/// The hash of one input.
pub open spec fn h(s: Seq<i8>) -> Seq<i8> {
    CpuCurl::squeeze(seq![s])
}

/// `f` hashed `n` times.
pub open spec fn chain(f: Seq<i8>, n: nat) -> Seq<i8>
    decreases n,
{
    if n == 0 {
        f
    } else {
        h(chain(f, (n - 1) as nat))
    }
}

/// The `i`th hash-long fragment of `s`.
pub open spec fn fragment(s: Seq<i8>, i: int) -> Seq<i8> {
    s.subrange(i * HASH_LENGTH as int, (i + 1) * HASH_LENGTH as int)
}

/// The value in [-13, 13] of tryte `i` (taken modulo the hash's trytes).
pub open spec fn tryte(hash: Seq<i8>, i: int) -> int {
    if hash.len() == HASH_LENGTH {
        let j = i % HASH_TRYTES as int;
        normal(hash[3 * j]) + 3 * normal(hash[3 * j + 1]) + 9 * normal(hash[3 * j + 2])
    } else {
        0
    }
}

/// The sum of the first `n` trytes.
pub open spec fn tryte_sum(hash: Seq<i8>, n: nat) -> int
    decreases n,
{
    if n == 0 {
        0
    } else {
        tryte_sum(hash, (n - 1) as nat) + tryte(hash, n - 1)
    }
}

/// Each fragment of `s` walked `steps(i)` links along its chain.
pub open spec fn walk(s: Seq<i8>, hash: Seq<i8>, up: bool) -> Seq<Seq<i8>> {
    Seq::new(
        s.len() / HASH_LENGTH as nat,
        |i: int|
            chain(
                fragment(s, i),
                (if up { 13 + tryte(hash, i) } else { 13 - tryte(hash, i) }) as nat,
            ),
    )
}

/// Each fragment of a key walked to the end of its chain.
pub open spec fn ends(key: Seq<i8>) -> Seq<Seq<i8>> {
    Seq::new(
        key.len() / HASH_LENGTH as nat,
        |i: int| chain(fragment(key, i), CHAIN_LENGTH as nat),
    )
}

/// The fragments of a key expanded from a subseed.
pub open spec fn key_fragments(subseed: Seq<i8>, security: nat) -> Seq<Seq<i8>> {
    Seq::new(
        security * FRAGMENTS as nat,
        |i: int| CpuCurl::squeeze(seq![subseed, int_trits(i as nat)]),
    )
}

proof fn lemma_chain_add(f: Seq<i8>, a: nat, b: nat)
    ensures
        chain(chain(f, a), b) == chain(f, a + b),
    decreases b,
{
    if b > 0 {
        lemma_chain_add(f, a, (b - 1) as nat);
    }
}

proof fn lemma_chain_shape(f: Seq<i8>, n: nat)
    requires
        f.len() == HASH_LENGTH,
        is_trits(f),
    ensures
        chain(f, n).len() == HASH_LENGTH,
        is_trits(chain(f, n)),
{
    if n > 0 {
        CpuCurl::lemma_squeeze(seq![chain(f, (n - 1) as nat)]);
    }
}

proof fn lemma_tryte_range(hash: Seq<i8>, i: int)
    ensures
        -13 <= tryte(hash, i) <= 13,
{
}

/// The Winternitz scheme over `CpuCurl`.
pub struct Winternitz;

impl Iss for Winternitz {
    open spec fn subseed_of(seed: Seq<i8>) -> Seq<i8> {
        h(seed)
    }

    open spec fn key_of(subseed: Seq<i8>, security: nat) -> Seq<i8> {
        concat(key_fragments(subseed, security))
    }

    open spec fn digest_of(key: Seq<i8>) -> Seq<i8> {
        h(concat(ends(key)))
    }

    open spec fn address_of(digest: Seq<i8>) -> Seq<i8> {
        h(digest)
    }

    open spec fn signature_of(hash: Seq<i8>, key: Seq<i8>) -> Seq<i8> {
        concat(walk(key, hash, false))
    }

    open spec fn recovered_of(hash: Seq<i8>, signature: Seq<i8>) -> Seq<i8> {
        h(concat(walk(signature, hash, true)))
    }

    open spec fn security_of(hash: Seq<i8>) -> nat {
        if tryte_sum(hash, FRAGMENTS as nat) == 0 {
            1
        } else if tryte_sum(hash, 2 * FRAGMENTS as nat) == 0 {
            2
        } else if tryte_sum(hash, 3 * FRAGMENTS as nat) == 0 {
            3
        } else {
            0
        }
    }

    proof fn lemma_recover(hash: Seq<i8>, key: Seq<i8>) {
        let w = walk(key, hash, false);
        let n = key.len() / HASH_LENGTH as nat;
        assert forall|i: int| 0 <= i < w.len() implies (#[trigger] w[i]).len() == HASH_LENGTH by {
            lemma_tryte_range(hash, i);
            CpuCurl::lemma_squeeze(seq![chain(fragment(key, i), (13 - tryte(hash, i) - 1) as nat)]);
        }
        lemma_chunks_concat(w);
        let sig = concat(w);
        assert(sig.len() / HASH_LENGTH as nat == n);
        assert forall|i: int| 0 <= i < n implies #[trigger] walk(sig, hash, true)[i] == ends(key)[i] by {
            assert(chunks(sig, n)[i] == w[i]);
            assert(fragment(sig, i) == w[i]);
            lemma_tryte_range(hash, i);
            lemma_chain_add(
                fragment(key, i),
                (13 - tryte(hash, i)) as nat,
                (13 + tryte(hash, i)) as nat,
            );
        }
        assert(walk(sig, hash, true) =~= ends(key));
    }

    proof fn lemma_shapes(hash: Seq<i8>, key: Seq<i8>, digest: Seq<i8>, subseed: Seq<i8>, security: nat) {
        CpuCurl::lemma_squeeze(seq![digest]);
        let w = walk(key, hash, false);
        if key.len() % (HASH_LENGTH as nat) == 0 || is_trits(key) {
            assert forall|i: int| 0 <= i < w.len() implies (#[trigger] w[i]).len() == HASH_LENGTH && (
            is_trits(key) ==> is_trits(w[i])) by {
                lemma_tryte_range(hash, i);
                let f = fragment(key, i);
                if is_trits(key) {
                    assert forall|j: int| 0 <= j < f.len() implies crate::trits::is_trit(#[trigger] f[j]) by {
                        assert(f[j] == key[i * HASH_LENGTH + j]);
                    }
                }
                if 13 - tryte(hash, i) > 0 {
                    CpuCurl::lemma_squeeze(seq![chain(f, (13 - tryte(hash, i) - 1) as nat)]);
                }
            }
            lemma_chunks_concat(w);
            if is_trits(key) {
                lemma_concat_trits(w);
            }
        }
        let kf = key_fragments(subseed, security);
        assert forall|i: int| 0 <= i < kf.len() implies (#[trigger] kf[i]).len() == HASH_LENGTH && is_trits(kf[i]) by {
            CpuCurl::lemma_squeeze(seq![subseed, int_trits(i as nat)]);
        }
        lemma_chunks_concat(kf);
        lemma_concat_trits(kf);
    }

    fn subseed(seed: &[i8]) -> (r: Vec<i8>) {
        hash_of(seed)
    }

    fn key(subseed: &[i8], security: u8) -> (r: Vec<i8>) {
        let n: usize = security as usize * FRAGMENTS;
        let ghost kf = key_fragments(subseed@, security as nat);
        let mut out: Vec<i8> = Vec::new();
        let mut i: usize = 0;
        assert(kf.subrange(0, 0) =~= Seq::<Seq<i8>>::empty());
        while i < n
            invariant
                n == security * FRAGMENTS,
                i <= n,
                kf == key_fragments(subseed@, security as nat),
                out@ == concat(kf.subrange(0, i as int)),
            decreases n - i,
        {
            let mut curl = CpuCurl::fresh();
            curl.absorb(subseed);
            let index = int2trits(i);
            curl.absorb(index.as_slice());
            assert(curl.absorbed() =~= seq![subseed@, int_trits(i as nat)]);
            let f = curl.rate();
            append_trits(&mut out, f.as_slice());
            assert(kf.subrange(0, i + 1).drop_last() =~= kf.subrange(0, i as int));
            i = i + 1;
        }
        assert(kf.subrange(0, n as int) =~= kf);
        proof {
            Self::lemma_shapes(seq![], seq![], seq![], subseed@, security as nat);
        }
        out
    }

    fn digest_key(key: &[i8]) -> (r: Vec<i8>) {
        let n: usize = key.len() / HASH_LENGTH;
        let ghost e = ends(key@);
        let mut out: Vec<i8> = Vec::new();
        let mut i: usize = 0;
        assert(e.subrange(0, 0) =~= Seq::<Seq<i8>>::empty());
        while i < n
            invariant
                n == key@.len() / HASH_LENGTH as nat,
                i <= n,
                e == ends(key@),
                out@ == concat(e.subrange(0, i as int)),
            decreases n - i,
        {
            assert((i + 1) * HASH_LENGTH <= key.len()) by (nonlinear_arith)
                requires
                    i < n,
                    n == key.len() / HASH_LENGTH,
            ;
        let f = copy_range(key, i * HASH_LENGTH, (i + 1) * HASH_LENGTH);
            let c = chain_exec(f.as_slice(), CHAIN_LENGTH);
            append_trits(&mut out, c.as_slice());
            assert(e.subrange(0, i + 1).drop_last() =~= e.subrange(0, i as int));
            i = i + 1;
        }
        assert(e.subrange(0, n as int) =~= e);
        hash_of(out.as_slice())
    }

    fn address(digest: &[i8]) -> (r: Vec<i8>) {
        proof {
            CpuCurl::lemma_squeeze(seq![digest@]);
        }
        hash_of(digest)
    }

    fn signature(hash: &[i8], key: &[i8]) -> (r: Vec<i8>) {
        proof {
            Self::lemma_shapes(hash@, key@, seq![], seq![], 0);
        }
        let w = walk_exec(key, hash, false);
        assert(key@.len() % (HASH_LENGTH as nat) == 0 ==> w@.len() == key@.len());
        w
    }

    fn digest_bundle_signature(hash: &[i8], signature: &[i8]) -> (r: Vec<i8>) {
        let w = walk_exec(signature, hash, true);
        hash_of(w.as_slice())
    }

    fn checksum_security(hash: &[i8]) -> (r: u8) {
        let mut sum: i64 = 0;
        let mut i: usize = 0;
        let mut level: u8 = 0;
        while i < 3 * FRAGMENTS
            invariant
                i <= 3 * FRAGMENTS,
                sum == tryte_sum(hash@, i as nat),
                -13 * i <= sum <= 13 * i,
                level <= 3,
                level as int == (i as int) / 27,
                level >= 1 ==> tryte_sum(hash@, 27) != 0,
                level >= 2 ==> tryte_sum(hash@, 54) != 0,
                level >= 3 ==> tryte_sum(hash@, 81) != 0,
            decreases 3 * FRAGMENTS - i,
        {
            let t = tryte_exec(hash, i);
            proof {
                lemma_tryte_range(hash@, i as int);
            }
            sum = sum + t as i64;
            i = i + 1;
            if i % FRAGMENTS == 0 {
                level = level + 1;
                if sum == 0 {
                    assert(level == 1 || level == 2 || level == 3);
                    assert(i == 27 * level);
                    return level;
                }
            }
        }
        assert(level == 3);
        0
    }
}

fn hash_of(s: &[i8]) -> (r: Vec<i8>)
    ensures
        r@ == h(s@),
{
    let mut curl = CpuCurl::fresh();
    curl.absorb(s);
    assert(curl.absorbed() =~= seq![s@]);
    curl.rate()
}

fn chain_exec(f: &[i8], n: usize) -> (r: Vec<i8>)
    ensures
        r@ == chain(f@, n as nat),
{
    let mut c = crate::trits::copy_trits(f);
    let mut k: usize = 0;
    while k < n
        invariant
            k <= n,
            c@ == chain(f@, k as nat),
        decreases n - k,
    {
        c = hash_of(c.as_slice());
        k = k + 1;
    }
    c
}

fn tryte_exec(hash: &[i8], i: usize) -> (r: i8)
    ensures
        r as int == tryte(hash@, i as int),
{
    if hash.len() != HASH_LENGTH {
        return 0;
    }
    let j: usize = i % HASH_TRYTES;
    let a = crate::trits::trit_sum(hash[3 * j], 0);
    let b = crate::trits::trit_sum(hash[3 * j + 1], 0);
    let c = crate::trits::trit_sum(hash[3 * j + 2], 0);
    a + 3 * b + 9 * c
}

fn walk_exec(s: &[i8], hash: &[i8], up: bool) -> (r: Vec<i8>)
    ensures
        r@ == concat(walk(s@, hash@, up)),
{
    let n: usize = s.len() / HASH_LENGTH;
    let ghost w = walk(s@, hash@, up);
    let mut out: Vec<i8> = Vec::new();
    let mut i: usize = 0;
    assert(w.subrange(0, 0) =~= Seq::<Seq<i8>>::empty());
    while i < n
        invariant
            n == s@.len() / HASH_LENGTH as nat,
            i <= n,
            w == walk(s@, hash@, up),
            out@ == concat(w.subrange(0, i as int)),
        decreases n - i,
    {
        assert((i + 1) * HASH_LENGTH <= s.len()) by (nonlinear_arith)
            requires
                i < n,
                n == s.len() / HASH_LENGTH,
        ;
        let f = copy_range(s, i * HASH_LENGTH, (i + 1) * HASH_LENGTH);
        let t = tryte_exec(hash, i);
        proof {
            lemma_tryte_range(hash@, i as int);
        }
        let steps: usize = if up { (13 + t) as usize } else { (13 - t) as usize };
        let c = chain_exec(f.as_slice(), steps);
        append_trits(&mut out, c.as_slice());
        assert(w.subrange(0, i + 1).drop_last() =~= w.subrange(0, i as int));
        i = i + 1;
    }
    assert(w.subrange(0, n as int) =~= w);
    out
}

/// Nonces of this many trits are searched.
pub const NONCE_LENGTH: usize = 27;

/// Nonce candidates tried before the search gives up.
pub const MAX_ATTEMPTS: usize = 1000000;

/// The `k`th nonce tried: the zero nonce incremented `k` times.
pub open spec fn candidate(k: nat) -> Seq<i8> {
    incremented_by(Seq::new(NONCE_LENGTH as nat, |i: int| 0i8), k)
}

/// Whether a nonce's bundle hash with `message` admits exactly `security`.
pub open spec fn admits(message: Seq<i8>, nonce: Seq<i8>, security: nat) -> bool {
    Winternitz::security_of(bundle_hash::<CpuCurl>(message.len() / 3, message, nonce)) == security
}

/// The first candidate from the `k`th on that admits `security`, among the
/// first `MAX_ATTEMPTS`.
pub open spec fn first_admitting(message: Seq<i8>, security: nat, k: nat) -> Option<Seq<i8>>
    decreases MAX_ATTEMPTS as int - k,
{
    if k >= MAX_ATTEMPTS {
        None
    } else if admits(message, candidate(k), security) {
        Some(candidate(k))
    } else {
        first_admitting(message, security, k + 1)
    }
}

/// A nonce search that counts through nonces of `NONCE_LENGTH` trits until
/// the bundle hash under `CpuCurl` admits exactly the asked security. Every
/// nonce is a number of trytes, whatever the radix, which it does not use.
pub struct CountingNonce;

proof fn lemma_candidate(k: nat)
    ensures
        candidate(k).len() == NONCE_LENGTH,
        is_trits(candidate(k)),
    decreases k,
{
    if k == 0 {
        assert(is_trits(candidate(0)));
    } else {
        lemma_candidate((k - 1) as nat);
        lemma_incremented(candidate((k - 1) as nat));
    }
}

proof fn lemma_first_admitting(message: Seq<i8>, security: nat, k: nat)
    ensures
        first_admitting(message, security, k) matches Some(n) ==> exists|j: nat|
            #[trigger] candidate(j) == n && admits(message, n, security),
    decreases MAX_ATTEMPTS as int - k,
{
    if k < MAX_ATTEMPTS && !admits(message, candidate(k), security) {
        lemma_first_admitting(message, security, k + 1);
    }
}

impl HammingNonce<CpuCurl, Winternitz> for CountingNonce {
    proof fn lemma_found(message: Seq<i8>, radix: nat, security: nat) {
        lemma_first_admitting(message, security, 0);
        if let Some(n) = first_admitting(message, security, 0) {
            let j = choose|j: nat| #[trigger] candidate(j) == n && admits(message, n, security);
            lemma_candidate(j);
        }
    }

    open spec fn found(message: Seq<i8>, radix: nat, security: nat) -> Option<Seq<i8>> {
        first_admitting(message, security, 0)
    }

    fn search(message: &[i8], radix: u8, security: u8) -> (r: Option<Vec<i8>>) {
        let mut nonce: Vec<i8> = vec![0i8; NONCE_LENGTH];
        assert(nonce@ =~= candidate(0));
        let mut curl = CpuCurl::fresh();
        let mut attempt: usize = 0;
        while attempt < MAX_ATTEMPTS
            invariant
                attempt <= MAX_ATTEMPTS,
                nonce@ == candidate(attempt as nat),
                nonce@.len() == NONCE_LENGTH,
                is_trits(nonce@),
                first_admitting(message@, security as nat, attempt as nat) == first_admitting(
                    message@,
                    security as nat,
                    0,
                ),
            decreases MAX_ATTEMPTS - attempt,
        {
            let hash = payload_hash(message.len() / 3, message, nonce.as_slice(), &mut curl);
            if Winternitz::checksum_security(hash.as_slice()) == security {
                return Some(nonce);
            }
            let ghost before = nonce@;
            proof {
                lemma_incremented(before);
            }
            incr(&mut nonce);
            attempt = attempt + 1;
        }
        None
    }
}

} // verus!
