use mam::auth::{MamError, authenticate, sign};
use mam::iss::{CountingNonce, Winternitz};
use mam::mam::{Reader, create, parse};
use mam::mask::{mask, message_id, unmask};
use mam::merkle::{key, root, siblings};
use mam::primitives::{Curl, Iss};
use mam::sponge::CpuCurl;
use mam::trits::{HASH_LENGTH, KEY_LENGTH, int2trits};

fn trits_of(s: &str) -> Vec<i8> {
    let mut out = Vec::new();
    for c in s.chars() {
        let v: i32 = if c == '9' { 0 } else { c as i32 - 'A' as i32 + 1 };
        let v = if v > 13 { v - 27 } else { v };
        let mut n = v;
        for _ in 0..3 {
            let mut d = n % 3;
            if d == 2 {
                d = -1;
            } else if d == -2 {
                d = 1;
            }
            out.push(d as i8);
            n = (n - d) / 3;
        }
    }
    out
}

fn seed() -> Vec<i8> {
    trits_of(
        "ABCDEFGHIJKLMNOPQRSTUVWXYZ9ABCDEFGHIJKLMNOPQRSTUVWXYZ9ABCDEFGHIJKLMNOPQRSTUVWXYZ9",
    )
}

const MESSAGE: &str = "IAMSOMEMESSAGE9HEARMEROARMYMESSAGETOTHEWORLDYOUHEATHEN";

fn hash_of(input: &[i8]) -> Vec<i8> {
    let mut c = CpuCurl::fresh();
    c.absorb(input);
    c.rate()
}

fn addresses(seed: &[i8], start: usize, count: usize, security: u8) -> Vec<Vec<i8>> {
    (start..start + count)
        .map(|i| {
            let k = key::<Winternitz>(seed, i, security);
            Winternitz::address(&Winternitz::digest_key(&k))
        })
        .collect()
}

fn published() -> (Vec<i8>, Vec<i8>) {
    let mut c = CpuCurl::fresh();
    create::<CpuCurl, Winternitz, CountingNonce>(&seed(), &trits_of(MESSAGE), 1, 9, 3, 10, 4, 1, &mut c)
        .unwrap()
}

#[test]
fn it_works() {
    let message = trits_of(MESSAGE);
    let (masked_payload, root) = published();
    let mut c = CpuCurl::fresh();
    let result = parse::<CpuCurl, Winternitz>(&masked_payload, &root, 3, &mut c).ok().unwrap();
    assert_eq!(result.0, message);
}

#[test]
fn next_root_is_root_of_next_tree() {
    let (masked_payload, root_now) = published();
    let mut c = CpuCurl::fresh();
    let (_, next) = parse::<CpuCurl, Winternitz>(&masked_payload, &root_now, 3, &mut c).unwrap();
    let next_addrs = addresses(&seed(), 10, 4, 1);
    let path = siblings(&next_addrs, 0, &mut c);
    assert_eq!(next, root(&next_addrs[0], &path, 0, &mut c));
    assert_ne!(next, root_now);
}

#[test]
fn flipped_trit_is_invalid_hash() {
    let (mut masked_payload, root) = published();
    let t = masked_payload[0];
    masked_payload[0] = if t == 1 { -1 } else { t + 1 };
    let mut c = CpuCurl::fresh();
    let r = parse::<CpuCurl, Winternitz>(&masked_payload, &root, 3, &mut c);
    assert_eq!(r, Err(MamError::InvalidHash));
}

#[test]
fn wrong_index_is_refused() {
    let (masked_payload, root) = published();
    let mut c = CpuCurl::fresh();
    let r = parse::<CpuCurl, Winternitz>(&masked_payload, &root, 2, &mut c);
    let plain = unmask::<CpuCurl>(&masked_payload, &vec![root.clone(), int2trits(2)]);
    assert_eq!(r, authenticate::<CpuCurl, Winternitz>(&plain, &root, 2, &mut c));
    assert!(matches!(r, Err(MamError::InvalidHash) | Err(MamError::MalformedPayload)));
}

#[test]
fn wrong_root_is_refused() {
    let (masked_payload, root) = published();
    let mut other = root.clone();
    other[0] = if other[0] == 1 { 0 } else { other[0] + 1 };
    let mut c = CpuCurl::fresh();
    let r = parse::<CpuCurl, Winternitz>(&masked_payload, &other, 3, &mut c);
    let plain = unmask::<CpuCurl>(&masked_payload, &vec![other.clone(), int2trits(3)]);
    assert_eq!(r, authenticate::<CpuCurl, Winternitz>(&plain, &other, 3, &mut c));
    assert!(r.is_err());
}

#[test]
fn empty_payload_is_malformed() {
    let mut c = CpuCurl::fresh();
    let r = parse::<CpuCurl, Winternitz>(&[], &vec![0i8; HASH_LENGTH], 0, &mut c);
    assert_eq!(r, Err(MamError::MalformedPayload));
}

#[test]
fn it_can_unmask() {
    let payload = trits_of("AMESSAGEFORYOU9");
    let keys = vec![trits_of("MYMERKLEROOTHASH"), trits_of("AEOWJID999999")];
    let cipher = mask::<CpuCurl>(&payload, &keys);
    assert_ne!(cipher, payload);
    let plain = unmask::<CpuCurl>(&cipher, &keys);
    assert_eq!(plain, payload);
}

#[test]
fn it_does_not_panic() {
    let addrs = addresses(&seed(), 1, 9, 1);
    let mut c1 = CpuCurl::fresh();
    let hashes = siblings(&addrs, 0, &mut c1);
    let expect = root(&addrs[0], &hashes, 0, &mut c1);
    for index in 0..9 {
        let hashes = siblings(&addrs, index, &mut c1);
        assert_eq!(hashes.len(), 4);
        let r = root(&addrs[index], &hashes, index, &mut c1);
        assert_eq!(r, expect);
    }
}

#[test]
fn leaf_key_is_deterministic() {
    let a = key::<Winternitz>(&seed(), 5, 1);
    let b = key::<Winternitz>(&seed(), 5, 1);
    let c = key::<Winternitz>(&seed(), 6, 1);
    assert_eq!(a, b);
    assert_eq!(a.len(), KEY_LENGTH);
    assert_ne!(a, c);
}

fn signed_fixture() -> (Vec<i8>, Vec<i8>, Vec<i8>) {
    let seed = seed();
    let addrs = addresses(&seed, 0, 5, 1);
    let mut c = CpuCurl::fresh();
    let path = siblings(&addrs, 2, &mut c);
    let tree_root = root(&addrs[2], &path, 2, &mut c);
    let k = key::<Winternitz>(&seed, 2, 1);
    let next = vec![1i8; HASH_LENGTH];
    let message = trits_of("HELLO9WORLD");
    let plain = sign::<CpuCurl, Winternitz, CountingNonce>(&message, &next, &k, &path, 1, &mut c)
        .unwrap();
    (plain, tree_root, message)
}

#[test]
fn signed_payload_authenticates() {
    let (plain, tree_root, message) = signed_fixture();
    let mut c = CpuCurl::fresh();
    let r = authenticate::<CpuCurl, Winternitz>(&plain, &tree_root, 2, &mut c);
    assert_eq!(r, Ok((message, vec![1i8; HASH_LENGTH])));
}

#[test]
fn signed_payload_under_other_root_is_invalid_signature() {
    let (plain, tree_root, _) = signed_fixture();
    let mut other = tree_root.clone();
    other[5] = if other[5] == 1 { -1 } else { other[5] + 1 };
    let mut c = CpuCurl::fresh();
    let r = authenticate::<CpuCurl, Winternitz>(&plain, &other, 2, &mut c);
    assert_eq!(r, Err(MamError::InvalidSignature));
}

#[test]
fn truncated_signed_payload_is_malformed() {
    let (plain, tree_root, _) = signed_fixture();
    let mut c = CpuCurl::fresh();
    let r = authenticate::<CpuCurl, Winternitz>(&plain[..plain.len() - 1], &tree_root, 2, &mut c);
    assert_eq!(r, Err(MamError::MalformedPayload));
}

#[test]
fn message_id_hashes_the_key_hash() {
    let keys = vec![trits_of("MYMERKLEROOTHASH"), trits_of("AEOWJID999999")];
    let mut c = CpuCurl::fresh();
    let id = message_id(&keys, &mut c);
    let mut d = CpuCurl::fresh();
    d.absorb(&keys[0]);
    d.absorb(&keys[1]);
    let inner = d.rate();
    let mut e = CpuCurl::fresh();
    e.absorb(&inner);
    assert_eq!(id, e.rate());
    assert_ne!(id, inner);
    assert_eq!(id.len(), HASH_LENGTH);
}

#[test]
fn signature_recovers_digest() {
    let k = key::<Winternitz>(&seed(), 1, 1);
    let hash = hash_of(&trits_of("SOMEHASH"));
    let sig = Winternitz::signature(&hash, &k);
    assert_eq!(sig.len(), k.len());
    assert_ne!(sig, k);
    assert_eq!(Winternitz::digest_bundle_signature(&hash, &sig), Winternitz::digest_key(&k));
}

#[test]
fn reader_moves_on_only_after_a_good_message() {
    let (masked_payload, root_now) = published();
    let mut c = CpuCurl::fresh();
    let mut reader = Reader::new(root_now.clone(), 3);
    let mut tampered = masked_payload.clone();
    tampered[0] = if tampered[0] == 1 { -1 } else { tampered[0] + 1 };
    assert!(reader.read::<CpuCurl, Winternitz>(&tampered, &mut c).is_err());
    assert_eq!(reader.root, root_now);
    assert_eq!(reader.index, 3);
    let message = reader.read::<CpuCurl, Winternitz>(&masked_payload, &mut c).unwrap();
    assert_eq!(message, trits_of(MESSAGE));
    let next_addrs = addresses(&seed(), 10, 4, 1);
    let path = siblings(&next_addrs, 0, &mut c);
    assert_eq!(reader.root, root(&next_addrs[0], &path, 0, &mut c));
    assert_eq!(reader.index, 0);
}
