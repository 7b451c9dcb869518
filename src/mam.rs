//! Publishing a message on a channel, and reading one back.
use vstd::prelude::*;
use crate::auth::{
    MamError, authenticate, authenticated, bundle_hash, lemma_authenticate_signed,
    lemma_concat_trits, layout, result_view, sign, signed,
};
use crate::mask::{key_stream, lemma_unmask_mask, mask, unmask};
use crate::merkle::{
    fold_root, key, leaf_address, leaf_key, lemma_fold_root_len, lemma_fold_root_trits,
    lemma_path_shape, root, sibling_path, siblings,
};
use crate::pascal::lemma_encoded_trits;
use crate::primitives::{Curl, HammingNonce, Iss};
use crate::trits::{
    HASH_LENGTH, TRITS_PER_TRYTE, add_stream, incremented_by, int2trits, int_trits, is_trits, lemma_trits_append,
    sub_stream, views,
};

verus! {

/// The leaves of the tree over one-time indices `[start, start + count)`.
pub open spec fn leaves<I: Iss>(seed: Seq<i8>, start: nat, count: nat, security: nat) -> Seq<Seq<i8>> {
    Seq::new(count, |i: int| leaf_address::<I>(seed, start + i as nat, security))
}

/// The root of the tree over `[start, start + count)`, folded from the leaf
/// at position `index`.
pub open spec fn channel_root<C: Curl, I: Iss>(
    seed: Seq<i8>,
    start: nat,
    count: nat,
    index: nat,
    security: nat,
) -> Seq<i8> {
    let l = leaves::<I>(seed, start, count, security);
    fold_root::<C>(l[index as int], sibling_path::<C>(l, index), index)
}

/// The keys a payload at position `index` under `root` is masked with.
pub open spec fn channel_keys(root: Seq<i8>, index: nat) -> Seq<Seq<i8>> {
    seq![root, int_trits(index)]
}

/// The plaintext `create` signs for a given nonce, or `None` when the
/// nonce's hash does not admit `security`.
pub open spec fn created_plaintext<C: Curl, I: Iss>(
    seed: Seq<i8>,
    message: Seq<i8>,
    start: nat,
    count: nat,
    index: nat,
    next_start: nat,
    next_count: nat,
    security: nat,
    nonce: Seq<i8>,
) -> Option<Seq<i8>> {
    signed::<C, I>(
        channel_root::<C, I>(seed, next_start, next_count, 0, security) + message,
        nonce,
        leaf_key::<I>(seed, start + index, security),
        sibling_path::<C>(leaves::<I>(seed, start, count, security), index),
        security,
    )
}

/// The masked payload `create` returns for a given nonce.
pub open spec fn created<C: Curl, I: Iss>(
    seed: Seq<i8>,
    message: Seq<i8>,
    start: nat,
    count: nat,
    index: nat,
    next_start: nat,
    next_count: nat,
    security: nat,
    nonce: Seq<i8>,
) -> Option<Seq<i8>> {
    match created_plaintext::<C, I>(
        seed,
        message,
        start,
        count,
        index,
        next_start,
        next_count,
        security,
        nonce,
    ) {
        Some(plain) => Some(
            add_stream(
                plain,
                key_stream::<C>(
                    channel_keys(channel_root::<C, I>(seed, start, count, index, security), index),
                ),
            ),
        ),
        None => None,
    }
}

/// What `create` returns: the masked payload for the nonce `H` finds, and
/// the current root; `None` when the search gives up.
pub open spec fn published<C: Curl, I: Iss, H: HammingNonce<C, I>>(
    seed: Seq<i8>,
    message: Seq<i8>,
    start: nat,
    count: nat,
    index: nat,
    next_start: nat,
    next_count: nat,
    security: nat,
) -> Option<(Seq<i8>, Seq<i8>)> {
    let next = channel_root::<C, I>(seed, next_start, next_count, 0, security);
    match H::found(next + message, TRITS_PER_TRYTE as nat, security) {
        Some(nonce) => match created::<C, I>(
            seed,
            message,
            start,
            count,
            index,
            next_start,
            next_count,
            security,
            nonce,
        ) {
            Some(payload) => Some(
                (payload, channel_root::<C, I>(seed, start, count, index, security)),
            ),
            None => None,
        },
        None => None,
    }
}

/// What `parse` returns for a masked payload.
pub open spec fn parsed<C: Curl, I: Iss>(payload: Seq<i8>, root: Seq<i8>, index: nat) -> Result<
    (Seq<i8>, Seq<i8>),
    MamError,
> {
    authenticated::<C, I>(
        sub_stream(payload, key_stream::<C>(channel_keys(root, index))),
        root,
        index,
    )
}

/// A payload that `create` publishes, read back at the same position under
/// the root `create` returned, gives the message and the root of the next
/// tree.
pub proof fn lemma_parse_created<C: Curl, I: Iss>(
    seed: Seq<i8>,
    message: Seq<i8>,
    start: nat,
    count: nat,
    index: nat,
    next_start: nat,
    next_count: nat,
    security: nat,
    nonce: Seq<i8>,
)
    requires
        seed.len() == HASH_LENGTH,
        is_trits(seed),
        is_trits(message),
        message.len() % 3 == 0,
        message.len() <= usize::MAX,
        1 <= security <= 3,
        index < count <= usize::MAX,
        0 < next_count,
        is_trits(nonce),
        nonce.len() % 3 == 0,
        nonce.len() <= usize::MAX,
        created::<C, I>(seed, message, start, count, index, next_start, next_count, security, nonce) is Some,
    ensures
        parsed::<C, I>(
            created::<C, I>(seed, message, start, count, index, next_start, next_count, security, nonce)->0,
            channel_root::<C, I>(seed, start, count, index, security),
            index,
        ) == Ok::<(Seq<i8>, Seq<i8>), MamError>(
            (message, channel_root::<C, I>(seed, next_start, next_count, 0, security)),
        ),
{
    let lv = leaves::<I>(seed, start, count, security);
    let nlv = leaves::<I>(seed, next_start, next_count, security);
    let root_now = channel_root::<C, I>(seed, start, count, index, security);
    let next = channel_root::<C, I>(seed, next_start, next_count, 0, security);
    let key = leaf_key::<I>(seed, start + index, security);
    let path = sibling_path::<C>(lv, index);
    let m = next + message;
    assert forall|i: int| 0 <= i < lv.len() implies is_trits(#[trigger] lv[i]) && lv[i].len() == HASH_LENGTH by {
        I::lemma_shapes(seq![], seq![], I::digest_of(leaf_key::<I>(seed, start + i as nat, security)), seq![], 0);
    }
    assert forall|i: int| 0 <= i < nlv.len() implies is_trits(#[trigger] nlv[i]) && nlv[i].len() == HASH_LENGTH by {
        I::lemma_shapes(seq![], seq![], I::digest_of(leaf_key::<I>(seed, next_start + i as nat, security)), seq![], 0);
    }
    lemma_path_shape::<C>(lv, index);
    lemma_fold_root_len::<C>(nlv[0], sibling_path::<C>(nlv, 0), 0);
    lemma_fold_root_trits::<C>(nlv[0], sibling_path::<C>(nlv, 0), 0);
    I::lemma_shapes(seq![], key, seq![], I::subseed_of(incremented_by(seed, start + index)), security);
    let hash = bundle_hash::<C>(m.len() / 3, m, nonce);
    I::lemma_shapes(hash, key, seq![], seq![], security);
    lemma_authenticate_signed::<C, I>(m, nonce, key, path, security, index, root_now);
    let plain = signed::<C, I>(m, nonce, key, path, security)->0;
    let sig = I::signature_of(hash, key);
    // the plaintext is made of trits, so unmasking undoes masking
    lemma_encoded_trits(m.len() / 3);
    lemma_encoded_trits(nonce.len() / 3);
    lemma_encoded_trits(path.len());
    lemma_concat_trits(path);
    assert(is_trits(m));
    lemma_trits_append(crate::pascal::encoded(m.len() / 3), m);
    let a1 = crate::pascal::encoded(m.len() / 3) + m;
    lemma_trits_append(a1, crate::pascal::encoded(nonce.len() / 3));
    let a2 = a1 + crate::pascal::encoded(nonce.len() / 3);
    lemma_trits_append(a2, nonce);
    lemma_trits_append(a2 + nonce, sig);
    lemma_trits_append(a2 + nonce + sig, crate::pascal::encoded(path.len()));
    lemma_trits_append(a2 + nonce + sig + crate::pascal::encoded(path.len()), crate::trits::concat(path));
    assert(plain == layout(m, nonce, sig, path));
    lemma_unmask_mask::<C>(plain, channel_keys(root_now, index));
    assert(m.subrange(HASH_LENGTH as int, m.len() as int) =~= message);
    assert(m.subrange(0, HASH_LENGTH as int) =~= next);
}

/// What `create` publishes, read back at the same position under the root
/// it returned, gives the message and the root of the next tree.
pub proof fn lemma_parse_published<C: Curl, I: Iss, H: HammingNonce<C, I>>(
    seed: Seq<i8>,
    message: Seq<i8>,
    start: nat,
    count: nat,
    index: nat,
    next_start: nat,
    next_count: nat,
    security: nat,
)
    requires
        seed.len() == HASH_LENGTH,
        is_trits(seed),
        is_trits(message),
        message.len() % 3 == 0,
        message.len() <= usize::MAX,
        1 <= security <= 3,
        index < count <= usize::MAX,
        0 < next_count,
    ensures
        match published::<C, I, H>(seed, message, start, count, index, next_start, next_count, security) {
            Some((payload, root)) => parsed::<C, I>(payload, root, index) == Ok::<
                (Seq<i8>, Seq<i8>),
                MamError,
            >((message, channel_root::<C, I>(seed, next_start, next_count, 0, security))),
            None => true,
        },
{
    let next = channel_root::<C, I>(seed, next_start, next_count, 0, security);
    H::lemma_found(next + message, TRITS_PER_TRYTE as nat, security);
    if let Some(nonce) = H::found(next + message, TRITS_PER_TRYTE as nat, security) {
        if created::<C, I>(seed, message, start, count, index, next_start, next_count, security, nonce) is Some {
            lemma_parse_created::<C, I>(
                seed,
                message,
                start,
                count,
                index,
                next_start,
                next_count,
                security,
                nonce,
            );
        }
    }
}

/// The addresses of the one-time keys `[start, start + count)`.
fn addresses<I: Iss>(seed: &[i8], start: usize, count: usize, security: u8) -> (r: Vec<Vec<i8>>)
    requires
        seed@.len() == HASH_LENGTH,
        is_trits(seed@),
        1 <= security <= 3,
        start + count <= usize::MAX,
    ensures
        views(r@) == leaves::<I>(seed@, start as nat, count as nat, security as nat),
        r@.len() == count,
{
    let mut out: Vec<Vec<i8>> = Vec::new();
    let mut i: usize = 0;
    while i < count
        invariant
            i <= count,
            start + count <= usize::MAX,
            seed@.len() == HASH_LENGTH,
            is_trits(seed@),
            1 <= security <= 3,
            views(out@) == leaves::<I>(seed@, start as nat, count as nat, security as nat).subrange(
                0,
                i as int,
            ),
            out@.len() == i,
        decreases count - i,
    {
        let k = key::<I>(seed, start + i, security);
        let digest = I::digest_key(k.as_slice());
        let address = I::address(digest.as_slice());
        let ghost o0 = out@;
        assert(views(o0).len() == i);
        out.push(address);
        assert(views(out@) =~= leaves::<I>(seed@, start as nat, count as nat, security as nat).subrange(
            0,
            i + 1,
        ));
        i = i + 1;
    }
    out
}

/// Publishes `message` at position `index` of the tree over one-time
/// indices `[start, start + count)`, binding the root of the tree over
/// `[next_start, next_start + next_count)`. Returns the masked payload and
/// the current root, or `None` when the nonce search gives up.
pub fn create<C: Curl, I: Iss, H: HammingNonce<C, I>>(
    seed: &[i8],
    message: &[i8],
    start: usize,
    count: usize,
    index: usize,
    next_start: usize,
    next_count: usize,
    security: u8,
    curl: &mut C,
) -> (r: Option<(Vec<i8>, Vec<i8>)>)
    requires
        seed@.len() == HASH_LENGTH,
        is_trits(seed@),
        message@.len() % 3 == 0,
        1 <= security <= 3,
        index < count,
        0 < next_count,
        start + count <= usize::MAX,
        next_start + next_count <= usize::MAX,
    ensures
        match r {
            Some((payload, root)) => published::<C, I, H>(
                seed@,
                message@,
                start as nat,
                count as nat,
                index as nat,
                next_start as nat,
                next_count as nat,
                security as nat,
            ) == Some((payload@, root@)),
            None => published::<C, I, H>(
                seed@,
                message@,
                start as nat,
                count as nat,
                index as nat,
                next_start as nat,
                next_count as nat,
                security as nat,
            ) is None,
        },
        r matches Some((payload, root)) ==> {
            &&& root@ == channel_root::<C, I>(
                seed@,
                start as nat,
                count as nat,
                index as nat,
                security as nat,
            )
            &&& exists|nonce: Seq<i8>|
                is_trits(nonce) && nonce.len() % 3 == 0 && H::found(
                    channel_root::<C, I>(seed@, next_start as nat, next_count as nat, 0, security as nat)
                        + message@,
                    TRITS_PER_TRYTE as nat,
                    security as nat,
                ) == Some(nonce) && #[trigger] created::<C, I>(
                    seed@,
                    message@,
                    start as nat,
                    count as nat,
                    index as nat,
                    next_start as nat,
                    next_count as nat,
                    security as nat,
                    nonce,
                ) == Some(payload@)
        },
        final(curl).absorbed() == Seq::<Seq<i8>>::empty(),
{
    let addrs = addresses::<I>(seed, start, count, security);
    let path = siblings(addrs.as_slice(), index, curl);
    let current = root(addrs[index].as_slice(), path.as_slice(), index, curl);
    let next_addrs = addresses::<I>(seed, next_start, next_count, security);
    let next_path = siblings(next_addrs.as_slice(), 0, curl);
    let next = root(next_addrs[0].as_slice(), next_path.as_slice(), 0, curl);
    let one_time_key = key::<I>(seed, start + index, security);
    proof {
        I::lemma_shapes(
            seq![],
            seq![],
            I::digest_of(leaf_key::<I>(seed@, next_start as nat, security as nat)),
            seq![],
            0,
        );
        assert(views(next_addrs@)[0] == next_addrs@[0]@);
        crate::merkle::lemma_fold_root_len::<C>(next_addrs@[0]@, views(next_path@), 0);
    }
    let plain = match sign::<C, I, H>(message, next.as_slice(), one_time_key.as_slice(), path.as_slice(), security, curl) {
        Some(p) => p,
        None => return None,
    };
    let channel_key: Vec<Vec<i8>> = vec![crate::trits::copy_trits(current.as_slice()), int2trits(index)];
    assert(views(channel_key@) =~= channel_keys(current@, index as nat));
    let payload = mask::<C>(plain.as_slice(), channel_key.as_slice());
    proof {
        let nonce = choose|n: Seq<i8>|
            is_trits(n) && n.len() % 3 == 0 && H::found(
                next@ + message@,
                TRITS_PER_TRYTE as nat,
                security as nat,
            ) == Some(n) && #[trigger] signed::<C, I>(
                next@ + message@,
                n,
                one_time_key@,
                views(path@),
                security as nat,
            ) == Some(plain@);
        assert(views(addrs@)[index as int] == addrs@[index as int]@);
        assert(views(next_addrs@)[0] == next_addrs@[0]@);
        assert(created_plaintext::<C, I>(
            seed@,
            message@,
            start as nat,
            count as nat,
            index as nat,
            next_start as nat,
            next_count as nat,
            security as nat,
            nonce,
        ) == Some(plain@));
        assert(current@ == channel_root::<C, I>(
            seed@,
            start as nat,
            count as nat,
            index as nat,
            security as nat,
        ));
        assert(created::<C, I>(
            seed@,
            message@,
            start as nat,
            count as nat,
            index as nat,
            next_start as nat,
            next_count as nat,
            security as nat,
            nonce,
        ) == Some(payload@));
    }
    Some((payload, current))
}

/// Reads a masked payload at position `index` under `root`: unmasks it with
/// the channel key and authenticates it, returning the user message and
/// the next root.
pub fn parse<C: Curl, I: Iss>(payload: &[i8], root: &[i8], index: usize, curl: &mut C) -> (r: Result<
    (Vec<i8>, Vec<i8>),
    MamError,
>)
    ensures
        result_view(r) == parsed::<C, I>(payload@, root@, index as nat),
        final(curl).absorbed() == Seq::<Seq<i8>>::empty(),
{
    let channel_key: Vec<Vec<i8>> = vec![crate::trits::copy_trits(root), int2trits(index)];
    assert(views(channel_key@) =~= channel_keys(root@, index as nat));
    let plain = unmask::<C>(payload, channel_key.as_slice());
    authenticate::<C, I>(plain.as_slice(), root, index, curl)
}

/// A reader's position on a channel: the root it knows and the position of
/// the next message under it.
pub struct Reader {
    pub root: Vec<i8>,
    pub index: usize,
}

impl Reader {
    /// A reader awaiting the message at `index` under `root`.
    pub fn new(root: Vec<i8>, index: usize) -> (r: Reader)
        ensures
            r.root@ == root@,
            r.index == index,
    {
        Reader { root, index }
    }

    /// Reads the next message: on success returns the user message and moves
    /// on to the next root at position 0; on failure stays where it was.
    pub fn read<C: Curl, I: Iss>(&mut self, payload: &[i8], curl: &mut C) -> (r: Result<
        Vec<i8>,
        MamError,
    >)
        ensures
            match parsed::<C, I>(payload@, old(self).root@, old(self).index as nat) {
                Ok((message, next)) => r matches Ok(m) && m@ == message && final(self).root@
                    == next && final(self).index == 0,
                Err(e) => r == Err::<Vec<i8>, MamError>(e) && final(self).root@ == old(self).root@
                    && final(self).index == old(self).index,
            },
            final(curl).absorbed() == Seq::<Seq<i8>>::empty(),
    {
        match parse::<C, I>(payload, self.root.as_slice(), self.index, curl) {
            Ok((message, next)) => {
                self.root = next;
                self.index = 0;
                Ok(message)
            },
            Err(e) => Err(e),
        }
    }
}

} // verus!
