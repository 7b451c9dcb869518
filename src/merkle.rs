//! The Merkle tree over one-time addresses: leaf keys, sibling paths, and
//! the root folded from a leaf and its path.
use vstd::prelude::*;
use crate::primitives::{Curl, Iss, hash_two};
use crate::trits::{HASH_LENGTH, KEY_LENGTH, copy_trits, incr, incremented_by, is_trits, views};

verus! {

/// The private key of the leaf at one-time index `index` under `seed`.
pub open spec fn leaf_key<I: Iss>(seed: Seq<i8>, index: nat, security: nat) -> Seq<i8> {
    I::key_of(I::subseed_of(incremented_by(seed, index)), security)
}

/// The Merkle leaf (address) at one-time index `index` under `seed`.
pub open spec fn leaf_address<I: Iss>(seed: Seq<i8>, index: nat, security: nat) -> Seq<i8> {
    I::address_of(I::digest_of(leaf_key::<I>(seed, index, security)))
}

/// A hash of zero trits, the padding of an odd level.
pub open spec fn zero_hash() -> Seq<i8> {
    Seq::new(HASH_LENGTH as nat, |i: int| 0i8)
}

/// A level with a zero hash appended when its length is odd.
pub open spec fn padded(level: Seq<Seq<i8>>) -> Seq<Seq<i8>> {
    if level.len() % 2 == 1 {
        level.push(zero_hash())
    } else {
        level
    }
}

/// The level above `level`: each parent hashes a left and a right child.
pub open spec fn next_level<C: Curl>(level: Seq<Seq<i8>>) -> Seq<Seq<i8>> {
    let p = padded(level);
    Seq::new(p.len() / 2, |i: int| hash_two::<C>(p[2 * i], p[2 * i + 1]))
}

/// The position of the other child under the same parent.
pub open spec fn partner(pos: nat) -> nat {
    if pos % 2 == 0 {
        pos + 1
    } else {
        (pos - 1) as nat
    }
}

/// The siblings met going up from the leaf at `pos`, from the leaf upwards.
pub open spec fn sibling_path<C: Curl>(level: Seq<Seq<i8>>, pos: nat) -> Seq<Seq<i8>>
    decreases level.len(),
{
    if level.len() <= 1 {
        seq![]
    } else {
        seq![padded(level)[partner(pos) as int]] + sibling_path::<C>(next_level::<C>(level), pos / 2)
    }
}

/// The root of the tree whose bottom level is `level`.
pub open spec fn tree_root<C: Curl>(level: Seq<Seq<i8>>) -> Seq<i8>
    decreases level.len(),
{
    if level.len() <= 1 {
        level[0]
    } else {
        tree_root::<C>(next_level::<C>(level))
    }
}

/// One step up: the low bit of `index` says on which side `acc` stands.
pub open spec fn climb<C: Curl>(acc: Seq<i8>, sibling: Seq<i8>, index: nat) -> Seq<i8> {
    if index % 2 == 0 {
        hash_two::<C>(acc, sibling)
    } else {
        hash_two::<C>(sibling, acc)
    }
}

/// The root folded from a leaf, its siblings, and its position.
pub open spec fn fold_root<C: Curl>(leaf: Seq<i8>, siblings: Seq<Seq<i8>>, index: nat) -> Seq<i8>
    decreases siblings.len(),
{
    if siblings.len() == 0 {
        leaf
    } else {
        fold_root::<C>(climb::<C>(leaf, siblings[0], index), siblings.drop_first(), index / 2)
    }
}

/// Folding any leaf of a tree with its sibling path gives the tree's root.
pub proof fn lemma_path_reaches_root<C: Curl>(level: Seq<Seq<i8>>, pos: nat)
    requires
        pos < level.len(),
    ensures
        fold_root::<C>(level[pos as int], sibling_path::<C>(level, pos), pos) == tree_root::<C>(level),
    decreases level.len(),
{
    if level.len() > 1 {
        let p = padded(level);
        let up = next_level::<C>(level);
        let path = sibling_path::<C>(level, pos);
        assert(p[pos as int] == level[pos as int]);
        assert(climb::<C>(level[pos as int], p[partner(pos) as int], pos) == up[(pos / 2) as int]);
        assert(path.drop_first() =~= sibling_path::<C>(up, pos / 2));
        lemma_path_reaches_root::<C>(up, pos / 2);
    }
}

/// Every leaf of a tree, folded with its own sibling path, gives the same
/// root as the first leaf.
pub proof fn lemma_every_leaf_same_root<C: Curl>(addresses: Seq<Seq<i8>>, index: nat)
    requires
        index < addresses.len(),
    ensures
        fold_root::<C>(addresses[index as int], sibling_path::<C>(addresses, index), index)
            == fold_root::<C>(addresses[0], sibling_path::<C>(addresses, 0), 0),
{
    lemma_path_reaches_root::<C>(addresses, index);
    lemma_path_reaches_root::<C>(addresses, 0);
}

/// A root folded from a hash-long leaf is one hash long.
pub proof fn lemma_fold_root_len<C: Curl>(leaf: Seq<i8>, siblings: Seq<Seq<i8>>, index: nat)
    requires
        leaf.len() == HASH_LENGTH,
    ensures
        fold_root::<C>(leaf, siblings, index).len() == HASH_LENGTH,
    decreases siblings.len(),
{
    if siblings.len() > 0 {
        let acc = climb::<C>(leaf, siblings[0], index);
        C::lemma_squeeze(seq![leaf, siblings[0]]);
        C::lemma_squeeze(seq![siblings[0], leaf]);
        lemma_fold_root_len::<C>(acc, siblings.drop_first(), index / 2);
    }
}

/// A root folded from a leaf of trits is made of trits.
pub proof fn lemma_fold_root_trits<C: Curl>(leaf: Seq<i8>, siblings: Seq<Seq<i8>>, index: nat)
    requires
        is_trits(leaf),
    ensures
        is_trits(fold_root::<C>(leaf, siblings, index)),
    decreases siblings.len(),
{
    if siblings.len() > 0 {
        let acc = climb::<C>(leaf, siblings[0], index);
        C::lemma_squeeze(seq![leaf, siblings[0]]);
        C::lemma_squeeze(seq![siblings[0], leaf]);
        lemma_fold_root_trits::<C>(acc, siblings.drop_first(), index / 2);
    }
}

/// The hashes on a sibling path are hash-long trit sequences when the
/// leaves are, and there are no more of them than leaves.
pub proof fn lemma_path_shape<C: Curl>(level: Seq<Seq<i8>>, pos: nat)
    requires
        pos < level.len(),
        forall|i: int| 0 <= i < level.len() ==> is_trits(#[trigger] level[i]) && level[i].len() == HASH_LENGTH,
    ensures
        forall|j: int| 0 <= j < sibling_path::<C>(level, pos).len() ==> is_trits(
            #[trigger] sibling_path::<C>(level, pos)[j],
        ) && sibling_path::<C>(level, pos)[j].len() == HASH_LENGTH,
        sibling_path::<C>(level, pos).len() <= level.len(),
    decreases level.len(),
{
    if level.len() > 1 {
        let p = padded(level);
        let up = next_level::<C>(level);
        assert forall|i: int| 0 <= i < p.len() implies is_trits(#[trigger] p[i]) && p[i].len() == HASH_LENGTH by {
            if i == level.len() {
                assert(p[i] == zero_hash());
            }
        }
        assert forall|i: int| 0 <= i < up.len() implies is_trits(#[trigger] up[i]) && up[i].len() == HASH_LENGTH by {
            C::lemma_squeeze(seq![p[2 * i], p[2 * i + 1]]);
        }
        lemma_path_shape::<C>(up, pos / 2);
        let path = sibling_path::<C>(level, pos);
        assert forall|j: int| 0 <= j < path.len() implies is_trits(#[trigger] path[j]) && path[j].len() == HASH_LENGTH by {
            if j > 0 {
                assert(path[j] == sibling_path::<C>(up, pos / 2)[j - 1]);
            } else {
                assert(path[0] == p[partner(pos) as int]);
            }
        }
    }
}

/// The private key of the leaf at one-time index `index`: the seed
/// incremented `index` times, turned into a subseed, and expanded.
pub fn key<I: Iss>(seed: &[i8], index: usize, security: u8) -> (r: Vec<i8>)
    requires
        seed@.len() == HASH_LENGTH,
        is_trits(seed@),
        1 <= security <= 3,
    ensures
        r@ == leaf_key::<I>(seed@, index as nat, security as nat),
        r@.len() == security * KEY_LENGTH,
{
    let mut head = copy_trits(seed);
    let mut n: usize = 0;
    while n < index
        invariant
            n <= index,
            head@ == incremented_by(seed@, n as nat),
            is_trits(head@),
        decreases index - n,
    {
        incr(&mut head);
        n = n + 1;
    }
    let subseed = I::subseed(head.as_slice());
    I::key(subseed.as_slice(), security)
}

/// The sibling path of the leaf at position `index` among `addrs`, from the
/// leaf upwards. Odd levels are padded on the right with a zero hash.
pub fn siblings<C: Curl>(addrs: &[Vec<i8>], index: usize, curl: &mut C) -> (r: Vec<Vec<i8>>)
    requires
        index < addrs@.len(),
    ensures
        views(r@) == sibling_path::<C>(views(addrs@), index as nat),
        final(curl).absorbed() == Seq::<Seq<i8>>::empty(),
{
    curl.reset();
    let mut out: Vec<Vec<i8>> = Vec::new();
    let mut hashes: Vec<Vec<i8>> = Vec::new();
    let mut k: usize = 0;
    while k < addrs.len()
        invariant
            k <= addrs@.len(),
            views(hashes@) == views(addrs@).subrange(0, k as int),
        decreases addrs@.len() - k,
    {
        let c = copy_trits(addrs[k].as_slice());
        assert(c@ == addrs@[k as int]@);
        let ghost h0 = hashes@;
        assert(views(h0).len() == k);
        hashes.push(c);
        assert(hashes@ == h0.push(c));
        assert(views(hashes@).len() == k + 1);
        assert forall|j: int| 0 <= j < k + 1 implies views(hashes@)[j] == views(addrs@)[j] by {
            if j < k {
                assert(views(h0)[j] == views(addrs@).subrange(0, k as int)[j]);
            }
        }
        assert(views(hashes@) =~= views(addrs@).subrange(0, k + 1));
        k = k + 1;
    }
    assert(views(hashes@) =~= views(addrs@));
    let mut pos: usize = index;
    while hashes.len() > 1
        invariant
            pos < hashes@.len(),
            views(out@) + sibling_path::<C>(views(hashes@), pos as nat)
                == sibling_path::<C>(views(addrs@), index as nat),
            curl.absorbed() == Seq::<Seq<i8>>::empty(),
        decreases hashes@.len(),
    {
        let ghost level = views(hashes@);
        let ghost out0 = views(out@);
        assert(level.len() == hashes@.len());
        if hashes.len() % 2 == 1 {
            let z = vec![0i8; HASH_LENGTH];
            assert(z@ =~= zero_hash());
            hashes.push(z);
        }
        assert(views(hashes@) =~= padded(level));
        let other: usize = if pos % 2 == 0 { pos + 1 } else { pos - 1 };
        out.push(copy_trits(hashes[other].as_slice()));
        let n: usize = hashes.len();
        let half: usize = n / 2;
        let mut parents: Vec<Vec<i8>> = Vec::new();
        let mut i: usize = 0;
        while i < half
            invariant
                half == n / 2,
                n == hashes@.len(),
                hashes@.len() == level.len() + 1 || hashes@.len() == level.len(),
                i <= half,
                views(hashes@) == padded(level),
                views(parents@) == next_level::<C>(level).subrange(0, i as int),
                curl.absorbed() == Seq::<Seq<i8>>::empty(),
            decreases half - i,
        {
            assert(views(hashes@).len() == hashes@.len());
            assert(2 * i + 1 < hashes@.len());
            let left: usize = i + i;
            curl.absorb(hashes[left].as_slice());
            curl.absorb(hashes[left + 1].as_slice());
            assert(curl.absorbed() =~= seq![hashes@[2 * i as int]@, hashes@[2 * i + 1]@]);
            let parent = curl.rate();
            curl.reset();
            let ghost p0 = parents@;
            assert(views(p0).len() == i);
            parents.push(parent);
            assert(views(parents@).len() == i + 1);
            assert(parent@ == next_level::<C>(level)[i as int]);
            assert(views(parents@) =~= next_level::<C>(level).subrange(0, i + 1));
            i = i + 1;
        }
        assert(views(parents@) =~= next_level::<C>(level));
        proof {
            let path = sibling_path::<C>(level, pos as nat);
            assert(path =~= seq![padded(level)[partner(pos as nat) as int]] + sibling_path::<C>(
                next_level::<C>(level),
                pos as nat / 2,
            ));
            assert(views(out@) =~= out0.push(padded(level)[partner(pos as nat) as int]));
            assert(views(out@) + sibling_path::<C>(next_level::<C>(level), pos as nat / 2)
                =~= out0 + path);
        }
        hashes = parents;
        pos = pos / 2;
    }
    out
}

/// The root reached from the leaf `address` at position `index` by folding
/// in `hashes`, its siblings from the leaf upwards: bit `j` of `index` says
/// whether the running hash is the left or the right child at step `j`.
pub fn root<C: Curl>(address: &[i8], hashes: &[Vec<i8>], index: usize, curl: &mut C) -> (r: Vec<i8>)
    ensures
        r@ == fold_root::<C>(address@, views(hashes@), index as nat),
        final(curl).absorbed() == Seq::<Seq<i8>>::empty(),
{
    let ghost all = views(hashes@);
    let mut out = copy_trits(address);
    let mut rest: usize = index;
    let mut j: usize = 0;
    assert(all.subrange(0, all.len() as int) =~= all);
    while j < hashes.len()
        invariant
            j <= hashes@.len(),
            all == views(hashes@),
            fold_root::<C>(out@, all.subrange(j as int, all.len() as int), rest as nat)
                == fold_root::<C>(address@, all, index as nat),
        decreases hashes@.len() - j,
    {
        let ghost tail = all.subrange(j as int, all.len() as int);
        assert(tail[0] == hashes@[j as int]@);
        assert(tail.drop_first() =~= all.subrange(j + 1, all.len() as int));
        let ghost acc = out@;
        curl.reset();
        if rest % 2 == 0 {
            curl.absorb(out.as_slice());
            curl.absorb(hashes[j].as_slice());
            assert(curl.absorbed() =~= seq![acc, tail[0]]);
        } else {
            curl.absorb(hashes[j].as_slice());
            curl.absorb(out.as_slice());
            assert(curl.absorbed() =~= seq![tail[0], acc]);
        }
        out = curl.rate();
        assert(out@ == climb::<C>(acc, tail[0], rest as nat));
        rest = rest / 2;
        j = j + 1;
    }
    curl.reset();
    assert(all.subrange(j as int, all.len() as int).len() == 0);
    out
}

} // verus!
