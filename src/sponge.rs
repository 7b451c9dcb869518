//! A Curl-style trit sponge: a state of three hashes, permuted by rounds
//! of a ternary substitution, absorbing one hash-long block at a time.
use vstd::prelude::*;
use crate::primitives::Curl;
use crate::trits::{HASH_LENGTH, copy_trits, is_trit, is_trits, tsum};

verus! {

/// Trits in the sponge's state.
pub const STATE_LENGTH: usize = 729;

/// Rounds of the permutation applied after each absorbed block.
pub const NUMBER_OF_ROUNDS: usize = 27;

/// A trit in {-1, 0, 1} that any `i8` stands for, modulo 3.
pub open spec fn normal(a: i8) -> i8 {
    tsum(a as int, 0)
}

/// The substitution: a trit from two trits of the previous round.
pub open spec fn substitute(a: i8, b: i8) -> i8 {
    let x = normal(a);
    let y = normal(b);
    if y == -1 {
        if x == -1 { 1i8 } else if x == 0 { 0i8 } else { -1i8 }
    } else if y == 0 {
        if x == -1 { 1i8 } else if x == 0 { -1i8 } else { 0i8 }
    } else {
        if x == -1 { -1i8 } else if x == 0 { 1i8 } else { 0i8 }
    }
}

/// The state position read at step `k` of a round.
pub open spec fn position(k: nat) -> int
    decreases k,
{
    if k == 0 {
        0
    } else if position((k - 1) as nat) < 365 {
        position((k - 1) as nat) + 364
    } else {
        position((k - 1) as nat) - 365
    }
}

pub proof fn lemma_position(k: nat)
    ensures
        0 <= position(k) < STATE_LENGTH,
    decreases k,
{
    if k > 0 {
        lemma_position((k - 1) as nat);
    }
}

/// One round of the permutation.
pub open spec fn round(s: Seq<i8>) -> Seq<i8> {
    Seq::new(
        STATE_LENGTH as nat,
        |i: int| substitute(s[position(i as nat)], s[position((i + 1) as nat)]),
    )
}

/// `n` rounds of the permutation.
pub open spec fn permuted(s: Seq<i8>, n: nat) -> Seq<i8>
    decreases n,
{
    if n == 0 {
        s
    } else {
        round(permuted(s, (n - 1) as nat))
    }
}

/// The state after writing `block` over its head and permuting.
pub open spec fn absorb_block(state: Seq<i8>, block: Seq<i8>) -> Seq<i8> {
    permuted(block + state.subrange(block.len() as int, STATE_LENGTH as int), NUMBER_OF_ROUNDS as nat)
}

/// The state after absorbing `input` block by block.
pub open spec fn absorb_input(state: Seq<i8>, input: Seq<i8>) -> Seq<i8>
    decreases input.len(),
{
    if input.len() == 0 {
        state
    } else if input.len() <= HASH_LENGTH {
        absorb_block(state, input)
    } else {
        absorb_input(
            absorb_block(state, input.subrange(0, HASH_LENGTH as int)),
            input.subrange(HASH_LENGTH as int, input.len() as int),
        )
    }
}

/// The zero state.
pub open spec fn zero_state() -> Seq<i8> {
    Seq::new(STATE_LENGTH as nat, |i: int| 0i8)
}

/// The state after absorbing each input of `log` in turn from the zero state.
pub open spec fn state_of(log: Seq<Seq<i8>>) -> Seq<i8>
    decreases log.len(),
{
    if log.len() == 0 {
        zero_state()
    } else {
        absorb_input(state_of(log.drop_last()), log.last())
    }
}

proof fn lemma_permuted(s: Seq<i8>, n: nat)
    requires
        s.len() == STATE_LENGTH,
        n > 0 || is_trits(s),
    ensures
        permuted(s, n).len() == STATE_LENGTH,
        is_trits(permuted(s, n)),
    decreases n,
{
    if n > 0 {
        if n > 1 {
            lemma_permuted(s, (n - 1) as nat);
        }
        let r = permuted(s, n);
        assert forall|i: int| 0 <= i < r.len() implies is_trit(#[trigger] r[i]) by {}
    }
}

proof fn lemma_absorb_input(state: Seq<i8>, input: Seq<i8>)
    requires
        state.len() == STATE_LENGTH,
        is_trits(state),
    ensures
        absorb_input(state, input).len() == STATE_LENGTH,
        is_trits(absorb_input(state, input)),
    decreases input.len(),
{
    if input.len() > 0 {
        let block = if input.len() <= HASH_LENGTH {
            input
        } else {
            input.subrange(0, HASH_LENGTH as int)
        };
        lemma_permuted(
            block + state.subrange(block.len() as int, STATE_LENGTH as int),
            NUMBER_OF_ROUNDS as nat,
        );
        if input.len() > HASH_LENGTH {
            lemma_absorb_input(
                absorb_block(state, block),
                input.subrange(HASH_LENGTH as int, input.len() as int),
            );
        }
    }
}

proof fn lemma_state_of(log: Seq<Seq<i8>>)
    ensures
        state_of(log).len() == STATE_LENGTH,
        is_trits(state_of(log)),
    decreases log.len(),
{
    if log.len() > 0 {
        lemma_state_of(log.drop_last());
        lemma_absorb_input(state_of(log.drop_last()), log.last());
    }
}

fn substitute_exec(a: i8, b: i8) -> (r: i8)
    ensures
        r == substitute(a, b),
{
    let x = crate::trits::trit_sum(a, 0);
    let y = crate::trits::trit_sum(b, 0);
    if y == -1 {
        if x == -1 { 1 } else if x == 0 { 0 } else { -1 }
    } else if y == 0 {
        if x == -1 { 1 } else if x == 0 { -1 } else { 0 }
    } else {
        if x == -1 { -1 } else if x == 0 { 1 } else { 0 }
    }
}

fn permute(state: &mut Vec<i8>)
    requires
        old(state)@.len() == STATE_LENGTH,
    ensures
        final(state)@ == permuted(old(state)@, NUMBER_OF_ROUNDS as nat),
{
    let ghost orig = state@;
    let mut r: usize = 0;
    while r < NUMBER_OF_ROUNDS
        invariant
            r <= NUMBER_OF_ROUNDS,
            state@ == permuted(orig, r as nat),
            state@.len() == STATE_LENGTH,
        decreases NUMBER_OF_ROUNDS - r,
    {
        let scratch = copy_trits(state.as_slice());
        let mut idx: usize = 0;
        let mut i: usize = 0;
        while i < STATE_LENGTH
            invariant
                i <= STATE_LENGTH,
                scratch@ == permuted(orig, r as nat),
                scratch@.len() == STATE_LENGTH,
                state@.len() == STATE_LENGTH,
                idx == position(i as nat),
                forall|j: int| 0 <= j < i ==> state@[j] == round(scratch@)[j],
            decreases STATE_LENGTH - i,
        {
            proof {
                lemma_position(i as nat);
            }
            let prev = idx;
            idx = if idx < 365 { idx + 364 } else { idx - 365 };
            proof {
                lemma_position((i + 1) as nat);
            }
            let t = substitute_exec(scratch[prev], scratch[idx]);
            state.set(i, t);
            i = i + 1;
        }
        assert(state@ =~= round(scratch@));
        r = r + 1;
    }
}

/// A Curl-style sponge over trits.
pub struct CpuCurl {
    state: Vec<i8>,
    log: Ghost<Seq<Seq<i8>>>,
}

impl CpuCurl {
    #[verifier::type_invariant]
    spec fn inv(self) -> bool {
        self.state@ == state_of(self.log@)
    }
}

impl Curl for CpuCurl {
    closed spec fn absorbed(&self) -> Seq<Seq<i8>> {
        self.log@
    }

    open spec fn squeeze(log: Seq<Seq<i8>>) -> Seq<i8> {
        state_of(log).subrange(0, HASH_LENGTH as int)
    }

    proof fn lemma_squeeze(log: Seq<Seq<i8>>) {
        lemma_state_of(log);
    }

    fn fresh() -> (r: Self) {
        let state = vec![0i8; STATE_LENGTH];
        assert(state@ =~= zero_state());
        CpuCurl { state, log: Ghost(Seq::empty()) }
    }

    fn absorb(&mut self, input: &[i8]) {
        proof {
            use_type_invariant(&*self);
            lemma_state_of(self.log@);
        }
        let ghost log = self.log@;
        let mut state = copy_trits(self.state.as_slice());
        let mut offset: usize = 0;
        assert(input@.subrange(0, input@.len() as int) =~= input@);
        while offset < input.len()
            invariant
                offset <= input@.len(),
                state@.len() == STATE_LENGTH,
                absorb_input(state@, input@.subrange(offset as int, input@.len() as int))
                    == absorb_input(state_of(log), input@),
            decreases input@.len() - offset,
        {
            let ghost rest = input@.subrange(offset as int, input@.len() as int);
            let end: usize = if input.len() - offset <= HASH_LENGTH {
                input.len()
            } else {
                offset + HASH_LENGTH
            };
            let ghost before = state@;
            let mut j: usize = offset;
            while j < end
                invariant
                    offset <= j <= end <= input@.len(),
                    state@.len() == STATE_LENGTH,
                    end - offset <= HASH_LENGTH,
                    forall|k: int| 0 <= k < j - offset ==> state@[k] == input@[offset + k],
                    forall|k: int| j - offset <= k < STATE_LENGTH ==> state@[k] == before[k],
                decreases end - j,
            {
                state.set(j - offset, input[j]);
                j = j + 1;
            }
            let ghost block = input@.subrange(offset as int, end as int);
            assert(state@ =~= block + before.subrange(block.len() as int, STATE_LENGTH as int));
            permute(&mut state);
            if end < input.len() {
                assert(block =~= rest.subrange(0, HASH_LENGTH as int));
                assert(rest.subrange(HASH_LENGTH as int, rest.len() as int) =~= input@.subrange(
                    end as int,
                    input@.len() as int,
                ));
            } else {
                assert(block =~= rest);
                assert(input@.subrange(end as int, input@.len() as int).len() == 0);
            }
            offset = end;
        }
        let ghost new_log = log.push(input@);
        assert(new_log.drop_last() =~= log);
        *self = CpuCurl { state, log: Ghost(new_log) };
    }

    fn reset(&mut self) {
        let state = vec![0i8; STATE_LENGTH];
        assert(state@ =~= zero_state());
        *self = CpuCurl { state, log: Ghost(Seq::empty()) };
    }

    fn rate(&self) -> (r: Vec<i8>) {
        proof {
            use_type_invariant(self);
            lemma_state_of(self.log@);
        }
        crate::trits::copy_range(self.state.as_slice(), 0, HASH_LENGTH)
    }
}

} // verus!
