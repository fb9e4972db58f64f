//! A Fiat-Shamir transcript over Keccak-256.
//!
//! The transcript holds the bytes absorbed since the last challenge. A
//! challenge is the Keccak-256 digest of those bytes; the digest then becomes
//! the only pending input, so that later challenges depend on earlier ones.
use crate::field::{be_bytes_value, Fp};
use sha3::{Digest, Keccak256};
use vstd::prelude::*;

verus! {

/// The Keccak-256 digest of `data`.
pub uninterp spec fn keccak256(data: Seq<u8>) -> Seq<u8>;

/// Calls `sha3::Keccak256::digest`: the 32-byte Keccak-256 digest of `data`,
/// which depends on `data` alone. Nothing is claimed about the digest's bytes
/// beyond that and their number.
#[verifier::external_body]
fn keccak256_digest(data: &[u8]) -> (r: Vec<u8>)
    ensures
        r@ == keccak256(data@),
        r@.len() == 32,
{
    Keccak256::digest(data).to_vec()
}

/// The field element a challenge digest stands for.
pub open spec fn challenge_element<const P: u64>(digest: Seq<u8>) -> Fp<P> {
    Fp::<P>::from_nat(be_bytes_value(digest))
}

/// The `n` field elements sampled one after another from pending input `state`.
pub open spec fn challenge_elements<const P: u64>(state: Seq<u8>, n: nat) -> Seq<Fp<P>>
    decreases n,
{
    if n == 0 {
        Seq::empty()
    } else {
        seq![challenge_element::<P>(keccak256(state))] + challenge_elements::<P>(
            keccak256(state),
            (n - 1) as nat,
        )
    }
}

/// The pending input after sampling `n` challenges from `state`.
pub open spec fn state_after<const P: u64>(state: Seq<u8>, n: nat) -> Seq<u8>
    decreases n,
{
    if n == 0 {
        state
    } else {
        state_after::<P>(keccak256(state), (n - 1) as nat)
    }
}

/// A transcript: the bytes absorbed since the last challenge.
pub struct Transcript {
    pending: Vec<u8>,
}

impl Transcript {
    /// The bytes absorbed since the last challenge.
    pub closed spec fn state(self) -> Seq<u8> {
        self.pending@
    }

    /// An empty transcript.
    pub fn new() -> (r: Self)
        ensures
            r.state() == Seq::<u8>::empty(),
    {
        Transcript { pending: Vec::new() }
    }

    /// Absorb `new_data`.
    pub fn append(&mut self, new_data: &[u8])
        ensures
            final(self).state() == old(self).state() + new_data@,
    {
        let mut i: usize = 0;
        let ghost start = self.pending@;
        while i < new_data.len()
            invariant
                i <= new_data@.len(),
                self.pending@ == start + new_data@.subrange(0, i as int),
            decreases new_data@.len() - i,
        {
            self.pending.push(new_data[i]);
            proof {
                assert(new_data@.subrange(0, i + 1) =~= new_data@.subrange(0, i as int).push(new_data@[i as int]));
            }
            i = i + 1;
        }
        proof {
            assert(new_data@.subrange(0, new_data@.len() as int) =~= new_data@);
        }
    }

    /// The digest of the pending input, which then becomes the pending input.
    pub fn sample_challenge(&mut self) -> (r: Vec<u8>)
        ensures
            r@ == keccak256(old(self).state()),
            r@.len() == 32,
            final(self).state() == r@,
    {
        let digest = keccak256_digest(self.pending.as_slice());
        let mut next: Vec<u8> = Vec::new();
        let mut i: usize = 0;
        while i < digest.len()
            invariant
                i <= digest@.len(),
                next@ == digest@.subrange(0, i as int),
            decreases digest@.len() - i,
        {
            next.push(digest[i]);
            proof {
                assert(next@ =~= digest@.subrange(0, i + 1));
            }
            i = i + 1;
        }
        proof {
            assert(next@ =~= digest@);
        }
        self.pending = next;
        digest
    }

    /// A challenge as a field element: the digest read as a big-endian number modulo `P`.
    pub fn sample_field_element<const P: u64>(&mut self) -> (r: Fp<P>)
        requires
            0 < P,
        ensures
            r == challenge_element::<P>(keccak256(old(self).state())),
            final(self).state() == keccak256(old(self).state()),
    {
        let challenge = self.sample_challenge();
        Fp::from_be_bytes_mod_order(challenge.as_slice())
    }

    /// `n` challenges as field elements, one after another.
    pub fn sample_n_field_elements<const P: u64>(&mut self, n: usize) -> (r: Vec<Fp<P>>)
        requires
            0 < P,
        ensures
            r@ == challenge_elements::<P>(old(self).state(), n as nat),
            final(self).state() == state_after::<P>(old(self).state(), n as nat),
    {
        let ghost start = self.pending@;
        let mut out: Vec<Fp<P>> = Vec::new();
        let mut i: usize = 0;
        while i < n
            invariant
                0 < P,
                i <= n,
                challenge_elements::<P>(start, n as nat) == out@ + challenge_elements::<P>(
                    self.pending@,
                    (n - i) as nat,
                ),
                state_after::<P>(start, n as nat) == state_after::<P>(self.pending@, (n - i) as nat),
            decreases n - i,
        {
            let ghost before = self.pending@;
            let ghost out_before = out@;
            let e = self.sample_field_element::<P>();
            out.push(e);
            proof {
                let rest = challenge_elements::<P>(self.pending@, (n - i - 1) as nat);
                assert(challenge_elements::<P>(before, (n - i) as nat) == seq![e] + rest);
                assert(out_before + (seq![e] + rest) =~= out@ + rest);
            }
            i = i + 1;
        }
        proof {
            assert(out@ + Seq::<Fp<P>>::empty() =~= out@);
        }
        out
    }
}

} // verus!
