use vstd::prelude::*;
use crate::field::{FieldElement, p, in_field, in_field_seq, vals, bytes_le_val,
    fe_from_le_bytes_mod_order};

verus! {

/// The 32-byte digest that the Keccak-256 sponge produces for a byte string.
/// The digest depends on the bytes alone.
pub uninterp spec fn keccak_of(data: Seq<u8>) -> Seq<u8>;

/// Relies on `sha3::Keccak256` through the `Digest` trait: one-shot hashing
/// yields the 32-byte Keccak-256 digest of the input, a function of the input
/// bytes alone.
#[verifier::external_body]
fn keccak256(data: &[u8]) -> (r: Vec<u8>)
    ensures
        r@ == keccak_of(data@),
        r@.len() == 32,
{
    let digest = <sha3::Keccak256 as sha3::Digest>::digest(data);
    digest.to_vec()
}

/// The field challenge squeezed from a transcript holding `s`: the digest of
/// `s` read as a little-endian integer, reduced modulo `p()`.
pub open spec fn challenge_of(s: Seq<u8>) -> int {
    bytes_le_val(keccak_of(s)) % p()
}

/// The transcript state after squeezing: the digest is absorbed back in.
pub open spec fn state_after_challenge(s: Seq<u8>) -> Seq<u8> {
    s + keccak_of(s)
}

/// The `n` challenges squeezed in a row from state `s`, oldest first.
pub open spec fn challenges_of(s: Seq<u8>, n: nat) -> Seq<int>
    decreases n,
{
    if n == 0 {
        Seq::<int>::empty()
    } else {
        seq![challenge_of(s)] + challenges_of(state_after_challenge(s), (n - 1) as nat)
    }
}

/// The transcript state after squeezing `n` challenges in a row.
pub open spec fn state_after_n(s: Seq<u8>, n: nat) -> Seq<u8>
    decreases n,
{
    if n == 0 {
        s
    } else {
        state_after_n(state_after_challenge(s), (n - 1) as nat)
    }
}

/// The concatenation of a sequence of byte strings.
pub open spec fn flatten_bytes(s: Seq<Vec<u8>>) -> Seq<u8>
    decreases s.len(),
{
    if s.len() == 0 {
        Seq::<u8>::empty()
    } else {
        flatten_bytes(s.drop_last()) + s.last()@
    }
}

/// A Fiat–Shamir transcript over a Keccak-256 sponge.  The state is exactly
/// the byte string absorbed so far; challenges are deterministic in it.
pub struct Transcript {
    absorbed: Vec<u8>,
}

impl View for Transcript {
    type V = Seq<u8>;

    closed spec fn view(&self) -> Seq<u8> {
        self.absorbed@
    }
}

impl Transcript {
    /// A fresh, empty transcript.
    pub fn new() -> (r: Self)
        ensures
            r@ == Seq::<u8>::empty(),
    {
        Transcript { absorbed: Vec::new() }
    }

    /// Absorbs a byte string.
    pub fn append(&mut self, data: &[u8])
        ensures
            final(self)@ == old(self)@ + data@,
    {
        let mut i: usize = 0;
        while i < data.len()
            invariant
                i <= data@.len(),
                self@ == old(self)@ + data@.take(i as int),
            decreases data@.len() - i,
        {
            proof {
                assert(old(self)@ + data@.take(i + 1) =~= (old(self)@ + data@.take(i as int)).push(
                    data@[i as int],
                ));
            }
            self.absorbed.push(data[i]);
            i = i + 1;
        }
        proof {
            assert(old(self)@ + data@.take(data@.len() as int) =~= old(self)@ + data@);
        }
    }

    /// Absorbs each byte string in order.
    pub fn append_n(&mut self, data: &Vec<Vec<u8>>)
        ensures
            final(self)@ == old(self)@ + flatten_bytes(data@),
    {
        let mut i: usize = 0;
        while i < data.len()
            invariant
                i <= data@.len(),
                self@ == old(self)@ + flatten_bytes(data@.take(i as int)),
            decreases data@.len() - i,
        {
            proof {
                assert(data@.take(i + 1).drop_last() =~= data@.take(i as int));
                assert(old(self)@ + flatten_bytes(data@.take(i + 1)) =~= (old(self)@
                    + flatten_bytes(data@.take(i as int))) + data@[i as int]@);
            }
            self.append(data[i].as_slice());
            i = i + 1;
        }
        proof {
            assert(data@.take(data@.len() as int) =~= data@);
        }
    }

    /// Squeezes one field challenge: the current digest, read little-endian
    /// and reduced, and absorbs the digest back into the sponge so later
    /// challenges differ without further input.
    pub fn sample_challenge(&mut self) -> (r: FieldElement)
        ensures
            in_field(r@),
            r@ == challenge_of(old(self)@),
            final(self)@ == state_after_challenge(old(self)@),
    {
        let digest = keccak256(self.absorbed.as_slice());
        let r = fe_from_le_bytes_mod_order(digest.as_slice());
        self.append(digest.as_slice());
        r
    }

    /// Squeezes `n` challenges in a row.
    pub fn sample_n_challenges(&mut self, n: usize) -> (r: Vec<FieldElement>)
        ensures
            vals(r@) == challenges_of(old(self)@, n as nat),
            r@.len() == n,
            in_field_seq(vals(r@)),
            final(self)@ == state_after_n(old(self)@, n as nat),
    {
        let mut out: Vec<FieldElement> = Vec::new();
        let mut i: usize = 0;
        while i < n
            invariant
                i <= n,
                out@.len() == i,
                in_field_seq(vals(out@)),
                vals(out@) + challenges_of(self@, (n - i) as nat) == challenges_of(
                    old(self)@,
                    n as nat,
                ),
                state_after_n(self@, (n - i) as nat) == state_after_n(old(self)@, n as nat),
            decreases n - i,
        {
            let ghost pre = self@;
            let ghost prev_out = out@;
            let c = self.sample_challenge();
            out.push(c);
            proof {
                assert(out@ == prev_out.push(c));
                assert(vals(out@) =~= vals(prev_out) + seq![c@]);
                assert(vals(prev_out) + (seq![challenge_of(pre)] + challenges_of(
                    state_after_challenge(pre),
                    (n - i - 1) as nat,
                )) =~= (vals(prev_out) + seq![challenge_of(pre)]) + challenges_of(
                    state_after_challenge(pre),
                    (n - i - 1) as nat,
                ));
                assert forall|j: int| 0 <= j < out@.len() implies in_field(
                    #[trigger] vals(out@)[j],
                ) by {
                    assert(vals(out@)[j] == out@[j]@);
                    if j < prev_out.len() {
                        assert(out@[j] == prev_out[j]);
                        assert(vals(prev_out)[j] == prev_out[j]@);
                    } else {
                        assert(out@[j] == c);
                    }
                }
            }
            i = i + 1;
        }
        proof {
            assert(vals(out@) + challenges_of(self@, 0) =~= vals(out@));
        }
        out
    }
}

/// Transcript determinism: two transcripts that have absorbed the same byte
/// sequence yield the same challenges, however many are squeezed.
pub proof fn lemma_transcript_determinism(t1: Transcript, t2: Transcript, n: nat)
    requires
        t1@ == t2@,
    ensures
        challenges_of(t1@, n) == challenges_of(t2@, n),
        state_after_n(t1@, n) == state_after_n(t2@, n),
{
}

} // verus!
