use vstd::prelude::*;

verus! {

/// The sibling-hash path of one Merkle authentication proof, leaf side
/// first.
pub struct MerkleProof {
    hash_path: Vec<Vec<u8>>,
}

impl View for MerkleProof {
    type V = Seq<Seq<u8>>;

    closed spec fn view(&self) -> Seq<Seq<u8>> {
        self.hash_path@.map_values(|h: Vec<u8>| h@)
    }
}

impl MerkleProof {
    /// Wraps a sibling-hash path.
    pub fn new(hash_path: Vec<Vec<u8>>) -> (r: Self)
        ensures
            r@ == hash_path@.map_values(|h: Vec<u8>| h@),
            r@.len() == hash_path@.len(),
    {
        MerkleProof { hash_path }
    }

    /// The number of hashes on the path.
    pub fn len(&self) -> (r: usize)
        ensures
            r == self@.len(),
    {
        self.hash_path.len()
    }
}

/// The indices of the pair folded together in a layer of `n` evaluations:
/// an index in the first half is paired with the one `n/2` above it, an
/// index in the second half with the one `n/2` below it.
pub fn get_layer_proof_indexes(n: usize, given_index: usize) -> (r: (usize, usize))
    requires
        given_index < n,
    ensures
        given_index < n / 2 ==> r.0 == given_index && r.1 == given_index + n / 2,
        given_index >= n / 2 ==> r.0 == given_index - n / 2 && r.1 == given_index,
        r.0 < r.1 || (r.0 == r.1 && n <= 1),
{
    let half_length = n / 2;
    if given_index < half_length {
        (given_index, given_index + half_length)
    } else {
        (given_index - half_length, given_index)
    }
}

} // verus!
