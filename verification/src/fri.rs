//! The FRI proof object: layered query values packed as bytes, batched
//! Merkle authentication paths, and the remainder of the last layer.
//!
//! Construction and parsing are byte-exact inverses of each other; the
//! contracts state both directions over the element codec.

use vstd::prelude::*;
use vstd::arithmetic::div_mod::*;
use vstd::arithmetic::mul::*;
use crate::field::{Felt, P, ELEMENT_BYTES};
use crate::codec::{
    felt_vals, all_wf, elems_to_bytes, bytes_to_elems, elements_as_bytes, read_elements,
    lemma_elems_to_bytes_len, lemma_codec_roundtrip,
};
use crate::polynom::{log2, log2_nat, is_power_of_two};
use vstd::arithmetic::power::{pow, lemma_pow0, lemma_pow1, lemma_pow_adds, lemma_pow_positive};
use crate::errors::ProofSerializationError;

verus! {

/// The number of bytes in one hash digest.
pub const DIGEST_BYTES: usize = 32;

/// The SHA-256 digest of a byte string, named: its value is a function of
/// the input bytes alone.
pub uninterp spec fn sha256_of(data: Seq<u8>) -> Seq<u8>;

/// Relies on `sha2::Sha256` through `sha2::Digest::digest`: the digest is a
/// pure function of the input bytes and is 32 bytes long.
#[verifier::external_body]
fn sha256(data: &Vec<u8>) -> (r: Vec<u8>)
    ensures
        r@ == sha256_of(data@),
        r@.len() == DIGEST_BYTES,
{
    <sha2::Sha256 as sha2::Digest>::digest(data.as_slice()).to_vec()
}

/// The digest of a sequence of field elements: the hash of their canonical
/// byte encoding.
pub open spec fn hash_elems_spec(e: Seq<int>) -> Seq<u8> {
    sha256_of(elems_to_bytes(e))
}

/// Hashes field elements into one leaf digest.
pub fn hash_elements(elems: &Vec<Felt>) -> (r: Vec<u8>)
    requires
        all_wf(elems@),
    ensures
        r@ == hash_elems_spec(felt_vals(elems@)),
        r@.len() == DIGEST_BYTES,
{
    let bytes = elements_as_bytes(elems);
    sha256(&bytes)
}

// BATCH MERKLE PROOF
// ================================================================================================

/// Every digest in a sequence is digest-sized.
pub open spec fn all_digests(s: Seq<Vec<u8>>) -> bool {
    forall|i: int| 0 <= i < s.len() ==> (#[trigger] s[i])@.len() == DIGEST_BYTES
}

/// The concatenation of a sequence of digests.
pub open spec fn nodes_to_bytes(ns: Seq<Vec<u8>>) -> Seq<u8>
    decreases ns.len(),
{
    if ns.len() == 0 {
        Seq::empty()
    } else {
        ns[0]@ + nodes_to_bytes(ns.skip(1))
    }
}

/// The decomposition of a byte string into digest-sized chunks.
pub open spec fn split_digests(bs: Seq<u8>) -> Seq<Seq<u8>>
    decreases bs.len(),
{
    if bs.len() < DIGEST_BYTES {
        Seq::empty()
    } else {
        seq![bs.take(DIGEST_BYTES as int)] + split_digests(bs.skip(DIGEST_BYTES as int))
    }
}

/// The views of a sequence of byte vectors.
pub open spec fn node_views(ns: Seq<Vec<u8>>) -> Seq<Seq<u8>> {
    ns.map(|i: int, n: Vec<u8>| n@)
}

/// A batched Merkle authentication structure: the hashed leaves in query
/// order, the internal nodes shared among the paths, and the tree depth.
/// The internal node layout is opaque to this crate; serialization simply
/// concatenates the digests.
pub struct BatchMerkleProof {
    pub leaves: Vec<Vec<u8>>,
    pub nodes: Vec<Vec<u8>>,
    pub depth: u8,
}

impl BatchMerkleProof {
    /// Leaves and nodes all hold digest-sized values.
    pub open spec fn wf(self) -> bool {
        &&& all_digests(self.leaves@)
        &&& all_digests(self.nodes@)
    }

    /// Packs the internal proof nodes into a single byte vector; leaf
    /// digests are reconstructible from the query values and are not
    /// serialized.
    pub fn serialize_nodes(&self) -> (r: Vec<u8>)
        requires
            self.wf(),
        ensures
            r@ == nodes_to_bytes(self.nodes@),
            r@.len() == self.nodes@.len() * DIGEST_BYTES,
    {
        let mut r: Vec<u8> = Vec::new();
        let n = self.nodes.len();
        proof {
            lemma_nodes_to_bytes_len(self.nodes@);
            assert(self.nodes@.skip(0) =~= self.nodes@);
            assert(r@ + nodes_to_bytes(self.nodes@.skip(0)) =~= nodes_to_bytes(self.nodes@));
        }
        let mut j: usize = 0;
        while j < n
            invariant
                j <= n,
                n == self.nodes@.len(),
                self.wf(),
                r@ + nodes_to_bytes(self.nodes@.skip(j as int)) == nodes_to_bytes(self.nodes@),
                r@.len() == j * DIGEST_BYTES,
            decreases n - j,
        {
            let ghost r0 = r@;
            let mut chunk = self.nodes[j].clone();
            proof {
                assert(chunk@ == self.nodes@[j as int]@);
            }
            r.append(&mut chunk);
            proof {
                assert(self.nodes@.skip(j as int)[0] == self.nodes@[j as int]);
                assert(self.nodes@.skip(j as int).skip(1) =~= self.nodes@.skip(j + 1));
                assert(nodes_to_bytes(self.nodes@.skip(j as int)) == self.nodes@[j as int]@
                    + nodes_to_bytes(self.nodes@.skip(j + 1)));
                assert(r@ + nodes_to_bytes(self.nodes@.skip(j + 1)) =~= r0 + nodes_to_bytes(
                    self.nodes@.skip(j as int),
                ));
                lemma_mul_is_distributive_add_other_way(DIGEST_BYTES as int, j as int, 1);
            }
            j = j + 1;
        }
        proof {
            assert(self.nodes@.skip(n as int) =~= Seq::<Vec<u8>>::empty());
            assert(r@ + Seq::<u8>::empty() =~= r@);
        }
        r
    }

    /// Rebuilds a batch proof from serialized internal nodes, the leaf
    /// digests recomputed from query values, and the tree depth. Fails
    /// exactly when the byte length is not a whole number of digests.
    pub fn deserialize(bytes: &Vec<u8>, leaves: Vec<Vec<u8>>, depth: u8) -> (r: Result<
        BatchMerkleProof,
        String,
    >)
        requires
            all_digests(leaves@),
        ensures
            r is Ok <==> bytes@.len() as int % DIGEST_BYTES as int == 0,
            r matches Ok(mp) ==> {
                &&& mp.wf()
                &&& node_views(mp.nodes@) == split_digests(bytes@)
                &&& mp.leaves@ == leaves@
                &&& mp.depth == depth
            },
    {
        if bytes.len() % DIGEST_BYTES != 0 {
            return Err("node bytes do not divide into whole digests".to_string());
        }
        let mut nodes: Vec<Vec<u8>> = Vec::new();
        let n = bytes.len();
        let mut off: usize = 0;
        proof {
            assert(bytes@.skip(0) =~= bytes@);
            assert(node_views(nodes@) + split_digests(bytes@.skip(0)) =~= split_digests(bytes@));
        }
        while off < n
            invariant
                off <= n,
                n == bytes@.len(),
                off % DIGEST_BYTES == 0,
                n % DIGEST_BYTES == 0,
                all_digests(nodes@),
                node_views(nodes@) + split_digests(bytes@.skip(off as int)) == split_digests(
                    bytes@,
                ),
            decreases n - off,
        {
            proof {
                lemma_sub_mod_noop(n as int, off as int, DIGEST_BYTES as int);
                lemma_fundamental_div_mod(n - off, DIGEST_BYTES as int);
                let q = (n - off) / DIGEST_BYTES as int;
                if q <= 0 {
                    lemma_mul_inequality(q, 0, DIGEST_BYTES as int);
                    lemma_mul_is_commutative(q, DIGEST_BYTES as int);
                }
                lemma_mul_inequality(1, q, DIGEST_BYTES as int);
                lemma_mul_is_commutative(q, DIGEST_BYTES as int);
                lemma_mul_basics(DIGEST_BYTES as int);
            }
            let mut chunk: Vec<u8> = Vec::new();
            let mut k: usize = 0;
            while k < DIGEST_BYTES
                invariant
                    k <= DIGEST_BYTES,
                    off + DIGEST_BYTES <= n,
                    n == bytes@.len(),
                    k == chunk@.len(),
                    chunk@ == bytes@.subrange(off as int, off + k),
                decreases DIGEST_BYTES - k,
            {
                chunk.push(bytes[off + k]);
                proof {
                    assert(chunk@ =~= bytes@.subrange(off as int, off + k + 1));
                }
                k = k + 1;
            }
            let ghost nodes0 = nodes@;
            nodes.push(chunk);
            proof {
                let tail = bytes@.skip(off as int);
                assert(tail.take(DIGEST_BYTES as int) =~= bytes@.subrange(
                    off as int,
                    off + DIGEST_BYTES,
                ));
                assert(tail.skip(DIGEST_BYTES as int) =~= bytes@.skip(off + DIGEST_BYTES));
                assert(split_digests(tail) == seq![tail.take(DIGEST_BYTES as int)]
                    + split_digests(bytes@.skip(off + DIGEST_BYTES)));
                assert(node_views(nodes@) =~= node_views(nodes0).push(
                    bytes@.subrange(off as int, off + DIGEST_BYTES),
                ));
                assert(node_views(nodes@) + split_digests(bytes@.skip(off + DIGEST_BYTES))
                    =~= node_views(nodes0) + split_digests(tail));
                lemma_mod_adds(off as int, DIGEST_BYTES as int, DIGEST_BYTES as int);
                lemma_mod_self_0(DIGEST_BYTES as int);
                lemma_small_mod(0, DIGEST_BYTES as nat);
            }
            off = off + DIGEST_BYTES;
        }
        proof {
            assert(bytes@.skip(n as int) =~= Seq::<u8>::empty());
            assert(node_views(nodes@) + Seq::<Seq<u8>>::empty() =~= node_views(nodes@));
        }
        Ok(BatchMerkleProof { leaves, nodes, depth })
    }
}

// FRI PROOF LAYER
// ================================================================================================

/// The concatenated byte encodings of a sequence of query groups.
pub open spec fn groups_to_bytes(gs: Seq<Seq<int>>) -> Seq<u8>
    decreases gs.len(),
{
    if gs.len() == 0 {
        Seq::empty()
    } else {
        elems_to_bytes(gs[0]) + groups_to_bytes(gs.skip(1))
    }
}

/// The concatenation of a sequence of query groups into one flat sequence.
pub open spec fn flatten_groups(gs: Seq<Seq<int>>) -> Seq<int>
    decreases gs.len(),
{
    if gs.len() == 0 {
        Seq::empty()
    } else {
        gs[0] + flatten_groups(gs.skip(1))
    }
}

/// The values of a layer parse into elements exactly when the byte length
/// is a whole number of queries of `folding_factor` elements each and every
/// chunk decodes.
pub open spec fn parse_layer_spec(bs: Seq<u8>, folding_factor: nat) -> Option<Seq<int>> {
    if folding_factor < 1 || bs.len() as int % (ELEMENT_BYTES * folding_factor) as int != 0 {
        Option::None
    } else {
        bytes_to_elems(bs)
    }
}

/// One layer of a FRI proof: the query values packed as bytes in query
/// order, and the serialized internal nodes of the layer's batch Merkle
/// proof.
pub struct FriProofLayer {
    pub values: Vec<u8>,
    pub paths: Vec<u8>,
}

impl FriProofLayer {
    /// A layer holds at least one query and at least one proof node.
    pub open spec fn wf(self) -> bool {
        &&& self.values@.len() >= 1
        &&& self.paths@.len() >= 1
    }

    /// Packs query value groups and their batch Merkle proof into a layer.
    /// Each group holds the query's `folding_factor` field elements; bytes
    /// are concatenated in query order, matching the Merkle leaf order.
    pub fn new(query_values: Vec<Vec<Felt>>, merkle_proof: BatchMerkleProof) -> (r: FriProofLayer)
        requires
            query_values@.len() >= 1,
            forall|g: int| 0 <= g < query_values@.len() ==> (#[trigger] query_values@[g])@.len()
                >= 1,
            forall|g: int| 0 <= g < query_values@.len() ==> all_wf((#[trigger] query_values@[g])@),
            merkle_proof.wf(),
            merkle_proof.nodes@.len() >= 1,
        ensures
            r.wf(),
            r.values@ == groups_to_bytes(group_vals(query_values@)),
            r.paths@ == nodes_to_bytes(merkle_proof.nodes@),
    {
        let ghost gs = group_vals(query_values@);
        let mut values: Vec<u8> = Vec::new();
        let n = query_values.len();
        proof {
            assert(gs.skip(0) =~= gs);
            assert(values@ + groups_to_bytes(gs.skip(0)) =~= groups_to_bytes(gs));
            lemma_groups_to_bytes_len(gs);
            assert(gs[0].len() >= 1);
            lemma_elems_to_bytes_len(gs[0]);
        }
        let mut g: usize = 0;
        while g < n
            invariant
                g <= n,
                n == query_values@.len(),
                gs == group_vals(query_values@),
                forall|g2: int| 0 <= g2 < n ==> all_wf((#[trigger] query_values@[g2])@),
                values@ + groups_to_bytes(gs.skip(g as int)) == groups_to_bytes(gs),
            decreases n - g,
        {
            let ghost v0 = values@;
            let mut bytes = elements_as_bytes(&query_values[g]);
            values.append(&mut bytes);
            proof {
                assert(gs.skip(g as int)[0] == gs[g as int]);
                assert(gs.skip(g as int).skip(1) =~= gs.skip(g + 1));
                assert(gs[g as int] == felt_vals(query_values@[g as int]@));
                assert(values@ + groups_to_bytes(gs.skip(g + 1)) =~= v0 + groups_to_bytes(
                    gs.skip(g as int),
                ));
            }
            g = g + 1;
        }
        proof {
            assert(gs.skip(n as int) =~= Seq::<Seq<int>>::empty());
            assert(values@ + Seq::<u8>::empty() =~= values@);
            // a nonempty first group makes the byte buffer nonempty
            assert(groups_to_bytes(gs).len() >= gs[0].len() * ELEMENT_BYTES);
            lemma_mul_inequality(1, gs[0].len() as int, ELEMENT_BYTES as int);
            lemma_mul_is_commutative(gs[0].len() as int, ELEMENT_BYTES as int);
            lemma_mul_basics(ELEMENT_BYTES as int);
            lemma_nodes_to_bytes_len(merkle_proof.nodes@);
            lemma_mul_inequality(1, merkle_proof.nodes@.len() as int, DIGEST_BYTES as int);
            lemma_mul_is_commutative(merkle_proof.nodes@.len() as int, DIGEST_BYTES as int);
            lemma_mul_basics(DIGEST_BYTES as int);
        }
        let paths = merkle_proof.serialize_nodes();
        FriProofLayer { values, paths }
    }

    /// Decomposes the layer into its query values and its batch Merkle
    /// proof, hashing each query group into its leaf digest. Fails exactly
    /// when the value bytes are not a whole number of queries, a value does
    /// not decode into a field element, or the path bytes are not a whole
    /// number of digests.
    pub fn parse(self, layer_depth: usize, domain_size: usize, folding_factor: usize) -> (r:
        Result<(Vec<Felt>, BatchMerkleProof), ProofSerializationError>)
        requires
            self.wf(),
            domain_size >= 1,
            1 <= folding_factor <= 0x1000,
        ensures
            r is Ok <==> parse_layer_spec(self.values@, folding_factor as nat) is Some && self.paths@.len() as int
                % DIGEST_BYTES as int == 0,
            r matches Ok((qv, mp)) ==> {
                &&& parse_layer_spec(self.values@, folding_factor as nat) == Some(felt_vals(qv@))
                &&& all_wf(qv@)
                &&& qv@.len() * ELEMENT_BYTES == self.values@.len()
                &&& qv@.len() as int % folding_factor as int == 0
                &&& mp.wf()
                &&& node_views(mp.nodes@) == split_digests(self.paths@)
                &&& mp.depth == log2_nat(domain_size as nat)
                &&& mp.leaves@.len() == qv@.len() as int / folding_factor as int
                &&& forall|q: int|
                    0 <= q < mp.leaves@.len() ==> (#[trigger] mp.leaves@[q])@ == hash_elems_spec(
                        felt_vals(qv@).subrange(
                            q * folding_factor as int,
                            (q + 1) * folding_factor as int,
                        ),
                    )
            },
            r matches Err(e) ==> e matches ProofSerializationError::LayerDeserializationError(
                d,
                _,
            ) && d == layer_depth,
    {
        let num_query_bytes = ELEMENT_BYTES * folding_factor;
        if self.values.len() % num_query_bytes != 0 {
            return Err(
                ProofSerializationError::LayerDeserializationError(
                    layer_depth,
                    "value bytes do not divide into a whole number of queries".to_string(),
                ),
            );
        }
        let num_queries = self.values.len() / num_query_bytes;
        let n = self.values.len();
        let ghost whole = bytes_to_elems(self.values@);
        proof {
            lemma_fundamental_div_mod(n as int, num_query_bytes as int);
            lemma_mul_is_commutative(num_queries as int, num_query_bytes as int);
        }
        let mut hashed_queries: Vec<Vec<u8>> = Vec::new();
        let mut query_values: Vec<Felt> = Vec::new();
        let mut q: usize = 0;
        proof {
            assert(self.values@.skip(0) =~= self.values@);
            if bytes_to_elems(self.values@.skip(0)) is Some {
                assert(felt_vals(query_values@) + bytes_to_elems(self.values@.skip(0))->Some_0
                    =~= bytes_to_elems(self.values@.skip(0))->Some_0);
            }
            lemma_mul_basics(num_query_bytes as int);
            lemma_mul_basics(folding_factor as int);
        }
        while q < num_queries
            invariant
                q <= num_queries,
                n == self.values@.len(),
                num_query_bytes == ELEMENT_BYTES * folding_factor,
                1 <= folding_factor <= 0x1000,
                n == num_queries * num_query_bytes,
                query_values@.len() == q * folding_factor,
                hashed_queries@.len() == q,
                all_wf(query_values@),
                all_digests(hashed_queries@),
                whole == bytes_to_elems(self.values@),
                bytes_to_elems(self.values@) == match bytes_to_elems(
                    self.values@.skip((q * num_query_bytes) as int),
                ) {
                    Some(rest) => Some(felt_vals(query_values@) + rest),
                    None => None::<Seq<int>>,
                },
                forall|q2: int|
                    0 <= q2 < q ==> (#[trigger] hashed_queries@[q2])@ == hash_elems_spec(
                        felt_vals(query_values@).subrange(
                            q2 * folding_factor as int,
                            (q2 + 1) * folding_factor as int,
                        ),
                    ),
            decreases num_queries - q,
        {
            proof {
                lemma_mul_is_distributive_add_other_way(num_query_bytes as int, q as int, 1);
                lemma_mul_inequality(q + 1, num_queries as int, num_query_bytes as int);
                lemma_mul_is_commutative(q + 1, num_query_bytes as int);
                lemma_mul_is_commutative(num_queries as int, num_query_bytes as int);
                lemma_mul_nonnegative(q as int, num_query_bytes as int);
            }
            let off = q * num_query_bytes;
            proof {
                // both the suffix at `off` and one chunk are whole numbers of
                // elements
                lemma_mul_is_associative(q as int, ELEMENT_BYTES as int, folding_factor as int);
                lemma_mul_is_commutative(ELEMENT_BYTES as int, folding_factor as int);
                lemma_mul_is_associative(q as int, folding_factor as int, ELEMENT_BYTES as int);
                lemma_mul_is_commutative(q as int, folding_factor as int);
                lemma_mod_multiples_basic(
                    q as int * folding_factor as int,
                    ELEMENT_BYTES as int,
                );
                lemma_mul_is_commutative(
                    q as int * folding_factor as int,
                    ELEMENT_BYTES as int,
                );
                assert(off as int % ELEMENT_BYTES as int == 0);
                lemma_mod_multiples_basic(folding_factor as int, ELEMENT_BYTES as int);
                lemma_mul_is_commutative(folding_factor as int, ELEMENT_BYTES as int);
                assert(num_query_bytes as int % ELEMENT_BYTES as int == 0);
                lemma_mul_is_associative(
                    num_queries as int,
                    ELEMENT_BYTES as int,
                    folding_factor as int,
                );
                lemma_mul_is_commutative(ELEMENT_BYTES as int, folding_factor as int);
                lemma_mul_is_associative(
                    num_queries as int,
                    folding_factor as int,
                    ELEMENT_BYTES as int,
                );
                lemma_mul_is_commutative(num_queries as int, folding_factor as int);
                lemma_mod_multiples_basic(
                    num_queries as int * folding_factor as int,
                    ELEMENT_BYTES as int,
                );
                lemma_mul_is_commutative(
                    num_queries as int * folding_factor as int,
                    ELEMENT_BYTES as int,
                );
                assert(n as int % ELEMENT_BYTES as int == 0);
                lemma_sub_mod_noop(n as int, off as int, ELEMENT_BYTES as int);
                assert((n - off) as int % ELEMENT_BYTES as int == 0);
            }
            let mut chunk: Vec<u8> = Vec::new();
            let mut k: usize = 0;
            while k < num_query_bytes
                invariant
                    k <= num_query_bytes,
                    off + num_query_bytes <= n,
                    n == self.values@.len(),
                    k == chunk@.len(),
                    chunk@ == self.values@.subrange(off as int, off + k),
                decreases num_query_bytes - k,
            {
                chunk.push(self.values[off + k]);
                proof {
                    assert(chunk@ =~= self.values@.subrange(off as int, off + k + 1));
                }
                k = k + 1;
            }
            let elems = match read_elements(&chunk) {
                Some(elems) => elems,
                None => {
                    proof {
                        let tail = self.values@.skip(off as int);
                        assert(tail.take(num_query_bytes as int) =~= chunk@);
                        assert(tail.skip(num_query_bytes as int) =~= self.values@.skip(
                            off + num_query_bytes,
                        ));
                        lemma_chunk_decode(tail, num_query_bytes as nat);
                        assert(bytes_to_elems(self.values@) is None);
                    }
                    return Err(
                        ProofSerializationError::LayerDeserializationError(
                            layer_depth,
                            "value bytes do not decode into field elements".to_string(),
                        ),
                    );
                },
            };
            let ghost qv0 = query_values@;
            let digest = hash_elements(&elems);
            let mut elems_mut = elems;
            query_values.append(&mut elems_mut);
            hashed_queries.push(digest);
            proof {
                let tail = self.values@.skip(off as int);
                assert(tail.take(num_query_bytes as int) =~= chunk@);
                assert(tail.skip(num_query_bytes as int) =~= self.values@.skip(
                    off + num_query_bytes,
                ));
                lemma_chunk_decode(tail, num_query_bytes as nat);
                let dec = bytes_to_elems(chunk@)->Some_0;
                assert(felt_vals(query_values@) =~= felt_vals(qv0) + dec);
                if bytes_to_elems(self.values@.skip(off + num_query_bytes)) is Some {
                    let rest = bytes_to_elems(self.values@.skip(off + num_query_bytes))->Some_0;
                    assert(felt_vals(qv0) + (dec + rest) =~= felt_vals(query_values@) + rest);
                }
                // chunk length pins the decoded group length
                lemma_decoded_len(chunk@);
                assert(dec.len() * ELEMENT_BYTES == num_query_bytes);
                assert(dec.len() == folding_factor) by {
                    lemma_mul_is_commutative(dec.len() as int, ELEMENT_BYTES as int);
                    lemma_mul_equality_converse(
                        ELEMENT_BYTES as int,
                        dec.len() as int,
                        folding_factor as int,
                    );
                }
                lemma_mul_is_distributive_add_other_way(folding_factor as int, q as int, 1);
                // the new leaf hashes the new group
                assert(felt_vals(query_values@).subrange(
                    q as int * folding_factor as int,
                    (q + 1) as int * folding_factor as int,
                ) =~= dec);
                assert(elems_to_bytes(felt_vals(elems@)) == elems_to_bytes(dec));
                assert forall|q2: int| 0 <= q2 < q implies (#[trigger] hashed_queries@[q2])@
                    == hash_elems_spec(
                    felt_vals(query_values@).subrange(
                        q2 * folding_factor as int,
                        (q2 + 1) * folding_factor as int,
                    ),
                ) by {
                    lemma_mul_inequality(q2 + 1, q as int, folding_factor as int);
                    lemma_mul_is_commutative(q2 + 1, folding_factor as int);
                    lemma_mul_is_commutative(q as int, folding_factor as int);
                    lemma_mul_nonnegative(q2 as int, folding_factor as int);
                    lemma_mul_is_distributive_add_other_way(folding_factor as int, q2 as int, 1);
                    assert(felt_vals(query_values@).subrange(
                        q2 * folding_factor as int,
                        (q2 + 1) * folding_factor as int,
                    ) =~= felt_vals(qv0).subrange(
                        q2 * folding_factor as int,
                        (q2 + 1) * folding_factor as int,
                    ));
                }
            }
            q = q + 1;
        }
        proof {
            assert(self.values@.skip(n as int) =~= Seq::<u8>::empty());
            assert(felt_vals(query_values@) + Seq::<int>::empty() =~= felt_vals(query_values@));
            lemma_mul_is_commutative(num_queries as int, folding_factor as int);
            lemma_mul_is_associative(
                num_queries as int,
                folding_factor as int,
                ELEMENT_BYTES as int,
            );
            lemma_mul_is_commutative(folding_factor as int, ELEMENT_BYTES as int);
            lemma_mul_is_associative(
                num_queries as int,
                ELEMENT_BYTES as int,
                folding_factor as int,
            );
            // query_values.len() is a multiple of the folding factor
            lemma_mod_multiples_basic(num_queries as int, folding_factor as int);
            lemma_mul_is_commutative(num_queries as int, folding_factor as int);
            lemma_mul_is_commutative(query_values@.len() as int, ELEMENT_BYTES as int);
            // and the whole buffer length is a whole number of queries
            lemma_mod_multiples_basic(num_queries as int, num_query_bytes as int);
            lemma_mul_is_commutative(num_queries as int, num_query_bytes as int);
        }
        let tree_depth = log2(domain_size) as u8;
        let merkle_proof = match BatchMerkleProof::deserialize(
            &self.paths,
            hashed_queries,
            tree_depth,
        ) {
            Ok(mp) => mp,
            Err(_) => {
                return Err(
                    ProofSerializationError::LayerDeserializationError(
                        layer_depth,
                        "path bytes do not decode into a batch Merkle proof".to_string(),
                    ),
                );
            },
        };
        proof {
            lemma_fundamental_div_mod_converse_mod(
                n as int,
                num_query_bytes as int,
                num_queries as int,
                0,
            );
            assert(query_values@.len() as int / folding_factor as int == num_queries) by {
                lemma_div_multiples_vanish(num_queries as int, folding_factor as int);
                lemma_mul_is_commutative(num_queries as int, folding_factor as int);
            }
        }
        Ok((query_values, merkle_proof))
    }
}

/// Decoding a buffer that begins with a whole number of element chunks
/// proceeds chunk by chunk.
pub proof fn lemma_chunk_decode(bs: Seq<u8>, chunk: nat)
    requires
        chunk as int % ELEMENT_BYTES as int == 0,
        chunk <= bs.len(),
        bs.len() as int % ELEMENT_BYTES as int == 0,
    ensures
        bytes_to_elems(bs) == match (
            bytes_to_elems(bs.take(chunk as int)),
            bytes_to_elems(bs.skip(chunk as int)),
        ) {
            (Some(x), Some(y)) => Some(x + y),
            _ => None::<Seq<int>>,
        },
    decreases chunk,
{
    if chunk == 0 {
        assert(bs.take(0) =~= Seq::<u8>::empty());
        assert(bs.skip(0) =~= bs);
        if bytes_to_elems(bs) is Some {
            assert(Seq::<int>::empty() + bytes_to_elems(bs)->Some_0 =~= bytes_to_elems(
                bs,
            )->Some_0);
        }
    } else {
        // chunk is a positive multiple of the element width
        lemma_fundamental_div_mod(chunk as int, ELEMENT_BYTES as int);
        let cq = chunk as int / ELEMENT_BYTES as int;
        if cq <= 0 {
            lemma_mul_inequality(cq, 0, ELEMENT_BYTES as int);
            lemma_mul_is_commutative(cq, ELEMENT_BYTES as int);
        }
        lemma_mul_inequality(1, cq, ELEMENT_BYTES as int);
        lemma_mul_is_commutative(cq, ELEMENT_BYTES as int);
        lemma_mul_basics(ELEMENT_BYTES as int);
        assert(chunk >= ELEMENT_BYTES);
        let head = bs.take(ELEMENT_BYTES as int);
        let rest = bs.skip(ELEMENT_BYTES as int);
        lemma_sub_mod_noop(bs.len() as int, ELEMENT_BYTES as int, ELEMENT_BYTES as int);
        lemma_sub_mod_noop(chunk as int, ELEMENT_BYTES as int, ELEMENT_BYTES as int);
        lemma_mod_self_0(ELEMENT_BYTES as int);
        lemma_small_mod(0, ELEMENT_BYTES as nat);
        lemma_chunk_decode(rest, (chunk - ELEMENT_BYTES) as nat);
        assert(rest.take(chunk - ELEMENT_BYTES) =~= bs.take(chunk as int).skip(
            ELEMENT_BYTES as int,
        ));
        assert(rest.skip(chunk - ELEMENT_BYTES) =~= bs.skip(chunk as int));
        assert(bs.take(chunk as int).take(ELEMENT_BYTES as int) =~= head);
        let v = crate::codec::le_val(head);
        if 0 <= v < P as int {
            let back = bytes_to_elems(bs.skip(chunk as int));
            let mid1 = bytes_to_elems(rest.take(chunk - ELEMENT_BYTES));
            if mid1 is Some && back is Some {
                assert(seq![v] + (mid1->Some_0 + back->Some_0) =~= (seq![v] + mid1->Some_0)
                    + back->Some_0);
            }
        }
    }
}

/// A decoded buffer has one element per chunk of bytes.
pub proof fn lemma_decoded_len(bs: Seq<u8>)
    requires
        bytes_to_elems(bs) is Some,
    ensures
        bytes_to_elems(bs)->Some_0.len() * ELEMENT_BYTES == bs.len(),
    decreases bs.len(),
{
    if bs.len() == 0 {
        lemma_mul_basics(ELEMENT_BYTES as int);
    } else {
        lemma_decoded_len(bs.skip(ELEMENT_BYTES as int));
        let dec = bytes_to_elems(bs)->Some_0;
        let rest = bytes_to_elems(bs.skip(ELEMENT_BYTES as int))->Some_0;
        assert(dec.len() == rest.len() + 1);
        lemma_mul_is_distributive_add_other_way(ELEMENT_BYTES as int, rest.len() as int, 1);
    }
}

/// The byte length of concatenated query groups.
pub proof fn lemma_groups_to_bytes_len(gs: Seq<Seq<int>>)
    ensures
        groups_to_bytes(gs).len() >= (if gs.len() >= 1 {
            gs[0].len() * ELEMENT_BYTES
        } else {
            0int
        }),
    decreases gs.len(),
{
    if gs.len() >= 1 {
        lemma_elems_to_bytes_len(gs[0]);
    }
}

/// The values of a sequence of query groups.
pub open spec fn group_vals(gs: Seq<Vec<Felt>>) -> Seq<Seq<int>> {
    gs.map(|i: int, g: Vec<Felt>| felt_vals(g@))
}

// FRI PROOF
// ================================================================================================

/// The domain size that remains after folding `l` layers.
pub open spec fn fold_domain(domain_size: nat, folding_factor: nat, l: nat) -> nat
    decreases l,
{
    if l == 0 {
        domain_size
    } else {
        fold_domain(domain_size, folding_factor, (l - 1) as nat) / folding_factor
    }
}

/// A FRI proof: the layers in folding order, the remainder of the last
/// layer packed as bytes, and whether the proof was generated in multiple
/// partitions.
pub struct FriProof {
    pub layers: Vec<FriProofLayer>,
    pub remainder: Vec<u8>,
    pub partitioned: bool,
}

impl FriProof {
    /// Every layer holds at least one query and one proof node.
    pub open spec fn wf(self) -> bool {
        forall|l: int| 0 <= l < self.layers@.len() ==> (#[trigger] self.layers@[l]).wf()
    }

    /// Creates a FRI proof from the provided layers and remainder values.
    pub fn new(layers: Vec<FriProofLayer>, remainder: Vec<Felt>, partitioned: bool) -> (r:
        FriProof)
        requires
            forall|l: int| 0 <= l < layers@.len() ==> (#[trigger] layers@[l]).wf(),
            all_wf(remainder@),
        ensures
            r.wf(),
            r.layers@ == layers@,
            r.remainder@ == elems_to_bytes(felt_vals(remainder@)),
            r.partitioned == partitioned,
    {
        let remainder_bytes = elements_as_bytes(&remainder);
        FriProof { layers, remainder: remainder_bytes, partitioned }
    }

    /// Returns true if this proof was generated in multiple partitions.
    pub fn is_partitioned(&self) -> (r: bool)
        ensures
            r == self.partitioned,
    {
        self.partitioned
    }

    /// Decomposes the proof into query values and batch Merkle proofs per
    /// layer, folding the domain by the folding factor before each layer,
    /// and checks that the domain that remains matches the remainder
    /// length. Succeeds exactly when every layer parses and the residual
    /// domain matches.
    pub fn parse_layers(self, domain_size: usize, folding_factor: usize) -> (r: Result<
        (Vec<Vec<Felt>>, Vec<BatchMerkleProof>),
        ProofSerializationError,
    >)
        requires
            self.wf(),
            is_power_of_two(domain_size as int),
            is_power_of_two(folding_factor as int),
            folding_factor <= 0x1000,
            pow(folding_factor as int, self.layers@.len() as nat) <= domain_size,
        ensures
            r is Ok <==> ((forall|l: int|
                0 <= l < self.layers@.len() ==> parse_layer_spec(
                    (#[trigger] self.layers@[l]).values@,
                    folding_factor as nat,
                ) is Some && self.layers@[l].paths@.len() as int % DIGEST_BYTES as int == 0)
                && fold_domain(domain_size as nat, folding_factor as nat, self.layers@.len())
                == self.remainder@.len() as int / ELEMENT_BYTES as int),
            r matches Ok((qv, mps)) ==> {
                &&& qv@.len() == self.layers@.len()
                &&& mps@.len() == self.layers@.len()
                &&& forall|l: int|
                    0 <= l < qv@.len() ==> parse_layer_spec(
                        (#[trigger] self.layers@[l]).values@,
                        folding_factor as nat,
                    ) == Some(felt_vals(qv@[l]@))
                &&& forall|l: int| 0 <= l < qv@.len() ==> all_wf((#[trigger] qv@[l])@)
                &&& forall|l: int|
                    0 <= l < mps@.len() ==> (#[trigger] mps@[l]).wf() && node_views(mps@[l].nodes@)
                        == split_digests(self.layers@[l].paths@) && mps@[l].depth == log2_nat(
                        fold_domain(domain_size as nat, folding_factor as nat, (l + 1) as nat),
                    )
            },
            r matches Err(ProofSerializationError::InvalidRemainderDomain(got, want)) ==> {
                &&& got == self.remainder@.len() as int / ELEMENT_BYTES as int
                &&& want == fold_domain(
                    domain_size as nat,
                    folding_factor as nat,
                    self.layers@.len(),
                )
                &&& got != want
            },
            r matches Err(ProofSerializationError::LayerDeserializationError(d, _)) ==> 0 <= d
                < self.layers@.len() && (parse_layer_spec(
                self.layers@[d as int].values@,
                folding_factor as nat,
            ) is None || self.layers@[d as int].paths@.len() as int % DIGEST_BYTES as int != 0),
            !(r matches Err(ProofSerializationError::RemainderDeserializationError(_))),
    {
        let ghost ds0 = domain_size as nat;
        let ghost ff = folding_factor as nat;
        let num_layers = self.layers.len();
        let num_remainder_elements = self.remainder.len() / ELEMENT_BYTES;
        let mut layer_queries: Vec<Vec<Felt>> = Vec::new();
        let mut layer_proofs: Vec<BatchMerkleProof> = Vec::new();
        let mut domain_size_run = domain_size;
        let mut layers = self.layers;
        let ghost layers0 = layers@;
        let mut l: usize = 0;
        proof {
            lemma_pow0(folding_factor as int);
            assert(layers@ =~= layers0.skip(0));
        }
        while l < num_layers
            invariant
                l <= num_layers,
                num_layers == layers0.len(),
                layers0 == self.layers@,
                num_remainder_elements == self.remainder@.len() as int / ELEMENT_BYTES as int,
                layers@ == layers0.skip(l as int),
                forall|l2: int| 0 <= l2 < layers0.len() ==> (#[trigger] layers0[l2]).wf(),
                is_power_of_two(folding_factor as int),
                1 <= folding_factor <= 0x1000,
                is_power_of_two(domain_size_run as int),
                domain_size_run as nat == fold_domain(ds0, ff, l as nat),
                ff == folding_factor as nat,
                ds0 == domain_size as nat,
                pow(folding_factor as int, (num_layers - l) as nat) <= domain_size_run,
                layer_queries@.len() == l,
                layer_proofs@.len() == l,
                forall|l2: int|
                    0 <= l2 < l ==> parse_layer_spec(
                        (#[trigger] layers0[l2]).values@,
                        ff,
                    ) == Some(felt_vals(layer_queries@[l2]@)),
                forall|l2: int| 0 <= l2 < l ==> all_wf((#[trigger] layer_queries@[l2])@),
                forall|l2: int|
                    0 <= l2 < l ==> (#[trigger] layers0[l2]).paths@.len() as int
                        % DIGEST_BYTES as int == 0,
                forall|l2: int|
                    0 <= l2 < l ==> (#[trigger] layer_proofs@[l2]).wf() && node_views(
                        layer_proofs@[l2].nodes@,
                    ) == split_digests(layers0[l2].paths@) && layer_proofs@[l2].depth == log2_nat(
                        fold_domain(ds0, ff, (l2 + 1) as nat),
                    ),
            decreases num_layers - l,
        {
            proof {
                lemma_pow_adds(folding_factor as int, 1, (num_layers - l - 1) as nat);
                lemma_pow1(folding_factor as int);
                lemma_pow_positive(folding_factor as int, (num_layers - l - 1) as nat);
                // folding keeps the domain a positive power of two
                lemma_mul_inequality(
                    1,
                    pow(folding_factor as int, (num_layers - l - 1) as nat),
                    folding_factor as int,
                );
                lemma_mul_is_commutative(
                    pow(folding_factor as int, (num_layers - l - 1) as nat),
                    folding_factor as int,
                );
                lemma_mul_basics(folding_factor as int);
                lemma_pow2_div(domain_size_run as nat, folding_factor as nat);
                // pow(ff, L-l-1) <= ds/ff
                lemma_div_is_ordered(
                    folding_factor as int * pow(
                        folding_factor as int,
                        (num_layers - l - 1) as nat,
                    ),
                    domain_size_run as int,
                    folding_factor as int,
                );
                lemma_div_multiples_vanish(
                    pow(folding_factor as int, (num_layers - l - 1) as nat),
                    folding_factor as int,
                );
            }
            proof {
                assert(fold_domain(ds0, ff, (l + 1) as nat) == fold_domain(ds0, ff, l as nat)
                    / ff);
            }
            domain_size_run = domain_size_run / folding_factor;
            let layer = layers.remove(0);
            proof {
                assert(layers0.skip(l as int)[0] == layers0[l as int]);
                assert(layers@ =~= layers0.skip(l + 1));
                assert(layers0[l as int].wf());
            }
            let parsed = match layer.parse(l, domain_size_run, folding_factor) {
                Ok(p) => p,
                Err(e) => {
                    return Err(e);
                },
            };
            let (qv, mp) = parsed;
            layer_queries.push(qv);
            layer_proofs.push(mp);
            l = l + 1;
        }
        if domain_size_run != num_remainder_elements {
            return Err(
                ProofSerializationError::InvalidRemainderDomain(
                    num_remainder_elements,
                    domain_size_run,
                ),
            );
        }
        Ok((layer_queries, layer_proofs))
    }

    /// Returns the remainder values of the last FRI layer. Fails exactly
    /// when the remainder bytes do not decode into field elements.
    pub fn parse_remainder(&self) -> (r: Result<Vec<Felt>, ProofSerializationError>)
        ensures
            r is Ok <==> bytes_to_elems(self.remainder@) is Some,
            r matches Ok(elems) ==> bytes_to_elems(self.remainder@) == Some(felt_vals(elems@))
                && all_wf(elems@),
            r matches Err(e) ==> e matches
                ProofSerializationError::RemainderDeserializationError(_),
    {
        match read_elements(&self.remainder) {
            Some(elems) => Ok(elems),
            None => Err(
                ProofSerializationError::RemainderDeserializationError(
                    "remainder bytes do not decode into field elements".to_string(),
                ),
            ),
        }
    }
}

/// Dividing one power of two by a smaller or equal one gives a power of
/// two, without remainder.
pub proof fn lemma_pow2_div(a: nat, b: nat)
    requires
        is_power_of_two(a as int),
        is_power_of_two(b as int),
        b <= a,
    ensures
        is_power_of_two(a as int / b as int),
        (a as int / b as int) * b == a,
    decreases b,
{
    if b == 1 {
        lemma_div_basics_1(a as int);
        lemma_mul_basics(a as int);
    } else {
        // halve both sides
        assert(a % 2 == 0 && b % 2 == 0) by {
            if a == 1 {
            }
        }
        lemma_pow2_div(a / 2, b / 2);
        lemma_div_denominator(a as int, 2, b as int / 2);
        assert(2 * (b as int / 2) == b);
        assert(a as int / b as int == (a as int / 2) / (b as int / 2)) by {
            lemma_div_denominator(a as int, 2, b as int / 2);
        }
        assert(((a as int / 2) / (b as int / 2)) * (b as int / 2) == a as int / 2);
        assert((a as int / b as int) * b == a) by (nonlinear_arith)
            requires
                a as int / b as int == (a as int / 2) / (b as int / 2),
                ((a as int / 2) / (b as int / 2)) * (b as int / 2) == a as int / 2,
                2 * (a as int / 2) == a,
                2 * (b as int / 2) == b,
        ;
    }
}

// ROUND-TRIP LAWS
// ================================================================================================

/// The byte encodings of element sequences concatenate.
pub proof fn lemma_elems_to_bytes_concat(a: Seq<int>, b: Seq<int>)
    ensures
        elems_to_bytes(a + b) == elems_to_bytes(a) + elems_to_bytes(b),
    decreases a.len(),
{
    if a.len() == 0 {
        assert(a + b =~= b);
        assert(elems_to_bytes(a) =~= Seq::<u8>::empty());
        assert(elems_to_bytes(a) + elems_to_bytes(b) =~= elems_to_bytes(b));
    } else {
        assert((a + b)[0] == a[0]);
        assert((a + b).skip(1) =~= a.skip(1) + b);
        lemma_elems_to_bytes_concat(a.skip(1), b);
        assert(elems_to_bytes(a + b) =~= elems_to_bytes(a) + elems_to_bytes(b));
    }
}

/// Building a layer's value bytes from query groups and parsing them back
/// yields the flattened groups: the FRI layer codec round-trips.
pub proof fn lemma_layer_round_trip(gs: Seq<Seq<int>>, folding_factor: nat)
    requires
        folding_factor >= 1,
        forall|g: int| 0 <= g < gs.len() ==> (#[trigger] gs[g]).len() == folding_factor,
        forall|g: int, i: int|
            0 <= g < gs.len() && 0 <= i < folding_factor ==> 0 <= #[trigger] gs[g][i] < P as int,
    ensures
        parse_layer_spec(groups_to_bytes(gs), folding_factor) == Some(flatten_groups(gs)),
    decreases gs.len(),
{
    lemma_groups_flatten(gs);
    assert(groups_to_bytes(gs) == elems_to_bytes(flatten_groups(gs)));
    assert(forall|i: int|
        0 <= i < flatten_groups(gs).len() ==> 0 <= #[trigger] flatten_groups(gs)[i] < P as int)
        by {
        lemma_flatten_groups_index(gs, folding_factor);
    }
    lemma_codec_roundtrip(flatten_groups(gs));
    lemma_flatten_groups_len(gs, folding_factor);
    lemma_elems_to_bytes_len(flatten_groups(gs));
    // byte length is a whole number of queries
    lemma_mul_is_associative(
        gs.len() as int,
        folding_factor as int,
        ELEMENT_BYTES as int,
    );
    lemma_mul_is_commutative(folding_factor as int, ELEMENT_BYTES as int);
    lemma_mul_is_associative(gs.len() as int, ELEMENT_BYTES as int, folding_factor as int);
    lemma_mod_multiples_basic(gs.len() as int, (ELEMENT_BYTES * folding_factor) as int);
    lemma_mul_is_commutative(gs.len() as int, (ELEMENT_BYTES * folding_factor) as int);
    lemma_mul_is_commutative(ELEMENT_BYTES as int, folding_factor as int);
}

/// Group bytes are the bytes of the flattened groups.
proof fn lemma_groups_flatten(gs: Seq<Seq<int>>)
    ensures
        groups_to_bytes(gs) == elems_to_bytes(flatten_groups(gs)),
    decreases gs.len(),
{
    if gs.len() == 0 {
        assert(groups_to_bytes(gs) =~= elems_to_bytes(flatten_groups(gs)));
    } else {
        lemma_groups_flatten(gs.skip(1));
        lemma_elems_to_bytes_concat(gs[0], flatten_groups(gs.skip(1)));
    }
}

/// The flattened groups have one group's length per group.
proof fn lemma_flatten_groups_len(gs: Seq<Seq<int>>, folding_factor: nat)
    requires
        forall|g: int| 0 <= g < gs.len() ==> (#[trigger] gs[g]).len() == folding_factor,
    ensures
        flatten_groups(gs).len() == gs.len() * folding_factor,
    decreases gs.len(),
{
    if gs.len() == 0 {
        lemma_mul_basics(folding_factor as int);
    } else {
        assert(forall|g: int|
            0 <= g < gs.skip(1).len() ==> (#[trigger] gs.skip(1)[g]).len() == folding_factor);
        lemma_flatten_groups_len(gs.skip(1), folding_factor);
        lemma_mul_is_distributive_sub_other_way(folding_factor as int, gs.len() as int, 1);
    }
}

/// Every flattened value is a value of some group.
proof fn lemma_flatten_groups_index(gs: Seq<Seq<int>>, folding_factor: nat)
    requires
        forall|g: int| 0 <= g < gs.len() ==> (#[trigger] gs[g]).len() == folding_factor,
        forall|g: int, i: int|
            0 <= g < gs.len() && 0 <= i < folding_factor ==> 0 <= #[trigger] gs[g][i] < P as int,
    ensures
        forall|i: int|
            0 <= i < flatten_groups(gs).len() ==> 0 <= #[trigger] flatten_groups(gs)[i]
                < P as int,
    decreases gs.len(),
{
    if gs.len() > 0 {
        assert(forall|g: int|
            0 <= g < gs.skip(1).len() ==> (#[trigger] gs.skip(1)[g]).len() == folding_factor);
        assert(forall|g: int, i: int|
            0 <= g < gs.skip(1).len() && 0 <= i < folding_factor ==> 0 <= #[trigger] gs.skip(
                1,
            )[g][i] < P as int);
        lemma_flatten_groups_index(gs.skip(1), folding_factor);
        let whole = flatten_groups(gs);
        assert forall|i: int| 0 <= i < whole.len() implies 0 <= #[trigger] whole[i] < P as int by {
            if i < gs[0].len() {
                assert(whole[i] == gs[0][i]);
            } else {
                assert(whole[i] == flatten_groups(gs.skip(1))[i - gs[0].len()]);
            }
        }
    }
}

/// The byte length of concatenated digests.
pub proof fn lemma_nodes_to_bytes_len(ns: Seq<Vec<u8>>)
    requires
        all_digests(ns),
    ensures
        nodes_to_bytes(ns).len() == ns.len() * DIGEST_BYTES,
    decreases ns.len(),
{
    if ns.len() == 0 {
        lemma_mul_basics(DIGEST_BYTES as int);
    } else {
        assert(all_digests(ns.skip(1))) by {
            assert(forall|i: int| 0 <= i < ns.skip(1).len() ==> ns.skip(1)[i] == ns[i + 1]);
        }
        lemma_nodes_to_bytes_len(ns.skip(1));
        lemma_mul_is_distributive_sub_other_way(DIGEST_BYTES as int, ns.len() as int, 1);
    }
}

/// Splitting concatenated digests returns the digests: node serialization
/// round-trips.
pub proof fn lemma_nodes_round_trip(ns: Seq<Vec<u8>>)
    requires
        all_digests(ns),
    ensures
        split_digests(nodes_to_bytes(ns)) == node_views(ns),
    decreases ns.len(),
{
    if ns.len() == 0 {
        assert(split_digests(nodes_to_bytes(ns)) =~= node_views(ns));
    } else {
        assert(all_digests(ns.skip(1))) by {
            assert(forall|i: int| 0 <= i < ns.skip(1).len() ==> ns.skip(1)[i] == ns[i + 1]);
        }
        lemma_nodes_round_trip(ns.skip(1));
        lemma_nodes_to_bytes_len(ns.skip(1));
        let bs = nodes_to_bytes(ns);
        assert(bs.take(DIGEST_BYTES as int) =~= ns[0]@);
        assert(bs.skip(DIGEST_BYTES as int) =~= nodes_to_bytes(ns.skip(1)));
        assert(ns.len() * DIGEST_BYTES >= 1 * DIGEST_BYTES) by {
            lemma_mul_inequality(1, ns.len() as int, DIGEST_BYTES as int);
            lemma_mul_is_commutative(ns.len() as int, DIGEST_BYTES as int);
        }
        lemma_nodes_to_bytes_len(ns);
        assert(node_views(ns) =~= seq![ns[0]@] + node_views(ns.skip(1)));
        assert(split_digests(bs) =~= node_views(ns));
    }
}

} // verus!
