use stark_core::errors::ProofSerializationError;
use stark_core::field::Felt;
use stark_core::fri::{BatchMerkleProof, FriProof, FriProofLayer};

fn f(v: u64) -> Felt {
    Felt::new(v)
}

fn digest(fill: u8) -> Vec<u8> {
    vec![fill; 32]
}

fn sample_layer() -> FriProofLayer {
    // two queries of four elements each
    let query_values = vec![
        vec![f(1), f(2), f(3), f(4)],
        vec![f(5), f(6), f(7), f(8)],
    ];
    let merkle_proof = BatchMerkleProof {
        leaves: vec![digest(0xaa), digest(0xbb)],
        nodes: vec![digest(0x11), digest(0x22), digest(0x33)],
        depth: 2,
    };
    FriProofLayer::new(query_values, merkle_proof)
}

#[test]
fn parse_success() {
    // folding factor 4, initial domain 16, one layer with two queries of
    // four 8-byte elements each; remainder of 4 elements
    let layer = sample_layer();
    let remainder = vec![f(9), f(10), f(11), f(12)];
    let proof = FriProof::new(vec![layer], remainder, false);
    assert!(!proof.is_partitioned());
    assert_eq!(proof.remainder.len(), 32);

    let parsed_remainder = proof.parse_remainder().expect("remainder decodes");
    assert_eq!(
        parsed_remainder.iter().map(|x| x.v).collect::<Vec<_>>(),
        vec![9, 10, 11, 12]
    );

    let (queries, proofs) = proof.parse_layers(16, 4).expect("proof parses");
    assert_eq!(queries.len(), 1);
    assert_eq!(proofs.len(), 1);
    // the parsed values are the flattened query groups
    assert_eq!(
        queries[0].iter().map(|x| x.v).collect::<Vec<_>>(),
        vec![1, 2, 3, 4, 5, 6, 7, 8]
    );
    // the layer was parsed at the folded (residual) domain of size 4
    assert_eq!(proofs[0].depth, 2);
    // internal nodes round-trip through the byte encoding
    assert_eq!(proofs[0].nodes, vec![digest(0x11), digest(0x22), digest(0x33)]);
    // one leaf digest per query
    assert_eq!(proofs[0].leaves.len(), 2);
}

#[test]
fn parse_failure_non_divisible_values() {
    // same shape, but 63 value bytes do not divide into whole queries
    let layer = FriProofLayer { values: vec![1u8; 63], paths: vec![0u8; 32] };
    let remainder = vec![f(9), f(10), f(11), f(12)];
    let proof = FriProof::new(vec![layer], remainder, false);
    match proof.parse_layers(16, 4) {
        Err(ProofSerializationError::LayerDeserializationError(depth, _)) => {
            assert_eq!(depth, 0);
        }
        _ => panic!("expected a layer deserialization error at depth 0"),
    }
}

#[test]
fn parse_failure_bad_remainder() {
    // the layer parses cleanly, but the remainder holds 5 elements while
    // the residual domain has size 4
    let layer = sample_layer();
    let remainder = vec![f(1), f(2), f(3), f(4), f(5)];
    let proof = FriProof::new(vec![layer], remainder, false);
    match proof.parse_layers(16, 4) {
        Err(ProofSerializationError::InvalidRemainderDomain(actual, expected)) => {
            assert_eq!(actual, 5);
            assert_eq!(expected, 4);
        }
        _ => panic!("expected an invalid remainder domain error"),
    }
}

#[test]
fn parse_failure_invalid_element_bytes() {
    // 32 value bytes divide into one query, but the first chunk holds 257
    let mut values = vec![0u8; 32];
    values[0] = 0x01;
    values[1] = 0x01;
    let layer = FriProofLayer { values, paths: vec![0u8; 32] };
    let proof = FriProof { layers: vec![layer], remainder: vec![0u8; 32], partitioned: false };
    match proof.parse_layers(16, 4) {
        Err(ProofSerializationError::LayerDeserializationError(depth, _)) => {
            assert_eq!(depth, 0);
        }
        _ => panic!("expected a layer deserialization error"),
    }
}

#[test]
fn remainder_deserialization_error() {
    let proof = FriProof { layers: vec![], remainder: vec![0u8; 7], partitioned: true };
    assert!(proof.is_partitioned());
    assert!(matches!(
        proof.parse_remainder(),
        Err(ProofSerializationError::RemainderDeserializationError(_))
    ));
}

#[test]
fn layer_round_trip_preserves_values_and_paths() {
    let layer = sample_layer();
    let original_values = layer.values.clone();
    let original_paths = layer.paths.clone();
    let (values, mp) = layer
        .parse(0, 4, 4)
        .expect("a constructed layer parses back");
    assert_eq!(values.iter().map(|x| x.v).collect::<Vec<_>>(), vec![1, 2, 3, 4, 5, 6, 7, 8]);
    // reserializing gives back bit-equal bytes
    assert_eq!(mp.serialize_nodes(), original_paths);
    let rebuilt = FriProofLayer::new(
        vec![values[..4].to_vec(), values[4..].to_vec()],
        mp,
    );
    assert_eq!(rebuilt.values, original_values);
    assert_eq!(rebuilt.paths, original_paths);
}

#[test]
fn parsed_leaves_are_sha256_digests_of_the_query_bytes() {
    let layer = sample_layer();
    let value_bytes = layer.values.clone();
    let (_, mp) = layer.parse(0, 4, 4).expect("layer parses");
    // each leaf is the SHA-256 digest of that query's packed value bytes
    let expected0 = <sha2::Sha256 as sha2::Digest>::digest(&value_bytes[..32]).to_vec();
    let expected1 = <sha2::Sha256 as sha2::Digest>::digest(&value_bytes[32..]).to_vec();
    assert_eq!(mp.leaves[0], expected0);
    assert_eq!(mp.leaves[1], expected1);
    assert_ne!(mp.leaves[0], value_bytes[..32].to_vec());
}

#[test]
fn multi_layer_folding_matches_remainder() {
    // domain 16, folding factor 2, two layers: residual domain is 4
    let layer1 = FriProofLayer::new(
        vec![vec![f(1), f(2)], vec![f(3), f(4)]],
        BatchMerkleProof { leaves: vec![digest(1), digest(2)], nodes: vec![digest(3)], depth: 3 },
    );
    let layer2 = FriProofLayer::new(
        vec![vec![f(5), f(6)]],
        BatchMerkleProof { leaves: vec![digest(4)], nodes: vec![digest(5)], depth: 2 },
    );
    let proof = FriProof::new(vec![layer1, layer2], vec![f(1), f(2), f(3), f(4)], false);
    let (queries, proofs) = proof.parse_layers(16, 2).expect("two layers parse");
    assert_eq!(queries.len(), 2);
    assert_eq!(proofs[0].depth, 3); // log2(16 / 2)
    assert_eq!(proofs[1].depth, 2); // log2(16 / 4)
}
