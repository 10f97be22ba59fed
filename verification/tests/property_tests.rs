use merkle::hash::hash;
use merkle::hash::hash_str;
use merkle::hash::hash_two;
use merkle::merkle::transfer;
use merkle::merkle::InsertError;
use merkle::merkle::Merkle;

fn hex(bytes: &Vec<u8>) -> String {
    let digits = "0123456789abcdef".as_bytes();
    let mut out = String::new();
    for b in bytes {
        out.push(digits[(b >> 4) as usize] as char);
        out.push(digits[(b & 15) as usize] as char);
    }
    out
}

fn payloads(names: &[&str]) -> Vec<Vec<u8>> {
    names.iter().map(|t| t.as_bytes().to_vec()).collect()
}

#[test]
fn digest_is_double_sha256() {
    // the key of a payload is SHA-256 applied twice
    let abc = b"abc".to_vec();
    assert_eq!(
        hex(&hash(&abc)),
        "4f8b42c22dd3729b519ba6f68d2da7cc5b2d606d05daed5ad5128cc03e6c6358"
    );
    assert_eq!(
        hex(&hash(&vec![])),
        "5df6e0e2761359d30a8275058e299fcc0381534545f55cf43e41983f5d4c9456"
    );
    // the digest is fixed-width and depends on the content
    assert_eq!(hash(&abc).len(), 32);
    assert_ne!(hash(&b"abcd".to_vec()), hash(&abc));
}

#[test]
fn node_digest_is_hash_of_concatenation() {
    let left = b"left".to_vec();
    let right = b"right".to_vec();
    let mut cat = left.clone();
    cat.extend(right.clone());
    assert_eq!(hash_two(&left, &right), hash(&cat));
}

#[test]
fn absence_of_missing_digest() {
    // a digest never inserted has no path, whatever the tree size
    let empty = Merkle::new();
    assert!(empty.path(&hash_str("tx1")).is_none());
    for n in 1..9 {
        let tree = Merkle::from_leaves(&payloads(
            &["tx1", "tx2", "tx3", "tx4", "tx5", "tx6", "tx7", "tx8"][..n],
        ));
        assert!(tree.path(&hash_str("tx9")).is_none());
    }
}

#[test]
fn idempotent_insert() {
    let mut tree = Merkle::from_leaves(&payloads(&["tx1", "tx2", "tx3"]));
    let root_before = tree.root().clone();
    let (total_before, leaves_before) = (tree.total, tree.leaves);

    assert!(!tree.push_str("tx2"));

    assert_eq!(tree.root().clone(), root_before);
    assert_eq!(tree.total, total_before);
    assert_eq!(tree.leaves, leaves_before);
    assert!(tree.verify_tree());
}

#[test]
fn insert_delete_inverse() {
    for n in 1..10 {
        let names: Vec<String> = (1..n + 1).map(|i| format!("tx{}", i)).collect();
        let raw: Vec<Vec<u8>> = names.iter().map(|t| t.as_bytes().to_vec()).collect();
        let mut tree = Merkle::from_leaves(&raw);
        let root_before = tree.root().clone();
        let (total_before, leaves_before) = (tree.total, tree.leaves);

        assert!(tree.push_str("extra"));
        assert!(tree.delete(&hash_str("extra")));

        assert_eq!(tree.root().clone(), root_before);
        assert_eq!(tree.total, total_before);
        assert_eq!(tree.leaves, leaves_before);
        assert!(tree.verify_tree());
    }
}

#[test]
fn duplicates_are_dropped_on_build() {
    let tree = Merkle::from_leaves(&payloads(&["tx1", "tx2", "tx1", "tx3", "tx2"]));
    assert_eq!(tree.leaves, 3);
    assert_eq!(tree.total, 5);
    assert!(tree.verify_tree());
    // the first occurrence fixes the ordinal order
    assert_eq!(tree.ith_leaf(0).unwrap(), hash_str("tx1"));
    assert_eq!(tree.ith_leaf(1).unwrap(), hash_str("tx2"));
    assert_eq!(tree.ith_leaf(2).unwrap(), hash_str("tx3"));
}

#[test]
fn concrete_scenario() {
    let mut tree = Merkle::from_leaves(&payloads(&[
        "tx1", "tx2", "tx3", "tx4", "tx5", "tx6", "tx7",
    ]));
    assert_eq!(tree.leaves, 7);
    assert_eq!(tree.total, 13);

    let key = hash_str("tx3");
    let path = tree.path(&key).unwrap();
    assert_eq!(path.len(), 3);
    assert!(tree.verify_path(&key, &path));

    assert!(tree.delete(&key));
    assert_eq!(tree.leaves, 6);
    assert_eq!(tree.total, 11);
    assert!(tree.verify_tree());

    for name in ["tx1", "tx2", "tx4", "tx5", "tx6", "tx7"] {
        assert!(tree.delete(&hash_str(name)));
        assert!(tree.verify_tree());
    }
    assert_eq!(tree.total, 0);
    assert_eq!(tree.leaves, 0);
}

#[test]
fn bundle_rejected_on_wrong_root() {
    let seed = Merkle::from_leaves(&payloads(&["tx1", "tx2", "tx3", "tx4"]));
    let other = Merkle::from_leaves(&payloads(&["tx5", "tx6", "tx7", "tx8"]));

    let mut replica = Merkle::reserve(other.root(), other.leaves);
    let bundle = seed.query_bundle(0).unwrap();
    assert_eq!(
        replica.insert_bundle(&bundle),
        Err(InsertError::ProofMismatch)
    );
    assert!(!transfer(&seed, &mut replica, 0));
    // the rejected fragment changed nothing
    assert_eq!(replica.root().clone(), other.root().clone());
}

#[test]
fn partial_replica_serves_received_leaves() {
    let seed = Merkle::from_leaves(&payloads(&["tx1", "tx2", "tx3", "tx4", "tx5"]));
    let mut relay = Merkle::reserve(seed.root(), seed.leaves);

    assert!(relay.query_bundle(2).is_none());
    assert!(transfer(&seed, &mut relay, 2));

    // the relay can now hand the same leaf on to a third replica
    let mut target = Merkle::reserve(seed.root(), seed.leaves);
    assert!(transfer(&relay, &mut target, 2));
    assert_eq!(
        target.data.get(&hash_str("tx3")).unwrap(),
        "tx3".as_bytes().to_vec()
    );
    // ordinals the relay never received are not served
    assert!(relay.query_bundle(0).is_none());
    assert!(!transfer(&relay, &mut target, 0));
}

#[test]
fn query_bundle_out_of_range() {
    let seed = Merkle::from_leaves(&payloads(&["tx1", "tx2"]));
    assert!(seed.query_bundle(2).is_none());
    assert!(Merkle::new().query_bundle(0).is_none());
}
