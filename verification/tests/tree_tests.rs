use merkle::hash::hash;
use merkle::hash::hash_str;
use merkle::merkle::transfer;
use merkle::merkle::Merkle;
use rand::RngExt;
use std::str::from_utf8;

fn check_tree(merkle: &Merkle) {
    assert!(merkle.total == 0 || merkle.total == merkle.leaves * 2 - 1);
    assert!(merkle.verify_tree());

    assert!(merkle.path_str("absent_key").is_none());
    for key in merkle.data.keys() {
        let path = merkle.path(&key).unwrap();
        assert!(merkle.verify_path(&key, &path));
    }
}

fn vec_with_n_txs(n: usize) -> Vec<Vec<u8>> {
    let range: Vec<usize> = (1..n + 1).collect();
    range
        .iter()
        .map(|i| format!("tx{}", i).as_bytes().to_vec())
        .collect()
}

fn tree_with_n_leaves(n: usize) -> Merkle {
    Merkle::from_leaves(&vec_with_n_txs(n))
}

#[test]
fn create() {
    check_tree(&tree_with_n_leaves(7));
}

#[test]
fn push_generic() {
    let mut merkle = tree_with_n_leaves(7);
    merkle.push_str("tx1");
    merkle.push_str("tx8");
    merkle.push_str("tx9");
    merkle.push_str("tx10");
    merkle.push_str("tx11");
    check_tree(&merkle);
}

#[test]
fn retrieve_by_index() {
    for n in 1..100 {
        let merkle = tree_with_n_leaves(n);
        for i in 0..n {
            let key = merkle.ith_leaf(i).unwrap();
            let chunk = merkle.data.get(&key).unwrap();
            assert_eq!(from_utf8(&chunk), Ok(format!("tx{}", i + 1).as_str()));
        }
    }
}

#[test]
fn delete_odd_leaf() {
    let mut merkle = tree_with_n_leaves(7);

    let odd_leaf = merkle.tree[6].clone().unwrap();
    merkle.delete(&odd_leaf);

    assert!(merkle.path(&odd_leaf).is_none());
    check_tree(&merkle);
}

#[test]
fn delete_farthest_leaves() {
    let mut merkle = tree_with_n_leaves(7);

    let farthest_leaf_even = merkle.tree[12].clone().unwrap();
    merkle.delete(&farthest_leaf_even);
    assert!(merkle.path(&farthest_leaf_even).is_none());
    check_tree(&merkle);

    let farthest_leaf_odd = merkle.tree[9].clone().unwrap();
    merkle.delete(&farthest_leaf_odd);
    assert!(merkle.path(&farthest_leaf_odd).is_none());
    check_tree(&merkle);
}

#[test]
fn delete_generic() {
    let mut merkle = tree_with_n_leaves(7);
    merkle.delete(&hash_str("tx11")); //non-existent
    merkle.delete(&hash_str("tx3"));
    merkle.delete(&hash_str("tx7"));
    merkle.delete(&hash_str("tx4"));
    merkle.delete(&hash_str("tx1"));
    assert_eq!(merkle.leaves, 3);
    check_tree(&merkle);
}

#[test]
fn automated_test() {
    let mut rng = rand::rng();

    for n in 0..50 {
        let mut merkle = tree_with_n_leaves(n);
        check_tree(&merkle);

        for _ in 0..50 {
            let tx = format!("tx{}", rng.random_range(0..n + 1));
            let key = hash_str(&tx);
            match rng.random_range(0..2) {
                0 => {
                    merkle.push_str(&tx);
                    assert!(merkle.path(&key).is_some());
                    assert!(merkle.data.get(&key).is_some());
                }
                1 => {
                    merkle.delete(&key);
                    assert!(merkle.path(&key).is_none());
                    assert!(merkle.data.get(&key).is_none());
                }
                _ => panic!("unexpected action"),
            }
            check_tree(&merkle);
        }
    }
}

#[test]
fn hash_of_null_is_null() {
    // The digest of the empty payload is well-defined and stable: hashing
    // it twice gives the same fixed-width digest, distinct from an unset
    // slot, which is a tagged state rather than a sentinel byte sequence.
    let null: Vec<u8> = vec![];
    assert_eq!(hash(&null), hash(&vec![]));
    assert_eq!(hash(&null).len(), 32);
}

#[test]
fn torrent_scenario() {
    let file = "some file, which we download over something like bittorent".as_bytes();
    let chunks: Vec<Vec<u8>> = file.chunks(4).map(|chunk| chunk.to_vec()).collect();

    let seed: Merkle = Merkle::from_leaves(&chunks);

    //split data among some peers
    let mut peer_a: Merkle = Merkle::reserve(seed.root(), seed.leaves);
    let mut peer_b: Merkle = Merkle::reserve(seed.root(), seed.leaves);

    for i in 0..seed.leaves {
        let target = if i % 2 == 0 { &mut peer_a } else { &mut peer_b };

        let success = transfer(&seed, target, i);
        assert!(success);
    }

    //join data from partial peers into some other peer
    let mut peer_c: Merkle = Merkle::reserve(seed.root(), peer_a.leaves);

    for i in 0..seed.leaves {
        let source = if i % 2 == 0 { &peer_a } else { &peer_b };

        let success = transfer(source, &mut peer_c, i);
        assert!(success);
    }

    //this peer contains full data
    assert!(peer_c.verify_tree());

    let downloaded: Vec<u8> = (0..peer_c.leaves)
        .flat_map(|i| peer_c.ith_leaf(i))
        .flat_map(|key| peer_c.data.get(&key))
        .flatten()
        .collect();

    assert_eq!(&downloaded[..], file);
}
