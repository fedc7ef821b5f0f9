use hash_tree_crypt::tree::{HashTree, KeystreamError};
use hash_tree_crypt::xor_reader::XKey;

fn digest(bytes: &[u8]) -> [u8; 32] {
    *blake3::hash(bytes).as_bytes()
}

fn reversed(bytes: &[u8; 32]) -> [u8; 32] {
    let mut out = *bytes;
    out.reverse();
    out
}

fn chain(tree: &HashTree, depth: u8) -> Vec<[u8; 32]> {
    (0..depth as usize).map(|l| tree.node(l)).collect()
}

#[test]
fn concrete_depth_four_scenario() {
    let seed = digest(b"test");
    let mut tree = HashTree::create(4, 0, seed);

    let n0 = digest(&seed);
    let n1 = digest(&n0);
    let n2 = digest(&n1);
    let n3 = digest(&n2);
    assert_eq!(chain(&tree, 4), vec![n0, n1, n2, n3]);

    tree.goto(1);
    assert_eq!(tree.current_path(), 1);
    assert_eq!(tree.node(0), n0);
    assert_eq!(tree.node(1), n1);
    assert_eq!(tree.node(2), n2);
    assert_eq!(tree.node(3), digest(&reversed(&n2)));
    assert_ne!(tree.node(3), n3);
}

#[test]
fn right_child_hashes_reversed_parent() {
    let seed = digest(b"right");
    let tree = HashTree::create(2, 3, seed);
    let n0 = digest(&reversed(&seed));
    assert_eq!(tree.node(0), n0);
    assert_eq!(tree.node(1), digest(&reversed(&n0)));
    assert_ne!(tree.node(0), seed);
}

#[test]
fn traversal_matches_fresh_construction() {
    let depth: u8 = 8;
    let seed = digest(b"traversal");
    let mut pairs: Vec<(u32, u32)> = Vec::new();
    for p in 0..255u32 {
        pairs.push((p, p + 1));
    }
    pairs.push((0x7f, 0xff));
    pairs.push((0x00, 0x80));
    pairs.push((0x80, 0x00));
    pairs.push((0x00, 0xff));
    pairs.push((0xff, 0x00));
    pairs.push((0x55, 0xaa));
    pairs.push((0x3c, 0x3c));
    for &(p1, p2) in &pairs {
        let mut tree = HashTree::create(depth, 0, seed);
        tree.goto(p1);
        tree.goto(p2);
        let fresh = HashTree::create(depth, p2, seed);
        assert_eq!(chain(&tree, depth), chain(&fresh, depth), "pair {} {}", p1, p2);
    }
}

#[test]
fn leaves_are_distinct_in_a_sample() {
    let depth: u8 = 8;
    let seed = digest(b"unique");
    let mut leaves: Vec<[u8; 32]> = Vec::new();
    for p in 0..256u32 {
        let tree = HashTree::create(depth, p, seed);
        leaves.push(tree.node(depth as usize - 1));
    }
    leaves.sort();
    leaves.dedup();
    assert_eq!(leaves.len(), 256);
}

#[test]
fn short_reads_stay_on_the_leaf() {
    let seed = digest(b"reads");
    for n in 0..=32usize {
        let mut tree = HashTree::create(6, 0, seed);
        let leaf = tree.node(5);
        let mut buf = vec![0u8; n];
        assert_eq!(tree.read(&mut buf), Ok(n));
        assert_eq!(&buf[..], &leaf[..n]);
        if n < 32 {
            assert_eq!(tree.current_path(), 0);
            assert_eq!(tree.current_offset(), n);
        } else {
            assert_eq!(tree.current_path(), 1);
            assert_eq!(tree.current_offset(), 0);
        }
    }
}

#[test]
fn reads_across_a_leaf_boundary() {
    let seed = digest(b"boundary");
    let leaf0 = HashTree::create(6, 0, seed).node(5);
    let leaf1 = HashTree::create(6, 1, seed).node(5);
    let mut expected = leaf0.to_vec();
    expected.extend_from_slice(&leaf1);

    let mut tree = HashTree::create(6, 0, seed);
    let mut first = vec![0u8; 40];
    assert_eq!(tree.read(&mut first), Ok(32));
    assert_eq!(&first[..32], &leaf0[..]);
    assert_eq!(&first[32..], &[0u8; 8][..]);
    let mut second = vec![0u8; 8];
    assert_eq!(tree.read(&mut second), Ok(8));
    assert_eq!(&second[..], &leaf1[..8]);

    let mut tree = HashTree::create(6, 0, seed);
    let mut part = vec![0u8; 20];
    assert_eq!(tree.read(&mut part), Ok(20));
    let mut rest = vec![0u8; 44];
    assert_eq!(tree.read_exact(&mut rest), Ok(()));
    part.extend_from_slice(&rest);
    assert_eq!(part, expected);
    assert_eq!(tree.current_path(), 2);
}

#[test]
fn same_inputs_give_same_stream() {
    let seed = digest(b"determinism");
    let mut a = HashTree::create(10, 0, seed);
    let mut b = HashTree::create(10, 0, seed);
    for n in [1usize, 7, 32, 33, 100, 5, 64] {
        let mut x = vec![0u8; n];
        let mut y = vec![0u8; n];
        assert_eq!(a.read_exact(&mut x), Ok(()));
        assert_eq!(b.read_exact(&mut y), Ok(()));
        assert_eq!(x, y);
    }
    let mut c = HashTree::create(10, 0, digest(b"other"));
    let mut x = vec![0u8; 32];
    let mut z = vec![0u8; 32];
    let mut a2 = HashTree::create(10, 0, seed);
    assert_eq!(a2.read_exact(&mut x), Ok(()));
    assert_eq!(c.read_exact(&mut z), Ok(()));
    assert_ne!(x, z);
}

#[test]
fn exhausted_tree_reports_it() {
    let seed = digest(b"small");
    let mut tree = HashTree::create(1, 0, seed);
    let mut too_long = vec![0u8; 65];
    assert_eq!(tree.read_exact(&mut too_long), Err(KeystreamError::Exhausted));
    assert_eq!(too_long, vec![0u8; 65]);
    assert_eq!(tree.current_path(), 0);

    let mut all = vec![0u8; 64];
    assert_eq!(tree.read_exact(&mut all), Ok(()));
    let mut one = vec![0u8; 1];
    assert_eq!(tree.read(&mut one), Err(KeystreamError::Exhausted));
    assert_eq!(tree.read_exact(&mut one), Err(KeystreamError::Exhausted));
    let mut none: Vec<u8> = Vec::new();
    assert_eq!(tree.read_exact(&mut none), Ok(()));
}

#[test]
fn capacity_queries() {
    let seed = digest(b"capacity");
    let t7 = HashTree::create(7, 0, seed);
    assert_eq!(t7.last_leaf_index(), 127);
    assert_eq!(t7.last_byte_index(), 127 * 32);
    let t20 = HashTree::create(20, 0, seed);
    assert_eq!(t20.last_leaf_index(), 1048575);
    let t32 = HashTree::create(32, 0, seed);
    assert_eq!(t32.last_leaf_index(), 0xffff_ffff);
    assert_eq!(t32.last_byte_index(), 0xffff_ffffu64 * 32);
}

#[test]
fn constant_key_fills_buffer() {
    let mut key = XKey::new(0x5a);
    let mut buf = vec![1u8; 17];
    assert_eq!(key.read(&mut buf), 17);
    assert_eq!(buf, vec![0x5au8; 17]);
    let mut empty: Vec<u8> = Vec::new();
    assert_eq!(key.read(&mut empty), 0);
}
