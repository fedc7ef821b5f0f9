use hash_tree_crypt::cipher::{encrypt_buffer, encrypt_chunk, BUFFER_LEN};
use hash_tree_crypt::tree::{HashTree, KeystreamError};

fn digest(bytes: &[u8]) -> [u8; 32] {
    *blake3::hash(bytes).as_bytes()
}

fn pseudo_random(len: usize) -> Vec<u8> {
    let mut state: u32 = 0x1234_5678;
    (0..len)
        .map(|_| {
            state ^= state << 13;
            state ^= state >> 17;
            state ^= state << 5;
            (state >> 24) as u8
        })
        .collect()
}

#[test]
fn decrypt_undoes_encrypt() {
    let seed = digest(b"password");
    for len in [0usize, 1, 31, 32, 33, 1000] {
        let plain = pseudo_random(len);
        let mut enc = HashTree::create(32, 0, seed);
        let cipher = encrypt_buffer(&plain, 64, &mut enc).unwrap();
        assert_eq!(cipher.len(), len);
        if len > 8 {
            assert_ne!(cipher, plain);
        }
        let mut dec = HashTree::create(32, 0, seed);
        let back = encrypt_buffer(&cipher, 64, &mut dec).unwrap();
        assert_eq!(back, plain);
    }
}

#[test]
fn chunked_round_trip_with_partial_last_chunk() {
    let seed = digest(b"chunks");
    let plain = pseudo_random(300 * 1024);
    let mut enc = HashTree::create(32, 0, seed);
    let cipher = encrypt_buffer(&plain, BUFFER_LEN, &mut enc).unwrap();
    assert_eq!(cipher.len(), plain.len());

    // The same bytes come out when the whole input is one chunk.
    let mut whole = HashTree::create(32, 0, seed);
    let mut one_go = plain.clone();
    assert_eq!(encrypt_chunk(&mut one_go, &mut whole), Ok(()));
    assert_eq!(one_go, cipher);

    let mut dec = HashTree::create(32, 0, seed);
    let back = encrypt_buffer(&cipher, BUFFER_LEN, &mut dec).unwrap();
    assert_eq!(back, plain);
}

#[test]
fn chunk_is_xored_with_keystream() {
    let seed = digest(b"xor");
    let mut source = HashTree::create(5, 0, seed);
    let leaf = source.node(4);
    let mut chunk = vec![0xffu8; 10];
    assert_eq!(encrypt_chunk(&mut chunk, &mut source), Ok(()));
    let expected: Vec<u8> = leaf[..10].iter().map(|b| b ^ 0xff).collect();
    assert_eq!(chunk, expected);
}

#[test]
fn input_longer_than_keystream_is_refused() {
    let seed = digest(b"short");
    let mut source = HashTree::create(2, 0, seed);
    let input = vec![7u8; 129];
    assert_eq!(encrypt_buffer(&input, 16, &mut source), Err(KeystreamError::Exhausted));
    let mut chunk = vec![7u8; 129];
    assert_eq!(encrypt_chunk(&mut chunk, &mut source), Err(KeystreamError::Exhausted));
    assert_eq!(chunk, vec![7u8; 129]);
    let fits = vec![7u8; 128];
    assert_eq!(encrypt_buffer(&fits, 16, &mut source).map(|v| v.len()), Ok(128));
}
