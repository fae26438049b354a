use protocol::crypto::{EmptyCryptoContext, XorCryptoContext, XorCryptoMode};

#[test]
fn empty_context_passes_bytes_through() {
    let mut ctx = EmptyCryptoContext::new();
    let mut buffer = vec![1u8, 2, 3, 4];
    ctx.encrypt(&mut buffer).unwrap();
    assert_eq!(buffer, vec![1, 2, 3, 4]);
    ctx.decrypt(&mut buffer).unwrap();
    assert_eq!(buffer, vec![1, 2, 3, 4]);
}

#[test]
fn generate_key_is_four_bytes() {
    let key = XorCryptoContext::generate_key();
    assert_eq!(key.len(), 4);
}

fn symmetry_case(key: &Vec<i8>, plaintext: Vec<u8>) {
    // Server encrypts, client decrypts.
    let mut server = XorCryptoContext::new(XorCryptoMode::Server, key);
    let mut client = XorCryptoContext::new(XorCryptoMode::Client, key);
    let mut buffer = plaintext.clone();
    server.encrypt(&mut buffer).unwrap();
    client.decrypt(&mut buffer).unwrap();
    assert_eq!(buffer, plaintext);

    // Client encrypts, server decrypts.
    let mut server2 = XorCryptoContext::new(XorCryptoMode::Server, key);
    let mut client2 = XorCryptoContext::new(XorCryptoMode::Client, key);
    let mut buffer2 = plaintext.clone();
    client2.encrypt(&mut buffer2).unwrap();
    server2.decrypt(&mut buffer2).unwrap();
    assert_eq!(buffer2, plaintext);
}

#[test]
fn cipher_symmetry_empty_input() {
    symmetry_case(&vec![1, 2, 3, 4], Vec::new());
}

#[test]
fn cipher_symmetry_single_byte() {
    symmetry_case(&vec![9, -7, 33, 101], vec![0xab]);
}

#[test]
fn cipher_symmetry_long_input() {
    let key = vec![-128, 127, 0, 15];
    let plaintext: Vec<u8> = (0..100u32).map(|i| (i * 37 % 256) as u8).collect();
    symmetry_case(&key, plaintext);
}

#[test]
fn cipher_symmetry_streamed_in_pieces() {
    // The cipher is stateful: encrypting in two calls and decrypting in two
    // calls still reproduces the plaintext, as long as order is kept.
    let key = vec![4, 8, 15, 16];
    let mut server = XorCryptoContext::new(XorCryptoMode::Server, &key);
    let mut client = XorCryptoContext::new(XorCryptoMode::Client, &key);
    let mut part1 = vec![1u8, 2, 3];
    let mut part2 = vec![4u8, 5, 6, 7];
    server.encrypt(&mut part1).unwrap();
    server.encrypt(&mut part2).unwrap();
    client.decrypt(&mut part1).unwrap();
    client.decrypt(&mut part2).unwrap();
    assert_eq!(part1, vec![1, 2, 3]);
    assert_eq!(part2, vec![4, 5, 6, 7]);
}

#[test]
fn first_encrypted_byte_matches_the_table_formula() {
    // Key bytes fold by XOR into the seed: 1 ^ 2 ^ 3 ^ 4 == 4. The server
    // encrypt table entry 0 is the seed itself, so the first ciphertext
    // byte is plaintext ^ seed.
    let key = vec![1, 2, 3, 4];
    let mut server = XorCryptoContext::new(XorCryptoMode::Server, &key);
    let mut buffer = vec![0x10u8];
    server.encrypt(&mut buffer).unwrap();
    assert_eq!(buffer, vec![0x10 ^ 4]);
}

#[test]
fn ciphertext_differs_from_plaintext_under_nonzero_seed() {
    let key = vec![1, 2, 3, 4];
    let mut server = XorCryptoContext::new(XorCryptoMode::Server, &key);
    let plaintext = vec![0u8; 16];
    let mut buffer = plaintext.clone();
    server.encrypt(&mut buffer).unwrap();
    assert_ne!(buffer, plaintext);
}
