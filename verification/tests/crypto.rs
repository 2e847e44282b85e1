use linera_lite::crypto::{BlockHeight, ChainId, CryptoError, CryptoHash};
use linera_lite::framing::{push_bytes, uleb128_bytes, write_seq};
use sha3::Digest;

fn sample_hash() -> CryptoHash {
    let bytes: Vec<u8> = (0u8..32).collect();
    CryptoHash::from_bytes(&bytes)
}

#[test]
fn hash_bytes_are_the_words_least_significant_first() {
    let h = sample_hash();
    assert_eq!(h.part1, u64::from_le_bytes([0, 1, 2, 3, 4, 5, 6, 7]));
    assert_eq!(h.part4, u64::from_le_bytes([24, 25, 26, 27, 28, 29, 30, 31]));
    assert_eq!(h.as_bytes(), (0u8..32).collect::<Vec<u8>>());
}

#[test]
fn hash_text_reads_back() {
    let h = sample_hash();
    let text = h.to_hex();
    assert_eq!(text, hex::encode((0u8..32).collect::<Vec<u8>>()));
    assert_eq!(CryptoHash::from_str(&text), Ok(h));
    assert_eq!(CryptoHash::from_str(&text.to_uppercase()), Ok(h));
}

#[test]
fn hash_text_errors() {
    assert_eq!(CryptoHash::from_str("zz"), Err(CryptoError::NonHexDigits));
    assert_eq!(CryptoHash::from_str("abc"), Err(CryptoError::NonHexDigits));
    assert_eq!(CryptoHash::from_str("abcd"), Err(CryptoError::IncorrectHashSize(2)));
    assert_eq!(CryptoHash::from_str(""), Err(CryptoError::IncorrectHashSize(0)));
}

#[test]
fn chain_id_from_text() {
    let h = sample_hash();
    assert_eq!(ChainId::from_str(&h.to_hex()), Ok(ChainId(h)));
    assert_eq!(ChainId::from_str("x"), Err(CryptoError::NonHexDigits));
    assert_eq!(ChainId(h).bcs_bytes(), h.as_bytes());
}

#[test]
fn bcs_hash_is_sha3_of_name_and_bytes() {
    let digest = sha3::Sha3_256::digest(b"Thing::\x01\x02").to_vec();
    assert_eq!(CryptoHash::bcs_hash("Thing::", &[1, 2]), CryptoHash::from_bytes(&digest));
}

#[test]
fn root_chain_identifier() {
    let digest = sha3::Sha3_256::digest(b"ChainDescription::\x00\x00\x00\x00\x00").to_vec();
    assert_eq!(ChainId::root(0), ChainId(CryptoHash::from_bytes(&digest)));
    let digest = sha3::Sha3_256::digest(b"ChainDescription::\x00\x07\x00\x00\x00").to_vec();
    assert_eq!(ChainId::root(7), ChainId(CryptoHash::from_bytes(&digest)));
    assert_ne!(ChainId::root(0), ChainId::root(1));
}

#[test]
fn uleb128_lengths() {
    assert_eq!(uleb128_bytes(0), vec![0]);
    assert_eq!(uleb128_bytes(127), vec![0x7f]);
    assert_eq!(uleb128_bytes(128), vec![0x80, 0x01]);
    assert_eq!(uleb128_bytes(300), vec![0xac, 0x02]);
    assert_eq!(uleb128_bytes(16384), vec![0x80, 0x80, 0x01]);
}

#[test]
fn write_seq_matches_bcs() {
    let items: Vec<Vec<u8>> = vec![vec![1, 2], vec![], vec![3]];
    let encoded: Vec<Vec<u8>> = items.iter().map(|v| bcs::to_bytes(v).unwrap()).collect();
    let mut out = vec![0xff];
    write_seq(&mut out, &encoded);
    let mut expected = vec![0xff];
    expected.extend(bcs::to_bytes(&items).unwrap());
    assert_eq!(out, expected);
    let many: Vec<Vec<u8>> = (0..200u8).map(|i| vec![i]).collect();
    let mut out = Vec::new();
    write_seq(&mut out, &many);
    let flat: Vec<u8> = (0..200u8).collect();
    assert_eq!(out, bcs::to_bytes(&flat).unwrap());
}

#[test]
fn push_bytes_appends() {
    let mut out = vec![1];
    push_bytes(&mut out, &[2, 3]);
    assert_eq!(out, vec![1, 2, 3]);
    let _ = BlockHeight(3);
}
