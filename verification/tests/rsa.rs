use fsvfs::rsa::{DecryptError, KeyDecodeError, RsaKey};

// n = 3233 = 61 * 53, e = 17.
const DER: [u8; 9] = [0x30, 0x07, 0x02, 0x02, 0x0C, 0xA1, 0x02, 0x01, 0x11];
const PEM: &str = "-----BEGIN RSA PUBLIC KEY-----\r\nMAcCAgyhAgER\r\n-----END RSA PUBLIC KEY-----\n";

#[test]
fn rsa_key_from_der_and_pem() {
    let key = RsaKey::decode_from_der(&DER).unwrap();
    assert_eq!(key.in_block_len(), 2);
    assert_eq!(key.out_block_len(), 1);

    let key = RsaKey::decode_from_pem(PEM).unwrap();
    assert_eq!(key.in_block_len(), 2);

    assert!(matches!(RsaKey::decode_from_der(&[0x31]), Err(KeyDecodeError::Der)));
    assert!(matches!(RsaKey::decode_from_der(&DER[..6]), Err(KeyDecodeError::Der)));
    assert!(matches!(
        RsaKey::decode_from_pem("-----BEGIN-----\n***\n-----END-----\n"),
        Err(KeyDecodeError::Base64(_))
    ));
}

#[test]
fn rsa_key_long_form_length_and_leading_zero() {
    // A long-form sequence length and a modulus with a leading zero byte.
    let der = [0x30, 0x81, 0x08, 0x02, 0x03, 0x00, 0x0C, 0xA1, 0x02, 0x01, 0x11];
    let key = RsaKey::decode_from_der(&der).unwrap();
    assert_eq!(key.in_block_len(), 2);
}

#[test]
fn rsa_decrypt_blocks() {
    let key = RsaKey::decode_from_der(&DER).unwrap();

    // 588^17 mod 3233 = 65, 2215^17 mod 3233 = 66.
    let mut out = vec![0u8; 1];
    key.decrypt_block_in(&[0x02, 0x4c], &mut out).unwrap();
    assert_eq!(out, [65]);

    let mut blocks = vec![0x02, 0x4c, 0x08, 0xa7];
    assert_eq!(key.decrypt_blocks_in_place(&mut blocks), Ok(2));
    assert_eq!(&blocks[..2], &[65, 66]);

    let mut wide = vec![0u8; 3];
    key.decrypt_block_in(&[0x02, 0x4c], &mut wide).unwrap();
    assert_eq!(wide, [0, 0, 65]);

    assert_eq!(key.decrypt_block_in(&[1, 2, 3], &mut out), Err(DecryptError::Size(2)));
    assert_eq!(key.decrypt_block_in(&[0x0C, 0xA1], &mut out), Err(DecryptError::Base));
    let mut odd = vec![1u8, 2, 3];
    assert_eq!(key.decrypt_blocks_in_place(&mut odd), Err(DecryptError::Size(2)));
    assert_eq!(odd, [1, 2, 3]);
}
