use lansight::crypto::{
    aes_decrypt, aes_encrypt, build_signature, draw_padding, gen_hex16, hex16_from, md5_hex, redrawn,
    rsa_block_with, rsa_encrypt_block, signature_with, without_zeros, AesError, RsaError,
};
use lansight::random::{random_bytes, received, NoRandom};

const N: &str = "DBBF149B525796DCB380BE29E25A64022443BE0F315822414DAC9FC54F4CBC82\
                 B4C2F0CC97D433909939DD1526C8D3E0C41AB2F8117F6E300C0CCC30EAFAF9D1";

#[test]
fn md5_known_answer() {
    // md5("ab" + "c") == md5("abc")
    assert_eq!(md5_hex("ab", "c"), "900150983cd24fb0d6963f7d28e17f72");
    assert_eq!(md5_hex("", ""), "d41d8cd98f00b204e9800998ecf8427e");
}

#[test]
fn aes_round_trip() {
    let key = b"0123456789abcdef"; // 16-byte ASCII key, as the router uses
    let iv = b"fedcba9876543210";
    for plain in ["", "operation=login&password=deadbeef&confirm=true", "x"] {
        let enc = aes_encrypt(plain, key, iv);
        let dec = aes_decrypt(&enc, key, iv).unwrap();
        assert_eq!(dec, plain);
    }
}

#[test]
fn rsa_block_length_matches_modulus() {
    // 512-bit signing-style key: output must be exactly 64 bytes (128 hex).
    let out = rsa_encrypt_block(b"h=abc&s=123", N, "010001").unwrap();
    assert_eq!(out.len(), 128, "512-bit RSA block should be 128 hex chars");
}

#[test]
fn rsa_rejects_oversized_message() {
    // 54 bytes > 64-11 for the 512-bit key.
    assert!(rsa_encrypt_block(&[b'a'; 54], N, "010001").is_err());
}

#[test]
fn signature_chunks_at_53() {
    // A login sign string > 53 chars must span 2 blocks => 256 hex chars.
    let sig = build_signature(
        999_999_999,
        true,
        "0123456789abcdef0123456789abcdef",
        "0123456789abcdef",
        "fedcba9876543210",
        N,
        "010001",
    )
    .unwrap();
    assert_eq!(sig.len() % 128, 0);
    assert!(sig.len() >= 256, "login signature should need >=2 RSA blocks");
}

#[test]
fn login_signature_takes_two_blocks() {
    let hash = "0123456789abcdef0123456789abcdef";
    let sig = build_signature(5, true, hash, "0123456789abcdef", "fedcba9876543210", N, "010001");
    assert_eq!(sig.unwrap().len(), 256);
    let sig = build_signature(5, false, hash, "", "", N, "010001");
    assert_eq!(sig.unwrap().len(), 128);
}

#[test]
fn aes_exact_value() {
    let key = b"0123456789abcdef";
    let iv = b"fedcba9876543210";
    assert_eq!(aes_encrypt("operation=load", key, iv), "DmCJsuEmQGUVdO0RrmAFlw==");
    assert_eq!(aes_decrypt(" DmCJsuEmQGUVdO0RrmAFlw==\n", key, iv).unwrap(), "operation=load");
}

#[test]
fn aes_errors() {
    let key = b"0123456789abcdef";
    let iv = b"fedcba9876543210";
    assert_eq!(aes_decrypt("***", key, iv), Err(AesError::NotBase64 { why: "Invalid symbol 42, offset 0.".to_string() }));
    assert_eq!(aes_decrypt("AAAA", key, iv), Err(AesError::BadPadding));
    // one byte of the vector changed turns the first byte of the text
    let other = b"\x99edcba9876543210";
    let enc = aes_encrypt("x", key, iv);
    match aes_decrypt(&enc, key, other) {
        Err(AesError::NotText { why }) => assert!(why.contains("utf-8")),
        other => panic!("{other:?}"),
    }
}

#[test]
fn md5_digests_both_parts() {
    assert_eq!(md5_hex("admin", "secret"), "71a4a17a658b90a7f847585721b5a217");
}

#[test]
fn rsa_exact_value() {
    let padding = [7u8; 50];
    assert_eq!(
        rsa_block_with(b"h=abc&s=123", &padding, N, "010001").unwrap(),
        "8ad1f5d82b8e34cf0257a99fae90e5a37c52ef70dc649f0ebf545d03cf5f91a74045458615ad8992e83e69b6dd0eb9427188db051ef7774bd128e9eb2f0a313e"
    );
}

#[test]
fn rsa_block_is_left_padded() {
    let padding = [1u8; 12];
    let n = "+10_00000000000000000000000000000000";
    assert_eq!(
        rsa_block_with(b"ab", &padding, n, "3").unwrap(),
        "04ccee9d4cfdaf6215ca7ff8e00d596888"
    );
}

#[test]
fn rsa_block_holds_the_padded_message() {
    // To the first power a block shows what was encrypted.
    let n = "ffffffffffffffffffffffffffffffff";
    assert_eq!(
        rsa_block_with(b"ab", &[9u8; 11], n, "1").unwrap(),
        "00020909090909090909090909006162"
    );
}

#[test]
fn signature_of_a_longer_text_takes_more_blocks() {
    // "h=" + 100 + "&s=1" is 106 bytes: two whole chunks
    let hash = "a".repeat(100);
    assert_eq!(build_signature(1, false, &hash, "", "", N, "3").unwrap().len(), 256);
    let hash = "a".repeat(101);
    assert_eq!(build_signature(1, false, &hash, "", "", N, "3").unwrap().len(), 384);
}

#[test]
fn blocks_of_a_signature_follow_each_other() {
    // To the first power a block shows what was encrypted.
    let n = "f".repeat(128);
    let paddings = vec![vec![9u8; 8], vec![7u8; 59]];
    let text = format!("{}xy", "a".repeat(53));
    assert_eq!(
        signature_with(text.as_bytes(), &paddings, &n, "1").unwrap(),
        format!("0002{}00{}0002{}007879", "09".repeat(8), "61".repeat(53), "07".repeat(59))
    );
    assert_eq!(
        signature_with(b"h=abc&s=123", &vec![vec![7u8; 50]], N, "010001").unwrap(),
        rsa_block_with(b"h=abc&s=123", &[7u8; 50], N, "010001").unwrap()
    );
    assert_eq!(signature_with(b"x", &vec![], "xyz", "3"), Err(RsaError::BadModulus));
    assert_eq!(signature_with(b"x", &vec![], N, "g"), Err(RsaError::BadExponent));
    assert_eq!(
        signature_with(&[b'a'; 54], &vec![], "ffff", "3"),
        Err(RsaError::TooLong { message: 53, key: 2 })
    );
}

#[test]
fn a_block_without_padding_needs_no_random_bytes() {
    // To the first power a block shows what was encrypted.
    assert_eq!(rsa_encrypt_block(b"", "ffffff", "1").unwrap(), "000200");
}

#[test]
fn rsa_faults() {
    assert_eq!(rsa_encrypt_block(b"x", "xyz", "010001"), Err(RsaError::BadModulus));
    assert_eq!(rsa_encrypt_block(b"x", "", "010001"), Err(RsaError::BadModulus));
    assert_eq!(rsa_encrypt_block(b"x", "_1", "010001"), Err(RsaError::BadModulus));
    assert_eq!(rsa_encrypt_block(b"x", "++1", "010001"), Err(RsaError::BadModulus));
    assert_eq!(rsa_encrypt_block(b"x", N, "g"), Err(RsaError::BadExponent));
    assert_eq!(
        rsa_encrypt_block(&[b'a'; 54], N, "010001"),
        Err(RsaError::TooLong { message: 54, key: 64 })
    );
    assert_eq!(
        rsa_encrypt_block(b"a", "ffff", "3"),
        Err(RsaError::TooLong { message: 1, key: 2 })
    );
    assert_eq!(rsa_encrypt_block(b"", "ffffff", "3").unwrap().len(), 6);
}

#[test]
fn signature_passes_faults_on() {
    assert_eq!(build_signature(1, false, "h", "", "", "xyz", "3"), Err(RsaError::BadModulus));
    assert_eq!(
        build_signature(1, true, "0123456789abcdef0123456789abcdef", "0123456789abcdef", "0123456789abcdef", "ffffffffffffffffffffffffffffffff", "3"),
        Err(RsaError::TooLong { message: 53, key: 16 })
    );
}

#[test]
fn keys_are_sixteen_digits() {
    let a = gen_hex16().unwrap();
    let b = gen_hex16().unwrap();
    assert_eq!(a.len(), 16);
    assert!(a.chars().all(|c| c.is_ascii_digit() || ('a'..='f').contains(&c)));
    assert_ne!(a, b);
}

#[test]
fn padding_has_no_zero() {
    let padding = draw_padding(4096).unwrap();
    assert_eq!(padding.len(), 4096);
    assert!(padding.iter().all(|b| *b != 0));
}

fn none() -> NoRandom {
    NoRandom { why: "broken".to_string() }
}

#[test]
fn random_bytes_are_passed_on() {
    assert_eq!(received(Ok(vec![1, 2])), Ok(vec![1, 2]));
    assert_eq!(received(Err("broken".to_string())), Err(none()));
    assert_eq!(random_bytes(0), Ok(vec![]));
    assert_eq!(random_bytes(24).unwrap().len(), 24);
    assert_ne!(random_bytes(24), random_bytes(24));
}

#[test]
fn keys_are_made_of_drawn_bytes() {
    assert_eq!(
        hex16_from(Ok(vec![0, 1, 2, 0xab, 0xcd, 0xef, 0x7f, 0xff])),
        Ok("000102abcdef7fff".to_string())
    );
    assert_eq!(hex16_from(Err(none())), Err(none()));
}

#[test]
fn only_zeros_are_drawn_anew() {
    assert_eq!(without_zeros(vec![1, 2, 255]), Ok(vec![1, 2, 255]));
    assert_eq!(draw_padding(0), Ok(vec![]));
    let mended = without_zeros(vec![0, 7, 0, 9]).unwrap();
    assert_eq!((mended.len(), mended[1], mended[3]), (4, 7, 9));
    assert!(mended.iter().all(|b| *b != 0));
}

#[test]
fn a_redrawn_byte_is_judged() {
    assert_eq!(redrawn(Ok(vec![7])), Ok(Some(7)));
    assert_eq!(redrawn(Ok(vec![0])), Ok(None));
    assert_eq!(redrawn(Err(none())), Err(none()));
}
