use base64_codec::base64::{base64_decode, base64_encode, DecodeError};

#[test]
fn basic_encode() {
    assert_eq!(base64_encode(b"abc"), "YWJj");
    assert_eq!(base64_encode(b"gsgcbirmsdkgmer"), "Z3NnY2Jpcm1zZGtnbWVy")
}

#[test]
fn padding_encode() {
    assert_eq!(base64_encode(b"abcd"), "YWJjZA==");
    assert_eq!(base64_encode(b"abcde"), "YWJjZGU=");
    assert_eq!(base64_encode(b"sageskjkbvnmiksjgtkgeskjgkgesGEKSAGNSGMSJKGKMVLKSJKGNKSNGLAJLKGHKSNKBAL;AJKKLGHSKNGALJHKNBZ.MOSGM.A.[91328I"),"c2FnZXNramtidm5taWtzamd0a2dlc2tqZ2tnZXNHRUtTQUdOU0dNU0pLR0tNVkxLU0pLR05LU05HTEFKTEtHSEtTTktCQUw7QUpLS0xHSFNLTkdBTEpIS05CWi5NT1NHTS5BLls5MTMyOEk=")
}

#[test]
fn basic_decode() {
    assert_eq!(base64_decode("YWJj").unwrap(), b"abc");
    assert_eq!(base64_decode("Z3NnY2Jpcm1zZGtnbWVy").unwrap(), b"gsgcbirmsdkgmer");
}

#[test]
fn padding_decode() {
    assert_eq!(base64_decode("YWJjZA==").unwrap(), b"abcd");
    assert_eq!(base64_decode("YWJjZGU=").unwrap(), b"abcde");
    assert_eq!(base64_decode("c2FnZXNramtidm5taWtzamd0a2dlc2tqZ2tnZXNHRUtTQUdOU0dNU0pLR0tNVkxLU0pLR05LU05HTEFKTEtHSEtTTktCQUw7QUpLS0xHSFNLTkdBTEpIS05CWi5NT1NHTS5BLls5MTMyOEk=").unwrap(),b"sageskjkbvnmiksjgtkgeskjgkgesGEKSAGNSGMSJKGKMVLKSJKGNKSNGLAJLKGHKSNKBAL;AJKKLGHSKNGALJHKNBZ.MOSGM.A.[91328I")
}

#[test]
fn empty_round_trip() {
    assert_eq!(base64_encode(b""), "");
    assert_eq!(base64_decode("").unwrap(), b"");
}

#[test]
fn single_byte_padding() {
    assert_eq!(base64_encode(b"a"), "YQ==");
    assert_eq!(base64_decode("YQ==").unwrap(), b"a");
}

#[test]
fn two_byte_padding() {
    assert_eq!(base64_encode(b"ab"), "YWI=");
    assert_eq!(base64_decode("YWI=").unwrap(), b"ab");
}

#[test]
fn encode_length_law() {
    for len in 0..32usize {
        let bytes = vec![0x5au8; len];
        assert_eq!(base64_encode(&bytes).len(), (len + 2) / 3 * 4);
    }
}

#[test]
fn round_trip_all_byte_values() {
    let mut bytes = Vec::new();
    for b in 0..=255u8 {
        bytes.push(b);
    }
    let text = base64_encode(&bytes);
    assert_eq!(base64_decode(&text).unwrap(), bytes);
}

#[test]
fn round_trip_every_remainder() {
    let sample = b"base64 codec";
    for len in 0..sample.len() {
        let text = base64_encode(&sample[..len]);
        assert_eq!(base64_decode(&text).unwrap(), &sample[..len]);
    }
}

#[test]
fn full_alphabet_round_trip() {
    let alphabet = "ABCDEFGHIJKLMNOPQRSTUVWXYZabcdefghijklmnopqrstuvwxyz0123456789+/";
    let bytes = base64_decode(alphabet).unwrap();
    assert_eq!(bytes.len(), 48);
    assert_eq!(base64_encode(&bytes), alphabet);
}

#[test]
fn invalid_length_error() {
    assert_eq!(base64_decode("YWJj="), Err(DecodeError::InvalidLength));
    assert_eq!(base64_decode("Y"), Err(DecodeError::InvalidLength));
}

#[test]
fn unexpected_character_error() {
    assert_eq!(base64_decode("YW!j"), Err(DecodeError::UnexpectedCharacter(2)));
    assert_eq!(base64_decode("Y=Jj"), Err(DecodeError::UnexpectedCharacter(1)));
    assert_eq!(base64_decode("===="), Err(DecodeError::UnexpectedCharacter(0)));
}

#[test]
fn invalid_padding_error() {
    assert_eq!(base64_decode("YW=j"), Err(DecodeError::InvalidPadding));
}
