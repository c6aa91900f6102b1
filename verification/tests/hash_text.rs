//! The textual form of hashes: the known vector, and the parser's errors.

fn gth() -> esvc::hash::Hash {
    let bytes: [u8; 64] = [
        207, 114, 247, 238, 107, 232, 17, 55, 229, 186, 214, 166, 184, 208, 96, 252, 67, 32,
        28, 203, 113, 194, 111, 24, 149, 157, 137, 127, 183, 118, 121, 156, 14, 32, 34, 132,
        138, 243, 141, 153, 87, 76, 109, 145, 247, 109, 108, 230, 13, 210, 5, 38, 56, 76, 18,
        41, 96, 233, 122, 235, 55, 66, 107, 150,
    ];
    esvc::hash::Hash::Blake2b512(esvc::hash::bytes_to_digest(&bytes))
}

const GTH_STR: &str = "blake2b512:z3L37mvoETflutamuNBg_EMgHMtxwm8YlZ2Jf7d2eZwOICKEivONmVdMbZH3bWzmDdIFJjhMEilg6XrrN0Jrlg";

#[test]
fn hash_parse_err_invalid_prefix() {
    assert_eq!(
        "hello:1234".parse::<esvc::hash::Hash>(),
        Err(esvc::hash::HashDecodeError::InvalidPrefix("hello".to_string()))
    );
}

#[test]
fn hash_parse_err_base64() {
    assert_eq!(
        "blake2b512:.".parse::<esvc::hash::Hash>(),
        Err(esvc::hash::HashDecodeError::Base64(
            esvc::hash::B64DecodeError::InvalidByte(11, b'.')
        ))
    );
}

#[test]
fn hash_parse_err_too_short() {
    assert_eq!(
        "blake2b512:QQ".parse::<esvc::hash::Hash>(),
        Err(esvc::hash::HashDecodeError::TooShort { got: 2, expected: 64 })
    );
}

#[test]
fn ex0_calc_hash() {
    assert_eq!(esvc::hash::calculate_hash("Guten Tag!".as_bytes()), gth());
}

#[test]
fn ex0_hash_str() {
    assert_eq!(gth().format(), GTH_STR);
    assert_eq!(GTH_STR.parse::<esvc::hash::Hash>(), Ok(gth()));
}
