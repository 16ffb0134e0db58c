use verkey_builder::decode;
use verkey_builder::encode;
use verkey_builder::DecodeError;

#[test]
fn encode_empty_is_empty() {
    assert_eq!(encode(&vec![]), "");
}

#[test]
fn encode_zero_bytes_are_ones() {
    assert_eq!(encode(&vec![0]), "1");
    assert_eq!(encode(&vec![0, 0, 0]), "111");
}

#[test]
fn encode_known_vectors() {
    assert_eq!(encode(&vec![97]), "2g");
    assert_eq!(encode(&vec![0, 0, 1]), "112");
    assert_eq!(encode(&vec![98, 98, 98]), "a3gV");
}

#[test]
fn decode_empty_is_empty() {
    assert_eq!(decode("").unwrap(), Vec::<u8>::new());
}

#[test]
fn decode_known_vectors() {
    assert_eq!(decode("1").unwrap(), vec![0]);
    assert_eq!(decode("2g").unwrap(), vec![97]);
    assert_eq!(decode("112").unwrap(), vec![0, 0, 1]);
    assert_eq!(decode("a3gV").unwrap(), vec![98, 98, 98]);
}

#[test]
fn decode_rejects_characters_outside_alphabet() {
    assert_eq!(decode("0").unwrap_err(), DecodeError);
    assert_eq!(decode("O").unwrap_err(), DecodeError);
    assert_eq!(decode("I").unwrap_err(), DecodeError);
    assert_eq!(decode("l").unwrap_err(), DecodeError);
    assert_eq!(decode("2g!").unwrap_err(), DecodeError);
}

#[test]
fn codec_round_trip() {
    let cases: Vec<Vec<u8>> = vec![
        vec![],
        vec![0],
        vec![0, 0, 0],
        vec![1],
        vec![255],
        vec![0, 1, 2, 3],
        vec![97, 98, 99],
        vec![0, 0, 255, 254, 0, 7],
        vec![58, 58, 58, 58],
    ];
    for b in cases {
        assert_eq!(decode(&encode(&b)).unwrap(), b);
    }
}
