//! Bencode decode and encode behaviour, matched against fixed byte
//! runs, plus the round trip on canonical inputs.
use torain::bencode::{decode, ser, ser_bstring, ser_dict, ser_list, ser_string, BTypes, DecodeError};

#[test]
fn integer() {
    assert_eq!(decode("i64e".as_bytes()).ok(), Some(BTypes::INT(64)));
    assert_eq!(decode("i-64e".as_bytes()).ok(), Some(BTypes::INT(-64)));
    assert_eq!(decode("i0e".as_bytes()).ok(), Some(BTypes::INT(0)));
    assert_eq!(decode("i-0e".as_bytes()).ok(), Some(BTypes::INT(0)));
}

#[test]
fn bstrings() {
    assert_eq!(
        decode("5:hello".as_bytes()).ok(),
        Some(BTypes::BSTRING("hello".to_owned().into_bytes()))
    );
}

#[test]
fn integer_encode() {
    assert_eq!("i64e".to_owned().into_bytes(), ser(&BTypes::INT(64)));
}

#[test]
fn bstring() {
    assert_eq!(
        "4:type".to_owned().into_bytes(),
        ser(&BTypes::BSTRING("type".to_owned().into_bytes()))
    );
}

#[test]
fn str() {
    assert_eq!("4:type".to_owned().into_bytes(), ser_string(&"type".to_owned()));
}

#[test]
fn list() {
    let mut list = vec![];
    list.push(BTypes::INT(4));
    list.push(BTypes::BSTRING("type".to_owned().into_bytes()));
    assert_eq!("li4e4:typee".to_owned().into_bytes(), ser_list(&list));
}

#[test]
fn dict() {
    let mut dict = Vec::new();
    dict.insert(0, ("info".to_owned().into_bytes(), BTypes::INT(4)));
    dict.insert(1, ("name".to_owned().into_bytes(), BTypes::INT(42)));
    assert_eq!("d4:infoi4e4:namei42ee".to_owned().into_bytes(), ser_dict(&dict));
}

#[test]
fn empty_dict() {
    let dict: Vec<(Vec<u8>, BTypes)> = Vec::new();
    assert_eq!("de".to_owned().into_bytes(), ser_dict(&dict));
}

#[test]
fn raw_bin() {
    let str = BTypes::BSTRING("\u{fe}".to_owned().into_bytes());
    assert_eq!(vec![b'2', b':', 195, 190], ser(&str));
}

#[test]
fn reencode_round_trip() {
    for input in [
        "i64e",
        "4:type",
        "li4e4:typee",
        "d4:infoi4e4:namei42ee",
        "d1:rd2:id20:mnopqrstuvwxyz123456e1:t2:aa1:y1:re",
        "le",
        "de",
    ] {
        let v = decode(input.as_bytes()).unwrap();
        assert_eq!(ser(&v), input.as_bytes().to_vec());
    }
}

#[test]
fn truncated_input_is_eof() {
    assert_eq!(decode("i64".as_bytes()), Err(DecodeError::EOF));
    assert_eq!(decode("5:hel".as_bytes()), Err(DecodeError::EOF));
    assert_eq!(decode("li4e".as_bytes()), Err(DecodeError::EOF));
    assert_eq!(decode("".as_bytes()), Err(DecodeError::EOF));
}

#[test]
fn bad_integer_is_parse_error() {
    assert_eq!(decode("iabce".as_bytes()), Err(DecodeError::IntParseError));
    assert_eq!(decode("9999999999999999999999:x".as_bytes()), Err(DecodeError::IntParseError));
}

#[test]
fn unsorted_dict_keys_rejected() {
    assert!(decode("d4:namei42e4:infoi4ee".as_bytes()).is_err());
    assert!(decode("d4:infoi4e4:infoi5ee".as_bytes()).is_err());
}
