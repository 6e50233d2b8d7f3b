use anki_creator::error::DecodeError;
use anki_creator::payload::extract_json_payload;

#[test]
fn payload_is_cut_from_first_open_to_last_close_brace() {
    let text = "Here is the result: {\"part_of_speech\":[\"名词\"]} thanks";
    assert_eq!(
        extract_json_payload(text).unwrap(),
        "{\"part_of_speech\":[\"名词\"]}"
    );
}

#[test]
fn payload_spans_nested_objects() {
    let text = "x {\"a\":{\"b\":1}} y } z";
    assert_eq!(extract_json_payload(text).unwrap(), "{\"a\":{\"b\":1}} y }");
}

#[test]
fn payload_missing_gives_decode_error() {
    assert_eq!(extract_json_payload("no object here"), Err(DecodeError::NoJsonObject));
    assert_eq!(extract_json_payload("} before {"), Err(DecodeError::NoJsonObject));
    assert_eq!(extract_json_payload(""), Err(DecodeError::NoJsonObject));
}
