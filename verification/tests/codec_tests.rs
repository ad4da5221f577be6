use wordcodec::codec::{count_popularity, decode_text, encode_text, is_good_for_encoding};

#[test]
fn empty_input_encodes_to_two_markers() {
    let encoded = encode_text(&String::new());
    assert_eq!(encoded, "@@");
}

#[test]
fn two_markers_decode_to_empty() {
    let decoded = decode_text(&String::from("@@")).unwrap();
    assert_eq!(decoded, "");
}

#[test]
fn concrete_scenario_encodes_with_dense_identifiers() {
    let input = String::from("the cat sat on the mat\nthe dog sat on the rug");
    let encoded = encode_text(&input);
    assert_eq!(encoded, "@the sat on@@0 cat @1 @2 @0 mat\n@0 dog @1 @2 @0 rug");
    let decoded = decode_text(&encoded).unwrap();
    assert_eq!(decoded, input);
}

#[test]
fn concrete_scenario_word_counts() {
    let input = String::from("the cat sat on the mat\nthe dog sat on the rug");
    let freq = count_popularity(&input);
    let expected = vec![
        ("the", 4u64),
        ("cat", 1),
        ("sat", 2),
        ("on", 2),
        ("mat", 1),
        ("dog", 1),
        ("rug", 1),
    ];
    assert_eq!(freq.len(), expected.len());
    for (entry, want) in freq.iter().zip(expected.iter()) {
        assert_eq!(entry.0.as_str(), want.0);
        assert_eq!(entry.1, want.1);
    }
}

#[test]
fn encoded_output_always_begins_with_marker() {
    for input in ["", "plain words here", "a b a b", "@leading marker"] {
        let encoded = encode_text(&String::from(input));
        assert_eq!(encoded.chars().next(), Some('@'));
    }
}

#[test]
fn purely_numeric_words_stay_out_of_the_dictionary() {
    let input = String::from("7 7 x x");
    let encoded = encode_text(&input);
    assert_eq!(encoded, "@x@7 7 @0 @0");
    let decoded = decode_text(&encoded).unwrap();
    assert_eq!(decoded, input);
}

#[test]
fn words_seen_once_stay_out_of_the_dictionary() {
    let input = String::from("alpha beta alpha");
    let encoded = encode_text(&input);
    assert_eq!(encoded, "@alpha@@0 beta @0");
}

#[test]
fn dictionary_identifiers_follow_first_seen_order() {
    // Identifier assignment is first-seen order over the input words, not
    // frequency or lexicographic order.
    let encoded = encode_text(&String::from("b a b a a"));
    assert_eq!(encoded, "@b a@@0 @1 @0 @1 @1");
}

#[test]
fn is_good_for_encoding_filters_by_count_and_digits() {
    assert!(is_good_for_encoding("the", 2));
    assert!(is_good_for_encoding("a1", 5));
    assert!(!is_good_for_encoding("the", 1));
    assert!(!is_good_for_encoding("123", 5));
    assert!(!is_good_for_encoding("", 5));
}

#[test]
fn literal_marker_word_is_escaped_and_restored() {
    let input = String::from("a @x b\na c b");
    let encoded = encode_text(&input);
    assert_eq!(encoded, "@a b@@0 @@x @1\n@0 c @1");
    let decoded = decode_text(&encoded).unwrap();
    assert_eq!(decoded, input);
}

#[test]
fn lone_marker_word_round_trips() {
    let input = String::from("@");
    let encoded = encode_text(&input);
    assert_eq!(encoded, "@@@@");
    let decoded = decode_text(&encoded).unwrap();
    assert_eq!(decoded, input);
}

#[test]
fn escaped_marker_before_digits_stays_literal() {
    // "@@7" is an escape: the remainder "@7" starts with the marker, which is
    // no digit, so it is restored literally rather than read as a reference.
    let decoded = decode_text(&String::from("@a b@@@7")).unwrap();
    assert_eq!(decoded, "@7");
}

#[test]
fn out_of_range_reference_decodes_to_empty_word() {
    let decoded = decode_text(&String::from("@a b@@99")).unwrap();
    assert_eq!(decoded, "");
    let decoded = decode_text(&String::from("@a b@x @99 y")).unwrap();
    assert_eq!(decoded, "x  y");
}

#[test]
fn huge_reference_decodes_to_empty_word() {
    let decoded = decode_text(&String::from("@a b@@99999999999999999999999999")).unwrap();
    assert_eq!(decoded, "");
}

#[test]
fn in_range_references_resolve() {
    let decoded = decode_text(&String::from("@a b@@0 @1")).unwrap();
    assert_eq!(decoded, "a b");
}

#[test]
fn zero_markers_fail_with_framing_error() {
    assert!(decode_text(&String::from("no markers here")).is_err());
    assert!(decode_text(&String::from("")).is_err());
}

#[test]
fn one_marker_fails_with_framing_error() {
    assert!(decode_text(&String::from("one@marker")).is_err());
    assert!(decode_text(&String::from("@")).is_err());
}

#[test]
fn consecutive_spaces_are_preserved() {
    let input = String::from("a  b\na  b");
    let encoded = encode_text(&input);
    assert_eq!(encoded, "@a b@@0  @1\n@0  @1");
    let decoded = decode_text(&encoded).unwrap();
    assert_eq!(decoded, input);
}

#[test]
fn round_trip_normalizes_one_trailing_newline() {
    let input = String::from("a b\n");
    let decoded = decode_text(&encode_text(&input)).unwrap();
    assert_eq!(decoded, "a b");
}

#[test]
fn round_trip_on_plain_text() {
    let inputs = [
        "hello world hello world",
        "x",
        "one two three\nfour five six\none two six",
        "repeat repeat repeat repeat",
        "interior@marker stays put",
    ];
    for input in inputs {
        let decoded = decode_text(&encode_text(&String::from(input))).unwrap();
        assert_eq!(decoded, input);
    }
}

#[test]
fn unicode_words_round_trip() {
    let input = String::from("caf\u{e9} th\u{e9} caf\u{e9} th\u{e9}");
    let decoded = decode_text(&encode_text(&input)).unwrap();
    assert_eq!(decoded, input);
}
