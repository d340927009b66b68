use bittorrent::urlencode::URLEncoder;

#[test]
fn urlencode_sentences() {
    let encoder = URLEncoder;
    let expected = String::from("This%20string%20will%20be%20URL%20encoded.");
    let urlencoded_sentence = encoder
        .urlencode("This string will be URL encoded.".as_bytes().to_vec())
        .unwrap();
    assert_eq!(urlencoded_sentence, expected);
}

#[test]
fn urlencode_abc_upper() {
    let encoder = URLEncoder;
    let expected = String::from("ABCDEFGHIJKLMNOPQRSTUVWXYZ");
    let urlencoded_sentence = encoder
        .urlencode("ABCDEFGHIJKLMNOPQRSTUVWXYZ".as_bytes().to_vec())
        .unwrap();
    assert_eq!(urlencoded_sentence, expected);
}

#[test]
fn urlencode_abc_lower() {
    let encoder = URLEncoder;
    let expected = String::from("ABCDEFGHIJKLMNOPQRSTUVWXYZ".to_lowercase());
    let urlencoded_sentence = encoder
        .urlencode(
            "ABCDEFGHIJKLMNOPQRSTUVWXYZ"
                .to_lowercase()
                .as_bytes()
                .to_vec(),
        )
        .unwrap();
    assert_eq!(urlencoded_sentence, expected);
}

#[test]
fn urlencode_numbers() {
    let encoder = URLEncoder;
    let expected = String::from("0123456789");
    let urlencoded_sentence = encoder.urlencode("0123456789".as_bytes().to_vec()).unwrap();
    assert_eq!(urlencoded_sentence, expected);
}

#[test]
fn urlencode_special_chars() {
    let encoder = URLEncoder;
    let expected = String::from("-_.,~");
    let urlencoded_sentence = encoder.urlencode("-_.,~".as_bytes().to_vec()).unwrap();
    assert_eq!(urlencoded_sentence, expected);
}

#[test]
fn urlencode_space() {
    let encoder = URLEncoder;
    let expected = String::from("%20");
    let urlencoded_sentence = encoder.urlencode(" ".as_bytes().to_vec()).unwrap();
    assert_eq!(urlencoded_sentence, expected);
}

#[test]
fn urlencode_id() {
    let encoder = URLEncoder;
    let expected = String::from("-4R0001-D23T25F26S27");
    let urlencoded_sentence = encoder
        .urlencode("-4R0001-D23T25F26S27".as_bytes().to_vec())
        .unwrap();
    assert_eq!(urlencoded_sentence, expected);
}

#[test]
fn url_encode_info_hash() {
    let info_hash: Vec<u8> = vec![
        69, 179, 214, 147, 207, 242, 133, 151, 95, 98, 42, 202, 235, 117, 197, 98, 106, 202, 255,
        111,
    ];
    let urlencoded_string = URLEncoder.urlencode(info_hash).unwrap();

    assert_eq!(
        urlencoded_string,
        "E%b3%d6%93%cf%f2%85%97_b%2a%ca%ebu%c5bj%ca%ffo"
    );
}
