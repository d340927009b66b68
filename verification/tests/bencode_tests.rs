use bittorrent::bencode::{Bencode, DecodingParser, EncodingParser};

#[test]
fn encode_string() {
    let parser = EncodingParser;
    assert_eq!(
        parser.encode_string(String::from("hola")),
        "4:hola".as_bytes()
    );
}

#[test]
fn encode_byte_string() {
    let parser = EncodingParser;
    assert_eq!(
        parser.encode_byte_string("mundo".as_bytes().to_vec()),
        "5:mundo".as_bytes()
    );
}

#[test]
fn encode_number() {
    let parser = EncodingParser;
    assert_eq!(parser.encode_number(32), "i32e".as_bytes());
}

#[test]
fn encode_negative_number() {
    let parser = EncodingParser;
    assert_eq!(parser.encode_number(-3), "i-3e".as_bytes());
}

#[test]
fn encode_zero_number() {
    let parser = EncodingParser;
    assert_eq!(parser.encode_number(0), "i0e".as_bytes());
}

#[test]
fn encode_list() {
    let parser = EncodingParser;
    let mut vec: Vec<Bencode> = vec![];
    vec.push(Bencode::String(String::from("spam")));
    vec.push(Bencode::String(String::from("eggs")));
    assert_eq!(parser.encode_list(vec), "l4:spam4:eggse".as_bytes());
}

#[test]
fn encode_dict() {
    let parser = EncodingParser;
    let mut dict = vec![];
    dict.push((String::from("cow"), Bencode::String(String::from("moo"))));
    dict.push((String::from("spam"), Bencode::String(String::from("eggs"))));
    assert_eq!(
        parser.encode_dict(dict),
        "d3:cow3:moo4:spam4:eggse".as_bytes()
    );
}

#[test]
fn decode_number() {
    let parser = DecodingParser;
    assert_eq!(
        parser.decode_from_string("i27e".to_string()).unwrap(),
        Bencode::Int(27)
    );
}

#[test]
fn decode_string() {
    let parser = DecodingParser;
    assert_eq!(
        parser
            .decode_from_string("33:Debian CD from cdimage.debian.org".to_string())
            .unwrap(),
        Bencode::String("Debian CD from cdimage.debian.org".to_string())
    );
}

#[test]
fn decode_simple_string() {
    let parser = DecodingParser;
    let string = String::from("4:spam");
    let string1 = String::from("spam");
    assert_eq!(
        parser.decode_from_string(string).unwrap(),
        Bencode::String(string1)
    )
}

#[test]
fn decode_simple_number() {
    let parser = DecodingParser;
    let string = String::from("i4e");
    assert_eq!(parser.decode_from_string(string).unwrap(), Bencode::Int(4))
}

#[test]
fn decode_list() {
    let parser = DecodingParser;
    let string = String::from("l3:aaai2ee");
    let string1 = String::from("aaa");
    let mut array: Vec<Bencode> = vec![];
    array.push(Bencode::String(string1));
    array.push(Bencode::Int(2));
    assert_eq!(
        parser.decode_from_string(string).unwrap(),
        Bencode::List(array)
    );
}

#[test]
fn decode_list_of_dicts() {
    let parser = DecodingParser;
    let string = String::from("ld3:cow3:moo4:spam4:eggsed4:cayo5:nocheee");
    let mut dict1: Vec<(String, Bencode)> = vec![];
    dict1.push((String::from("cow"), Bencode::String(String::from("moo"))));
    dict1.push((String::from("spam"), Bencode::String(String::from("eggs"))));
    let mut dict2 = vec![];
    dict2.push((String::from("cayo"), Bencode::String(String::from("noche"))));
    let mut array: Vec<Bencode> = vec![];
    array.push(Bencode::Dictionary(dict1));
    array.push(Bencode::Dictionary(dict2));
    assert_eq!(
        parser.decode_from_string(string).unwrap(),
        Bencode::List(array)
    );
}

#[test]
fn decode_dict() {
    let parser = DecodingParser;
    let string = String::from("d3:cow3:moo4:spam4:eggse");
    let mut dict: Vec<(String, Bencode)> = vec![];
    dict.push((String::from("cow"), Bencode::String(String::from("moo"))));
    dict.push((String::from("spam"), Bencode::String(String::from("eggs"))));
    assert_eq!(
        parser.decode_from_string(string).unwrap(),
        Bencode::Dictionary(dict)
    );
}

#[test]
fn decode_dict_of_ints() {
    let parser = DecodingParser;
    let string = String::from("d3:cowi10e4:listi0ee");
    let mut dict: Vec<(String, Bencode)> = vec![];
    dict.push((String::from("cow"), Bencode::Int(10)));
    dict.push((String::from("list"), Bencode::Int(0)));
    assert_eq!(
        parser.decode_from_string(string).unwrap(),
        Bencode::Dictionary(dict)
    );
}

#[test]
fn decode_dict_of_lists() {
    let parser = DecodingParser;
    let string = String::from("d3:cowle4:listl4:spam4:eggsee");
    let array1: Vec<Bencode> = vec![];
    let array2: Vec<Bencode> = vec![
        Bencode::String(String::from("spam")),
        Bencode::String(String::from("eggs")),
    ];
    let mut dict: Vec<(String, Bencode)> = vec![];
    dict.push((String::from("cow"), Bencode::List(array1)));
    dict.push((String::from("list"), Bencode::List(array2)));
    assert_eq!(
        parser.decode_from_string(string).unwrap(),
        Bencode::Dictionary(dict)
    );
}

#[test]
fn decode_dict_of_dicts() {
    let parser = DecodingParser;
    let string = String::from("d4:cayod2:la5:nocheee");
    let mut dict1: Vec<(String, Bencode)> = vec![];
    dict1.push((String::from("la"), Bencode::String(String::from("noche"))));
    let mut dict2: Vec<(String, Bencode)> = vec![];
    dict2.push((String::from("cayo"), Bencode::Dictionary(dict1)));
    assert_eq!(
        parser.decode_from_string(string).unwrap(),
        Bencode::Dictionary(dict2)
    );
}

#[test]
fn decode_number_from_u8() {
    let parser = DecodingParser;
    assert_eq!(parser.decode_number("i27e".as_bytes()).unwrap(), 27);
}

#[test]
fn decode_negative_number_u8() {
    let parser = DecodingParser;
    assert_eq!(parser.decode_number("i-3e".as_bytes()).unwrap(), -3);
}

#[test]
fn decode_string_from_u8() {
    let parser = DecodingParser;
    assert_eq!(
        parser
            .decode_string("33:Debian CD from cdimage.debian.org".as_bytes())
            .unwrap(),
        Bencode::String(String::from("Debian CD from cdimage.debian.org"))
    );
}

#[test]
fn split_numbers_list_u8() {
    let parser = DecodingParser;
    let string = String::from("li3ei43ee");
    let mut init = 1;
    assert_eq!(
        parser
            .string_splitter(string.as_bytes(), &mut init)
            .unwrap(),
        [Bencode::Int(3), Bencode::Int(43)]
    );
}

#[test]
fn split_strings_list_u8() {
    let parser = DecodingParser;
    let string = String::from("l3:aaa2:aae");
    let string1 = String::from("aaa");
    let string2 = String::from("aa");
    let mut init = 1;
    assert_eq!(
        parser
            .string_splitter(string.as_bytes(), &mut init)
            .unwrap(),
        [Bencode::String(string1), Bencode::String(string2)]
    );
}

#[test]
fn fail_if_invalid_list_u8() {
    let parser = DecodingParser;
    let string = String::from("l3:aa2:aae");
    let mut init = 1;
    assert_eq!(
        parser
            .string_splitter(string.as_bytes(), &mut init)
            .unwrap_err()
            .message(),
        "Sintaxis invalida"
    );
}

#[test]
fn split_strings_dict_u8() {
    let parser = DecodingParser;
    let string = String::from("d3:aaa2:aae");
    let string1 = String::from("aaa");
    let string2 = String::from("aa");
    let mut init = 1;
    assert_eq!(
        parser
            .string_splitter(string.as_bytes(), &mut init)
            .unwrap(),
        [Bencode::String(string1), Bencode::String(string2)]
    );
}

#[test]
fn fail_if_invalid_dict_u8() {
    let parser = DecodingParser;
    let string = String::from("d3:a2:aae");
    let mut init = 1;
    assert_eq!(
        parser
            .string_splitter(string.as_bytes(), &mut init)
            .unwrap_err()
            .message(),
        "Sintaxis invalida"
    );
}

#[test]
fn split_number_and_strings_list_u8() {
    let parser = DecodingParser;
    let string = String::from("l3:aaai2ee");
    let string1 = String::from("aaa");
    let mut init = 1;
    assert_eq!(
        parser
            .string_splitter(string.as_bytes(), &mut init)
            .unwrap(),
        [Bencode::String(string1), Bencode::Int(2)]
    );
}

#[test]
fn split_list_of_lists_u8() {
    let parser = DecodingParser;
    let string = String::from("l1:ali2e2:aaee");
    let string1 = String::from("aa");
    let string2 = String::from("a");
    let mut array: Vec<Bencode> = vec![];
    array.push(Bencode::Int(2));
    array.push(Bencode::String(string1));
    let mut init = 1;
    assert_eq!(
        parser
            .string_splitter(string.as_bytes(), &mut init)
            .unwrap(),
        [Bencode::String(string2), Bencode::List(array)]
    );
}

#[test]
fn decode_simple_string_u8() {
    let parser = DecodingParser;
    let string = String::from("4:spam");
    let string1 = String::from("spam");
    assert_eq!(
        parser.decode_from_u8(string.as_bytes().to_vec()).unwrap(),
        Bencode::String(string1)
    )
}

#[test]
fn decode_simple_number_u8() {
    let parser = DecodingParser;
    let vec = String::from("i4e").as_bytes().to_vec();
    assert_eq!(parser.decode_from_u8(vec).unwrap(), Bencode::Int(4))
}

#[test]
fn decode_list_from_u8() {
    let parser = DecodingParser;
    let vec = String::from("l3:aaai2ee").as_bytes().to_vec();
    let string1 = String::from("aaa");
    let mut array: Vec<Bencode> = vec![];
    array.push(Bencode::String(string1));
    array.push(Bencode::Int(2));
    assert_eq!(parser.decode_from_u8(vec).unwrap(), Bencode::List(array));
}

#[test]
fn decode_list_of_dicts_u8() {
    let parser = DecodingParser;
    let vec = String::from("ld3:cow3:moo4:spam4:eggsed4:cayo5:nocheee")
        .as_bytes()
        .to_vec();
    let mut dict1 = vec![];
    dict1.push((String::from("cow"), Bencode::String(String::from("moo"))));
    dict1.push((String::from("spam"), Bencode::String(String::from("eggs"))));
    let mut dict2 = vec![];
    dict2.push((String::from("cayo"), Bencode::String(String::from("noche"))));
    let mut array: Vec<Bencode> = vec![];
    array.push(Bencode::Dictionary(dict1));
    array.push(Bencode::Dictionary(dict2));
    assert_eq!(parser.decode_from_u8(vec).unwrap(), Bencode::List(array));
}

#[test]
fn decode_dict_from_u8() {
    let parser = DecodingParser;
    let vec = String::from("d3:cow3:moo4:spam4:eggse").as_bytes().to_vec();
    let mut dict = vec![];
    dict.push((String::from("cow"), Bencode::String(String::from("moo"))));
    dict.push((String::from("spam"), Bencode::String(String::from("eggs"))));
    assert_eq!(
        parser.decode_from_u8(vec).unwrap(),
        Bencode::Dictionary(dict)
    );
}

#[test]
fn decode_dict_of_ints_u8() {
    let parser = DecodingParser;
    let vec = String::from("d3:cowi10e4:listi0ee").as_bytes().to_vec();
    let mut dict = vec![];
    dict.push((String::from("cow"), Bencode::Int(10)));
    dict.push((String::from("list"), Bencode::Int(0)));
    assert_eq!(
        parser.decode_from_u8(vec).unwrap(),
        Bencode::Dictionary(dict)
    );
}

#[test]
fn decode_dict_of_lists_u8() {
    let parser = DecodingParser;
    let vec = String::from("d3:cowle4:listl4:spam4:eggsee")
        .as_bytes()
        .to_vec();
    let array1: Vec<Bencode> = vec![];
    let array2: Vec<Bencode> = vec![
        Bencode::String(String::from("spam")),
        Bencode::String(String::from("eggs")),
    ];
    let mut dict = vec![];
    dict.push((String::from("cow"), Bencode::List(array1)));
    dict.push((String::from("list"), Bencode::List(array2)));
    assert_eq!(
        parser.decode_from_u8(vec).unwrap(),
        Bencode::Dictionary(dict)
    );
}

#[test]
fn decode_dict_of_dicts_u8() {
    let parser = DecodingParser;
    let vec = String::from("d4:cayod2:la5:nocheee").as_bytes().to_vec();
    let mut dict1 = vec![];
    dict1.push((String::from("la"), Bencode::String(String::from("noche"))));
    let mut dict2 = vec![];
    dict2.push((String::from("cayo"), Bencode::Dictionary(dict1)));
    assert_eq!(
        parser.decode_from_u8(vec).unwrap(),
        Bencode::Dictionary(dict2)
    );
}

#[test]
fn round_trip_of_dict_is_byte_exact() {
    let parser = DecodingParser;
    let input = "d3:cow3:moo4:spam4:eggse".as_bytes().to_vec();
    let decoded = parser.decode_from_u8(input.clone()).unwrap();
    let encoded = EncodingParser.encode(decoded);
    assert_eq!(encoded, input);
}

#[test]
fn round_trip_of_nested_value_is_byte_exact() {
    let parser = DecodingParser;
    let input = "d4:infod6:lengthi20e4:name3:abce5:itemsl4:spami-7eee"
        .as_bytes()
        .to_vec();
    let decoded = parser.decode_from_u8(input.clone()).unwrap();
    let encoded = EncodingParser.encode(decoded);
    assert_eq!(encoded, input);
}

#[test]
fn decode_rejects_malformed_input() {
    let parser = DecodingParser;
    assert_eq!(
        parser.decode_from_u8(b"x123".to_vec()).unwrap_err().message(),
        "Sintaxis invalida"
    );
    assert_eq!(
        parser.decode_from_u8(Vec::new()).unwrap_err().message(),
        "Sintaxis invalida"
    );
}
