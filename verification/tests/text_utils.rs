use bitmice::text::{contains_str, is_numeric_name, parse_hex_u32, parse_i32, replace_lt, starts_with_str, str_eq};
use bitmice::utils::{dec_bytes_u32, encode_xml, generate_captcha, language_code, language_id, language_info, language_list, str_to_bytes};

#[test]
fn string_predicates() {
    assert!(str_eq("salut", "salut"));
    assert!(!str_eq("salut", "salu"));
    assert!(starts_with_str("bootcamp17", "bootcamp"));
    assert!(!starts_with_str("boot", "bootcamp"));
    assert!(contains_str("racing-music-hall", "music"));
    assert!(!contains_str("racing", "music"));
}

#[test]
fn numeric_parsing() {
    assert_eq!(parse_i32("42"), Some(42));
    assert_eq!(parse_i32("-1"), Some(-1));
    assert_eq!(parse_i32("+7"), Some(7));
    assert_eq!(parse_i32("2147483647"), Some(i32::MAX));
    assert_eq!(parse_i32("-2147483648"), Some(i32::MIN));
    assert_eq!(parse_i32("2147483648"), None);
    assert_eq!(parse_i32(""), None);
    assert_eq!(parse_i32("12a"), None);
    assert!(is_numeric_name("  42  "));
    assert!(!is_numeric_name("4 2"));
    assert_eq!(parse_hex_u32("95d9d6"), Some(0x95d9d6));
    assert_eq!(parse_hex_u32("FF"), Some(255));
    assert_eq!(parse_hex_u32("g1"), None);
    assert_eq!(parse_hex_u32("100000000"), None);
}

#[test]
fn markup_escaping() {
    assert_eq!(replace_lt("a<b<c"), "a&lt;b&lt;c");
    assert_eq!(replace_lt("plain"), "plain");
}

#[test]
fn language_tables() {
    assert_eq!(language_code("deutsch"), "de");
    assert_eq!(language_code("español"), "es");
    assert_eq!(language_code("martian"), "en");
    assert_eq!(language_id("en"), 1);
    assert_eq!(language_info("es"), ("Español", "es"));
    assert_eq!(language_info("zz"), ("English", "gb"));
    assert_eq!(language_list().len(), 15);
    assert_eq!(language_list()[0], "af");
}

#[test]
fn byte_conversions() {
    assert_eq!(str_to_bytes("AB0"), vec![65, 66, 48]);
    assert_eq!(dec_bytes_u32(0), vec![48]);
    assert_eq!(dec_bytes_u32(1234), vec![49, 50, 51, 52]);
}

#[test]
fn captcha_codes_are_alphanumeric() {
    let code = generate_captcha(5);
    assert_eq!(code.chars().count(), 5);
    for c in code.chars() {
        assert!(c.is_ascii_uppercase() || c.is_ascii_digit());
    }
}

#[test]
fn xml_compression_round_trips() {
    let xml = "<C><P /><Z><S /><D /><O /></Z></C>";
    let z = encode_xml(String::from(xml));
    assert_ne!(z.as_slice(), xml.as_bytes());
    let mut decoder = flate2::read::ZlibDecoder::new(z.as_slice());
    let mut out = String::new();
    std::io::Read::read_to_string(&mut decoder, &mut out).unwrap();
    assert_eq!(out, xml);
}

#[test]
fn bytes_decode_as_code_points() {
    let s = bitmice::utils::bytes_to_string(&[72, 105, 0xE9]);
    let chars: Vec<char> = s.chars().collect();
    assert_eq!(chars, vec!['H', 'i', 'é']);
}
