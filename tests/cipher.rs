use enuma::cipher::{decode_cipher_bytes, parse_cipher_parameters, unpack_custom_kwik, CipherParameters};
use enuma::decimal::parse_decimal;
use enuma::error::ResolveError;

const CHARSET: &str = "abcdefghijklmnopqrstuvwxyz";

fn encode(bytes: &[u8], charset: &str, offset: u64, radix: u32) -> String {
    let cs: Vec<char> = charset.chars().collect();
    let mut out = String::new();
    for &b in bytes {
        let mut v = b as u64 + offset;
        let mut digits = Vec::new();
        loop {
            digits.push(cs[(v % radix as u64) as usize]);
            v /= radix as u64;
            if v == 0 {
                break;
            }
        }
        for c in digits.iter().rev() {
            out.push(*c);
        }
        out.push(cs[radix as usize]);
    }
    out
}

fn invocation(ciphertext: &str, charset: &str, offset: &str, radix: &str) -> String {
    format!(
        "<script>eval(function(h,u,n,t,e,r){{r=\"\";return decodeURIComponent(escape(r))}}(\"{}\",19,\"{}\",{},{},32))</script>",
        ciphertext, charset, offset, radix
    )
}

fn params(ciphertext: &str, charset: &str, offset: u64, radix: u32) -> CipherParameters {
    CipherParameters { ciphertext: ciphertext.to_string(), charset: charset.to_string(), offset, radix }
}

#[test]
fn round_trip_all_bytes() {
    let bytes: Vec<u8> = (0..=255u8).collect();
    for &(offset, radix) in &[(0u64, 2u32), (9, 5), (17, 7), (1000, 10), (3, 25)] {
        let ct = encode(&bytes, CHARSET, offset, radix);
        let p = params(&ct, CHARSET, offset, radix);
        assert_eq!(decode_cipher_bytes(&p), bytes);
    }
}

#[test]
fn decode_known_segments() {
    // radix 3 over "abcd": separator 'd'; "bc" = 1*3+2 = 5, "ca" = 2*3 = 6.
    let p = params("bcdcad", "abcd", 0, 3);
    assert_eq!(decode_cipher_bytes(&p), vec![5u8, 6u8]);
    // offset 2 takes both down by two.
    let p = params("bcdcad", "abcd", 2, 3);
    assert_eq!(decode_cipher_bytes(&p), vec![3u8, 4u8]);
}

#[test]
fn empty_segments_are_skipped() {
    let p = params("ddbcddd", "abcd", 0, 3);
    assert_eq!(decode_cipher_bytes(&p), vec![5u8]);
}

#[test]
fn out_of_range_values_are_dropped() {
    // "bc" = 5 falls below the offset 6; "ccc" = 26 is kept as 20.
    let p = params("bcdcccd", "abcd", 6, 3);
    assert_eq!(decode_cipher_bytes(&p), vec![20u8]);
    // A value above 255 after the offset is dropped.
    let p = params("bbbbbbd", "abcd", 0, 3);
    assert_eq!(decode_cipher_bytes(&p), Vec::<u8>::new());
}

#[test]
fn foreign_characters_contribute_no_digit() {
    let plain = params("bcd", "abcd", 0, 3);
    let noisy = params("b!c?d", "abcd", 0, 3);
    assert_eq!(decode_cipher_bytes(&noisy), decode_cipher_bytes(&plain));
    assert_eq!(decode_cipher_bytes(&noisy), vec![5u8]);
}

#[test]
fn duplicate_charset_characters_use_first_position() {
    // 'a' appears at 0 and 3; the separator is charset[2] = 'c'.
    let p = params("bac", "abca", 0, 2);
    assert_eq!(decode_cipher_bytes(&p), vec![2u8]);
}

#[test]
fn long_segments_do_not_overflow() {
    let long = "b".repeat(200) + "d";
    let p = params(&long, "abcd", 0, 3);
    assert_eq!(decode_cipher_bytes(&p), Vec::<u8>::new());
}

#[test]
fn parse_parameters_accepts_in_range() {
    let p = parse_cipher_parameters("x".to_string(), "abcd".to_string(), "7", "3").unwrap();
    assert_eq!(p.offset, 7);
    assert_eq!(p.radix, 3);
    assert_eq!(p.ciphertext, "x");
    assert_eq!(p.charset, "abcd");
}

#[test]
fn radix_out_of_range_is_malformed() {
    let r = parse_cipher_parameters("x".to_string(), "abcd".to_string(), "7", "4");
    assert_eq!(r.err(), Some(ResolveError::MalformedCipherParameters));
    let r = parse_cipher_parameters("x".to_string(), "abcd".to_string(), "7", "99999999999");
    assert_eq!(r.err(), Some(ResolveError::MalformedCipherParameters));
}

#[test]
fn offset_not_numeric_is_malformed() {
    let r = parse_cipher_parameters("x".to_string(), "abcd".to_string(), "\u{663}", "2");
    assert_eq!(r.err(), Some(ResolveError::MalformedCipherParameters));
    let r = parse_cipher_parameters("x".to_string(), "abcd".to_string(), "9223372036854775808", "2");
    assert_eq!(r.err(), Some(ResolveError::MalformedCipherParameters));
    let r = parse_cipher_parameters("x".to_string(), "abcd".to_string(), "9223372036854775807", "2");
    assert!(r.is_ok());
}

#[test]
fn parse_decimal_values() {
    assert_eq!(parse_decimal("0", 10), Some(0));
    assert_eq!(parse_decimal("042", 100), Some(42));
    assert_eq!(parse_decimal("101", 100), None);
    assert_eq!(parse_decimal("", 100), None);
    assert_eq!(parse_decimal("1a", 100), None);
    assert_eq!(parse_decimal("+1", 100), None);
    assert_eq!(parse_decimal("18446744073709551615", u64::MAX), Some(u64::MAX));
    assert_eq!(parse_decimal("18446744073709551616", u64::MAX), None);
}

#[test]
fn unpack_absent_invocation() {
    assert_eq!(unpack_custom_kwik("<html><body>plain</body></html>"), Ok(None));
}

#[test]
fn unpack_decodes_invocation() {
    let text = "var url = '/e/abc123';";
    let ct = encode(text.as_bytes(), CHARSET, 11, 6);
    let html = invocation(&ct, CHARSET, "11", "6");
    assert_eq!(unpack_custom_kwik(&html), Ok(Some(text.to_string())));
}

#[test]
fn unpack_is_lossy_on_invalid_utf8() {
    let ct = encode(&[b'a', 0xff, b'b'], CHARSET, 0, 4);
    let html = invocation(&ct, CHARSET, "0", "4");
    assert_eq!(unpack_custom_kwik(&html), Ok(Some("a\u{fffd}b".to_string())));
}

#[test]
fn unpack_reports_malformed_radix() {
    let html = invocation("abc", "abcd", "0", "4");
    assert_eq!(unpack_custom_kwik(&html), Err(ResolveError::MalformedCipherParameters));
}

#[test]
fn joined_numerals_round_trip() {
    let bytes: Vec<u8> = (0..=255u8).collect();
    let mut ct = encode(&bytes, CHARSET, 40, 9);
    ct.pop();
    assert_eq!(decode_cipher_bytes(&params(&ct, CHARSET, 40, 9)), bytes);
}

#[test]
fn foreign_characters_inserted_into_page_change_nothing() {
    let text = "var url = '/e/abc123';";
    let ct = encode(text.as_bytes(), CHARSET, 11, 6);
    let sep = CHARSET.chars().nth(6).unwrap();
    let noisy: String = ct
        .chars()
        .flat_map(|c| if c == sep { vec![c] } else { vec![c, '!', '9'] })
        .collect();
    let html = invocation(&noisy, CHARSET, "11", "6");
    assert_eq!(unpack_custom_kwik(&html), Ok(Some(text.to_string())));
}
