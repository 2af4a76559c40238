use balancebeam::decimal::{decimal_text, parse_unsigned};
use balancebeam::headers::{collect_fields, declared_length};
use balancebeam::version::Version;

fn list(fields: &[(&str, &str)]) -> Vec<(String, Vec<u8>)> {
    fields.iter().map(|(n, v)| (n.to_string(), v.as_bytes().to_vec())).collect()
}

fn flat(headers: &http::HeaderMap) -> Vec<(String, Vec<u8>)> {
    headers.iter().map(|(n, v)| (n.as_str().to_string(), v.as_bytes().to_vec())).collect()
}

#[test]
fn unsigned_numbers() {
    assert_eq!(parse_unsigned(b"0"), Some(0));
    assert_eq!(parse_unsigned(b"007"), Some(7));
    assert_eq!(parse_unsigned(b"+42"), Some(42));
    assert_eq!(parse_unsigned(b"18446744073709551615"), Some(18446744073709551615));
    assert_eq!(parse_unsigned(b"18446744073709551616"), None);
    assert_eq!(parse_unsigned(b"99999999999999999999"), None);
    for text in ["", "+", "-", "-1", "++1", " 1", "1 ", "1_0", "a"] {
        assert_eq!(parse_unsigned(text.as_bytes()), None);
        assert!(text.parse::<usize>().is_err());
    }
}

#[test]
fn decimal_texts() {
    assert_eq!(decimal_text(0), "0");
    assert_eq!(decimal_text(9), "9");
    assert_eq!(decimal_text(10), "10");
    assert_eq!(decimal_text(1234567890), "1234567890");
    assert_eq!(decimal_text(usize::MAX), usize::MAX.to_string());
}

#[test]
fn decimal_round_trip() {
    for n in [0, 5, 10, 99, 100, 8000, 10000000, usize::MAX - 1, usize::MAX] {
        assert_eq!(parse_unsigned(decimal_text(n).as_bytes()), Some(n));
    }
}

#[test]
fn fields_of_one_name_stand_together() {
    let headers = collect_fields(&list(&[("A", "1"), ("b", "2"), ("a", "3"), ("C", ""), ("a", "4")]));
    let expected = list(&[("a", "1"), ("a", "3"), ("a", "4"), ("b", "2"), ("c", "")]);
    assert_eq!(flat(&headers.unwrap()), expected);
}

#[test]
fn fields_that_cannot_stand_in_a_header() {
    assert!(collect_fields(&list(&[("a", "1"), ("b b", "2")])).is_none());
    assert!(collect_fields(&list(&[("a", "1"), ("b", "2\r\n")])).is_none());
    assert!(collect_fields(&list(&[("\u{e9}", "1")])).is_none());
    assert!(collect_fields(&list(&[("a", "\u{e9}\t")])).is_some());
    assert!(collect_fields(&list(&[("a", "\u{7f}")])).is_none());
    assert!(collect_fields(&list(&[("!#$%&'*+-.^_`|~09azAZ", "1")])).is_some());
    assert!(collect_fields(&list(&[(&"n".repeat(65535), "1")])).is_some());
    assert!(collect_fields(&list(&[(&"n".repeat(65536), "1")])).is_none());
    assert!(collect_fields(&Vec::new()).unwrap().is_empty());
}

#[test]
fn many_fields_fit() {
    let fields: Vec<(String, Vec<u8>)> =
        (0..6554).map(|i| (format!("name-{}", i), b"v".to_vec())).collect();
    assert_eq!(flat(&collect_fields(&fields).unwrap()), fields);
}

#[test]
fn declared_lengths() {
    let length = |fields: &[(&str, &str)]| declared_length(&collect_fields(&list(fields)).unwrap());
    assert_eq!(length(&[]), Ok(None));
    assert_eq!(length(&[("x", "1")]), Ok(None));
    assert_eq!(length(&[("CONTENT-LENGTH", "17")]), Ok(Some(17)));
    assert_eq!(length(&[("content-length", "2"), ("content-length", "3")]), Ok(Some(2)));
    assert_eq!(length(&[("content-length", "")]), Err(()));
    assert_eq!(length(&[("content-length", "\u{e9}")]), Err(()));
}

#[test]
fn version_texts() {
    assert_eq!(Version::Http09.as_str(), format!("{:?}", http::Version::HTTP_09));
    assert_eq!(Version::Http10.as_str(), format!("{:?}", http::Version::HTTP_10));
    assert_eq!(Version::Http11.as_str(), format!("{:?}", http::Version::HTTP_11));
    assert_eq!(Version::H2.as_str(), format!("{:?}", http::Version::HTTP_2));
    assert_eq!(Version::H3.as_str(), format!("{:?}", http::Version::HTTP_3));
}
