use smb::arrived::origin;
use smb::share::Files;
use smb::text::{join, rest_past_last, split_once, to_decimal, to_hex};
use smb::utf16::{decode_lossy, encode};

#[test]
fn numbers_are_spelled_out() {
    assert_eq!(to_decimal(0), "0");
    assert_eq!(to_decimal(907), "907");
    assert_eq!(to_decimal(u64::MAX), "18446744073709551615");
    assert_eq!(to_hex(0x00CC, 4), "00cc");
    assert_eq!(to_hex(0x1_2345, 4), "2345");
    assert_eq!(to_hex(5, 0), "");
}

#[test]
fn text_is_cut_where_it_is_told() {
    assert_eq!(
        split_once("a/b/c", '/'),
        Some(("a".to_string(), "b/c".to_string()))
    );
    assert_eq!(split_once("abc", '/'), None);
    assert_eq!(split_once("/", '/'), Some((String::new(), String::new())));
    assert_eq!(rest_past_last(r"\\host\xmip", '\\'), "xmip");
    assert_eq!(rest_past_last("xmip", '\\'), "xmip");
    assert_eq!(rest_past_last(r"xmip\", '\\'), "");
    assert_eq!(join("ab", "c"), "abc");
    assert_eq!(origin("h:1", "s", "n"), "smb://h:1/s/n");
}

#[test]
fn utf16_reads_back_and_what_cannot_be_read_is_replaced() {
    let text = "aé€𝄞\u{10FFFF}";
    assert_eq!(decode_lossy(&encode(text)), text);
    assert_eq!(encode("𝄞"), [0x34, 0xD8, 0x1E, 0xDD]);
    assert_eq!(encode("A€"), [0x41, 0x00, 0xAC, 0x20]);
    assert_eq!(decode_lossy(&[0x34, 0xD8]), "\u{FFFD}");
    assert_eq!(decode_lossy(&[0x1E, 0xDD, 0x41, 0x00]), "\u{FFFD}A");
    assert_eq!(decode_lossy(&[0x34, 0xD8, 0x41, 0x00]), "\u{FFFD}A");
    assert_eq!(decode_lossy(&[]), "");
}

#[test]
fn files_are_kept_by_name() {
    let mut files = Files::new();
    assert!(files.is_empty());
    files.insert("b".to_string(), vec![1]);
    files.insert("a".to_string(), vec![2]);
    files.insert("b".to_string(), vec![3]);
    assert_eq!(files.len(), 2);
    assert_eq!(files.names(), ["a", "b"]);
    assert!(files.contains("b"));
    assert!(!files.contains("c"));
    assert_eq!(files.get("b"), Some(&vec![3]));
    assert_eq!(files.remove("b"), Some(vec![3]));
    assert_eq!(files.remove("b"), None);
    assert_eq!(files.names(), ["a"]);
}
