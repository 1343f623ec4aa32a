use pdfgrep::models::{ObjectType, PdfObject};
use pdfgrep::utils::{
    convert_byte_str, convert_bytes_str, extract_obj_content, flatten_objs, get_pos_by_markers,
    get_ref_bytes, is_new_ln,
};

fn io_error() -> std::io::Error {
    std::io::Error::new(std::io::ErrorKind::Other, "read failed")
}

#[test]
fn pos_by_markers_finds_first_occurrence() {
    assert_eq!(get_pos_by_markers(b"abcabc", b"bc"), Some(1));
    assert_eq!(get_pos_by_markers(b"abcabc", b"ca"), Some(2));
    assert_eq!(get_pos_by_markers(b"abcabc", b"abc"), Some(0));
    assert_eq!(get_pos_by_markers(b"abcabc", b"x"), None);
    assert_eq!(get_pos_by_markers(b"ab", b"abc"), None);
    assert_eq!(get_pos_by_markers(b"", b"a"), None);
    assert_eq!(get_pos_by_markers(b"aaa", b"aa"), Some(0));
}

#[test]
fn obj_content_between_obj_and_endobj() {
    let bytes = b"1 0 obj\n<< /Type /Catalog >>\nendobj\n";
    assert_eq!(extract_obj_content(bytes), Some(&b"\n<< /Type /Catalog >>\n"[..]));
    assert_eq!(extract_obj_content(b"1 0 obj no end"), None);
    assert_eq!(extract_obj_content(b"no start at all"), None);
    // the first "obj" can be the tail of "endobj"
    assert_eq!(extract_obj_content(b"endobj x endobj"), Some(&b" x "[..]));
    assert_eq!(extract_obj_content(b"objendobj"), Some(&b""[..]));
}

#[test]
fn flatten_replaces_newlines_and_brackets() {
    assert_eq!(flatten_objs(b"<<a\nb>>"), b"  a b  ".to_vec());
    assert_eq!(flatten_objs(b""), Vec::<u8>::new());
    assert_eq!(flatten_objs(b"/Type [1 2]"), b"/Type [1 2]".to_vec());
    let once = flatten_objs(b"<x>\n<y>");
    assert_eq!(flatten_objs(&once), once);
}

#[test]
fn ref_bytes_after_key() {
    let bytes = b"/Pages \n 2 0 R /Type";
    let mut out = Vec::new();
    get_ref_bytes(bytes, 6, &mut out);
    assert_eq!(out, b"2 0 R ".to_vec());

    let mut out = vec![b'x'];
    get_ref_bytes(b"/Count 3", 6, &mut out);
    assert_eq!(out, b"x3".to_vec());

    let mut out = Vec::new();
    get_ref_bytes(b"/A /B", 2, &mut out);
    assert_eq!(out, Vec::<u8>::new());

    let mut out = Vec::new();
    get_ref_bytes(b"abc", 10, &mut out);
    assert_eq!(out, Vec::<u8>::new());

    let mut out = Vec::new();
    get_ref_bytes(b"a   ", 1, &mut out);
    assert_eq!(out, Vec::<u8>::new());
}

#[test]
fn bytes_to_trimmed_text() {
    assert_eq!(convert_bytes_str(b"  12 0 R \n"), "12 0 R");
    assert_eq!(convert_bytes_str(b""), "");
    assert_eq!(convert_bytes_str(b"\t\n "), "");
    // ill-formed UTF-8 is replaced, not dropped
    assert_eq!(convert_bytes_str(&[b'a', 0xff, b'b']), "a\u{fffd}b");
    assert_eq!(convert_bytes_str("\u{a0}é\u{3000}".as_bytes()), "é");
}

#[test]
fn one_byte_to_text() {
    assert_eq!(convert_byte_str(Ok(b'\n')), "\n");
    assert_eq!(convert_byte_str(Ok(b'\r')), "\r");
    assert_eq!(convert_byte_str(Ok(b'\t')), "\t");
    assert_eq!(convert_byte_str(Ok(b' ')), " ");
    assert_eq!(convert_byte_str(Ok(b'A')), "A");
    assert_eq!(convert_byte_str(Ok(0x0b)), "");
    assert_eq!(convert_byte_str(Ok(0x0c)), "");
    assert_eq!(convert_byte_str(Ok(0x1f)), "\u{1f}");
    assert_eq!(convert_byte_str(Ok(0x7f)), "\u{7f}");
    assert_eq!(convert_byte_str(Ok(0x80)), "");
    assert_eq!(convert_byte_str(Ok(0xff)), "");
    assert_eq!(convert_byte_str(Err(io_error())), "");
}

#[test]
fn one_byte_text_agrees_with_utf8_and_trim() {
    for b in 0u8..=255 {
        let expected = match b {
            b'\n' | b'\r' | b'\t' | b' ' => (b as char).to_string(),
            _ => std::str::from_utf8(&[b]).unwrap_or("").trim().to_string(),
        };
        assert_eq!(convert_byte_str(Ok(b)), expected, "byte {}", b);
    }
}

#[test]
fn new_line_detection() {
    assert!(is_new_ln(&Ok(b'\n')));
    assert!(!is_new_ln(&Ok(b'\r')));
    assert!(!is_new_ln(&Err(io_error())));
}

#[test]
fn pdf_object_new_defaults_kids() {
    let o = PdfObject::new(3, 1, true, None, ObjectType::Root);
    assert_eq!(o.obj_ref, 3);
    assert_eq!(o.generation, 1);
    assert!(o.is_ref);
    assert!(o.kids.is_empty());
    assert_eq!(o.object_type, ObjectType::Root);

    let o = PdfObject::new(-1, 0, false, Some(vec![4, 5]), ObjectType::Pages);
    assert_eq!(o.kids, vec![4, 5]);
    assert_eq!(o.object_type, ObjectType::Pages);
    assert!(!o.is_ref);
}

#[test]
fn ref_bytes_hold_no_slash_and_start_unblank() {
    let bytes = b"/Key \n\n  abc def/ghi";
    for pos in 0..bytes.len() + 2 {
        let mut out = Vec::new();
        get_ref_bytes(bytes, pos, &mut out);
        assert!(!out.contains(&b'/'));
        if let Some(first) = out.first() {
            assert!(*first != b' ' && *first != b'\n');
        }
    }
}
