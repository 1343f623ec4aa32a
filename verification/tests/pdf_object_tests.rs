use pdfgrep::models::{ObjectType, PdfObject};
use pdfgrep::read_pdf::content_extractor::{
    check_dictionary, extract_decode_types, extract_filter_dictionary, get_content_object,
    get_dictionary, parse_dictionary, DecodeArrayIssue,
};
use pdfgrep::read_pdf::object_parser::{
    check_valid_obj, get_object, obj_ref_from_captures, CompiledPattern, ObjectError,
};
use pdfgrep::read_pdf::read_pdf_utils::pdf_header_fields;

fn root() -> PdfObject {
    PdfObject::new(1, 0, true, None, ObjectType::Root)
}

#[test]
fn root_object_leads_to_pages() {
    let bytes = b"1 0 obj\n<< /Pages 2 0 R /Type /Catalog >>\nendobj\n";
    let child = get_object(bytes, 0, &root()).unwrap().unwrap();
    assert_eq!(child.obj_ref, 2);
    assert_eq!(child.generation, 0);
    assert!(child.is_ref);
    assert!(child.kids.is_empty());
    assert_eq!(child.object_type, ObjectType::Pages);
}

#[test]
fn object_read_from_an_offset() {
    let bytes = b"%PDF-1.4\n7 3 obj\n<< /Pages 12 5 R /Type /Catalog >>\nendobj\n";
    let child = get_object(bytes, 9, &root()).unwrap().unwrap();
    assert_eq!((child.obj_ref, child.generation, child.is_ref), (12, 5, true));
}

#[test]
fn reference_letter_other_than_r() {
    let bytes = b"1 0 obj\n<< /Pages 2 0 X /Type /Catalog >>\nendobj";
    let child = get_object(bytes, 0, &root()).unwrap().unwrap();
    assert!(!child.is_ref);
}

#[test]
fn reference_that_does_not_match() {
    let bytes = b"1 0 obj\n<< /Pages 2 0 r /Type /Catalog >>\nendobj";
    assert_eq!(get_object(bytes, 0, &root()), Ok(None));
    let bytes = b"1 0 obj\n<< /Pages 99999999999999999999 0 R /Type /Catalog >>\nendobj";
    assert_eq!(get_object(bytes, 0, &root()), Ok(None));
}

#[test]
fn corrupted_object() {
    assert_eq!(get_object(b"1 0 obj << /Pages 2 0 R", 0, &root()), Err(ObjectError::Corrupted));
    assert_eq!(get_object(b"", 0, &root()), Err(ObjectError::Corrupted));
}

#[test]
fn object_without_required_keys() {
    // no /Catalog
    assert_eq!(get_object(b"1 0 obj << /Pages 2 0 R /X >> endobj", 0, &root()), Ok(None));
    // a catalog object is never valid by itself
    let catalog = PdfObject::new(1, 0, true, None, ObjectType::Catalog);
    assert_eq!(get_object(b"1 0 obj << /Pages 2 0 R /Type /Catalog >> endobj", 0, &catalog), Ok(None));
    // a valid page tree has no child of its own
    let pages = PdfObject::new(2, 0, true, None, ObjectType::Pages);
    assert_eq!(get_object(b"2 0 obj << /Type /Pages /Kids [3 0 R] /Count 1 >> endobj", 0, &pages), Ok(None));
}

#[test]
fn captures_make_a_reference() {
    let groups = vec![Some("5 0 R".to_string()), Some("5".to_string()), Some("0".to_string()), Some("R".to_string())];
    assert_eq!(obj_ref_from_captures(&groups), Some((5, 0, true)));
    let groups = vec![Some("5 1 Q".to_string()), Some("5".to_string()), Some("1".to_string()), Some("Q".to_string())];
    assert_eq!(obj_ref_from_captures(&groups), Some((5, 1, false)));
    let groups = vec![Some("x".to_string()), Some("5".to_string())];
    assert_eq!(obj_ref_from_captures(&groups), None);
    let groups = vec![Some("x".to_string()), None, Some("1".to_string()), Some("R".to_string())];
    assert_eq!(obj_ref_from_captures(&groups), None);
    assert!(CompiledPattern::compile("^(\\d+) (\\d+) ([A-Z])$").is_some());
    assert!(CompiledPattern::compile("(unclosed").is_none());
}

#[test]
fn dictionary_between_brackets() {
    assert_eq!(get_dictionary(b"x << /A 1 >> y"), Some(&b" /A 1 "[..]));
    assert_eq!(get_dictionary(b"<<>>"), Some(&b""[..]));
    assert_eq!(get_dictionary(b"<< /A 1"), None);
    assert_eq!(get_dictionary(b"/A 1 >>"), None);
    assert_eq!(check_dictionary(b" /Length 4", b"/Length"), Some(1));
    assert_eq!(check_dictionary(b" /Len 4", b"/Length"), None);
}

#[test]
fn content_object_with_single_filter() {
    let bytes = b"4 0 obj\n<< /Length 44 /Filter /FlateDecode >>\nstream\nxyz\nendstream\nendobj\n";
    let report = get_content_object(bytes, 0);
    assert_eq!(report.dictionary.as_deref(), Some("/Length 44 /Filter /FlateDecode"));
    assert_eq!(report.content_length, Some(44));
    assert_eq!(report.decode_array_issue, None);
    assert_eq!(report.decoded, Some(vec!["FlateDecode".to_string()]));
}

#[test]
fn content_object_with_filter_array() {
    let bytes = b"5 0 obj\n<< /Length 10 /Filter [/ASCII85Decode /LZWDecode] >>\nendobj";
    let report = get_content_object(bytes, 0);
    assert_eq!(report.content_length, Some(10));
    assert_eq!(report.decoded, Some(vec!["ASCII85Decode".to_string(), "LZWDecode".to_string()]));
    assert_eq!(report.decode_array_issue, None);
}

#[test]
fn content_object_with_unclosed_filter_array() {
    let bytes = b"5 0 obj\n<< /Length 10 /Filter [/ASCII85Decode >>\nendobj";
    let report = get_content_object(bytes, 0);
    assert_eq!(report.content_length, Some(10));
    assert_eq!(report.decode_array_issue, Some(DecodeArrayIssue::EndNotFound));
    assert_eq!(report.decoded, None);
}

#[test]
fn content_object_without_numeric_length() {
    let report = get_content_object(b"5 0 obj << /Length x /Filter /A >> endobj", 0);
    assert_eq!(report.dictionary.as_deref(), Some("/Length x /Filter /A"));
    assert_eq!(report.content_length, None);
    assert_eq!(report.decoded, None);
    let report = get_content_object(b"5 0 obj << /Length 3 >> endobj", 0);
    assert_eq!(report.content_length, Some(3));
    assert_eq!(report.decoded, None);
    let report = get_content_object(b"5 0 obj no dictionary endobj", 0);
    assert_eq!(report.dictionary, None);
    let report = get_content_object(b"nothing", 0);
    assert_eq!(report.dictionary, None);
}

#[test]
fn filter_names_and_arrays() {
    let (names, issue) = extract_filter_dictionary(b"/Filter  /DCTDecode /Other", 7);
    assert_eq!(names, Some(vec!["DCTDecode".to_string()]));
    assert_eq!(issue, None);
    let (names, issue) = extract_filter_dictionary(b"/Filter   ", 7);
    assert_eq!(names, None);
    assert_eq!(issue, None);
    let (names, issue) = extract_filter_dictionary(b"/Filter [ /A", 7);
    assert_eq!(names, None);
    assert_eq!(issue, Some(DecodeArrayIssue::EndNotFound));
    let mut dict = vec!["x".to_string()];
    assert_eq!(extract_decode_types(b"no bracket", 0, &mut dict), Some(DecodeArrayIssue::StartNotFound));
    assert_eq!(dict, vec!["x".to_string()]);
    assert_eq!(extract_decode_types(b"[/A  /B]", 0, &mut dict), None);
    assert_eq!(dict, vec!["x".to_string(), "A".to_string(), "".to_string(), "B".to_string()]);
    let report = parse_dictionary(b" /Length 7 /Filter [/A] ");
    assert_eq!(report.content_length, Some(7));
    assert_eq!(report.decoded, Some(vec!["A".to_string()]));
    assert_eq!(report.dictionary, None);
}

#[test]
fn header_fields_of_a_pdf() {
    assert_eq!(pdf_header_fields(b"%PDF-1.4\n%\xe2\xe3"), Some(vec!["%PDF".to_string(), "1.4".to_string()]));
    assert_eq!(pdf_header_fields(b"%PDF-1.7"), Some(vec!["%PDF".to_string(), "1.7".to_string()]));
    assert_eq!(pdf_header_fields(b"no dash\n"), Some(vec!["no dash".to_string()]));
    assert_eq!(pdf_header_fields(b""), None);
    assert_eq!(pdf_header_fields(b"\xff-1\n"), None);
    assert_eq!(pdf_header_fields(b"\n%PDF-1.4"), Some(vec!["".to_string()]));
}

#[test]
fn keys_must_follow_the_first_byte() {
    // "/Catalog" opens the content: it does not count
    assert_eq!(get_object(b"1 0 obj/Catalog /Pages 2 0 R /X endobj", 0, &root()), Ok(None));
    // with one byte before it, it does
    let child = get_object(b"1 0 obj /Catalog /Pages 2 0 R /X endobj", 0, &root()).unwrap().unwrap();
    assert_eq!(child.obj_ref, 2);
}

#[test]
fn page_is_checked_for_contents() {
    assert!(check_valid_obj(b" /Type /Page /Contents 4 0 R ", &ObjectType::Page));
    assert!(!check_valid_obj(b" /Type /Page /Parent 2 0 R ", &ObjectType::Page));
    assert!(!check_valid_obj(b"/Contents 4 0 R", &ObjectType::Page));
    assert!(check_valid_obj(b" /Contents 4 0 R", &ObjectType::Contents));
    assert!(check_valid_obj(b" /Catalog /Pages 2 0 R", &ObjectType::Root));
    assert!(!check_valid_obj(b" /Catalog /Pages 2 0 R", &ObjectType::Catalog));
    assert!(check_valid_obj(b" /Kids [3 0 R] /Count 1", &ObjectType::Pages));
    // a valid page names no child of its own
    let page = PdfObject::new(3, 0, true, None, ObjectType::Page);
    assert_eq!(get_object(b"3 0 obj << /Type /Page /Contents 4 0 R >> endobj", 0, &page), Ok(None));
}
