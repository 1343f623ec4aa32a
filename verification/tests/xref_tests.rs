use pdfgrep::models::ObjectType;
use pdfgrep::read_pdf::xref_utils::{
    locate_obj_by_name, start_xref_scan_offset, ObjMapScanner, ObjMapStep, StartXrefScanner,
    TrailerScanner, TrailerStep,
};

fn io_error() -> std::io::Error {
    std::io::Error::new(std::io::ErrorKind::Other, "read failed")
}

fn scan_start_xref(bytes: &[u8]) -> u64 {
    let mut scanner = StartXrefScanner::new();
    for b in bytes {
        if !scanner.feed(Ok(*b)) {
            break;
        }
    }
    scanner.finish()
}

#[test]
fn scan_offsets() {
    assert_eq!(start_xref_scan_offset(0), None);
    assert_eq!(start_xref_scan_offset(1), Some(0));
    assert_eq!(start_xref_scan_offset(1535), Some(0));
    assert_eq!(start_xref_scan_offset(1536), Some(512));
    assert_eq!(start_xref_scan_offset(10_000), Some(8976));
}

#[test]
fn start_xref_value() {
    assert_eq!(scan_start_xref(b"trailer\n<<>>\nstartxref\n1234\n%%EOF\n"), 1234);
    assert_eq!(scan_start_xref(b"STARTXREF\n 77 \n"), 77);
    assert_eq!(scan_start_xref(b"startxref\n99"), 99);
    assert_eq!(scan_start_xref(b"startxref\nabc\n"), 0);
    assert_eq!(scan_start_xref(b"no marker\n12\n"), 0);
    assert_eq!(scan_start_xref(b"startxref\r\n12\n"), 0);
    assert_eq!(scan_start_xref(b"startxref\n"), 0);
}

#[test]
fn start_xref_stops_after_value_line() {
    let mut s = StartXrefScanner::new();
    let mut fed = Vec::new();
    for b in b"startxref\n42\nmore\n" {
        fed.push(*b);
        if !s.feed(Ok(*b)) {
            break;
        }
    }
    assert_eq!(fed, b"startxref\n42\n".to_vec());
    assert_eq!(s.finish(), 42);
    let mut s = StartXrefScanner::new();
    assert!(s.feed(Err(io_error())));
    assert_eq!(s.finish(), 0);
}

#[test]
fn obj_map_from_table() {
    let table = b"0 3\n0000000000 65535 f\n0000000010 00000 n\n0000000079 00000 n\ntrailer\n";
    let mut scanner = ObjMapScanner::new();
    let mut done_at = None;
    for (i, b) in table.iter().enumerate() {
        assert!(scanner.can_feed(&Ok(*b)));
        match scanner.feed(Ok(*b)) {
            ObjMapStep::Continue => {}
            ObjMapStep::Done => {
                done_at = Some(i);
                break;
            }
            _ => panic!("unexpected failure"),
        }
    }
    assert_eq!(done_at, Some(60));
    let map = scanner.into_map();
    assert_eq!(map.len(), 3);
    assert_eq!(map[&0], 0);
    assert_eq!(map[&1], 10);
    assert_eq!(map[&2], 79);
}

#[test]
fn obj_map_failures() {
    let mut scanner = ObjMapScanner::new();
    for b in b"0 x" {
        assert!(matches!(scanner.feed(Ok(*b)), ObjMapStep::Continue));
    }
    match scanner.feed(Ok(b'\n')) {
        ObjMapStep::BadCount(text) => assert_eq!(text, "x"),
        _ => panic!("expected a bad count"),
    }
    let mut scanner = ObjMapScanner::new();
    for b in b"0 2\nabc 0 n" {
        scanner.feed(Ok(*b));
    }
    match scanner.feed(Ok(b'\n')) {
        ObjMapStep::BadOffset(text) => assert_eq!(text, "abc"),
        _ => panic!("expected a bad offset"),
    }
    let mut scanner = ObjMapScanner::new();
    for b in b"justone" {
        scanner.feed(Ok(*b));
    }
    assert!(!scanner.can_feed(&Ok(b'\n')));
    assert!(scanner.can_feed(&Ok(b'x')));
}

#[test]
fn locate_names() {
    assert_eq!(locate_obj_by_name("<< /Size 6 /Root 1 0 R >>", "root"), "1 0 r");
    assert_eq!(locate_obj_by_name("<< /Root 1 0 R /Info 5 0 R >>", "root"), "1 0 r");
    assert_eq!(locate_obj_by_name("<< /Size 6 >>", "root"), "");
    assert_eq!(locate_obj_by_name("/Root 1 0 R /Root 2 0 R", "root"), "2 0 r");
    assert_eq!(locate_obj_by_name("/RootRoot 3", "root"), "3");
}

fn scan_trailer(bytes: &[u8]) -> Option<TrailerStep> {
    let mut scanner = TrailerScanner::new();
    for b in bytes {
        match scanner.feed(Ok(*b)) {
            TrailerStep::Continue => {}
            other => return Some(other),
        }
    }
    None
}

#[test]
fn trailer_root() {
    match scan_trailer(b"trailer\n<< /Size 3 /Root 1 0 R >>\nstartxref\n") {
        Some(TrailerStep::Found(o)) => {
            assert_eq!((o.obj_ref, o.generation, o.is_ref), (1, 0, true));
            assert_eq!(o.object_type, ObjectType::Root);
            assert!(o.kids.is_empty());
        }
        _ => panic!("expected the root"),
    }
    assert!(matches!(scan_trailer(b"trailer\n<< /Root x y R >>\n"), Some(TrailerStep::NotFound)));
    assert!(matches!(scan_trailer(b"trailer\n<< /Root 1 R >>\n"), Some(TrailerStep::NotFound)));
    // a root line before the trailer is not read
    assert!(scan_trailer(b"<< /Root 1 0 R >>\n").is_none());
    assert!(scan_trailer(b"TRAILER\n/Size 1\n").is_none());
}

#[test]
fn trailer_root_numbers_are_not_negative() {
    assert!(matches!(scan_trailer(b"trailer\n<< /Root -1 0 R >>\n"), Some(TrailerStep::NotFound)));
    assert!(matches!(scan_trailer(b"trailer\n<< /Root 1 -2 R >>\n"), Some(TrailerStep::NotFound)));
    assert!(matches!(scan_trailer(b"trailer\n<< /Root 0 0 R >>\n"), Some(TrailerStep::Found(_))));
}

#[test]
fn trailer_stays_open_across_lines() {
    match scan_trailer(b"xref\ntrailer\n<< /Size 3\n/Info 2 0 R\n/Root 1 0 R >>\n") {
        Some(TrailerStep::Found(o)) => assert_eq!((o.obj_ref, o.generation), (1, 0)),
        _ => panic!("expected the root"),
    }
}
