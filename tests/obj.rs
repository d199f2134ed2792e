use trigger3d::axis::Axis;
use trigger3d::obj::{face_corners, field_spans, parse_face_index, parse_obj, Face, ObjError};

fn coords(d: &trigger3d::obj::ObjData, i: usize) -> (String, String, String) {
    let v = &d.vertices[i];
    (
        String::from_utf8(v.x.clone()).unwrap(),
        String::from_utf8(v.y.clone()).unwrap(),
        String::from_utf8(v.z.clone()).unwrap(),
    )
}

fn triple(x: &str, y: &str, z: &str) -> (String, String, String) {
    (x.to_string(), y.to_string(), z.to_string())
}

#[test]
fn round_trip_single_triangle() {
    let d = parse_obj(b"v 0 0 0\nv 1 0 0\nv 0 1 0\nf 1 2 3\n").unwrap();
    assert_eq!(d.vertices.len(), 3);
    assert_eq!(d.faces, vec![Face { a: 0, b: 1, c: 2 }]);
    assert_eq!(coords(&d, 0), triple("0", "0", "0"));
    assert_eq!(coords(&d, 1), triple("1", "0", "0"));
    assert_eq!(coords(&d, 2), triple("0", "1", "0"));
    let pts: Vec<(f64, f64, f64)> = (0..3)
        .map(|i| {
            let (x, y, z) = coords(&d, i);
            (x.parse().unwrap(), y.parse().unwrap(), z.parse().unwrap())
        })
        .collect();
    let tris = face_corners(&pts, &d.faces);
    assert_eq!(tris, vec![((0.0, 0.0, 0.0), (1.0, 0.0, 0.0), (0.0, 1.0, 0.0))]);
}

#[test]
fn face_before_any_vertex_is_parse_error() {
    assert_eq!(parse_obj(b"f 1 2 3\n").unwrap_err(), ObjError::ParseError);
}

#[test]
fn empty_text_has_no_records() {
    let d = parse_obj(b"").unwrap();
    assert!(d.vertices.is_empty());
    assert!(d.faces.is_empty());
}

#[test]
fn comments_and_other_lines_are_skipped() {
    let text = b"# a comment\n\no cube\ns off\n  v 9 9 9\nv 1 2 3\n# f 9 9 9\n";
    let d = parse_obj(text).unwrap();
    assert_eq!(d.vertices.len(), 1);
    assert_eq!(coords(&d, 0), triple("1", "2", "3"));
    assert!(d.faces.is_empty());
}

#[test]
fn vertex_with_two_fields_is_parse_error() {
    assert_eq!(parse_obj(b"v 1 2\n").unwrap_err(), ObjError::ParseError);
}

#[test]
fn vertex_with_four_fields_is_parse_error() {
    assert_eq!(parse_obj(b"v 1 2 3 4\n").unwrap_err(), ObjError::ParseError);
}

#[test]
fn face_with_two_indices_is_parse_error() {
    let text = b"v 0 0 0\nv 1 0 0\nv 0 1 0\nf 1 2\n";
    assert_eq!(parse_obj(text).unwrap_err(), ObjError::ParseError);
}

#[test]
fn face_with_four_indices_is_parse_error() {
    let text = b"v 0 0 0\nv 1 0 0\nv 0 1 0\nf 1 2 3 1\n";
    assert_eq!(parse_obj(text).unwrap_err(), ObjError::ParseError);
}

#[test]
fn face_index_zero_is_parse_error() {
    let text = b"v 0 0 0\nv 1 0 0\nv 0 1 0\nf 0 1 2\n";
    assert_eq!(parse_obj(text).unwrap_err(), ObjError::ParseError);
}

#[test]
fn forward_reference_is_parse_error() {
    let text = b"v 0 0 0\nv 1 0 0\nf 1 2 3\nv 0 1 0\n";
    assert_eq!(parse_obj(text).unwrap_err(), ObjError::ParseError);
}

#[test]
fn face_with_slash_indices_is_parse_error() {
    let text = b"v 0 0 0\nv 1 0 0\nv 0 1 0\nf 1/1 2/2 3/3\n";
    assert_eq!(parse_obj(text).unwrap_err(), ObjError::ParseError);
}

#[test]
fn error_after_a_good_prefix_discards_everything() {
    let text = b"v 0 0 0\nv 1 0 0\nv 0 1 0\nf 1 2 3\nf 1 2 4\n";
    assert_eq!(parse_obj(text).unwrap_err(), ObjError::ParseError);
}

#[test]
fn carriage_returns_and_tabs_separate_fields() {
    let text = b"v\t1.5  -2\t3e1\r\nv 4 5 6\r\nv 7 8 9\r\nf 3\t2 1\r\n";
    let d = parse_obj(text).unwrap();
    assert_eq!(coords(&d, 0), triple("1.5", "-2", "3e1"));
    assert_eq!(d.faces, vec![Face { a: 2, b: 1, c: 0 }]);
}

#[test]
fn last_line_needs_no_line_feed() {
    let d = parse_obj(b"v 0 0 0\nv 1 0 0\nv 0 1 0\nf 3 1 2").unwrap();
    assert_eq!(d.faces, vec![Face { a: 2, b: 0, c: 1 }]);
}

#[test]
fn any_tag_that_starts_with_v_is_a_vertex() {
    let d = parse_obj(b"vn 0 0 1\nv 1 1 1\nf 2 1 2\n").unwrap();
    assert_eq!(d.vertices.len(), 2);
    assert_eq!(coords(&d, 0), triple("0", "0", "1"));
    assert_eq!(d.faces, vec![Face { a: 1, b: 0, c: 1 }]);
}

#[test]
fn index_with_plus_sign_is_read() {
    assert_eq!(parse_face_index(b"+2", 0, 2, 3), Some(1));
    assert_eq!(parse_face_index(b"++2", 0, 3, 3), None);
    assert_eq!(parse_face_index(b"+", 0, 1, 3), None);
    assert_eq!(parse_face_index(b"-1", 0, 2, 3), None);
}

#[test]
fn index_bounds() {
    assert_eq!(parse_face_index(b"1", 0, 1, 1), Some(0));
    assert_eq!(parse_face_index(b"3", 0, 1, 3), Some(2));
    assert_eq!(parse_face_index(b"4", 0, 1, 3), None);
    assert_eq!(parse_face_index(b"0", 0, 1, 3), None);
    assert_eq!(parse_face_index(b"007", 0, 3, 10), Some(6));
    assert_eq!(parse_face_index(b"x12y", 1, 3, 20), Some(11));
    assert_eq!(parse_face_index(b"123", 0, 3, 123), Some(122));
    assert_eq!(parse_face_index(b"124", 0, 3, 123), None);
}

#[test]
fn index_larger_than_any_machine_word() {
    let big = b"99999999999999999999999999";
    assert_eq!(parse_face_index(big, 0, big.len(), usize::MAX), None);
    let max = usize::MAX.to_string();
    let m = max.as_bytes();
    assert_eq!(parse_face_index(m, 0, m.len(), usize::MAX), Some(usize::MAX - 1));
}

#[test]
fn fields_split_on_white_space() {
    let s = b"  v  1 22\t333 ";
    let spans = field_spans(s, 0, s.len());
    assert_eq!(spans, vec![(2, 3), (5, 6), (7, 9), (10, 13)]);
    assert!(field_spans(s, 0, 0).is_empty());
    assert!(field_spans(b"   ", 0, 3).is_empty());
    assert_eq!(field_spans(s, 3, 8), vec![(5, 6), (7, 8)]);
}

#[test]
fn face_corners_copy_by_value() {
    let pts = vec![10u32, 20, 30, 40];
    let faces = vec![Face { a: 3, b: 0, c: 0 }, Face { a: 1, b: 2, c: 3 }];
    assert_eq!(face_corners(&pts, &faces), vec![(40, 10, 10), (20, 30, 40)]);
    assert!(face_corners(&pts, &Vec::new()).is_empty());
}

#[test]
fn axis_positions() {
    assert_eq!(Axis::X.index(), 0);
    assert_eq!(Axis::Y.index(), 1);
    assert_eq!(Axis::Z.index(), 2);
}
