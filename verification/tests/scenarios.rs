use load_obj::{reformat_obj, FaceIndex, ObjIndex, ParseError, Rendering, Vertex};

fn single(literal: &str) -> f32 {
    literal.parse().unwrap()
}

fn rendering(v: &Vertex) -> Rendering {
    Rendering {
        x: single(v.x()).to_string(),
        y: single(v.y()).to_string(),
        z: single(v.z()).to_string(),
    }
}

fn numbers(doc: &ObjIndex) -> Vec<Rendering> {
    doc.vertices().iter().map(rendering).collect()
}

fn written(doc: &ObjIndex) -> String {
    reformat_obj(doc, &numbers(doc)).unwrap()
}

fn texts(x: &str, y: &str, z: &str) -> Rendering {
    Rendering {
        x: x.to_string(),
        y: y.to_string(),
        z: z.to_string(),
    }
}

fn same(a: f32, b: f32) -> bool {
    a.to_bits() == b.to_bits() || (a.is_nan() && b.is_nan())
}

#[test]
fn parses_one_vertex_and_one_face() {
    let doc = ObjIndex::from_str("v 1.0 2.0 3.0\nf 1 2 3\n").unwrap();
    assert_eq!(doc.vertices().len(), 1);
    assert_eq!(doc.faces().len(), 1);
    let v = &doc.vertices()[0];
    assert_eq!(single(v.x()), 1.0f32);
    assert_eq!(single(v.y()), 2.0f32);
    assert_eq!(single(v.z()), 3.0f32);
    let f = &doc.faces()[0];
    assert_eq!((f.v1(), f.v2(), f.v3()), (1, 2, 3));
}

#[test]
fn formatted_document_is_canonical_and_reparses_to_the_same_values() {
    let doc = ObjIndex::from_str("v 1.0 2.0 3.0\nf 1 2 3\n").unwrap();
    let text = written(&doc);
    assert_eq!(text, "v 1 2 3\nf 1 2 3\n");
    let again = ObjIndex::from_str(&text).unwrap();
    assert_eq!(again.faces(), doc.faces());
    assert_eq!(again.vertices().len(), 1);
    let v = &again.vertices()[0];
    assert_eq!((v.x(), v.y(), v.z()), ("1", "2", "3"));
    assert_eq!(single(v.x()), 1.0f32);
    assert_eq!(single(v.y()), 2.0f32);
    assert_eq!(single(v.z()), 3.0f32);
    assert_eq!(written(&again), text);
}

#[test]
fn writer_uses_the_numbers_it_is_given() {
    let doc = ObjIndex::from_str("v 1.0 2.0 3.0\nf 1 2 3\n").unwrap();
    assert_eq!(
        reformat_obj(&doc, &vec![texts("1", "2", "3")]),
        Some("v 1 2 3\nf 1 2 3\n".to_string())
    );
    assert_eq!(
        reformat_obj(&doc, &vec![texts("-0.5", "inf", "NaN")]),
        Some("v -0.5 inf NaN\nf 1 2 3\n".to_string())
    );
}

#[test]
fn writer_needs_one_rendering_for_each_vertex() {
    let doc = ObjIndex::from_str("v 1 2 3\nv 4 5 6\nf 1 2 2\n").unwrap();
    assert_eq!(reformat_obj(&doc, &vec![]), None);
    assert_eq!(reformat_obj(&doc, &vec![texts("1", "2", "3")]), None);
    assert_eq!(
        reformat_obj(
            &doc,
            &vec![texts("1", "2", "3"), texts("4", "5", "6"), texts("7", "8", "9")]
        ),
        None
    );
    assert_eq!(
        reformat_obj(&doc, &vec![texts("1", "2", "3"), texts("4", "5", "6")]),
        Some("v 1 2 3\nv 4 5 6\nf 1 2 2\n".to_string())
    );
}

#[test]
fn writer_refuses_texts_that_are_no_coordinates() {
    let doc = ObjIndex::from_str("v 1 2 3\nf 1 2 2\n").unwrap();
    for bad in ["", " ", "x", "1 2", "1\n", "1e40", "1,5", "v", "--1"] {
        assert_eq!(reformat_obj(&doc, &vec![texts(bad, "0", "0")]), None, "{:?}", bad);
        assert_eq!(reformat_obj(&doc, &vec![texts("0", bad, "0")]), None, "{:?}", bad);
        assert_eq!(reformat_obj(&doc, &vec![texts("0", "0", bad)]), None, "{:?}", bad);
        assert_eq!(texts("0", bad, "0").to_string(), None, "{:?}", bad);
    }
}

#[test]
fn vertex_after_face_is_an_order_violation() {
    let r = ObjIndex::from_str("f 1 2 3\nv 1.0 2.0 3.0\n");
    assert_eq!(
        r.err(),
        Some(ParseError::SectionOrderViolation("v 1.0 2.0 3.0".to_string()))
    );
}

#[test]
fn vertex_with_two_coordinates_is_invalid() {
    let r = ObjIndex::from_str("v 1.0 2.0\n");
    assert_eq!(r.err(), Some(ParseError::InvalidVertex("v 1.0 2.0".to_string())));
}

#[test]
fn unknown_marker_is_an_invalid_line() {
    let r = ObjIndex::from_str("x 1 2 3\n");
    assert_eq!(r.err(), Some(ParseError::InvalidLine("x 1 2 3".to_string())));
}

#[test]
fn empty_text_is_an_empty_document() {
    let doc = ObjIndex::from_str("").unwrap();
    assert!(doc.vertices().is_empty());
    assert!(doc.faces().is_empty());
    assert_eq!(reformat_obj(&doc, &vec![]), Some(String::new()));
    assert_eq!(written(&doc), "");
}

#[test]
fn vertex_line_yields_its_coordinates_in_order() {
    let v = Vertex::from_str("v -0.5 +2e3 .25").unwrap();
    assert_eq!((v.x(), v.y(), v.z()), ("-0.5", "+2e3", ".25"));
    assert_eq!(single(v.x()), -0.5f32);
    assert_eq!(single(v.y()), 2000.0f32);
    assert_eq!(single(v.z()), 0.25f32);
    assert_eq!(rendering(&v).to_string(), Some("v -0.5 2000 0.25".to_string()));
}

#[test]
fn vertex_is_written_with_the_shortest_numbers() {
    let v = Vertex::from_str("v 1.5 -2.0 0.0").unwrap();
    assert_eq!(rendering(&v).to_string(), Some("v 1.5 -2 0".to_string()));
    assert_eq!(texts("1.5", "-2", "0").to_string(), Some("v 1.5 -2 0".to_string()));
}

#[test]
fn vertex_line_may_be_spaced_freely() {
    let v = Vertex::from_str("  v\t1   2.5 \u{3000}-3e-2  ").unwrap();
    assert_eq!((v.x(), v.y(), v.z()), ("1", "2.5", "-3e-2"));
    assert_eq!(rendering(&v).to_string(), Some("v 1 2.5 -0.03".to_string()));
}

#[test]
fn vertex_accepts_the_special_values() {
    let v = Vertex::from_str("v inf -Infinity NaN").unwrap();
    assert_eq!((v.x(), v.y(), v.z()), ("inf", "-Infinity", "NaN"));
    assert!(single(v.x()).is_infinite());
    assert!(single(v.z()).is_nan());
    assert_eq!(rendering(&v).to_string(), Some("v inf -inf NaN".to_string()));
}

#[test]
fn vertex_refusals_cite_the_line() {
    for line in [
        "",
        "v",
        "v 1 2",
        "v 1 2 3 4",
        "v 1 2 x",
        "v 1 2 3x",
        "v 1 2 .",
        "v 1 2 1e",
        "v 1 2 e1",
        "v 1 2 +",
        "v 1 2 1.2.3",
        "v 1 2 0x10",
        "v 1 2 1_0",
        "vv 1 2 3",
        "V 1 2 3",
        "f 1 2 3",
        "1 2 3",
    ] {
        assert_eq!(
            Vertex::from_str(line).err(),
            Some(ParseError::InvalidVertex(line.to_string())),
            "{:?}",
            line
        );
    }
}

#[test]
fn face_line_yields_its_indices_in_order() {
    let f = FaceIndex::from_str("f 10 200 3000").unwrap();
    assert_eq!((f.v1(), f.v2(), f.v3()), (10, 200, 3000));
    assert_eq!(f.to_string(), "f 10 200 3000");
}

#[test]
fn face_line_may_be_spaced_freely() {
    let f = FaceIndex::from_str("\tf  007\u{a0}0   42 ").unwrap();
    assert_eq!((f.v1(), f.v2(), f.v3()), (7, 0, 42));
    assert_eq!(f.to_string(), "f 7 0 42");
}

#[test]
fn face_index_may_be_the_largest_index() {
    let line = format!("f {} 0 1", usize::MAX);
    let f = FaceIndex::from_str(&line).unwrap();
    assert_eq!((f.v1(), f.v2(), f.v3()), (usize::MAX, 0, 1));
    assert_eq!(f.to_string(), line);
}

#[test]
fn face_refusals_cite_the_line() {
    let too_large = format!("f 1 2 {}0", usize::MAX);
    let one_more = "f 1 2 18446744073709551616".to_string();
    for line in [
        "",
        "f",
        "f 1 2",
        "f 1 2 3 4",
        "f 1 2 -3",
        "f 1 2 +3",
        "f 1 2 3.0",
        "f 1 2 3e0",
        "f 1 2 x",
        "f 1 2 3x",
        "ff 1 2 3",
        "F 1 2 3",
        "v 1 2 3",
        too_large.as_str(),
        one_more.as_str(),
    ] {
        assert_eq!(
            FaceIndex::from_str(line),
            Err(ParseError::InvalidFace(line.to_string())),
            "{:?}",
            line
        );
    }
}

#[test]
fn face_indices_are_not_held_against_the_vertices() {
    let doc = ObjIndex::from_str("v 0 0 0\nf 7 8 9\n").unwrap();
    assert_eq!(doc.vertices().len(), 1);
    let f = &doc.faces()[0];
    assert_eq!((f.v1(), f.v2(), f.v3()), (7, 8, 9));
}

#[test]
fn empty_lines_are_skipped() {
    let doc = ObjIndex::from_str("\nv 1 2 3\n\n\nf 1 1 1\n\n").unwrap();
    assert_eq!(doc.vertices().len(), 1);
    assert_eq!(doc.faces().len(), 1);
    assert_eq!(written(&doc), "v 1 2 3\nf 1 1 1\n");
}

#[test]
fn lines_of_whitespace_are_invalid() {
    assert_eq!(
        ObjIndex::from_str("v 1 2 3\n   \nf 1 1 1\n").err(),
        Some(ParseError::InvalidLine("   ".to_string()))
    );
    assert_eq!(
        ObjIndex::from_str("\t\n").err(),
        Some(ParseError::InvalidLine("\t".to_string()))
    );
}

#[test]
fn indented_records_are_invalid_lines() {
    assert_eq!(
        ObjIndex::from_str(" v 1 2 3\n").err(),
        Some(ParseError::InvalidLine(" v 1 2 3".to_string()))
    );
}

#[test]
fn carriage_returns_before_line_feeds_are_dropped() {
    let doc = ObjIndex::from_str("v 1 2 3\r\n\r\nf 1 2 3\r\n").unwrap();
    assert_eq!(written(&doc), "v 1 2 3\nf 1 2 3\n");
    assert_eq!(
        ObjIndex::from_str("v 1 2\r\nf 1 2 3\r\n").err(),
        Some(ParseError::InvalidVertex("v 1 2".to_string()))
    );
}

#[test]
fn last_line_needs_no_line_feed() {
    let doc = ObjIndex::from_str("v 1 2 3\nf 3 2 1").unwrap();
    assert_eq!(written(&doc), "v 1 2 3\nf 3 2 1\n");
}

#[test]
fn first_refused_line_decides_the_error() {
    assert_eq!(
        ObjIndex::from_str("v 1 2 3\nv 1 2\nx\nf 1 2 3\nv 1 2 3\n").err(),
        Some(ParseError::InvalidVertex("v 1 2".to_string()))
    );
    assert_eq!(
        ObjIndex::from_str("v 1 2 3\nf 1 2\nv 1 2 3\n").err(),
        Some(ParseError::InvalidFace("f 1 2".to_string()))
    );
    assert_eq!(
        ObjIndex::from_str("# mesh\nf 1 2 3\nv 1 2 3\n").err(),
        Some(ParseError::InvalidLine("# mesh".to_string()))
    );
}

#[test]
fn order_violation_comes_after_any_number_of_valid_lines() {
    let mut text = String::new();
    for i in 0..50 {
        text.push_str(&format!("v {} {} {}\n", i, i + 1, i + 2));
    }
    for i in 0..50 {
        text.push_str(&format!("f {} {} {}\n", i, i + 1, i + 2));
    }
    text.push_str("v 9 9 x\n");
    assert_eq!(
        ObjIndex::from_str(&text).err(),
        Some(ParseError::SectionOrderViolation("v 9 9 x".to_string()))
    );
}

#[test]
fn sections_may_be_empty() {
    let only_vertices = ObjIndex::from_str("v 1 2 3\nv 4 5 6\n").unwrap();
    assert_eq!(only_vertices.vertices().len(), 2);
    assert!(only_vertices.faces().is_empty());
    assert_eq!(written(&only_vertices), "v 1 2 3\nv 4 5 6\n");
    let only_faces = ObjIndex::from_str("f 1 2 3\nf 4 5 6\n").unwrap();
    assert!(only_faces.vertices().is_empty());
    assert_eq!(only_faces.faces().len(), 2);
    assert_eq!(
        reformat_obj(&only_faces, &vec![]),
        Some("f 1 2 3\nf 4 5 6\n".to_string())
    );
}

#[test]
fn records_keep_their_order_and_duplicates() {
    let text = "v 1 1 1\nv 0 0 0\nv 1 1 1\nf 3 2 1\nf 3 2 1\nf 1 2 3\n";
    let doc = ObjIndex::from_str(text).unwrap();
    assert_eq!(written(&doc), text);
    let xs: Vec<&str> = doc.vertices().iter().map(|v| v.x()).collect();
    assert_eq!(xs, vec!["1", "0", "1"]);
    let firsts: Vec<usize> = doc.faces().iter().map(|f| f.v1()).collect();
    assert_eq!(firsts, vec![3, 3, 1]);
}

#[test]
fn round_trip_is_stable() {
    let text = "v  1.50   -2e1 +.5\r\nv inf NAN 0.1\n\nf 001 2   3\nf 4 5 6";
    let first = ObjIndex::from_str(text).unwrap();
    let once = written(&first);
    assert_eq!(once, "v 1.5 -20 0.5\nv inf NaN 0.1\nf 1 2 3\nf 4 5 6\n");
    let second = ObjIndex::from_str(&once).unwrap();
    assert_eq!(second.faces(), first.faces());
    assert_eq!(second.vertices().len(), first.vertices().len());
    for (a, b) in second.vertices().iter().zip(first.vertices()) {
        assert!(same(single(a.x()), single(b.x())));
        assert!(same(single(a.y()), single(b.y())));
        assert!(same(single(a.z()), single(b.z())));
    }
    assert_eq!(written(&second), once);
}

#[test]
fn rounded_coordinates_survive_a_round_trip() {
    let text = "v 16777217 0.30000001192092896 123456789\nv 1e-3 2.50 1e-46\nf 1 2 3\n";
    let first = ObjIndex::from_str(text).unwrap();
    let once = written(&first);
    assert_eq!(
        once,
        "v 16777216 0.3 123456790\nv 0.001 2.5 0\nf 1 2 3\n"
    );
    let second = ObjIndex::from_str(&once).unwrap();
    for (a, b) in second.vertices().iter().zip(first.vertices()) {
        assert!(same(single(a.x()), single(b.x())));
        assert!(same(single(a.y()), single(b.y())));
        assert!(same(single(a.z()), single(b.z())));
    }
    assert_eq!(written(&second), once);
}

#[test]
fn numbers_written_by_the_standard_library_are_coordinates() {
    for x in [
        0.0f32,
        -0.0,
        1.0,
        -1.5,
        0.1,
        1e-45,
        f32::MIN_POSITIVE,
        f32::MAX,
        f32::MIN,
        f32::EPSILON,
        f32::INFINITY,
        f32::NEG_INFINITY,
        f32::NAN,
        16777216.0,
        3.4028235e38,
        1.17549435e-38,
    ] {
        let t = x.to_string();
        let line = format!("v {} {} {}", t, t, t);
        assert_eq!(texts(&t, &t, &t).to_string(), Some(line.clone()));
        let v = Vertex::from_str(&line).unwrap();
        assert_eq!((v.x(), v.y(), v.z()), (t.as_str(), t.as_str(), t.as_str()));
        assert!(same(single(v.x()), x), "{}", line);
    }
}

#[test]
fn every_kind_of_single_precision_number_is_written_and_read_back() {
    let mut bits: u32 = 1;
    for _ in 0..20000 {
        bits = bits.wrapping_mul(1664525).wrapping_add(1013904223);
        let x = f32::from_bits(bits);
        let t = x.to_string();
        let line = texts(&t, "0", "-0").to_string().unwrap();
        assert_eq!(line, format!("v {} 0 -0", t));
        let v = Vertex::from_str(&line).unwrap();
        assert!(same(single(v.x()), x) || x.is_nan(), "{}", line);
    }
}

#[test]
fn error_messages_name_the_line() {
    assert_eq!(
        ParseError::InvalidVertex("v 1".to_string()).to_string(),
        "Invalid vertex: v 1"
    );
    assert_eq!(
        ParseError::InvalidFace("f 1".to_string()).to_string(),
        "Invalid face: f 1"
    );
    assert_eq!(
        ParseError::SectionOrderViolation("v 1 2 3".to_string()).to_string(),
        "Vertex data after face: v 1 2 3"
    );
    assert_eq!(
        ParseError::InvalidLine("g 1".to_string()).to_string(),
        "Invalid data: g 1"
    );
    assert_eq!(ParseError::InvalidLine("g 1".to_string()).line(), "g 1");
}

#[test]
fn coordinate_out_of_range_fails_the_record() {
    for line in [
        "v 1e40 0 0",
        "v 0 -1e40 0",
        "v 0 0 +1e39",
        "v 340282356779733661637539395458142568448 0 0",
        "v 0 3.40282356779733661637539395458142568448e38 0",
        "v 0 0 -0.000340282356779733661637539395458142568448e+42",
        "v 1e999 0 0",
        "v 0 1e99999999999999999999999999999999 0",
        "v 0 0 34028235677973366163753939545814256844800000e-5",
        "v 9999999999999999999999999999999999999999 0 0",
    ] {
        assert_eq!(
            Vertex::from_str(line).err(),
            Some(ParseError::InvalidVertex(line.to_string())),
            "{:?}",
            line
        );
        for word in line.split_whitespace().skip(1) {
            assert!(word.parse::<f32>().is_ok(), "{:?}", word);
        }
        assert!(
            line.split_whitespace()
                .skip(1)
                .any(|w| single(w).is_infinite()),
            "{:?}",
            line
        );
    }
}

#[test]
fn coordinate_out_of_range_fails_the_document() {
    assert_eq!(
        ObjIndex::from_str("v 1 2 3\nv 1e40 0 0\nf 1 2 3\n").err(),
        Some(ParseError::InvalidVertex("v 1e40 0 0".to_string()))
    );
    assert_eq!(
        ObjIndex::from_str("v 0 0 -340282356779733661637539395458142568448\n").err(),
        Some(ParseError::InvalidVertex(
            "v 0 0 -340282356779733661637539395458142568448".to_string()
        ))
    );
}

#[test]
fn largest_coordinates_are_accepted() {
    for line in [
        "v 340282356779733661637539395458142568447 0 0",
        "v -340282356779733661637539395458142568447.999999 0 0",
        "v 3.40282356779733661637539395458142568447e38 1e38 -3.4028235e+38",
        "v 340282346638528859811704183484516925440 0 0",
        "v 0.00000000034028235e48 0 0",
        "v 34028235677973366163753939545814256844799999e-5 0 0",
    ] {
        let v = Vertex::from_str(line).unwrap();
        for t in [v.x(), v.y(), v.z()] {
            assert!(single(t).is_finite(), "{:?}", t);
        }
        assert_eq!(single(v.x()).abs(), f32::MAX, "{:?}", line);
        let rendered = rendering(&v).to_string().unwrap();
        assert!(rendered.contains("340282350000000000000000000000000000000"));
    }
}

#[test]
fn smallest_coordinates_are_accepted_as_zero() {
    let v = Vertex::from_str("v 1e-999 -0.0e999999999999999999999999 0e40").unwrap();
    assert_eq!(single(v.x()), 0.0f32);
    assert_eq!(single(v.y()), 0.0f32);
    assert_eq!(single(v.z()), 0.0f32);
    assert_eq!(rendering(&v).to_string(), Some("v 0 -0 0".to_string()));
    let w = Vertex::from_str("v 1e-99999999999999999999999999 000.000e1 0.0000001e-40").unwrap();
    assert_eq!(single(w.x()), 0.0f32);
    assert_eq!(single(w.z()), 0.0f32);
}
