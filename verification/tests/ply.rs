use raybvh::ply::copy_word;
use raybvh::ply::find_coord;
use raybvh::ply::find_corner_list;
use raybvh::ply::line_starts_with;
use raybvh::ply::normalize_type;
use raybvh::ply::parse_corners;
use raybvh::ply::parse_faces;
use raybvh::ply::parse_header;
use raybvh::ply::parse_number;
use raybvh::ply::parse_ply;
use raybvh::ply::parse_vertices;
use raybvh::ply::push_fan;
use raybvh::ply::same_bytes;
use raybvh::ply::scalar_type_of;
use raybvh::ply::word_is;
use raybvh::ply::Element;
use raybvh::ply::LoadError;
use raybvh::ply::PlyData;
use raybvh::ply::Problem;
use raybvh::ply::PropType;
use raybvh::ply::Property;
use raybvh::ply::Reader;
use raybvh::ply::ScalarType;
use raybvh::ply::Vertex;

fn words(line: &str) -> Vec<Vec<u8>> {
    line.split(' ').map(|w| w.as_bytes().to_vec()).collect()
}

fn prop(name: &str, typ: PropType) -> Property {
    Property { name: name.as_bytes().to_vec(), typ }
}

fn float(name: &str) -> Property {
    prop(name, PropType::Scalar(ScalarType::Float32))
}

fn corner_list(name: &str) -> Property {
    prop(name, PropType::List(ScalarType::UInt8, ScalarType::Int32))
}

fn vertex(line: usize, x: &str, y: &str, z: &str) -> Vertex {
    Vertex {
        line,
        x: x.as_bytes().to_vec(),
        y: y.as_bytes().to_vec(),
        z: z.as_bytes().to_vec(),
    }
}

const SQUARE: &str = "ply
format ascii 1.0
comment a square, cut in two
element vertex 4
property float x
property float32 y
comment in between
property float z
element face 1
property list uchar int vertex_indices
end_header
0 0 0
1.5 0 0
1.5 -2e3 0
0 1 0
4 0 1 2 3
";

#[test]
fn reader_splits_lines_into_words() {
    let text = b"  one two\tthree \r\n\nlast  line\n";
    let mut r = Reader::new(text);
    assert_eq!(r.lineno, 0);
    assert!(r.current().is_empty());
    r.next();
    assert_eq!(r.current(), &words("one two three"));
    assert_eq!(r.lineno, 1);
    r.next();
    assert!(r.current().is_empty());
    assert_eq!(r.lineno, 2);
    r.next();
    assert_eq!(r.current(), &words("last line"));
    assert_eq!(r.lineno, 3);
    r.next();
    assert!(r.current().is_empty());
    assert_eq!(r.lineno, 3);
    r.next();
    assert_eq!(r.lineno, 3);
}

#[test]
fn reader_drops_what_stands_behind_the_last_line_feed() {
    let mut r = Reader::new(b"first\nno end");
    r.next();
    assert_eq!(r.current(), &words("first"));
    r.next();
    assert!(r.current().is_empty());
    assert_eq!(r.lineno, 1);
    let mut empty = Reader::new(b"");
    empty.next();
    assert!(empty.current().is_empty());
    assert_eq!(empty.lineno, 0);
}

#[test]
fn reader_takes_form_feed_and_vertical_tab_as_space() {
    let mut r = Reader::new(b"a\x0bb\x0cc\x00d\n");
    r.next();
    assert_eq!(r.current(), &vec![b"a".to_vec(), b"b".to_vec(), b"c\x00d".to_vec()]);
}

#[test]
fn words_compare_by_bytes() {
    assert!(same_bytes(b"abc", b"abc"));
    assert!(!same_bytes(b"abc", b"abd"));
    assert!(!same_bytes(b"abc", b"ab"));
    assert!(same_bytes(b"", b""));
    assert!(word_is(&b"ply".to_vec(), "ply"));
    assert!(!word_is(&b"Ply".to_vec(), "ply"));
    assert!(!word_is(&b"pl".to_vec(), "ply"));
    assert!(line_starts_with(&words("element vertex 3"), "element"));
    assert!(!line_starts_with(&words("elements vertex 3"), "element"));
    assert!(!line_starts_with(&vec![], "element"));
    assert_eq!(copy_word(&b"copy".to_vec()), b"copy".to_vec());
}

#[test]
fn numbers_are_decimal_digits_with_an_optional_plus() {
    let parse = |w: &str, max: u64| parse_number(&w.as_bytes().to_vec(), max);
    assert_eq!(parse("0", 10), Some(0));
    assert_eq!(parse("007", 10), Some(7));
    assert_eq!(parse("+12", 100), Some(12));
    assert_eq!(parse("100", 100), Some(100));
    assert_eq!(parse("101", 100), None);
    assert_eq!(parse("", 100), None);
    assert_eq!(parse("+", 100), None);
    assert_eq!(parse("-1", 100), None);
    assert_eq!(parse("1.0", 100), None);
    assert_eq!(parse("12a", 100), None);
    assert_eq!(parse("++1", 100), None);
    assert_eq!(parse("4294967295", u32::MAX as u64), Some(4294967295));
    assert_eq!(parse("4294967296", u32::MAX as u64), None);
    assert_eq!(parse("18446744073709551615", u64::MAX), Some(u64::MAX));
    assert_eq!(parse("18446744073709551616", u64::MAX), None);
    assert_eq!(parse("99999999999999999999999", u64::MAX), None);
    assert_eq!(parse("3", 2), None);
    assert_eq!(parse("0", 0), Some(0));
}

#[test]
fn number_types_have_two_names_each() {
    let t = |w: &str| scalar_type_of(&w.as_bytes().to_vec());
    assert_eq!(t("char"), Some(ScalarType::Int8));
    assert_eq!(t("int8"), Some(ScalarType::Int8));
    assert_eq!(t("uchar"), Some(ScalarType::UInt8));
    assert_eq!(t("uint8"), Some(ScalarType::UInt8));
    assert_eq!(t("short"), Some(ScalarType::Int16));
    assert_eq!(t("int16"), Some(ScalarType::Int16));
    assert_eq!(t("ushort"), Some(ScalarType::UInt16));
    assert_eq!(t("uint16"), Some(ScalarType::UInt16));
    assert_eq!(t("int"), Some(ScalarType::Int32));
    assert_eq!(t("int32"), Some(ScalarType::Int32));
    assert_eq!(t("uint"), Some(ScalarType::UInt32));
    assert_eq!(t("uint32"), Some(ScalarType::UInt32));
    assert_eq!(t("float"), Some(ScalarType::Float32));
    assert_eq!(t("float32"), Some(ScalarType::Float32));
    assert_eq!(t("double"), Some(ScalarType::Float64));
    assert_eq!(t("float64"), Some(ScalarType::Float64));
    assert_eq!(t("list"), None);
    assert_eq!(t("Float"), None);
    assert_eq!(t(""), None);
}

#[test]
fn property_types() {
    let line = words("property list uchar int vertex_indices");
    assert_eq!(
        normalize_type(&line, 1, 4),
        Some(PropType::List(ScalarType::UInt8, ScalarType::Int32))
    );
    assert_eq!(normalize_type(&line, 2, 3), Some(PropType::Scalar(ScalarType::UInt8)));
    assert_eq!(normalize_type(&line, 1, 3), None);
    assert_eq!(normalize_type(&line, 1, 2), None);
    assert_eq!(normalize_type(&line, 1, 1), None);
    assert_eq!(normalize_type(&line, 2, 5), None);
    assert_eq!(normalize_type(&words("list list int"), 0, 3), None);
    assert_eq!(normalize_type(&words("list int list"), 0, 3), None);
    assert_eq!(normalize_type(&words("int int int"), 0, 3), None);
}

#[test]
fn header_of_a_square() {
    let mut r = Reader::new(SQUARE.as_bytes());
    let header = parse_header(&mut r).unwrap();
    assert_eq!(
        header,
        vec![
            Element {
                name: b"vertex".to_vec(),
                count: 4,
                props: vec![float("x"), float("y"), float("z")],
            },
            Element {
                name: b"face".to_vec(),
                count: 1,
                props: vec![corner_list("vertex_indices")],
            },
        ]
    );
    assert_eq!(r.lineno, 11);
    assert_eq!(r.current(), &words("end_header"));
}

fn header_error(text: &str) -> LoadError {
    let mut r = Reader::new(text.as_bytes());
    parse_header(&mut r).unwrap_err()
}

#[test]
fn header_errors() {
    assert_eq!(header_error(""), LoadError::Parse(0, Problem::ExpectedPly));
    assert_eq!(header_error("plY\n"), LoadError::Parse(1, Problem::ExpectedPly));
    assert_eq!(header_error("ply 1\n"), LoadError::Parse(1, Problem::ExpectedPly));
    assert_eq!(header_error("ply\n"), LoadError::Parse(1, Problem::ExpectedFormat));
    assert_eq!(
        header_error("ply\nformat binary 1.0\n"),
        LoadError::Parse(2, Problem::ExpectedFormat)
    );
    assert_eq!(
        header_error("ply\nformat ascii 1.0\n"),
        LoadError::Parse(2, Problem::ExpectedEndHeader)
    );
    assert_eq!(
        header_error("ply\nformat ascii 1.0\nelement\nend_header\n"),
        LoadError::Parse(3, Problem::MissingElementName)
    );
    assert_eq!(
        header_error("ply\nformat ascii 1.0\nelement vertex\nend_header\n"),
        LoadError::Parse(3, Problem::BadElementCount)
    );
    assert_eq!(
        header_error("ply\nformat ascii 1.0\nelement vertex -3\nend_header\n"),
        LoadError::Parse(3, Problem::BadElementCount)
    );
    assert_eq!(
        header_error("ply\nformat ascii 1.0\nelement vertex 3\nproperty quad x\nend_header\n"),
        LoadError::Parse(4, Problem::InvalidType)
    );
    assert_eq!(
        header_error("ply\nformat ascii 1.0\nelement vertex 3\nproperty\nend_header\n"),
        LoadError::Parse(4, Problem::InvalidType)
    );
    assert_eq!(
        header_error("ply\nformat ascii 1.0\nelement vertex 3\nproperty float\nend_header\n"),
        LoadError::Parse(4, Problem::InvalidType)
    );
    assert_eq!(
        header_error("ply\nformat ascii 1.0\nelement vertex 3\nproperty float x\nend\n"),
        LoadError::Parse(5, Problem::ExpectedEndHeader)
    );
    assert_eq!(
        header_error("ply\nformat ascii 1.0\nproperty float x\nend_header\n"),
        LoadError::Parse(3, Problem::ExpectedEndHeader)
    );
    assert_eq!(
        header_error("ply\nformat ascii 1.0\nend_header now\n"),
        LoadError::Parse(3, Problem::ExpectedEndHeader)
    );
    assert_eq!(
        header_error("ply\nformat ascii 1.0\ncomment the file ends here\n"),
        LoadError::Parse(3, Problem::ExpectedEndHeader)
    );
}

#[test]
fn header_without_elements() {
    let mut r = Reader::new(b"ply\nformat ascii 1.0\ncomment nothing\nend_header\n");
    assert_eq!(parse_header(&mut r), Ok(vec![]));
    assert_eq!(r.lineno, 4);
}

#[test]
fn header_keeps_extra_words_of_an_element_line() {
    let mut r = Reader::new(b"ply\nformat ascii 1.0\nelement edge +12 more\nend_header\n");
    assert_eq!(
        parse_header(&mut r),
        Ok(vec![Element { name: b"edge".to_vec(), count: 12, props: vec![] }])
    );
}

#[test]
fn coordinates_are_found_by_name_and_type() {
    let props = vec![
        float("x"),
        prop("y", PropType::Scalar(ScalarType::Float64)),
        float("z"),
        float("x"),
        float("nx"),
    ];
    assert_eq!(find_coord(&props, "x"), Some(3));
    assert_eq!(find_coord(&props, "y"), None);
    assert_eq!(find_coord(&props, "z"), Some(2));
    assert_eq!(find_coord(&vec![], "x"), None);
}

#[test]
fn corner_list_is_the_first_of_its_kind() {
    let props = vec![
        prop("vertex_indices", PropType::List(ScalarType::UInt8, ScalarType::UInt32)),
        float("vertex_index"),
        corner_list("vertex_index"),
        corner_list("vertex_indices"),
    ];
    assert_eq!(find_corner_list(&props), Some(2));
    assert_eq!(find_corner_list(&props[..2].to_vec()), None);
}

#[test]
fn vertices_are_handed_out_as_words() {
    let mut r = Reader::new(b"1 2.5 -3 9\n4e1 5 6 9\n");
    let props = vec![float("z"), float("x"), float("y"), float("w")];
    assert_eq!(
        parse_vertices(&mut r, 2, &props),
        Ok(vec![vertex(1, "2.5", "-3", "1"), vertex(2, "5", "6", "4e1")])
    );
    assert_eq!(r.lineno, 2);
    let mut none = Reader::new(b"1 2 3\n");
    assert_eq!(parse_vertices(&mut none, 0, &props), Ok(vec![]));
    assert_eq!(none.lineno, 0);
}

#[test]
fn vertex_errors() {
    let xyz = vec![float("x"), float("y"), float("z")];
    let mut r = Reader::new(b"1 2 3\n1 2\n");
    assert_eq!(
        parse_vertices(&mut r, 2, &xyz),
        Err(LoadError::Parse(2, Problem::WrongWidth(3)))
    );
    let mut short = Reader::new(b"1 2 3\n");
    assert_eq!(
        parse_vertices(&mut short, 2, &xyz),
        Err(LoadError::Parse(1, Problem::WrongWidth(3)))
    );
    let mut r = Reader::new(b"1 2 3\n");
    assert_eq!(
        parse_vertices(&mut r, 1, &vec![float("y"), float("z")]),
        Err(LoadError::Parse(0, Problem::NoX))
    );
    assert_eq!(
        parse_vertices(&mut r, 1, &vec![float("x"), float("z")]),
        Err(LoadError::Parse(0, Problem::NoY))
    );
    assert_eq!(
        parse_vertices(&mut r, 1, &vec![float("x"), float("y")]),
        Err(LoadError::Parse(0, Problem::NoZ))
    );
    assert_eq!(
        parse_vertices(&mut r, 1, &vec![]),
        Err(LoadError::Parse(0, Problem::NoX))
    );
}

#[test]
fn corners_must_be_vertices() {
    let line = words("3 0 1 2 7");
    assert_eq!(parse_corners(&line, 1, 4, 3), Ok(vec![0, 1, 2]));
    assert_eq!(parse_corners(&line, 1, 1, 3), Ok(vec![]));
    assert_eq!(
        parse_corners(&line, 1, 5, 3),
        Err(Problem::BadVertexIndex { index: 7, count: 3 })
    );
    assert_eq!(
        parse_corners(&line, 1, 4, 2),
        Err(Problem::BadVertexIndex { index: 2, count: 2 })
    );
    assert_eq!(parse_corners(&words("0 x 9"), 0, 3, 5), Err(Problem::BadInteger));
    assert_eq!(
        parse_corners(&words("0 9 x"), 0, 3, 5),
        Err(Problem::BadVertexIndex { index: 9, count: 5 })
    );
    assert_eq!(parse_corners(&words("4294967296"), 0, 1, usize::MAX), Err(Problem::BadInteger));
}

#[test]
fn a_face_is_cut_into_a_fan() {
    let mut faces = vec![[9, 9, 9]];
    push_fan(&vec![4, 5, 6, 7, 8], &mut faces);
    assert_eq!(faces, vec![[9, 9, 9], [4, 5, 6], [4, 6, 7], [4, 7, 8]]);
    push_fan(&vec![1, 2], &mut faces);
    push_fan(&vec![], &mut faces);
    assert_eq!(faces.len(), 4);
    push_fan(&vec![1, 2, 3], &mut faces);
    assert_eq!(faces[4], [1, 2, 3]);
}

#[test]
fn faces_are_read_and_cut() {
    let props = vec![float("quality"), corner_list("vertex_index")];
    let mut r = Reader::new(b"0.5 3 0 1 2\n1 4 3 2 1 0 ignored\n");
    assert_eq!(
        parse_faces(&mut r, 2, &props, 4),
        Ok(vec![[0, 1, 2], [3, 2, 1], [3, 1, 0]])
    );
    assert_eq!(r.lineno, 2);
}

#[test]
fn face_errors() {
    let props = vec![corner_list("vertex_indices")];
    let fail = |text: &str, size: usize| {
        let mut r = Reader::new(text.as_bytes());
        parse_faces(&mut r, size, &props, 4).unwrap_err()
    };
    assert_eq!(fail("", 1), LoadError::Parse(0, Problem::BadInteger));
    assert_eq!(fail("\n", 1), LoadError::Parse(1, Problem::BadInteger));
    assert_eq!(fail("three 0 1 2\n", 1), LoadError::Parse(1, Problem::BadInteger));
    assert_eq!(fail("2 0 1\n", 1), LoadError::Parse(1, Problem::BadVertexCount));
    assert_eq!(fail("3 0 1\n", 1), LoadError::Parse(1, Problem::BadVertexCount));
    assert_eq!(
        fail("18446744073709551615 0 1 2\n", 1),
        LoadError::Parse(1, Problem::BadVertexCount)
    );
    assert_eq!(fail("3 0 1 2\n3 0 1 x\n", 2), LoadError::Parse(2, Problem::BadInteger));
    assert_eq!(
        fail("3 0 1 4\n", 1),
        LoadError::Parse(1, Problem::BadVertexIndex { index: 4, count: 4 })
    );
    let mut r = Reader::new(b"3 0 1 2\n");
    assert_eq!(
        parse_faces(&mut r, 1, &vec![float("vertex_indices")], 4),
        Err(LoadError::Parse(0, Problem::NoVertexIndices))
    );
}

#[test]
fn whole_file() {
    assert_eq!(
        parse_ply(SQUARE.as_bytes()),
        Ok(PlyData {
            vertices: vec![
                vertex(12, "0", "0", "0"),
                vertex(13, "1.5", "0", "0"),
                vertex(14, "1.5", "-2e3", "0"),
                vertex(15, "0", "1", "0"),
            ],
            faces: vec![[0, 1, 2], [0, 2, 3]],
        })
    );
}

#[test]
fn faces_may_only_name_vertices_read_before_them() {
    let text = "ply
format ascii 1.0
element face 1
property list uint8 int32 vertex_index
element vertex 3
property float x
property float y
property float z
end_header
3 0 1 2
0 0 0
1 0 0
0 1 0
";
    assert_eq!(
        parse_ply(text.as_bytes()),
        Err(LoadError::Parse(10, Problem::BadVertexIndex { index: 0, count: 0 }))
    );
}

#[test]
fn elements_of_other_names_take_no_lines() {
    let text = "ply
format ascii 1.0
element material 2
property uchar red
element vertex 1
property float x
property float y
property float z
end_header
1 2 3
";
    assert_eq!(
        parse_ply(text.as_bytes()),
        Ok(PlyData { vertices: vec![vertex(10, "1", "2", "3")], faces: vec![] })
    );
}

#[test]
fn whole_file_errors() {
    assert_eq!(
        parse_ply(b"not a mesh\n"),
        Err(LoadError::Parse(1, Problem::ExpectedPly))
    );
    let cut = &SQUARE.as_bytes()[..SQUARE.len() - 10];
    assert_eq!(
        parse_ply(cut),
        Err(LoadError::Parse(15, Problem::BadInteger))
    );
    let text = "ply\nformat ascii 1.0\nelement vertex 1\nproperty float x\nend_header\n1\n";
    assert_eq!(
        parse_ply(text.as_bytes()),
        Err(LoadError::Parse(5, Problem::NoY))
    );
}
