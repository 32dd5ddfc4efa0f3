use raybvh::obj::corner_at;
use raybvh::obj::parse_obj;
use raybvh::obj::skips;
use raybvh::obj::ObjData;
use raybvh::ply::LoadError;
use raybvh::ply::Problem;
use raybvh::ply::Vertex;

fn words(line: &str) -> Vec<Vec<u8>> {
    line.split(' ').map(|w| w.as_bytes().to_vec()).collect()
}

fn vertex(line: usize, x: &str, y: &str, z: &str) -> Vertex {
    Vertex {
        line,
        x: x.as_bytes().to_vec(),
        y: y.as_bytes().to_vec(),
        z: z.as_bytes().to_vec(),
    }
}

#[test]
fn obj_lines_that_are_passed_over() {
    assert!(skips(&vec![]));
    assert!(skips(&words("# a comment")));
    assert!(skips(&words("#v 1 2 3")));
    assert!(skips(&words("vt 0.5 0.5")));
    assert!(skips(&words("vn 0 0 1")));
    assert!(!skips(&words("v 1 2 3")));
    assert!(!skips(&words("f 1 2 3")));
    assert!(!skips(&words("vtx 1")));
    assert!(!skips(&words("o name")));
}

#[test]
fn obj_corner_numbers() {
    let line = words("f 1 +22 x -3");
    assert_eq!(corner_at(&line, 1), Some(1));
    assert_eq!(corner_at(&line, 2), Some(22));
    assert_eq!(corner_at(&line, 3), None);
    assert_eq!(corner_at(&line, 4), None);
    assert_eq!(corner_at(&line, 5), None);
    assert_eq!(corner_at(&words("f 1/2/3"), 1), None);
}

#[test]
fn obj_square() {
    let text = "# a square
v 0 0 0
v 1.5 0 0 1.0

vt 0 0
v 1.5 -2e3 0
v  0 1 0
vn 0 0 1
f 1 2 3
f  1 3 4 2
";
    assert_eq!(
        parse_obj(text.as_bytes()),
        Ok(ObjData {
            vertices: vec![
                vertex(2, "0", "0", "0"),
                vertex(3, "1.5", "0", "0"),
                vertex(6, "1.5", "-2e3", "0"),
                vertex(7, "0", "1", "0"),
            ],
            faces: vec![[0, 1, 2], [0, 2, 3]],
        })
    );
}

#[test]
fn obj_of_nothing() {
    assert_eq!(parse_obj(b""), Ok(ObjData { vertices: vec![], faces: vec![] }));
    assert_eq!(
        parse_obj(b"\n# only a comment\n\n"),
        Ok(ObjData { vertices: vec![], faces: vec![] })
    );
}

#[test]
fn obj_drops_what_stands_behind_the_last_line_feed() {
    assert_eq!(
        parse_obj(b"v 1 2 3\nv 4 5 6"),
        Ok(ObjData { vertices: vec![vertex(1, "1", "2", "3")], faces: vec![] })
    );
    assert_eq!(
        parse_obj(b"v 1 2 3\nbroken"),
        Ok(ObjData { vertices: vec![vertex(1, "1", "2", "3")], faces: vec![] })
    );
}

#[test]
fn obj_errors() {
    let fail = |text: &str| parse_obj(text.as_bytes()).unwrap_err();
    assert_eq!(fail("v 1 2\n"), LoadError::Parse(1, Problem::BadVertex));
    assert_eq!(fail("\n\nv\n"), LoadError::Parse(3, Problem::BadVertex));
    assert_eq!(fail("f 1 2\n"), LoadError::Parse(1, Problem::BadFace));
    assert_eq!(fail("f 1 2 x\n"), LoadError::Parse(1, Problem::BadFace));
    assert_eq!(fail("f 1 2 -3\n"), LoadError::Parse(1, Problem::BadFace));
    assert_eq!(
        fail("f 1 2 3\n"),
        LoadError::Parse(1, Problem::BadFaceIndex { count: 0 })
    );
    assert_eq!(
        fail("v 0 0 0\nv 1 0 0\nv 0 1 0\nf 1 2 4\n"),
        LoadError::Parse(4, Problem::BadFaceIndex { count: 3 })
    );
    assert_eq!(
        fail("v 0 0 0\nv 1 0 0\nv 0 1 0\nf 0 1 2\n"),
        LoadError::Parse(4, Problem::BadFaceIndex { count: 3 })
    );
    assert_eq!(
        fail("v 0 0 0\nf 1 1 1\nf 1 2 1\nv 1 1 1\n"),
        LoadError::Parse(3, Problem::BadFaceIndex { count: 1 })
    );
    assert_eq!(fail("o cube\n"), LoadError::Parse(1, Problem::UnexpectedToken));
    assert_eq!(fail("v 1 2 3\nV 1 2 3\n"), LoadError::Parse(2, Problem::UnexpectedToken));
}

#[test]
fn obj_triangle_may_repeat_a_vertex() {
    assert_eq!(
        parse_obj(b"v 0 0 0\nf 1 1 1\n"),
        Ok(ObjData { vertices: vec![vertex(1, "0", "0", "0")], faces: vec![[0, 0, 0]] })
    );
}
