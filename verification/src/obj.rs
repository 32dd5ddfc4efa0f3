//! Reading meshes in the OBJ format.
//!
//! Of a file's lines only two kinds count: a `v` line gives a vertex by
//! three coordinates, and an `f` line gives a triangle by the numbers of
//! three vertices, counted from one, that stand before it in the file.
//! Empty lines, lines that start with `#` and the `vt` and `vn` lines are
//! passed over. Bytes behind the last line feed belong to no line.

use vstd::prelude::*;

use crate::ply::copy_word;
use crate::ply::file_lines;
use crate::ply::is_word;
use crate::ply::parse_number;
use crate::ply::parse_unsigned;
use crate::ply::vertices_view;
use crate::ply::word_is;
use crate::ply::words_of;
use crate::ply::LoadError;
use crate::ply::Problem;
use crate::ply::Reader;
use crate::ply::Vertex;
use crate::ply::VertexView;

verus! {

/// The sign that starts a comment.
pub const HASH: u8 = 35;

/// What a file holds: the vertices, as the words of their coordinates,
/// and the triangles, as the indices of their corners among the vertices,
/// counted from zero.
#[derive(Debug, Clone, PartialEq, Eq)]
pub struct ObjData {
    pub vertices: Vec<Vertex>,
    pub faces: Vec<[usize; 3]>,
}

/// The corners of the triangles of `v`.
pub open spec fn triangles_view(v: Seq<[usize; 3]>) -> Seq<Seq<usize>> {
    v.map_values(|f: [usize; 3]| f@)
}

/// The line is passed over: it is empty, a comment, or one of the kinds
/// that are not read.
pub open spec fn is_skipped(line: Seq<Seq<u8>>) -> bool {
    line.len() == 0 || (line[0].len() > 0 && line[0][0] == HASH) || is_word(line[0], "vt")
        || is_word(line[0], "vn")
}

/// The number of the vertex that the word at `i` of an `f` line names.
pub open spec fn corner_number(line: Seq<Seq<u8>>, i: int) -> Option<int> {
    if i < line.len() {
        parse_unsigned(line[i], usize::MAX as int)
    } else {
        None
    }
}

/// What the line behind `at` lines adds to the vertices and the
/// triangles read so far, or why it cannot be read. Lines are counted from
/// one in an error.
pub open spec fn obj_line(
    line: Seq<Seq<u8>>,
    at: int,
    vertices: Seq<VertexView>,
    faces: Seq<Seq<usize>>,
) -> Result<(Seq<VertexView>, Seq<Seq<usize>>), LoadError> {
    let number = (at + 1) as usize;
    if is_skipped(line) {
        Ok((vertices, faces))
    } else if is_word(line[0], "v") {
        if line.len() < 4 {
            Err(LoadError::Parse(number, Problem::BadVertex))
        } else {
            Ok(
                (
                    vertices.push(
                        VertexView { line: number, x: line[1], y: line[2], z: line[3] },
                    ),
                    faces,
                ),
            )
        }
    } else if is_word(line[0], "f") {
        match (corner_number(line, 1), corner_number(line, 2), corner_number(line, 3)) {
            (Some(i), Some(j), Some(k)) => {
                if 1 <= i <= vertices.len() && 1 <= j <= vertices.len() && 1 <= k
                    <= vertices.len() {
                    Ok(
                        (
                            vertices,
                            faces.push(seq![(i - 1) as usize, (j - 1) as usize, (k - 1) as usize]),
                        ),
                    )
                } else {
                    Err(
                        LoadError::Parse(
                            number,
                            Problem::BadFaceIndex { count: vertices.len() as usize },
                        ),
                    )
                }
            },
            _ => Err(LoadError::Parse(number, Problem::BadFace)),
        }
    } else {
        Err(LoadError::Parse(number, Problem::UnexpectedToken))
    }
}

/// What the lines from `at` on add to the vertices and the triangles
/// read so far. The first line that cannot be read decides the error.
pub open spec fn obj_rest(
    lines: Seq<Seq<Seq<u8>>>,
    at: int,
    vertices: Seq<VertexView>,
    faces: Seq<Seq<usize>>,
) -> Result<(Seq<VertexView>, Seq<Seq<usize>>), LoadError>
    decreases lines.len() - at,
{
    if at < 0 || at >= lines.len() {
        Ok((vertices, faces))
    } else {
        match obj_line(lines[at], at, vertices, faces) {
            Err(e) => Err(e),
            Ok((v, f)) => obj_rest(lines, at + 1, v, f),
        }
    }
}

/// The mesh that the file `buf` holds.
pub open spec fn spec_parse_obj(buf: Seq<u8>) -> Result<
    (Seq<VertexView>, Seq<Seq<usize>>),
    LoadError,
> {
    obj_rest(file_lines(buf), 0, Seq::empty(), Seq::empty())
}

/// Whether the line is passed over.
pub fn skips(line: &Vec<Vec<u8>>) -> (r: bool)
    ensures
        r == is_skipped(words_of(line@)),
{
    if line.len() == 0 {
        return true;
    }
    let first = &line[0];
    (first.len() > 0 && first[0] == HASH) || word_is(first, "vt") || word_is(first, "vn")
}

/// The number of the vertex that the word at `i` of `line` names.
pub fn corner_at(line: &Vec<Vec<u8>>, i: usize) -> (r: Option<usize>)
    ensures
        match r {
            Some(n) => corner_number(words_of(line@), i as int) == Some(n as int),
            None => corner_number(words_of(line@), i as int) is None,
        },
{
    if i < line.len() {
        match parse_number(&line[i], usize::MAX as u64) {
            Some(n) => Some(n as usize),
            None => None,
        }
    } else {
        None
    }
}

/// Reads a mesh from the bytes of an OBJ file.
pub fn parse_obj(buffer: &[u8]) -> (r: Result<ObjData, LoadError>)
    ensures
        match r {
            Ok(d) => spec_parse_obj(buffer@) == Ok::<(Seq<VertexView>, Seq<Seq<usize>>), LoadError>(
                (vertices_view(d.vertices@), triangles_view(d.faces@)),
            ),
            Err(e) => spec_parse_obj(buffer@) == Err::<(Seq<VertexView>, Seq<Seq<usize>>), LoadError>(
                e,
            ),
        },
{
    let mut reader = Reader::new(buffer);
    let ghost lines = file_lines(buffer@);
    let mut vertices: Vec<Vertex> = Vec::new();
    let mut faces: Vec<[usize; 3]> = Vec::new();
    proof {
        assert(vertices_view(vertices@) =~= Seq::<VertexView>::empty());
        assert(triangles_view(faces@) =~= Seq::<Seq<usize>>::empty());
    }
    loop
        invariant
            reader.wf(),
            reader.buffer == buffer,
            lines == file_lines(buffer@),
            spec_parse_obj(buffer@) == obj_rest(
                lines,
                reader.lineno as int,
                vertices_view(vertices@),
                triangles_view(faces@),
            ),
        decreases lines.len() - reader.lineno,
    {
        let before = reader.lineno;
        reader.next();
        if reader.lineno == before {
            return Ok(ObjData { vertices, faces });
        }
        let number = reader.lineno;
        let ghost line = words_of(reader.current@);
        let ghost seen = vertices_view(vertices@);
        let ghost cut = triangles_view(faces@);
        if skips(&reader.current) {
        } else if word_is(&reader.current[0], "v") {
            if reader.current.len() < 4 {
                return Err(LoadError::Parse(number, Problem::BadVertex));
            }
            let v = Vertex {
                line: number,
                x: copy_word(&reader.current[1]),
                y: copy_word(&reader.current[2]),
                z: copy_word(&reader.current[3]),
            };
            vertices.push(v);
            proof {
                assert(vertices_view(vertices@) =~= seen.push(v@));
            }
        } else if word_is(&reader.current[0], "f") {
            let i = corner_at(&reader.current, 1);
            let j = corner_at(&reader.current, 2);
            let k = corner_at(&reader.current, 3);
            match (i, j, k) {
                (Some(i), Some(j), Some(k)) => {
                    let n = vertices.len();
                    if 1 <= i && i <= n && 1 <= j && j <= n && 1 <= k && k <= n {
                        let face: [usize; 3] = [i - 1, j - 1, k - 1];
                        faces.push(face);
                        proof {
                            assert(face@ =~= seq![(i - 1) as usize, (j - 1) as usize, (k - 1) as usize]);
                            assert(triangles_view(faces@) =~= cut.push(face@));
                        }
                    } else {
                        return Err(LoadError::Parse(number, Problem::BadFaceIndex { count: n }));
                    }
                },
                _ => {
                    return Err(LoadError::Parse(number, Problem::BadFace));
                },
            }
        } else {
            return Err(LoadError::Parse(number, Problem::UnexpectedToken));
        }
    }
}

} // verus!
