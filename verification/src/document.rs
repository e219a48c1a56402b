//! Documents: the vertex section and the face section of one text.

use crate::error::{ParseError, ParseErrorView};
use crate::record::{
    face_line, face_of_line, vertex_line, vertex_of_line, FaceIndex, FaceIndexView, Rendering,
    Vertex, VertexView,
};
use crate::roundtrip::lemma_parse_format;
use crate::text::{chars_of, join_lines, lines, split_lines, text_of, views};
use vstd::prelude::*;
use vstd::string::StringExecFns;

verus! {

/// The mathematical value of an [`ObjIndex`]: its vertices and its faces, each
/// in the order of the text.
pub struct ObjIndexView {
    pub vertices: Seq<VertexView>,
    pub faces: Seq<FaceIndexView>,
}

impl ObjIndexView {
    /// Every record of the document is well formed.
    pub open spec fn wf(self) -> bool {
        &&& forall|k: int| 0 <= k < self.vertices.len() ==> (#[trigger] self.vertices[k]).wf()
        &&& forall|k: int| 0 <= k < self.faces.len() ==> (#[trigger] self.faces[k]).wf()
    }
}

/// Where in a text the reader is.
pub enum Section {
    /// No face line was read yet: vertex lines and face lines may follow.
    Vertices,
    /// A face line was read: only face lines may follow.
    Faces,
}

/// What the reader knows after some lines: the section it is in and the
/// records read so far.
pub struct ParseState {
    pub section: Section,
    pub document: ObjIndexView,
}

/// The reader's state before the first line.
pub open spec fn initial_state() -> ParseState {
    ParseState {
        section: Section::Vertices,
        document: ObjIndexView { vertices: Seq::empty(), faces: Seq::empty() },
    }
}

/// One line's effect on the reader.
///
/// A line without characters changes nothing.  Otherwise the first character
/// decides: `v` asks for a vertex, which is an error once the face section
/// has begun; `f` begins the face section and asks for a face; any other
/// character is an error.  So a line of whitespace alone is an error, and so
/// is a record with whitespace before its marker.
pub open spec fn step(state: ParseState, line: Seq<char>) -> Result<ParseState, ParseErrorView> {
    if line.len() == 0 {
        Ok(state)
    } else if line[0] == 'v' {
        if state.section is Faces {
            Err(ParseErrorView::SectionOrderViolation(line))
        } else {
            match vertex_of_line(line) {
                Some(v) => Ok(
                    ParseState {
                        section: state.section,
                        document: ObjIndexView {
                            vertices: state.document.vertices.push(v),
                            faces: state.document.faces,
                        },
                    },
                ),
                None => Err(ParseErrorView::InvalidVertex(line)),
            }
        }
    } else if line[0] == 'f' {
        match face_of_line(line) {
            Some(f) => Ok(
                ParseState {
                    section: Section::Faces,
                    document: ObjIndexView {
                        vertices: state.document.vertices,
                        faces: state.document.faces.push(f),
                    },
                },
            ),
            None => Err(ParseErrorView::InvalidFace(line)),
        }
    } else {
        Err(ParseErrorView::InvalidLine(line))
    }
}

/// The reader's state after all of `ls`, or the error of the first line that
/// it refuses; no line after that one is looked at.
pub open spec fn run(ls: Seq<Seq<char>>) -> Result<ParseState, ParseErrorView>
    decreases ls.len(),
{
    if ls.len() == 0 {
        Ok(initial_state())
    } else {
        match run(ls.drop_last()) {
            Ok(state) => step(state, ls.last()),
            Err(e) => Err(e),
        }
    }
}

/// The document that a text denotes, or the error of its first refused line.
pub open spec fn parse_document(text: Seq<char>) -> Result<ObjIndexView, ParseErrorView> {
    match run(lines(text)) {
        Ok(state) => Ok(state.document),
        Err(e) => Err(e),
    }
}

/// The lines written for a document whose vertices hold the texts to write:
/// one for each vertex, then one for each face, each in the document's order.
pub open spec fn document_lines(doc: ObjIndexView) -> Seq<Seq<char>> {
    doc.vertices.map_values(|v: VertexView| vertex_line(v)) + doc.faces.map_values(
        |f: FaceIndexView| face_line(f),
    )
}

/// The text written for a document: its lines, each ended by a line feed,
/// and nothing else.
pub open spec fn format_document(doc: ObjIndexView) -> Seq<char> {
    join_lines(document_lines(doc))
}

/// The values of a run of vertices.
pub open spec fn vertex_views(vs: Seq<Vertex>) -> Seq<VertexView> {
    vs.map_values(|v: Vertex| v@)
}

/// The texts of a run of renderings.
pub open spec fn rendering_views(rs: Seq<Rendering>) -> Seq<VertexView> {
    rs.map_values(|r: Rendering| r@)
}

/// The values of a run of faces.
pub open spec fn face_views(fs: Seq<FaceIndex>) -> Seq<FaceIndexView> {
    fs.map_values(|f: FaceIndex| f@)
}

/// Once a line is refused, the lines after it change nothing.
pub proof fn lemma_run_stops(ls: Seq<Seq<char>>, n: int)
    requires
        0 <= n <= ls.len(),
        run(ls.take(n)) is Err,
    ensures
        run(ls) == run(ls.take(n)),
    decreases ls.len(),
{
    if n == ls.len() {
        assert(ls.take(n) == ls);
    } else {
        assert(ls.drop_last().take(n) == ls.take(n));
        lemma_run_stops(ls.drop_last(), n);
    }
}

/// Reading one more line is one step from the state after the lines before.
pub proof fn lemma_run_next(ls: Seq<Seq<char>>, n: int)
    requires
        0 <= n < ls.len(),
    ensures
        run(ls.take(n + 1)) == match run(ls.take(n)) {
            Ok(state) => step(state, ls[n]),
            Err(e) => Err(e),
        },
{
    assert(ls.take(n + 1).drop_last() == ls.take(n));
    assert(ls.take(n + 1).last() == ls[n]);
}

/// After an accepted run of lines that holds a face line, the reader is in
/// the face section.
pub proof fn lemma_face_section_begun(ls: Seq<Seq<char>>, m: int)
    requires
        0 <= m < ls.len(),
        ls[m].len() > 0 && ls[m][0] == 'f',
        run(ls) is Ok,
    ensures
        run(ls)->Ok_0.section is Faces,
    decreases ls.len(),
{
    if m < ls.len() - 1 {
        assert(ls.drop_last()[m] == ls[m]);
        lemma_face_section_begun(ls.drop_last(), m);
    }
}

/// A line that is not empty and starts with neither `v` nor `f` makes the
/// whole text fail.  Where the lines before it are accepted, the error is
/// `InvalidLine` with that line.
pub proof fn lemma_unknown_line_fails(text: Seq<char>, n: int)
    requires
        0 <= n < lines(text).len(),
        lines(text)[n].len() > 0,
        lines(text)[n][0] != 'v',
        lines(text)[n][0] != 'f',
    ensures
        parse_document(text) is Err,
        run(lines(text).take(n)) is Ok ==> parse_document(text) == Err::<
            ObjIndexView,
            ParseErrorView,
        >(ParseErrorView::InvalidLine(lines(text)[n])),
{
    let ls = lines(text);
    lemma_run_next(ls, n);
    lemma_run_stops(ls, n + 1);
}

/// A vertex line after a face line makes the whole text fail.  Where the
/// lines before the vertex line are accepted, however many they are, the
/// error is `SectionOrderViolation` with the vertex line.
pub proof fn lemma_vertex_after_face_fails(text: Seq<char>, m: int, n: int)
    requires
        0 <= m < n < lines(text).len(),
        lines(text)[m].len() > 0 && lines(text)[m][0] == 'f',
        lines(text)[n].len() > 0 && lines(text)[n][0] == 'v',
    ensures
        parse_document(text) is Err,
        run(lines(text).take(n)) is Ok ==> parse_document(text) == Err::<
            ObjIndexView,
            ParseErrorView,
        >(ParseErrorView::SectionOrderViolation(lines(text)[n])),
{
    let ls = lines(text);
    if run(ls.take(n)) is Ok {
        assert(ls.take(n)[m] == ls[m]);
        lemma_face_section_begun(ls.take(n), m);
    }
    lemma_run_next(ls, n);
    lemma_run_stops(ls, n + 1);
}

/// In an accepted text every vertex line stands before every face line, and
/// every line that is not empty starts with `v` or `f`.
pub proof fn lemma_accepted_sections(text: Seq<char>)
    requires
        parse_document(text) is Ok,
    ensures
        forall|m: int, n: int|
            0 <= m < n < lines(text).len() && (#[trigger] lines(text)[m]).len() > 0 && lines(
                text,
            )[m][0] == 'f' && (#[trigger] lines(text)[n]).len() > 0 ==> lines(text)[n][0] == 'f',
        forall|n: int|
            0 <= n < lines(text).len() && (#[trigger] lines(text)[n]).len() > 0 ==> lines(text)[n][0]
                == 'v' || lines(text)[n][0] == 'f',
{
    let ls = lines(text);
    assert forall|n: int| 0 <= n < ls.len() && (#[trigger] ls[n]).len() > 0 implies ls[n][0] == 'v'
        || ls[n][0] == 'f' by {
        if ls[n][0] != 'v' && ls[n][0] != 'f' {
            lemma_unknown_line_fails(text, n);
        }
    }
    assert forall|m: int, n: int|
        0 <= m < n < ls.len() && (#[trigger] ls[m]).len() > 0 && ls[m][0] == 'f' && (
        #[trigger] ls[n]).len() > 0 implies ls[n][0] == 'f' by {
        if ls[n][0] == 'v' {
            lemma_vertex_after_face_fails(text, m, n);
        }
    }
}

/// The values of faces are well formed: their indices are machine indices.
pub proof fn lemma_faces_wf(fs: Seq<FaceIndex>)
    ensures
        forall|k: int| 0 <= k < fs.len() ==> (#[trigger] face_views(fs)[k]).wf(),
{
    assert forall|k: int| 0 <= k < fs.len() implies (#[trigger] face_views(fs)[k]).wf() by {
        fs[k].lemma_view_wf();
    }
}

/// A mesh document: vertices and faces in the order of the text they were
/// read from.
#[derive(Debug)]
pub struct ObjIndex {
    vertices: Vec<Vertex>,
    faces: Vec<FaceIndex>,
}

impl View for ObjIndex {
    type V = ObjIndexView;

    closed spec fn view(&self) -> ObjIndexView {
        ObjIndexView { vertices: vertex_views(self.vertices@), faces: face_views(self.faces@) }
    }
}

impl ObjIndex {
    /// Reads a document from a text.
    ///
    /// The result is the document that the text denotes, or the error of the
    /// first line that is refused.  Either all lines are read or no document
    /// is made.
    pub fn from_str(data: &str) -> (r: Result<ObjIndex, ParseError>)
        ensures
            match r {
                Ok(doc) => parse_document(data@) == Ok::<ObjIndexView, ParseErrorView>(doc@),
                Err(e) => parse_document(data@) == Err::<ObjIndexView, ParseErrorView>(e@),
            },
            r matches Ok(doc) ==> doc@.wf(),
    {
        let chars = chars_of(data);
        let ls = split_lines(chars.as_slice());
        let ghost all = views(ls@);
        let mut face_section = false;
        let mut vertices: Vec<Vertex> = Vec::new();
        let mut faces: Vec<FaceIndex> = Vec::new();
        let mut i: usize = 0;
        assert(all.take(0) == Seq::<Seq<char>>::empty());
        assert(vertex_views(vertices@) == Seq::<VertexView>::empty());
        assert(face_views(faces@) == Seq::<FaceIndexView>::empty());
        while i < ls.len()
            invariant
                i <= ls@.len(),
                all == views(ls@),
                all == lines(data@),
                forall|k: int| 0 <= k < vertices@.len() ==> (#[trigger] vertices@[k])@.wf(),
                run(all.take(i as int)) == Ok::<ParseState, ParseErrorView>(
                    ParseState {
                        section: if face_section {
                            Section::Faces
                        } else {
                            Section::Vertices
                        },
                        document: ObjIndexView {
                            vertices: vertex_views(vertices@),
                            faces: face_views(faces@),
                        },
                    },
                ),
            decreases ls@.len() - i,
        {
            let line = ls[i].as_slice();
            proof {
                assert(all[i as int] == line@);
                lemma_run_next(all, i as int);
            }
            if line.len() > 0 {
                let first = line[0];
                if first == 'v' {
                    if face_section {
                        proof {
                            lemma_run_stops(all, i + 1);
                        }
                        return Err(ParseError::SectionOrderViolation(text_of(line)));
                    }
                    match Vertex::parse_line(line) {
                        Some(v) => {
                            assert(vertex_views(vertices@.push(v)) == vertex_views(vertices@).push(
                                v@,
                            ));
                            vertices.push(v);
                        },
                        None => {
                            proof {
                                lemma_run_stops(all, i + 1);
                            }
                            return Err(ParseError::InvalidVertex(text_of(line)));
                        },
                    }
                } else if first == 'f' {
                    match FaceIndex::parse_line(line) {
                        Some(f) => {
                            assert(face_views(faces@.push(f)) == face_views(faces@).push(f@));
                            face_section = true;
                            faces.push(f);
                        },
                        None => {
                            proof {
                                lemma_run_stops(all, i + 1);
                            }
                            return Err(ParseError::InvalidFace(text_of(line)));
                        },
                    }
                } else {
                    proof {
                        lemma_run_stops(all, i + 1);
                    }
                    return Err(ParseError::InvalidLine(text_of(line)));
                }
            }
            i += 1;
        }
        assert(all.take(i as int) == all);
        let doc = ObjIndex { vertices, faces };
        proof {
            lemma_faces_wf(doc.faces@);
            assert forall|k: int| 0 <= k < doc@.vertices.len() implies (
            #[trigger] doc@.vertices[k]).wf() by {
                assert(doc@.vertices[k] == doc.vertices@[k]@);
            }
        }
        Ok(doc)
    }

    /// The vertices, in the order of the text.
    pub fn vertices(&self) -> (r: &Vec<Vertex>)
        ensures
            vertex_views(r@) == self@.vertices,
    {
        &self.vertices
    }

    /// The faces, in the order of the text.
    pub fn faces(&self) -> (r: &Vec<FaceIndex>)
        ensures
            face_views(r@) == self@.faces,
    {
        &self.faces
    }
}

/// The document that is written for `doc` with the numbers `numbers`: its
/// vertices hold the texts of `numbers` and its faces are those of `doc`.
pub open spec fn rendered(doc: ObjIndexView, numbers: Seq<VertexView>) -> ObjIndexView {
    ObjIndexView { vertices: numbers, faces: doc.faces }
}

/// Whether `numbers` can be written for `doc`: there is one entry for each
/// vertex, and every text is a coordinate.
pub open spec fn renders(doc: ObjIndexView, numbers: Seq<VertexView>) -> bool {
    &&& numbers.len() == doc.vertices.len()
    &&& forall|k: int| 0 <= k < numbers.len() ==> (#[trigger] numbers[k]).wf()
}

/// Writes a document as text: every vertex as a line, then every face as a
/// line, each in the document's order and each ended by a line feed, with
/// one space between words and nothing else.
///
/// The numbers of the vertices are written as `numbers` gives them, entry
/// `k` for vertex `k`; a face index is written as its shortest decimal
/// numeral.  The library does not hold machine numbers, so the text that
/// stands for the number a coordinate rounds to comes from the caller.  The
/// text is written exactly when `numbers` has one entry for each vertex and
/// every text in it is a coordinate.
///
/// Reading the text again gives the faces of `obj` and the vertices of
/// `numbers`.
pub fn reformat_obj(obj: &ObjIndex, numbers: &Vec<Rendering>) -> (r: Option<String>)
    ensures
        r is Some <==> renders(obj@, rendering_views(numbers@)),
        r matches Some(text) ==> {
            &&& text@ == format_document(rendered(obj@, rendering_views(numbers@)))
            &&& parse_document(text@) == Ok::<ObjIndexView, ParseErrorView>(
                rendered(obj@, rendering_views(numbers@)),
            )
        },
{
    let mut out = String::new();
    let vertices = obj.vertices();
    let faces = obj.faces();
    let ghost texts = rendering_views(numbers@);
    let ghost doc = rendered(obj@, texts);
    let ghost vertex_lines = texts.map_values(|v: VertexView| vertex_line(v));
    let ghost face_lines = obj@.faces.map_values(|f: FaceIndexView| face_line(f));
    if numbers.len() != vertices.len() {
        return None;
    }
    let mut i: usize = 0;
    assert(vertex_lines.take(0) == Seq::<Seq<char>>::empty());
    while i < numbers.len()
        invariant
            i <= numbers@.len(),
            texts == rendering_views(numbers@),
            vertex_lines == texts.map_values(|v: VertexView| vertex_line(v)),
            out@ == join_lines(vertex_lines.take(i as int)),
            forall|k: int| 0 <= k < i ==> (#[trigger] texts[k]).wf(),
        decreases numbers@.len() - i,
    {
        proof {
            assert(texts[i as int] == numbers@[i as int]@);
        }
        let line = match numbers[i].to_string() {
            Some(line) => line,
            None => {
                return None;
            },
        };
        proof {
            assert(vertex_lines.take(i + 1).drop_last() == vertex_lines.take(i as int));
            assert(vertex_lines.take(i + 1).last() == line@);
        }
        out.append(line.as_str());
        out.push('\n');
        i += 1;
    }
    assert(vertex_lines.take(i as int) == vertex_lines);
    let mut j: usize = 0;
    assert(vertex_lines + face_lines.take(0) == vertex_lines);
    while j < faces.len()
        invariant
            j <= faces@.len(),
            face_views(faces@) == obj@.faces,
            face_lines == obj@.faces.map_values(|f: FaceIndexView| face_line(f)),
            out@ == join_lines(vertex_lines + face_lines.take(j as int)),
        decreases faces@.len() - j,
    {
        let line = faces[j].to_string();
        proof {
            assert((vertex_lines + face_lines.take(j + 1)).drop_last() == vertex_lines
                + face_lines.take(j as int));
            assert(obj@.faces[j as int] == faces@[j as int]@);
            assert((vertex_lines + face_lines.take(j + 1)).last() == line@);
        }
        out.append(line.as_str());
        out.push('\n');
        j += 1;
    }
    assert(face_lines.take(j as int) == face_lines);
    proof {
        lemma_faces_wf(faces@);
        lemma_parse_format(doc);
    }
    Some(out)
}

} // verus!
