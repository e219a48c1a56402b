//! Writing a document and reading it again gives back what was written.

use crate::document::{
    document_lines, format_document, parse_document, rendered, renders, run, ObjIndexView,
    ParseState, Section,
};
use crate::error::ParseErrorView;
use crate::record::{
    face_line, lemma_face_line, lemma_vertex_line, vertex_line, FaceIndexView, VertexView,
};
use crate::text::{is_line, lemma_lines_join, lines};
use vstd::prelude::*;

verus! {

/// The lines written for well-formed vertices are read as those vertices, and
/// leave the reader in the vertex section.
pub proof fn lemma_run_vertex_lines(vs: Seq<VertexView>)
    requires
        forall|k: int| 0 <= k < vs.len() ==> (#[trigger] vs[k]).wf(),
    ensures
        run(vs.map_values(|v: VertexView| vertex_line(v))) == Ok::<ParseState, ParseErrorView>(
            ParseState {
                section: Section::Vertices,
                document: ObjIndexView { vertices: vs, faces: Seq::empty() },
            },
        ),
    decreases vs.len(),
{
    let ls = vs.map_values(|v: VertexView| vertex_line(v));
    if vs.len() == 0 {
        assert(vs == Seq::<VertexView>::empty());
    } else {
        let init = vs.drop_last();
        lemma_run_vertex_lines(init);
        assert(ls.drop_last() == init.map_values(|v: VertexView| vertex_line(v)));
        assert(ls.last() == vertex_line(vs.last()));
        lemma_vertex_line(vs.last());
        assert(init.push(vs.last()) == vs);
    }
}

/// The lines written for a well-formed document are read as that document.
pub proof fn lemma_run_document_lines(doc: ObjIndexView)
    requires
        doc.wf(),
    ensures
        run(document_lines(doc)) matches Ok(state) && state.document == doc,
    decreases doc.faces.len(),
{
    let vertex_lines = doc.vertices.map_values(|v: VertexView| vertex_line(v));
    let face_lines = doc.faces.map_values(|f: FaceIndexView| face_line(f));
    if doc.faces.len() == 0 {
        lemma_run_vertex_lines(doc.vertices);
        assert(vertex_lines + face_lines == vertex_lines);
        assert(doc.faces == Seq::<FaceIndexView>::empty());
    } else {
        let init = ObjIndexView { vertices: doc.vertices, faces: doc.faces.drop_last() };
        lemma_run_document_lines(init);
        let ls = document_lines(doc);
        assert(ls.drop_last() == document_lines(init));
        assert(ls.last() == face_line(doc.faces.last()));
        lemma_face_line(doc.faces.last());
        assert(init.faces.push(doc.faces.last()) == doc.faces);
    }
}

/// Every line written for a well-formed document is a line.
pub proof fn lemma_document_lines_are_lines(doc: ObjIndexView)
    requires
        doc.wf(),
    ensures
        forall|k: int| 0 <= k < document_lines(doc).len() ==> is_line(#[trigger] document_lines(doc)[k]),
{
    let ls = document_lines(doc);
    assert forall|k: int| 0 <= k < ls.len() implies is_line(#[trigger] ls[k]) by {
        if k < doc.vertices.len() {
            lemma_vertex_line(doc.vertices[k]);
        } else {
            lemma_face_line(doc.faces[k - doc.vertices.len()]);
        }
    }
}

/// Every record that the reader has accepted is well formed.
pub proof fn lemma_run_wf(ls: Seq<Seq<char>>)
    requires
        run(ls) is Ok,
    ensures
        run(ls)->Ok_0.document.wf(),
    decreases ls.len(),
{
    if ls.len() > 0 {
        lemma_run_wf(ls.drop_last());
    }
}

/// Reading a text, writing the document with numbers that can be written for
/// it and reading what was written gives the faces of the first reading, in
/// the same order, and the numbers as the vertices.
pub proof fn lemma_reparse(text: Seq<char>, numbers: Seq<VertexView>)
    requires
        parse_document(text) is Ok,
        renders(parse_document(text)->Ok_0, numbers),
    ensures
        parse_document(format_document(rendered(parse_document(text)->Ok_0, numbers))) == Ok::<
            ObjIndexView,
            ParseErrorView,
        >(rendered(parse_document(text)->Ok_0, numbers)),
{
    lemma_run_wf(lines(text));
    lemma_parse_format(rendered(parse_document(text)->Ok_0, numbers));
}

/// Reading the text written for a well-formed document gives that document
/// back: the same vertices and the same faces, in the same order.
pub proof fn lemma_parse_format(doc: ObjIndexView)
    requires
        doc.wf(),
    ensures
        parse_document(format_document(doc)) == Ok::<ObjIndexView, ParseErrorView>(doc),
{
    let ls = document_lines(doc);
    lemma_document_lines_are_lines(doc);
    lemma_lines_join(ls, Seq::empty());
    assert(format_document(doc) + Seq::<char>::empty() == format_document(doc));
    assert(ls + lines(Seq::<char>::empty()) == ls);
    lemma_run_document_lines(doc);
}

} // verus!
