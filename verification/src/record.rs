//! Records: one vertex or one face, read from or written as a line.

use crate::error::ParseError;
use crate::error::ParseErrorView;
use crate::number::{
    decimal_text, index_of_word, lemma_decimal_is_word, lemma_decimal_text,
    lemma_float_literal_is_word, parse_index, push_decimal,
};
use crate::range::{is_coordinate, is_coordinate_word};
use crate::text::{
    chars_of, is_line, is_word, lemma_split_spaced, lemma_spaced_is_line, spaced,
    split_whitespace, split_words, text_of, views,
};
use vstd::prelude::*;
use vstd::string::StringExecFns;

verus! {

/// The mathematical value of a [`Vertex`] and of a [`Rendering`]: three
/// coordinates as text.
pub struct VertexView {
    pub x: Seq<char>,
    pub y: Seq<char>,
    pub z: Seq<char>,
}

/// The mathematical value of a [`FaceIndex`]: three positions in a vertex
/// sequence, counted from one.
pub struct FaceIndexView {
    pub v1: nat,
    pub v2: nat,
    pub v3: nat,
}

impl VertexView {
    /// Every coordinate is a coordinate literal within single-precision
    /// range.
    pub open spec fn wf(self) -> bool {
        is_coordinate(self.x) && is_coordinate(self.y) && is_coordinate(self.z)
    }
}

impl FaceIndexView {
    /// Every index fits the machine's index type.
    pub open spec fn wf(self) -> bool {
        self.v1 <= usize::MAX && self.v2 <= usize::MAX && self.v3 <= usize::MAX
    }
}

/// The vertex that a line denotes: the line's words are `v` and exactly three
/// coordinates, which are the vertex's coordinates in order.  A word that is
/// no coordinate literal, or one whose value is out of single-precision range,
/// makes the line denote nothing.
pub open spec fn vertex_of_line(line: Seq<char>) -> Option<VertexView> {
    let words = split_whitespace(line);
    if words.len() == 4 && words[0] == seq!['v'] && is_coordinate(words[1]) && is_coordinate(
        words[2],
    ) && is_coordinate(words[3]) {
        Some(VertexView { x: words[1], y: words[2], z: words[3] })
    } else {
        None
    }
}

/// The face that a line denotes: the line's words are `f` and exactly three
/// indices, in order.
pub open spec fn face_of_line(line: Seq<char>) -> Option<FaceIndexView> {
    let words = split_whitespace(line);
    if words.len() == 4 && words[0] == seq!['f'] && index_of_word(words[1]) is Some
        && index_of_word(words[2]) is Some && index_of_word(words[3]) is Some {
        Some(
            FaceIndexView {
                v1: index_of_word(words[1])->0 as nat,
                v2: index_of_word(words[2])->0 as nat,
                v3: index_of_word(words[3])->0 as nat,
            },
        )
    } else {
        None
    }
}

/// The words written for a vertex: `v` and the coordinates.
pub open spec fn vertex_words(v: VertexView) -> Seq<Seq<char>> {
    seq![seq!['v'], v.x, v.y, v.z]
}

/// The words written for a face: `f` and the indices in decimal.
pub open spec fn face_words(f: FaceIndexView) -> Seq<Seq<char>> {
    seq![seq!['f'], decimal_text(f.v1), decimal_text(f.v2), decimal_text(f.v3)]
}

/// The line written for a vertex with the coordinates of `v`: its words, one
/// space apart.
pub open spec fn vertex_line(v: VertexView) -> Seq<char> {
    spaced(vertex_words(v))
}

/// The line written for a face: its words, one space apart.
pub open spec fn face_line(f: FaceIndexView) -> Seq<char> {
    spaced(face_words(f))
}

/// A line whose words are `v` and three coordinates denotes the vertex with
/// exactly those coordinates, in order, however the words are spaced.
pub proof fn lemma_vertex_of_words(line: Seq<char>, a: Seq<char>, b: Seq<char>, c: Seq<char>)
    requires
        split_whitespace(line) == seq![seq!['v'], a, b, c],
        is_coordinate(a),
        is_coordinate(b),
        is_coordinate(c),
    ensures
        vertex_of_line(line) == Some(VertexView { x: a, y: b, z: c }),
{
}

/// A line whose words are `f` and three indices denotes the face with
/// exactly those indices, in order, however the words are spaced.
pub proof fn lemma_face_of_words(line: Seq<char>, a: Seq<char>, b: Seq<char>, c: Seq<char>)
    requires
        split_whitespace(line) == seq![seq!['f'], a, b, c],
        index_of_word(a) is Some,
        index_of_word(b) is Some,
        index_of_word(c) is Some,
    ensures
        face_of_line(line) == Some(
            FaceIndexView {
                v1: index_of_word(a)->0 as nat,
                v2: index_of_word(b)->0 as nat,
                v3: index_of_word(c)->0 as nat,
            },
        ),
{
}

/// The line written for a well-formed vertex is a line that starts with `v`
/// and denotes that vertex.
pub proof fn lemma_vertex_line(v: VertexView)
    requires
        v.wf(),
    ensures
        vertex_of_line(vertex_line(v)) == Some(v),
        is_line(vertex_line(v)),
        vertex_line(v).len() > 0,
        vertex_line(v)[0] == 'v',
{
    let words = vertex_words(v);
    lemma_float_literal_is_word(v.x);
    lemma_float_literal_is_word(v.y);
    lemma_float_literal_is_word(v.z);
    assert(is_word(seq!['v']));
    lemma_split_spaced(words);
    lemma_spaced_is_line(words);
}

/// The line written for a well-formed face is a line that starts with `f`
/// and denotes that face.
pub proof fn lemma_face_line(f: FaceIndexView)
    requires
        f.wf(),
    ensures
        face_of_line(face_line(f)) == Some(f),
        is_line(face_line(f)),
        face_line(f).len() > 0,
        face_line(f)[0] == 'f',
{
    let words = face_words(f);
    lemma_decimal_text(f.v1);
    lemma_decimal_text(f.v2);
    lemma_decimal_text(f.v3);
    lemma_decimal_is_word(decimal_text(f.v1));
    lemma_decimal_is_word(decimal_text(f.v2));
    lemma_decimal_is_word(decimal_text(f.v3));
    assert(is_word(seq!['f']));
    lemma_split_spaced(words);
    lemma_spaced_is_line(words);
}

/// A point in space, as read.  Each coordinate is kept as the literal that
/// was read, which is always a coordinate literal within single-precision
/// range.  Rounding a literal to a machine number is left to the caller, and
/// so is the text that is written for the number: see [`Rendering`].
#[derive(Debug)]
pub struct Vertex {
    x: String,
    y: String,
    z: String,
}

/// A triangular face: three positions in the document's vertex sequence,
/// counted from one.  The positions are not held against the number of
/// vertices.
#[derive(Debug, Clone, Copy, PartialEq, Eq)]
pub struct FaceIndex {
    v1: usize,
    v2: usize,
    v3: usize,
}

/// The three numbers of one vertex as the texts to write for them.
///
/// The library holds no machine numbers, so it cannot tell which text stands
/// for the number that a literal rounds to (`1` for `1.0`, `-20` for `-2e1`).
/// The caller, who can, hands the texts in; the library holds them to the
/// coordinate rule and lays out the line.
#[derive(Debug)]
pub struct Rendering {
    pub x: String,
    pub y: String,
    pub z: String,
}

impl View for Rendering {
    type V = VertexView;

    open spec fn view(&self) -> VertexView {
        VertexView { x: self.x@, y: self.y@, z: self.z@ }
    }
}

impl View for Vertex {
    type V = VertexView;

    closed spec fn view(&self) -> VertexView {
        VertexView { x: self.x@, y: self.y@, z: self.z@ }
    }
}

impl View for FaceIndex {
    type V = FaceIndexView;

    closed spec fn view(&self) -> FaceIndexView {
        FaceIndexView { v1: self.v1 as nat, v2: self.v2 as nat, v3: self.v3 as nat }
    }
}

/// Whether `word` is the one-letter word `marker`.
fn is_marker(word: &[char], marker: char) -> (r: bool)
    ensures
        r == (word@ == seq![marker]),
{
    let r = word.len() == 1 && word[0] == marker;
    assert(r == (word@ =~= seq![marker]));
    r
}

impl Vertex {
    #[verifier::type_invariant]
    spec fn inv(self) -> bool {
        self@.wf()
    }

    /// Reads a vertex from the characters of one line.
    pub fn parse_line(line: &[char]) -> (r: Option<Vertex>)
        ensures
            match r {
                Some(v) => vertex_of_line(line@) == Some(v@),
                None => vertex_of_line(line@) is None,
            },
    {
        let words = split_words(line);
        if words.len() != 4 {
            return None;
        }
        proof {
            let w = views(words@);
            assert(w[0] == words@[0]@ && w[1] == words@[1]@ && w[2] == words@[2]@ && w[3]
                == words@[3]@);
        }
        if !is_marker(words[0].as_slice(), 'v') {
            return None;
        }
        if !(is_coordinate_word(words[1].as_slice()) && is_coordinate_word(words[2].as_slice())
            && is_coordinate_word(words[3].as_slice())) {
            return None;
        }
        let x = text_of(words[1].as_slice());
        let y = text_of(words[2].as_slice());
        let z = text_of(words[3].as_slice());
        Some(Vertex { x, y, z })
    }

    /// Reads a vertex from one line of text.
    ///
    /// The line is accepted exactly when it denotes a vertex; a refusal hands
    /// the line back in [`ParseError::InvalidVertex`].
    pub fn from_str(s: &str) -> (r: Result<Vertex, ParseError>)
        ensures
            match r {
                Ok(v) => vertex_of_line(s@) == Some(v@),
                Err(e) => vertex_of_line(s@) is None && e@ == ParseErrorView::InvalidVertex(s@),
            },
    {
        let chars = chars_of(s);
        match Vertex::parse_line(chars.as_slice()) {
            Some(v) => Ok(v),
            None => Err(ParseError::InvalidVertex(s.to_owned())),
        }
    }

    /// The first coordinate, as it was read.
    pub fn x(&self) -> (r: &str)
        ensures
            r@ == self@.x,
            is_coordinate(r@),
    {
        proof {
            use_type_invariant(self);
        }
        self.x.as_str()
    }

    /// The second coordinate, as it was read.
    pub fn y(&self) -> (r: &str)
        ensures
            r@ == self@.y,
            is_coordinate(r@),
    {
        proof {
            use_type_invariant(self);
        }
        self.y.as_str()
    }

    /// The third coordinate, as it was read.
    pub fn z(&self) -> (r: &str)
        ensures
            r@ == self@.z,
            is_coordinate(r@),
    {
        proof {
            use_type_invariant(self);
        }
        self.z.as_str()
    }
}

impl Rendering {
    /// Writes the vertex line for these numbers, without a line ending.
    ///
    /// A line is written exactly when each text is a coordinate, so that the
    /// line reads back as a vertex with these coordinates.
    pub fn to_string(&self) -> (r: Option<String>)
        ensures
            r is Some <==> self@.wf(),
            r matches Some(line) ==> line@ == vertex_line(self@),
    {
        let x = chars_of(self.x.as_str());
        let y = chars_of(self.y.as_str());
        let z = chars_of(self.z.as_str());
        if !(is_coordinate_word(x.as_slice()) && is_coordinate_word(y.as_slice())
            && is_coordinate_word(z.as_slice())) {
            return None;
        }
        let mut out = String::new();
        out.push('v');
        out.push(' ');
        out.append(self.x.as_str());
        out.push(' ');
        out.append(self.y.as_str());
        out.push(' ');
        out.append(self.z.as_str());
        proof {
            reveal_with_fuel(spaced, 4);
            assert(out@ =~= vertex_line(self@));
        }
        Some(out)
    }
}

impl FaceIndex {
    /// Reads a face from the characters of one line.
    pub fn parse_line(line: &[char]) -> (r: Option<FaceIndex>)
        ensures
            match r {
                Some(f) => face_of_line(line@) == Some(f@),
                None => face_of_line(line@) is None,
            },
    {
        let words = split_words(line);
        if words.len() != 4 {
            return None;
        }
        proof {
            let w = views(words@);
            assert(w[0] == words@[0]@ && w[1] == words@[1]@ && w[2] == words@[2]@ && w[3]
                == words@[3]@);
        }
        if !is_marker(words[0].as_slice(), 'f') {
            return None;
        }
        let v1 = match parse_index(words[1].as_slice()) {
            Some(i) => i,
            None => {
                return None;
            },
        };
        let v2 = match parse_index(words[2].as_slice()) {
            Some(i) => i,
            None => {
                return None;
            },
        };
        let v3 = match parse_index(words[3].as_slice()) {
            Some(i) => i,
            None => {
                return None;
            },
        };
        Some(FaceIndex { v1, v2, v3 })
    }

    /// Reads a face from one line of text.
    ///
    /// The line is accepted exactly when it denotes a face; a refusal hands
    /// the line back in [`ParseError::InvalidFace`].
    pub fn from_str(s: &str) -> (r: Result<FaceIndex, ParseError>)
        ensures
            match r {
                Ok(f) => face_of_line(s@) == Some(f@),
                Err(e) => face_of_line(s@) is None && e@ == ParseErrorView::InvalidFace(s@),
            },
    {
        let chars = chars_of(s);
        match FaceIndex::parse_line(chars.as_slice()) {
            Some(f) => Ok(f),
            None => Err(ParseError::InvalidFace(s.to_owned())),
        }
    }

    /// Writes the face as a line, without a line ending.
    pub fn to_string(&self) -> (r: String)
        ensures
            r@ == face_line(self@),
    {
        let mut out = String::new();
        out.push('f');
        out.push(' ');
        push_decimal(&mut out, self.v1);
        out.push(' ');
        push_decimal(&mut out, self.v2);
        out.push(' ');
        push_decimal(&mut out, self.v3);
        proof {
            reveal_with_fuel(spaced, 4);
            assert(out@ =~= face_line(self@));
        }
        out
    }

    /// The first index.
    pub fn v1(&self) -> (r: usize)
        ensures
            r == self@.v1,
    {
        self.v1
    }

    /// The second index.
    pub fn v2(&self) -> (r: usize)
        ensures
            r == self@.v2,
    {
        self.v2
    }

    /// The third index.
    pub fn v3(&self) -> (r: usize)
        ensures
            r == self@.v3,
    {
        self.v3
    }

    /// The value of any face is well formed: its indices are machine indices.
    pub proof fn lemma_view_wf(self)
        ensures
            self@.wf(),
    {
    }
}

} // verus!
