//! Why a line was refused.

use vstd::prelude::*;
use vstd::string::StringExecFns;

verus! {

/// The reason a parse stopped, with the text of the offending line.
#[derive(Debug, PartialEq, Eq)]
pub enum ParseError {
    /// The line claims to be a vertex but is not `v` and three coordinates
    /// within single-precision range.
    InvalidVertex(String),
    /// The line claims to be a face but is not `f` and three indices.
    InvalidFace(String),
    /// A vertex line stands after the face section has begun.
    SectionOrderViolation(String),
    /// The line starts with neither `v` nor `f`.
    InvalidLine(String),
}

/// The mathematical value of a [`ParseError`].
pub enum ParseErrorView {
    InvalidVertex(Seq<char>),
    InvalidFace(Seq<char>),
    SectionOrderViolation(Seq<char>),
    InvalidLine(Seq<char>),
}

impl View for ParseError {
    type V = ParseErrorView;

    open spec fn view(&self) -> ParseErrorView {
        match self {
            ParseError::InvalidVertex(line) => ParseErrorView::InvalidVertex(line@),
            ParseError::InvalidFace(line) => ParseErrorView::InvalidFace(line@),
            ParseError::SectionOrderViolation(line) => ParseErrorView::SectionOrderViolation(line@),
            ParseError::InvalidLine(line) => ParseErrorView::InvalidLine(line@),
        }
    }
}

impl ParseErrorView {
    /// The line that was refused.
    pub open spec fn line(self) -> Seq<char> {
        match self {
            ParseErrorView::InvalidVertex(line) => line,
            ParseErrorView::InvalidFace(line) => line,
            ParseErrorView::SectionOrderViolation(line) => line,
            ParseErrorView::InvalidLine(line) => line,
        }
    }

    /// The words that introduce the line in the error's message.
    pub open spec fn label(self) -> Seq<char> {
        match self {
            ParseErrorView::InvalidVertex(_) => "Invalid vertex: "@,
            ParseErrorView::InvalidFace(_) => "Invalid face: "@,
            ParseErrorView::SectionOrderViolation(_) => "Vertex data after face: "@,
            ParseErrorView::InvalidLine(_) => "Invalid data: "@,
        }
    }

    /// The error's message: its label followed by the line.
    pub open spec fn message(self) -> Seq<char> {
        self.label() + self.line()
    }
}

impl ParseError {
    /// The line that was refused.
    pub fn line(&self) -> (r: &str)
        ensures
            r@ == self@.line(),
    {
        match self {
            ParseError::InvalidVertex(line) => line.as_str(),
            ParseError::InvalidFace(line) => line.as_str(),
            ParseError::SectionOrderViolation(line) => line.as_str(),
            ParseError::InvalidLine(line) => line.as_str(),
        }
    }

    /// The error as a message for a person.
    pub fn to_string(&self) -> (r: String)
        ensures
            r@ == self@.message(),
    {
        let mut out = match self {
            ParseError::InvalidVertex(_) => "Invalid vertex: ".to_owned(),
            ParseError::InvalidFace(_) => "Invalid face: ".to_owned(),
            ParseError::SectionOrderViolation(_) => "Vertex data after face: ".to_owned(),
            ParseError::InvalidLine(_) => "Invalid data: ".to_owned(),
        };
        out.append(self.line());
        out
    }
}

} // verus!
