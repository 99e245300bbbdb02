//! The errors of the pipeline, one kind for each layer that can raise one.

use vstd::prelude::*;

verus! {

/// What went wrong, by the layer that found it, with a message for the reader.
#[derive(Debug)]
pub enum FlameError {
    /// Raised while splitting source text into tokens.
    LexError(String),
    /// Raised while parsing tokens.
    ParseError(String),
    /// Raised while inferring types.
    TypeError(String),
    /// A value lies outside its bounds, or a stage failed its bound check.
    BoundError(String),
    /// Raised while generating code.
    CodegenError(String),
}

/// An error as contracts see it: the kind, and the message as a sequence of characters.
pub enum FlameErrorView {
    LexError(Seq<char>),
    ParseError(Seq<char>),
    TypeError(Seq<char>),
    BoundError(Seq<char>),
    CodegenError(Seq<char>),
}

impl FlameErrorView {
    /// The message that the error carries.
    pub open spec fn message(self) -> Seq<char> {
        match self {
            FlameErrorView::LexError(m) => m,
            FlameErrorView::ParseError(m) => m,
            FlameErrorView::TypeError(m) => m,
            FlameErrorView::BoundError(m) => m,
            FlameErrorView::CodegenError(m) => m,
        }
    }

    /// The words that announce the kind of the error.
    pub open spec fn heading(self) -> Seq<char> {
        match self {
            FlameErrorView::LexError(_) => "Lexical error: "@,
            FlameErrorView::ParseError(_) => "Parse error: "@,
            FlameErrorView::TypeError(_) => "Type error: "@,
            FlameErrorView::BoundError(_) => "Bound check failed: "@,
            FlameErrorView::CodegenError(_) => "Codegen error: "@,
        }
    }

    /// The full text of the error: the heading, then the message.
    pub open spec fn text(self) -> Seq<char> {
        self.heading() + self.message()
    }
}

impl View for FlameError {
    type V = FlameErrorView;

    open spec fn view(&self) -> FlameErrorView {
        match self {
            FlameError::LexError(m) => FlameErrorView::LexError(m@),
            FlameError::ParseError(m) => FlameErrorView::ParseError(m@),
            FlameError::TypeError(m) => FlameErrorView::TypeError(m@),
            FlameError::BoundError(m) => FlameErrorView::BoundError(m@),
            FlameError::CodegenError(m) => FlameErrorView::CodegenError(m@),
        }
    }
}

impl FlameError {
    /// The message that the error carries, without the heading.
    pub fn message(&self) -> (r: &str)
        ensures
            r@ == self@.message(),
    {
        match self {
            FlameError::LexError(m) => m.as_str(),
            FlameError::ParseError(m) => m.as_str(),
            FlameError::TypeError(m) => m.as_str(),
            FlameError::BoundError(m) => m.as_str(),
            FlameError::CodegenError(m) => m.as_str(),
        }
    }

    /// The full text of the error, as it is shown to a reader.
    pub fn to_string(&self) -> (r: String)
        ensures
            r@ == self@.text(),
    {
        let heading = match self {
            FlameError::LexError(_) => "Lexical error: ",
            FlameError::ParseError(_) => "Parse error: ",
            FlameError::TypeError(_) => "Type error: ",
            FlameError::BoundError(_) => "Bound check failed: ",
            FlameError::CodegenError(_) => "Codegen error: ",
        };
        String::from_str(heading).concat(self.message())
    }
}

} // verus!
