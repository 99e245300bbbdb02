//! The intermediate representation: three logs that only grow.

use crate::value::{FlameType, FlameValue};
use vstd::prelude::*;

verus! {

/// An append-only record of declarations, expressions and types.
///
/// The logs are kept apart and are not handed out: a caller can append to
/// each and can ask how many declarations and expressions there are.
#[derive(Debug)]
pub struct FlameIR {
    declarations: Vec<String>,
    expressions: Vec<String>,
    types: Vec<FlameType>,
}

/// The three logs as contracts see them, each in the order of the appends.
pub struct FlameIRView {
    pub declarations: Seq<Seq<char>>,
    pub expressions: Seq<Seq<char>>,
    pub types: Seq<FlameValue>,
}

impl View for FlameIR {
    type V = FlameIRView;

    closed spec fn view(&self) -> FlameIRView {
        FlameIRView {
            declarations: Seq::new(self.declarations@.len(), |i: int| self.declarations@[i]@),
            expressions: Seq::new(self.expressions@.len(), |i: int| self.expressions@[i]@),
            types: Seq::new(self.types@.len(), |i: int| self.types@[i]@),
        }
    }
}

impl FlameIR {
    /// Makes a record with three empty logs.
    pub fn new() -> (r: Self)
        ensures
            r@.declarations == Seq::<Seq<char>>::empty(),
            r@.expressions == Seq::<Seq<char>>::empty(),
            r@.types == Seq::<FlameValue>::empty(),
    {
        let r = FlameIR { declarations: Vec::new(), expressions: Vec::new(), types: Vec::new() };
        assert(r@.declarations =~= Seq::<Seq<char>>::empty());
        assert(r@.expressions =~= Seq::<Seq<char>>::empty());
        assert(r@.types =~= Seq::<FlameValue>::empty());
        r
    }

    /// Appends a declaration. The other logs stay as they are.
    pub fn add_declaration(&mut self, decl: String)
        ensures
            final(self)@.declarations == old(self)@.declarations.push(decl@),
            final(self)@.expressions == old(self)@.expressions,
            final(self)@.types == old(self)@.types,
    {
        self.declarations.push(decl);
        assert(self@.declarations =~= old(self)@.declarations.push(decl@));
    }

    /// Appends an expression. The other logs stay as they are.
    pub fn add_expression(&mut self, expr: String)
        ensures
            final(self)@.declarations == old(self)@.declarations,
            final(self)@.expressions == old(self)@.expressions.push(expr@),
            final(self)@.types == old(self)@.types,
    {
        self.expressions.push(expr);
        assert(self@.expressions =~= old(self)@.expressions.push(expr@));
    }

    /// Appends a type. The other logs stay as they are.
    pub fn add_type(&mut self, ty: FlameType)
        ensures
            final(self)@.declarations == old(self)@.declarations,
            final(self)@.expressions == old(self)@.expressions,
            final(self)@.types == old(self)@.types.push(ty@),
    {
        self.types.push(ty);
        assert(self@.types =~= old(self)@.types.push(ty@));
    }

    /// The number of declarations.
    pub fn declaration_count(&self) -> (r: usize)
        ensures
            r == self@.declarations.len(),
    {
        self.declarations.len()
    }

    /// The number of expressions.
    pub fn expression_count(&self) -> (r: usize)
        ensures
            r == self@.expressions.len(),
    {
        self.expressions.len()
    }
}

impl Default for FlameIR {
    fn default() -> (r: Self)
        ensures
            r@.declarations == Seq::<Seq<char>>::empty(),
            r@.expressions == Seq::<Seq<char>>::empty(),
            r@.types == Seq::<FlameValue>::empty(),
    {
        FlameIR::new()
    }
}

} // verus!
