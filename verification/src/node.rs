//! A syntax-tree node modelled as plain values, so that block extraction
//! can be reasoned about independently of the parser that produced it.

use vstd::prelude::*;

use crate::block::{ByteRange, Point, Position};

verus! {

/// The node kinds that block extraction distinguishes; every other kind of
/// the grammar is mapped to `Other`.
#[derive(Clone, Copy, PartialEq, Eq, Structural, Debug)]
pub enum NodeKind {
    Str,
    StringStart,
    StringEnd,
    ConcatenatedString,
    BinaryOperator,
    Call,
    ArgumentList,
    Attribute,
    Other,
}

/// The grammar field, relative to its parent, under which a node appears;
/// fields the extraction does not read are mapped to `Other`.
#[derive(Clone, Copy, PartialEq, Eq, Structural, Debug)]
pub enum FieldKind {
    Function,
    Object,
    Other,
}

/// One syntax-tree node: its kind, the field under which it sits in its
/// parent, its byte span, the row/column of its first byte, and its
/// children in source order.
pub struct SyntaxNode {
    pub kind: NodeKind,
    pub field: FieldKind,
    pub start_byte: usize,
    pub end_byte: usize,
    pub row: usize,
    pub column: usize,
    pub children: Vec<SyntaxNode>,
}

impl SyntaxNode {
    /// What a concrete syntax tree guarantees: spans are well formed,
    /// a start row never exceeds the start offset (rows count newlines),
    /// children lie within their parent's span, and siblings appear in
    /// source order without overlap.
    pub open spec fn wf(self) -> bool
        decreases self,
    {
        &&& self.start_byte <= self.end_byte
        &&& self.row <= self.start_byte
        &&& forall|i: int|
            #![trigger self.children@[i]]
            0 <= i < self.children@.len() ==> {
                &&& self.children@[i].wf()
                &&& self.start_byte <= self.children@[i].start_byte
                &&& self.children@[i].end_byte <= self.end_byte
            }
        &&& forall|i: int, j: int|
            0 <= i < j < self.children@.len() ==> #[trigger] self.children@[i].end_byte
                <= #[trigger] self.children@[j].start_byte
    }

    pub open spec fn pos(self) -> Position {
        Position {
            byte_range: ByteRange { start: self.start_byte, end: self.end_byte },
            point: Point { row: self.row, column: self.column },
        }
    }

    /// The node's byte span and start point, in the form consumers of
    /// `SqlBlock` expect.
    pub fn position(&self) -> (r: Position)
        ensures
            r == self.pos(),
    {
        Position {
            byte_range: ByteRange { start: self.start_byte, end: self.end_byte },
            point: Point { row: self.row, column: self.column },
        }
    }
}

} // verus!
