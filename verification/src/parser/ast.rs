//! The syntax tree.

use vstd::prelude::*;

verus! {

/// A node of the syntax tree. A document is an `ASTCompound` of statements:
/// section headers, assignments and separators. The value of an assignment is
/// a boolean, an integer, a string or an array of values.
#[derive(Debug, PartialEq, Eq)]
pub enum AST {
    ASTTagDefinition(String),
    ASTVariableDefinition(String, Box<AST>),
    ASTSeparator(),
    ASTBool(bool),
    ASTInt(i32),
    ASTString(String),
    ASTArray(Vec<AST>),
    ASTCompound(Vec<AST>),
}

/// What a syntax tree is, as a value of specifications.
pub enum Node {
    /// A section header `[name]`.
    Section(Seq<char>),
    /// An assignment `name = value`.
    Assignment(Seq<char>, Box<Node>),
    /// An empty line.
    Blank,
    Bool(bool),
    Int(i32),
    Text(Seq<char>),
    Array(Seq<Node>),
    /// The statements of a document, in order.
    Document(Seq<Node>),
}

/// The models of a row of trees.
pub open spec fn models(trees: Seq<AST>) -> Seq<Node>
    decreases trees,
{
    Seq::new(
        trees.len(),
        |i: int|
            if 0 <= i < trees.len() {
                trees[i].model()
            } else {
                Node::Blank
            },
    )
}

impl AST {
    pub open spec fn model(self) -> Node
        decreases self,
    {
        match self {
            AST::ASTTagDefinition(name) => Node::Section(name@),
            AST::ASTVariableDefinition(name, value) => Node::Assignment(
                name@,
                Box::new(value.model()),
            ),
            AST::ASTSeparator() => Node::Blank,
            AST::ASTBool(b) => Node::Bool(b),
            AST::ASTInt(i) => Node::Int(i),
            AST::ASTString(s) => Node::Text(s@),
            AST::ASTArray(items) => Node::Array(models(items@)),
            AST::ASTCompound(statements) => Node::Document(models(statements@)),
        }
    }
}

impl View for AST {
    type V = Node;

    open spec fn view(&self) -> Node {
        self.model()
    }
}

/// Adding a tree to a row adds its model to the models.
pub proof fn lemma_models_push(trees: Seq<AST>, tree: AST)
    ensures
        models(trees.push(tree)) == models(trees).push(tree.model()),
{
    assert(models(trees.push(tree)) =~= models(trees).push(tree.model()));
}

} // verus!
