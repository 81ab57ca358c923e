//! Tokens and their mathematical shape.

use vstd::prelude::*;

verus! {

/// How a group is bracketed.
#[derive(Clone, Copy, Debug, PartialEq, Eq)]
pub enum Delimiter {
    /// `( ... )`
    Parenthesis,
    /// `{ ... }`
    Brace,
    /// `[ ... ]`
    Bracket,
    /// A group that is written without brackets.
    Invisible,
}

/// A token without children.
///
/// `source` is the caller's handle for the token in the source text. The
/// rewriting never reads it; it travels with the atom, so that the caller finds
/// the token again.
#[derive(Clone, Copy, Debug, PartialEq, Eq)]
pub enum Atom {
    /// An identifier or a literal.
    Word { source: usize },
    /// One punctuation character. It is `joint` when it is written directly
    /// against the token that follows it.
    Punct { ch: char, joint: bool, source: usize },
}

/// A token: an atom, or a group that owns the tokens between its brackets.
///
/// `span` is the caller's handle for the position of the group in the source
/// text; like the `source` of an atom it is carried and never read.
#[derive(Debug, PartialEq, Eq)]
pub enum Token {
    /// A token without children.
    Atom(Atom),
    /// The tokens between two brackets.
    Group { delimiter: Delimiter, span: usize, tokens: Vec<Token> },
}

/// The shape of a [`Token`]: the same tree, with a sequence where the token has
/// a vector. Contracts speak of shapes.
pub enum Tree {
    /// The shape of an atom: the atom.
    Atom(Atom),
    /// The shape of a group: its delimiter, its span and the shapes of its tokens.
    Group { delimiter: Delimiter, span: usize, tokens: Seq<Tree> },
}

/// The shape of one token.
pub open spec fn shape(token: Token) -> Tree
    decreases token,
{
    match token {
        Token::Atom(a) => Tree::Atom(a),
        Token::Group { delimiter, span, tokens } => Tree::Group {
            delimiter,
            span,
            tokens: Seq::new(
                tokens@.len(),
                |i: int|
                    if 0 <= i < tokens@.len() {
                        shape(tokens@[i])
                    } else {
                        arbitrary()
                    },
            ),
        },
    }
}

/// The shapes of a sequence of tokens, one for one.
pub open spec fn shapes(tokens: Seq<Token>) -> Seq<Tree> {
    Seq::new(tokens.len(), |i: int| shape(tokens[i]))
}

impl DeepView for Token {
    type V = Tree;

    open spec fn deep_view(&self) -> Tree {
        shape(*self)
    }
}

/// The children of a group's shape are the shapes of the group's children.
pub proof fn lemma_group_shape(token: Token)
    ensures
        token matches Token::Group { delimiter, span, tokens } ==> token.deep_view() == (
        Tree::Group { delimiter, span, tokens: tokens.deep_view() }),
{
    if let Token::Group { tokens, .. } = token {
        assert(token.deep_view()->tokens =~= tokens.deep_view());
    }
}

/// The shapes of a sequence with one more token at its end.
pub proof fn lemma_shapes_push(tokens: Seq<Token>, token: Token)
    ensures
        shapes(tokens.push(token)) == shapes(tokens).push(shape(token)),
{
}

/// The shapes of two sequences put together.
pub proof fn lemma_shapes_add(a: Seq<Token>, b: Seq<Token>)
    ensures
        shapes(a + b) == shapes(a) + shapes(b),
{
}

} // verus!
