//! The pass over the tokens.

use crate::marker::{keeps, lemma_rewrite_at, opens, pairs, rewrite, within};
use crate::token::{
    lemma_group_shape, lemma_shapes_add, lemma_shapes_push, shape, shapes, Atom, Delimiter, Token,
    Tree,
};
use vstd::prelude::*;

verus! {

/// The tokens that the pass holds back because they may be a marker.
#[derive(Clone, Copy)]
enum Pending {
    Nothing,
    One(Atom),
    Two(Atom, Atom),
}

impl Pending {
    /// How many tokens are held back.
    spec fn held(self) -> int {
        match self {
            Pending::Nothing => 0,
            Pending::One(_) => 1,
            Pending::Two(_, _) => 2,
        }
    }

    /// The tokens that are held back.
    spec fn trees(self) -> Seq<Tree> {
        match self {
            Pending::Nothing => Seq::empty(),
            Pending::One(a) => seq![Tree::Atom(a)],
            Pending::Two(a, b) => seq![Tree::Atom(a), Tree::Atom(b)],
        }
    }

    /// The held tokens are the last ones read of `s`, of which `read` tokens were
    /// read, and they are the beginning of a marker.
    spec fn agrees(self, s: Seq<Tree>, read: int) -> bool {
        &&& self.held() <= read <= s.len()
        &&& match self {
            Pending::Nothing => true,
            Pending::One(a) => s[read - 1] == Tree::Atom(a) && opens(s[read - 1]),
            Pending::Two(a, b) => {
                &&& s[read - 2] == Tree::Atom(a)
                &&& s[read - 1] == Tree::Atom(b)
                &&& pairs(s[read - 2], s[read - 1])
            },
        }
    }
}

/// Whether a marker can begin with `a`.
fn begins(a: &Atom) -> (r: bool)
    ensures
        r == opens(Tree::Atom(*a)),
{
    match a {
        Atom::Punct { ch, joint, .. } => *joint && (*ch == '+' || *ch == '-'),
        Atom::Word { .. } => false,
    }
}

/// Whether `b` completes the marker that `a` began.
fn completes(a: &Atom, b: &Atom) -> (r: bool)
    requires
        opens(Tree::Atom(*a)),
    ensures
        r == pairs(Tree::Atom(*a), Tree::Atom(*b)),
{
    match (a, b) {
        (Atom::Punct { ch, .. }, Atom::Punct { ch: again, joint, .. }) => *again == *ch && !*joint,
        _ => false,
    }
}

/// Whether the block behind the marker that `a` began is kept.
fn chooses(a: &Atom, nightly_enabled: bool) -> (r: bool)
    ensures
        r == keeps(Tree::Atom(*a), nightly_enabled),
{
    match a {
        Atom::Punct { ch, .. } => (*ch == '+') == nightly_enabled,
        Atom::Word { .. } => false,
    }
}

/// Puts the tokens that were held back at the end of `out`, as ordinary tokens.
fn flush(out: &mut Vec<Token>, pending: Pending)
    ensures
        shapes(final(out)@) == shapes(old(out)@) + pending.trees(),
{
    match pending {
        Pending::Nothing => {},
        Pending::One(a) => {
            proof {
                lemma_shapes_push(out@, Token::Atom(a));
            }
            out.push(Token::Atom(a));
        },
        Pending::Two(a, b) => {
            proof {
                lemma_shapes_push(out@, Token::Atom(a));
                lemma_shapes_push(out@.push(Token::Atom(a)), Token::Atom(b));
            }
            out.push(Token::Atom(a));
            out.push(Token::Atom(b));
            assert(shapes(old(out)@).push(Tree::Atom(a)).push(Tree::Atom(b)) =~= shapes(old(out)@)
                + pending.trees());
        },
    }
}

/// Rewrites the contents of a group and puts the group around them again.
pub fn process_group(
    delimiter: Delimiter,
    span: usize,
    tokens: Vec<Token>,
    nightly_enabled: bool,
) -> (out: Token)
    ensures
        out.deep_view() == within(
            Tree::Group { delimiter, span, tokens: tokens.deep_view() },
            nightly_enabled,
        ),
    decreases tokens, 1int,
{
    let out = Token::Group { delimiter, span, tokens: process(tokens, nightly_enabled) };
    proof {
        lemma_group_shape(out);
    }
    out
}

/// Rewrites a sequence of tokens in one pass from left to right.
pub fn process(tokens: Vec<Token>, nightly_enabled: bool) -> (out: Vec<Token>)
    ensures
        out.deep_view() == rewrite(tokens.deep_view(), nightly_enabled),
    decreases tokens, 0int,
{
    let ghost input = tokens@;
    let ghost s = tokens.deep_view();
    let mut out: Vec<Token> = Vec::new();
    let mut pending = Pending::Nothing;
    assert(s.skip(0) =~= s);
    for token in it: tokens
        invariant
            it.seq() == input,
            s == shapes(input),
            pending.agrees(s, it.index()),
            rewrite(s, nightly_enabled) == shapes(out@) + rewrite(
                s.skip(it.index() - pending.held()),
                nightly_enabled,
            ),
    {
        let ghost i: int = it.index();
        let ghost before = shapes(out@);
        let ghost rest = rewrite(s.skip(i + 1), nightly_enabled);
        proof {
            lemma_group_shape(token);
            lemma_rewrite_at(s, i - pending.held(), nightly_enabled);
        }
        match (pending, token) {
            (Pending::Nothing, Token::Atom(a)) if begins(&a) => {
                pending = Pending::One(a);
            },
            (Pending::One(a), Token::Atom(b)) if completes(&a, &b) => {
                pending = Pending::Two(a, b);
            },
            (Pending::Two(a, _), Token::Group { tokens: inner, .. }) => {
                if chooses(&a, nightly_enabled) {
                    let mut kept = process(inner, nightly_enabled);
                    proof {
                        lemma_shapes_add(out@, kept@);
                    }
                    out.append(&mut kept);
                }
                pending = Pending::Nothing;
            },
            (held, other) => {
                flush(&mut out, held);
                let passed = match other {
                    Token::Atom(a) => Token::Atom(a),
                    Token::Group { delimiter, span, tokens: inner } => process_group(
                        delimiter,
                        span,
                        inner,
                        nightly_enabled,
                    ),
                };
                proof {
                    lemma_shapes_push(out@, passed);
                }
                out.push(passed);
                let ghost after = within(s[i], nightly_enabled);
                assert(before + ((held.trees() + seq![after]) + rest) =~= (before
                    + held.trees()).push(after) + rest);
                pending = Pending::Nothing;
            },
        }
    }
    proof {
        lemma_rewrite_at(s, s.len() - pending.held(), nightly_enabled);
    }
    flush(&mut out, pending);
    out
}

} // verus!
