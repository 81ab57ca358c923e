//! What a marker is, and what the rewriting makes of a sequence of tokens.

use crate::token::{Atom, Tree};
use vstd::prelude::*;

verus! {

/// The two characters that a marker can be made of.
pub open spec fn is_sigil(ch: char) -> bool {
    ch == '+' || ch == '-'
}

/// Whether a marker can begin with `t`: a `+` or `-` that is written directly
/// against the token after it.
pub open spec fn opens(t: Tree) -> bool {
    &&& t matches Tree::Atom(Atom::Punct { ch, joint, .. })
    &&& joint
    &&& is_sigil(ch)
}

/// Whether `first` and `second` are a marker: `first` begins one, and `second`
/// is the same character again, not written against what follows it.
pub open spec fn pairs(first: Tree, second: Tree) -> bool {
    &&& opens(first)
    &&& first matches Tree::Atom(Atom::Punct { ch, .. })
    &&& second matches Tree::Atom(Atom::Punct { ch: again, joint, .. })
    &&& again == ch
    &&& !joint
}

/// Whether `first` and `second` are the marker that is made of `sigil`.
pub open spec fn is_marker(first: Tree, second: Tree, sigil: char) -> bool {
    &&& pairs(first, second)
    &&& first matches Tree::Atom(Atom::Punct { ch, .. })
    &&& ch == sigil
}

/// Whether a conditional block begins at the place `at` of `s`: a marker with a
/// group behind it.
pub open spec fn block_at(s: Seq<Tree>, at: int) -> bool {
    &&& 0 <= at
    &&& at + 2 < s.len()
    &&& pairs(s[at], s[at + 1])
    &&& s[at + 2] is Group
}

/// Whether `s` holds no conditional block, at any depth.
pub open spec fn marker_free(s: Seq<Tree>) -> bool
    decreases s,
{
    &&& forall|at: int| !block_at(s, at)
    &&& forall|i: int|
        0 <= i < s.len() ==> (#[trigger] s[i] matches Tree::Group { tokens, .. } ==> marker_free(
            tokens,
        ))
}

/// Whether the block behind a marker that begins with `first` is kept: `+`
/// keeps it when the nightly mode is on, `-` when it is off.
pub open spec fn keeps(first: Tree, nightly: bool) -> bool {
    &&& first matches Tree::Atom(Atom::Punct { ch, .. })
    &&& (ch == '+') == nightly
}

/// A token that is no part of a marker or of a block, as it leaves the
/// rewriting: an atom as it is, a group with its contents rewritten.
pub open spec fn within(t: Tree, nightly: bool) -> Tree
    decreases t,
{
    match t {
        Tree::Atom(_) => t,
        Tree::Group { delimiter, span, tokens } => Tree::Group {
            delimiter,
            span,
            tokens: rewrite(tokens, nightly),
        },
    }
}

/// What the rewriting makes of `s`.
///
/// The sequence is read from the left in units. A marker and the group behind it
/// are one unit, a conditional block: it gives the group's contents, rewritten in
/// the same mode, if the block is kept, and nothing if it is not. A marker with an atom
/// behind it is a unit of three tokens that stay as they are, and a marker at the
/// very end stays too. A token that could have begun a marker and the token
/// after it, which did not complete one, are a unit of two: the first stays, the
/// second leaves as [`within`] gives it. Every other token is a unit by itself
/// and leaves as [`within`] gives it.
pub open spec fn rewrite(s: Seq<Tree>, nightly: bool) -> Seq<Tree>
    decreases s,
{
    if s.len() == 0 {
        s
    } else if s.len() >= 2 && pairs(s[0], s[1]) {
        if s.len() == 2 {
            s
        } else {
            (match s[2] {
                Tree::Group { tokens, .. } => if keeps(s[0], nightly) {
                    rewrite(tokens, nightly)
                } else {
                    Seq::empty()
                },
                Tree::Atom(_) => s.take(3),
            }) + rewrite(s.skip(3), nightly)
        }
    } else if s.len() >= 2 && opens(s[0]) {
        seq![s[0], within(s[1], nightly)] + rewrite(s.skip(2), nightly)
    } else {
        seq![within(s[0], nightly)] + rewrite(s.skip(1), nightly)
    }
}

/// How [`rewrite`] goes on from the place `at` of `s`: its definition, read at an
/// offset.
pub proof fn lemma_rewrite_at(s: Seq<Tree>, at: int, nightly: bool)
    requires
        0 <= at <= s.len(),
    ensures
        rewrite(s.skip(at), nightly) == if at == s.len() {
            Seq::<Tree>::empty()
        } else if at + 1 < s.len() && pairs(s[at], s[at + 1]) {
            if at + 2 == s.len() {
                seq![s[at], s[at + 1]]
            } else {
                (match s[at + 2] {
                    Tree::Group { tokens, .. } => if keeps(s[at], nightly) {
                        rewrite(tokens, nightly)
                    } else {
                        Seq::empty()
                    },
                    Tree::Atom(_) => seq![s[at], s[at + 1], s[at + 2]],
                }) + rewrite(s.skip(at + 3), nightly)
            }
        } else if at + 1 < s.len() && opens(s[at]) {
            seq![s[at], within(s[at + 1], nightly)] + rewrite(s.skip(at + 2), nightly)
        } else {
            seq![within(s[at], nightly)] + rewrite(s.skip(at + 1), nightly)
        },
{
    let rest = s.skip(at);
    if at < s.len() {
        assert(rest.skip(1) =~= s.skip(at + 1));
    }
    if at + 1 < s.len() {
        assert(rest.skip(2) =~= s.skip(at + 2));
    }
    if at + 2 < s.len() {
        assert(rest.skip(3) =~= s.skip(at + 3));
    }
}

} // verus!
