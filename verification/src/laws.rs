//! What holds of the rewriting, whatever the tokens are.

use crate::marker::{
    block_at, is_marker, keeps, lemma_rewrite_at, marker_free, opens, pairs, rewrite, within,
};
use crate::token::{Atom, Delimiter, Tree};
use vstd::prelude::*;

verus! {

/// What is left of a sequence without conditional blocks holds none either.
proof fn lemma_marker_free_skip(s: Seq<Tree>, n: int)
    requires
        marker_free(s),
        0 <= n <= s.len(),
    ensures
        marker_free(s.skip(n)),
{
    let rest = s.skip(n);
    assert forall|at: int| !block_at(rest, at) by {
        if block_at(rest, at) {
            assert(block_at(s, at + n));
        }
    }
}

/// A token whose contents hold no conditional block passes as it is.
proof fn lemma_marker_free_within(t: Tree, nightly: bool)
    requires
        t matches Tree::Group { tokens, .. } ==> marker_free(tokens),
    ensures
        within(t, nightly) == t,
    decreases t, 0int,
{
    if let Tree::Group { tokens, .. } = t {
        lemma_marker_free_unchanged(tokens, nightly);
    }
}

/// A sequence of tokens that holds no conditional block, at any depth, comes out
/// of the rewriting as it went in, whatever the mode.
pub proof fn lemma_marker_free_unchanged(s: Seq<Tree>, nightly: bool)
    requires
        marker_free(s),
    ensures
        rewrite(s, nightly) == s,
    decreases s, 1int,
{
    if s.len() == 0 {
        // nothing to rewrite
    } else if s.len() >= 2 && pairs(s[0], s[1]) {
        if s.len() > 2 {
            assert(!block_at(s, 0));
            lemma_marker_free_skip(s, 3);
            lemma_marker_free_unchanged(s.skip(3), nightly);
        }
    } else if s.len() >= 2 && opens(s[0]) {
        lemma_marker_free_within(s[1], nightly);
        lemma_marker_free_skip(s, 2);
        lemma_marker_free_unchanged(s.skip(2), nightly);
    } else {
        lemma_marker_free_within(s[0], nightly);
        lemma_marker_free_skip(s, 1);
        lemma_marker_free_unchanged(s.skip(1), nightly);
    }
}

/// A conditional block at the head of a sequence gives the contents of its group,
/// rewritten in the same mode, if the block is kept, and nothing if it is not;
/// the rewriting goes on behind the group. Contents that hold no conditional
/// block come out as they are.
pub proof fn lemma_block_resolved(
    first: Tree,
    second: Tree,
    block: Tree,
    rest: Seq<Tree>,
    nightly: bool,
)
    requires
        pairs(first, second),
        block is Group,
    ensures
        rewrite(seq![first, second, block] + rest, nightly) == if keeps(first, nightly) {
            rewrite(block->tokens, nightly)
        } else {
            Seq::empty()
        } + rewrite(rest, nightly),
        marker_free(block->tokens) ==> rewrite(seq![first, second, block] + rest, nightly) == if keeps(
            first,
            nightly,
        ) {
            block->tokens
        } else {
            Seq::empty()
        } + rewrite(rest, nightly),
{
    let s = seq![first, second, block] + rest;
    assert(s.skip(3) =~= rest);
    if marker_free(block->tokens) {
        lemma_marker_free_unchanged(block->tokens, nightly);
    }
}

/// Of `++[A] --[B]` the rewriting leaves `A` when the nightly mode is on and `B`
/// when it is off, each rewritten in that mode: `A` and `B` themselves where they
/// hold no conditional block.
pub proof fn lemma_mode_selection(
    plus: (Tree, Tree),
    a: Tree,
    minus: (Tree, Tree),
    b: Tree,
)
    requires
        is_marker(plus.0, plus.1, '+'),
        a is Group,
        is_marker(minus.0, minus.1, '-'),
        b is Group,
    ensures
        rewrite(seq![plus.0, plus.1, a, minus.0, minus.1, b], true) == rewrite(a->tokens, true),
        rewrite(seq![plus.0, plus.1, a, minus.0, minus.1, b], false) == rewrite(b->tokens, false),
        marker_free(a->tokens) ==> rewrite(seq![plus.0, plus.1, a, minus.0, minus.1, b], true)
            == a->tokens,
        marker_free(b->tokens) ==> rewrite(seq![plus.0, plus.1, a, minus.0, minus.1, b], false)
            == b->tokens,
{
    let s = seq![plus.0, plus.1, a, minus.0, minus.1, b];
    let tail = seq![minus.0, minus.1, b];
    let none = Seq::<Tree>::empty();
    assert(s =~= seq![plus.0, plus.1, a] + tail);
    lemma_block_resolved(plus.0, plus.1, a, tail, true);
    lemma_block_resolved(plus.0, plus.1, a, tail, false);
    lemma_block_resolved(minus.0, minus.1, b, none, true);
    lemma_block_resolved(minus.0, minus.1, b, none, false);
    if marker_free(a->tokens) {
        lemma_marker_free_unchanged(a->tokens, true);
    }
    if marker_free(b->tokens) {
        lemma_marker_free_unchanged(b->tokens, false);
    }
}

/// A conditional block that is all a kept block holds is resolved in the same
/// mode: of `++[ ++[A] ]` and of `--[ --[A] ]` the mode that keeps the two
/// leaves `A`, rewritten in it, and the other mode leaves nothing; of
/// `++[ --[A] ]` and of `--[ ++[A] ]` nothing is left in either mode.
pub proof fn lemma_nested_block_resolved(
    outer: (Tree, Tree),
    delimiter: Delimiter,
    span: usize,
    inner: (Tree, Tree),
    block: Tree,
    nightly: bool,
)
    requires
        pairs(outer.0, outer.1),
        pairs(inner.0, inner.1),
        block is Group,
    ensures
        rewrite(
            seq![
                outer.0,
                outer.1,
                Tree::Group { delimiter, span, tokens: seq![inner.0, inner.1, block] },
            ],
            nightly,
        ) == if keeps(outer.0, nightly) && keeps(inner.0, nightly) {
            rewrite(block->tokens, nightly)
        } else {
            Seq::empty()
        },
{
    let none = Seq::<Tree>::empty();
    let contents = seq![inner.0, inner.1, block];
    let group = Tree::Group { delimiter, span, tokens: contents };
    lemma_block_resolved(outer.0, outer.1, group, none, nightly);
    lemma_block_resolved(inner.0, inner.1, block, none, nightly);
}

/// A group that stands alone is rewritten inside, in the same mode, and keeps its
/// delimiter and its span.
pub proof fn lemma_group_rewritten_inside(
    delimiter: Delimiter,
    span: usize,
    contents: Seq<Tree>,
    nightly: bool,
)
    ensures
        rewrite(seq![Tree::Group { delimiter, span, tokens: contents }], nightly) == seq![
            Tree::Group { delimiter, span, tokens: rewrite(contents, nightly) },
        ],
{
    let s = seq![Tree::Group { delimiter, span, tokens: contents }];
    lemma_rewrite_at(s, 0, nightly);
    lemma_rewrite_at(s, 1, nightly);
}

/// `+ [A]`: a sigil that is not written against what follows begins no marker.
/// It stays, and the group behind it is an ordinary group: the whole is
/// unchanged where `A` holds no conditional block.
pub proof fn lemma_spaced_sigil_passes(
    ch: char,
    source: usize,
    delimiter: Delimiter,
    span: usize,
    contents: Seq<Tree>,
    nightly: bool,
)
    ensures
        ({
            let sigil = Tree::Atom(Atom::Punct { ch, joint: false, source });
            let group = Tree::Group { delimiter, span, tokens: contents };
            &&& rewrite(seq![sigil, group], nightly) == seq![sigil, within(group, nightly)]
            &&& marker_free(contents) ==> rewrite(seq![sigil, group], nightly) == seq![
                sigil,
                group,
            ]
        }),
{
    let sigil = Tree::Atom(Atom::Punct { ch, joint: false, source });
    let group = Tree::Group { delimiter, span, tokens: contents };
    let s = seq![sigil, group];
    lemma_rewrite_at(s, 0, nightly);
    lemma_rewrite_at(s, 1, nightly);
    lemma_rewrite_at(s, 2, nightly);
    if marker_free(contents) {
        lemma_marker_free_within(group, nightly);
    }
}

/// `+x[A]`: a token that could have begun a marker, with an atom behind it that
/// does not complete one. Both stay, and the group behind them is an ordinary
/// group: the whole is unchanged where `A` holds no conditional block.
pub proof fn lemma_broken_marker_passes(first: Tree, second: Tree, group: Tree, nightly: bool)
    requires
        opens(first),
        second is Atom,
        !pairs(first, second),
        group is Group,
    ensures
        rewrite(seq![first, second, group], nightly) == seq![first, second, within(group, nightly)],
        marker_free(group->tokens) ==> rewrite(seq![first, second, group], nightly) == seq![
            first,
            second,
            group,
        ],
{
    let s = seq![first, second, group];
    lemma_rewrite_at(s, 0, nightly);
    lemma_rewrite_at(s, 2, nightly);
    lemma_rewrite_at(s, 3, nightly);
    if marker_free(group->tokens) {
        lemma_marker_free_within(group, nightly);
    }
}

/// `foo ++`: a marker with nothing behind it stays where it is.
pub proof fn lemma_trailing_marker_stays(source: usize, first: Tree, second: Tree, nightly: bool)
    requires
        pairs(first, second),
    ensures
        rewrite(seq![Tree::Atom(Atom::Word { source }), first, second], nightly) == seq![
            Tree::Atom(Atom::Word { source }),
            first,
            second,
        ],
{
    let word = Tree::Atom(Atom::Word { source });
    let s = seq![word, first, second];
    lemma_rewrite_at(s, 0, nightly);
    lemma_rewrite_at(s, 1, nightly);
}

} // verus!
