//! Tokens written out flat, each group between its two brackets, and what the
//! rewriting does to such a text: it only takes places away, and it leaves every
//! bracket with its match.

use crate::marker::{keeps, lemma_rewrite_at, opens, pairs, rewrite, within};
use crate::token::{Atom, Delimiter, Tree};
use vstd::prelude::*;

verus! {

/// One place of a flat token text.
pub enum Mark {
    /// An atom.
    Leaf(Atom),
    /// The bracket that begins the group with this delimiter and span.
    Open(Delimiter, usize),
    /// The bracket that ends the group with this delimiter and span.
    Close(Delimiter, usize),
}

/// One token written out flat: a group is its opening bracket, its contents and
/// its closing bracket.
pub open spec fn flat_token(t: Tree) -> Seq<Mark>
    decreases t,
{
    match t {
        Tree::Atom(a) => seq![Mark::Leaf(a)],
        Tree::Group { delimiter, span, tokens } => seq![Mark::Open(delimiter, span)] + flat(tokens)
            + seq![Mark::Close(delimiter, span)],
    }
}

/// A sequence of tokens written out flat.
pub open spec fn flat(s: Seq<Tree>) -> Seq<Mark>
    decreases s,
{
    if s.len() == 0 {
        Seq::empty()
    } else {
        flat_token(s[0]) + flat(s.skip(1))
    }
}

/// Whether `marks`, read behind the brackets `open` that are not closed yet (the
/// innermost last), closes every bracket by the one that matches it and leaves
/// none open.
pub open spec fn closes(marks: Seq<Mark>, open: Seq<(Delimiter, usize)>) -> bool
    decreases marks.len(),
{
    if marks.len() == 0 {
        open.len() == 0
    } else {
        match marks[0] {
            Mark::Leaf(_) => closes(marks.skip(1), open),
            Mark::Open(delimiter, span) => closes(marks.skip(1), open.push((delimiter, span))),
            Mark::Close(delimiter, span) => open.len() > 0 && open.last() == (delimiter, span)
                && closes(marks.skip(1), open.drop_last()),
        }
    }
}

/// Whether every bracket of `marks` has its match.
pub open spec fn balanced(marks: Seq<Mark>) -> bool {
    closes(marks, Seq::empty())
}

/// Whether `part` is what is left of `whole` when some of its places are taken
/// away: the places of `part` stand in `whole`, in the same order.
pub open spec fn embeds(part: Seq<Mark>, whole: Seq<Mark>) -> bool
    decreases whole.len(),
{
    if part.len() == 0 {
        true
    } else if whole.len() == 0 {
        false
    } else {
        ||| part[0] == whole[0] && embeds(part.skip(1), whole.skip(1))
        ||| embeds(part, whole.skip(1))
    }
}

/// Reading one token written out flat leaves the open brackets as they were.
proof fn lemma_flat_token_closes(t: Tree, behind: Seq<Mark>, open: Seq<(Delimiter, usize)>)
    ensures
        closes(flat_token(t) + behind, open) == closes(behind, open),
    decreases t, 0int,
{
    let marks = flat_token(t) + behind;
    match t {
        Tree::Atom(a) => {
            assert(marks.skip(1) =~= behind);
        },
        Tree::Group { delimiter, span, tokens } => {
            let end = seq![Mark::Close(delimiter, span)] + behind;
            assert(marks.skip(1) =~= flat(tokens) + end);
            lemma_flat_closes(tokens, end, open.push((delimiter, span)));
            assert(end.skip(1) =~= behind);
            assert(open.push((delimiter, span)).drop_last() =~= open);
        },
    }
}

/// Reading tokens written out flat leaves the open brackets as they were.
proof fn lemma_flat_closes(s: Seq<Tree>, behind: Seq<Mark>, open: Seq<(Delimiter, usize)>)
    ensures
        closes(flat(s) + behind, open) == closes(behind, open),
    decreases s, 1int,
{
    if s.len() > 0 {
        assert(flat(s) + behind =~= flat_token(s[0]) + (flat(s.skip(1)) + behind));
        lemma_flat_token_closes(s[0], flat(s.skip(1)) + behind, open);
        lemma_flat_closes(s.skip(1), behind, open);
    }
}

/// The brackets of any sequence of tokens match when it is written out flat.
pub proof fn lemma_flat_balanced(s: Seq<Tree>)
    ensures
        balanced(flat(s)),
{
    lemma_flat_closes(s, Seq::empty(), Seq::empty());
}

/// What the rewriting gives is balanced: written out flat, every group has the
/// bracket that closes it. A group leaves the rewriting with both its brackets
/// around its rewritten contents, without both as the group of a kept block, or
/// not at all; none is ever cut.
pub proof fn lemma_output_balanced(s: Seq<Tree>, nightly: bool)
    ensures
        balanced(flat(rewrite(s, nightly))),
{
    lemma_flat_balanced(rewrite(s, nightly));
}

/// Two sequences of tokens written out flat, one behind the other.
proof fn lemma_flat_add(a: Seq<Tree>, b: Seq<Tree>)
    ensures
        flat(a + b) == flat(a) + flat(b),
    decreases a.len(),
{
    if a.len() > 0 {
        assert((a + b).skip(1) =~= a.skip(1) + b);
        lemma_flat_add(a.skip(1), b);
        assert(flat_token(a[0]) + (flat(a.skip(1)) + flat(b)) =~= (flat_token(a[0]) + flat(
            a.skip(1),
        )) + flat(b));
    }
}

/// A text is what is left of itself.
proof fn lemma_embeds_itself(marks: Seq<Mark>)
    ensures
        embeds(marks, marks),
    decreases marks.len(),
{
    if marks.len() > 0 {
        lemma_embeds_itself(marks.skip(1));
    }
}

/// What is left of a text is left of it with more before it.
proof fn lemma_embeds_behind(part: Seq<Mark>, before: Seq<Mark>, whole: Seq<Mark>)
    requires
        embeds(part, whole),
    ensures
        embeds(part, before + whole),
    decreases before.len(),
{
    if before.len() > 0 && part.len() > 0 {
        assert((before + whole).skip(1) =~= before.skip(1) + whole);
        lemma_embeds_behind(part, before.skip(1), whole);
    }
}

/// What is left of two texts, one behind the other.
proof fn lemma_embeds_add(part: Seq<Mark>, whole: Seq<Mark>, more: Seq<Mark>, behind: Seq<Mark>)
    requires
        embeds(part, whole),
        embeds(more, behind),
    ensures
        embeds(part + more, whole + behind),
    decreases whole.len(),
{
    if part.len() == 0 {
        lemma_embeds_behind(more, whole, behind);
    } else {
        assert((whole + behind).skip(1) =~= whole.skip(1) + behind);
        if part[0] == whole[0] && embeds(part.skip(1), whole.skip(1)) {
            assert((part + more).skip(1) =~= part.skip(1) + more);
            lemma_embeds_add(part.skip(1), whole.skip(1), more, behind);
        } else {
            lemma_embeds_add(part, whole.skip(1), more, behind);
        }
    }
}

/// What stands in what is left of a text stands in the text.
proof fn lemma_embeds_contains(part: Seq<Mark>, whole: Seq<Mark>, mark: Mark)
    requires
        embeds(part, whole),
        part.contains(mark),
    ensures
        whole.contains(mark),
    decreases whole.len(),
{
    let at = choose|at: int| 0 <= at < part.len() && part[at] == mark;
    if part[0] == whole[0] && embeds(part.skip(1), whole.skip(1)) {
        if at > 0 {
            assert(part.skip(1)[at - 1] == mark);
            lemma_embeds_contains(part.skip(1), whole.skip(1), mark);
        }
    } else {
        lemma_embeds_contains(part, whole.skip(1), mark);
    }
}

/// A token that is no part of a marker or of a block, as it leaves the
/// rewriting and written out flat, is what is left of the token as it was.
proof fn lemma_within_embeds(t: Tree, nightly: bool)
    ensures
        embeds(flat_token(within(t, nightly)), flat_token(t)),
    decreases t, 0int,
{
    match t {
        Tree::Atom(_) => {
            lemma_embeds_itself(flat_token(t));
        },
        Tree::Group { delimiter, span, tokens } => {
            let open = seq![Mark::Open(delimiter, span)];
            let close = seq![Mark::Close(delimiter, span)];
            lemma_rewrite_embeds(tokens, nightly);
            lemma_embeds_itself(open);
            lemma_embeds_itself(close);
            lemma_embeds_add(open, open, flat(rewrite(tokens, nightly)), flat(tokens));
            lemma_embeds_add(
                open + flat(rewrite(tokens, nightly)),
                open + flat(tokens),
                close,
                close,
            );
        },
    }
}

/// The rewriting only takes away: what it gives, written out flat, is what is
/// left of its input, written out flat, when the markers of the conditional
/// blocks that it resolves, the brackets of the kept ones and the blocks that are
/// not kept are taken out. It adds no token, changes none, and keeps the order.
pub proof fn lemma_rewrite_embeds(s: Seq<Tree>, nightly: bool)
    ensures
        embeds(flat(rewrite(s, nightly)), flat(s)),
    decreases s, 1int,
{
    let none = Seq::<Mark>::empty();
    lemma_rewrite_at(s, 0, nightly);
    if s.len() == 0 {
        // nothing is left of nothing
    } else if s.len() >= 2 && pairs(s[0], s[1]) {
        if s.len() == 2 {
            lemma_embeds_itself(flat(s));
        } else {
            let head = s.take(3);
            let rest = s.skip(3);
            assert(s =~= head + rest);
            lemma_flat_add(head, rest);
            lemma_rewrite_embeds(rest, nightly);
            let gives = rewrite(s, nightly).take(rewrite(s, nightly).len() - rewrite(
                rest,
                nightly,
            ).len());
            assert(rewrite(s, nightly) =~= gives + rewrite(rest, nightly));
            lemma_flat_add(gives, rewrite(rest, nightly));
            assert(embeds(flat(gives), flat(head))) by {
                let marker = seq![s[0], s[1]];
                assert(head =~= marker + seq![s[2]]);
                lemma_flat_add(marker, seq![s[2]]);
                lemma_flat_one(s[2]);
                match s[2] {
                    Tree::Group { delimiter, span, tokens } => {
                        if keeps(s[0], nightly) {
                            let kept = flat(rewrite(tokens, nightly));
                            let open = seq![Mark::Open(delimiter, span)];
                            let close = seq![Mark::Close(delimiter, span)];
                            assert(gives =~= rewrite(tokens, nightly));
                            lemma_rewrite_embeds(tokens, nightly);
                            lemma_embeds_behind(kept, open, flat(tokens));
                            lemma_embeds_add(kept, open + flat(tokens), none, close);
                            lemma_embeds_behind(kept, flat(marker), flat_token(s[2]));
                        }
                    },
                    Tree::Atom(_) => {
                        assert(gives =~= head);
                        lemma_embeds_itself(flat(head));
                    },
                }
            }
            lemma_embeds_add(flat(gives), flat(head), flat(rewrite(rest, nightly)), flat(rest));
        }
    } else if s.len() >= 2 && opens(s[0]) {
        let rest = s.skip(2);
        let head = seq![s[0], s[1]];
        let gives = seq![s[0], within(s[1], nightly)];
        assert(s =~= head + rest);
        lemma_flat_add(head, rest);
        lemma_flat_add(gives, rewrite(rest, nightly));
        lemma_rewrite_embeds(rest, nightly);
        assert(embeds(flat(gives), flat(head))) by {
            assert(head =~= seq![s[0]] + seq![s[1]]);
            assert(gives =~= seq![s[0]] + seq![within(s[1], nightly)]);
            lemma_flat_add(seq![s[0]], seq![s[1]]);
            lemma_flat_add(seq![s[0]], seq![within(s[1], nightly)]);
            lemma_flat_one(s[1]);
            lemma_flat_one(within(s[1], nightly));
            lemma_within_embeds(s[1], nightly);
            lemma_embeds_itself(flat(seq![s[0]]));
            lemma_embeds_add(
                flat(seq![s[0]]),
                flat(seq![s[0]]),
                flat_token(within(s[1], nightly)),
                flat_token(s[1]),
            );
        }
        lemma_embeds_add(flat(gives), flat(head), flat(rewrite(rest, nightly)), flat(rest));
    } else {
        let rest = s.skip(1);
        lemma_rewrite_embeds(rest, nightly);
        lemma_within_embeds(s[0], nightly);
        lemma_flat_add(seq![within(s[0], nightly)], rewrite(rest, nightly));
        lemma_flat_one(within(s[0], nightly));
        lemma_embeds_add(
            flat_token(within(s[0], nightly)),
            flat_token(s[0]),
            flat(rewrite(rest, nightly)),
            flat(rest),
        );
    }
}

/// One token alone, written out flat.
proof fn lemma_flat_one(t: Tree)
    ensures
        flat(seq![t]) == flat_token(t),
{
    assert(seq![t].skip(1) =~= Seq::<Tree>::empty());
    assert(flat(Seq::<Tree>::empty()) =~= Seq::<Mark>::empty());
}

/// The rewriting makes up nothing: an atom or a bracket that stands in what it
/// gives, with its handle, stands in its input.
pub proof fn lemma_nothing_made_up(s: Seq<Tree>, nightly: bool, mark: Mark)
    requires
        flat(rewrite(s, nightly)).contains(mark),
    ensures
        flat(s).contains(mark),
{
    lemma_rewrite_embeds(s, nightly);
    lemma_embeds_contains(flat(rewrite(s, nightly)), flat(s), mark);
}

} // verus!
