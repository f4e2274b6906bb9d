//! Why the walk over the descendants of an entity, with a stack of the
//! entities still to visit, visits each descendant once and nothing else.

use super::hierarchy::{
    descendants, forest, is_ancestor, lemma_ancestor_step, lemma_not_own_ancestor, lemma_push,
    lemma_rank, rank_of, Node,
};
use vstd::prelude::*;

verus! {

/// `x` has been visited or waits on the stack.
pub open spec fn seen(out: Seq<u128>, stack: Seq<u128>, x: u128) -> bool {
    out.contains(x) || stack.contains(x)
}

/// The order in which a walk visits what is below the entities of
/// `stack`, when it may still visit `fuel` entities: it visits the entity on
/// top of the stack, puts that entity's children in its place, the last
/// child on top, and goes on.
pub open spec fn walk_from(m: Map<u128, Node>, stack: Seq<u128>, fuel: nat) -> Seq<u128>
    decreases fuel,
{
    if fuel == 0 || stack.len() == 0 {
        Seq::empty()
    } else {
        seq![stack.last()] + walk_from(
            m,
            stack.drop_last() + m[stack.last()].children,
            (fuel - 1) as nat,
        )
    }
}

/// The descendants of `e` in the order in which the walk below `e` visits
/// them: the walk starts with the children of `e` on the stack, and may
/// visit as many entities as there are.
pub open spec fn descendants_in_order(m: Map<u128, Node>, e: u128) -> Seq<u128> {
    walk_from(m, m[e].children, m.dom().len())
}

/// Every entity of `out` that is not a child of `e` stands behind its
/// parent.
pub open spec fn parents_first(m: Map<u128, Node>, e: u128, out: Seq<u128>) -> bool {
    forall|i: int|
        0 <= i < out.len() ==> m[#[trigger] out[i]].parent == Some(e) || out.take(i).contains(
            m[out[i]].parent.unwrap(),
        )
}

/// What holds in the middle of the walk below `e`: `out` are the entities
/// visited so far, `stack` those that wait.
pub open spec fn walking(m: Map<u128, Node>, e: u128, out: Seq<u128>, stack: Seq<u128>) -> bool {
    &&& forest(m)
    &&& m.contains_key(e)
    &&& out.no_duplicates()
    &&& parents_first(m, e, out)
    &&& stack.no_duplicates()
    &&& forall|x: u128| !(out.contains(x) && stack.contains(x))
    // whoever was seen is a descendant, reached from `e` or from a visited parent
    &&& forall|x: u128| #[trigger]
        seen(out, stack, x) ==> is_ancestor(m, e, x) && (m[x].parent == Some(e) || out.contains(
            m[x].parent.unwrap(),
        ))
    // the children of `e` and of every visited entity have been seen
    &&& forall|i: int| 0 <= i < m[e].children.len() ==> seen(out, stack, #[trigger] m[e].children[i])
    &&& forall|y: u128, i: int|
        out.contains(y) && 0 <= i < m[y].children.len() ==> seen(
            out,
            stack,
            #[trigger] m[y].children[i],
        )
}

/// The walk may start with the children of `e` on the stack.
pub proof fn lemma_walk_start(m: Map<u128, Node>, e: u128)
    requires
        forest(m),
        m.contains_key(e),
    ensures
        walking(m, e, Seq::empty(), m[e].children),
{
    let out = Seq::<u128>::empty();
    let stack = m[e].children;
    assert forall|x: u128| #[trigger] seen(out, stack, x) implies is_ancestor(m, e, x) && (m[x].parent
        == Some(e) || out.contains(m[x].parent.unwrap())) by {
        let i = choose|i: int| 0 <= i < stack.len() && stack[i] == x;
        assert(m.contains_key(m[e].children[i]));
        lemma_ancestor_step(m, e, x);
    }
}

/// One step of the walk: the top of the stack is visited, and its children
/// take its place on the stack. Before the step, fewer entities have been
/// visited than the tree holds.
pub proof fn lemma_walk_step(m: Map<u128, Node>, e: u128, out: Seq<u128>, stack: Seq<u128>)
    requires
        walking(m, e, out, stack),
        stack.len() > 0,
        m.dom().finite(),
    ensures
        m.contains_key(stack.last()),
        walking(m, e, out.push(stack.last()), stack.drop_last() + m[stack.last()].children),
        out.len() < m.dom().len(),
{
    let x = stack.last();
    let rest = stack.drop_last();
    let kids = m[x].children;
    let out2 = out.push(x);
    let stack2 = rest + kids;
    assert(stack[stack.len() - 1] == x);
    assert(stack.contains(x));
    assert(seen(out, stack, x));
    lemma_not_own_ancestor(m, e);
    lemma_not_own_ancestor(m, x);
    lemma_rank(m);
    assert(x != e);
    lemma_push(out, x);
    assert(parents_first(m, e, out2)) by {
        assert forall|i: int| 0 <= i < out2.len() implies m[#[trigger] out2[i]].parent == Some(e)
            || out2.take(i).contains(m[out2[i]].parent.unwrap()) by {
            if i < out.len() {
                assert(out2.take(i) =~= out.take(i));
                assert(out2[i] == out[i]);
            } else {
                assert(out2.take(i) =~= out);
            }
        }
    }
    // what the shortened stack holds
    assert forall|y: u128| rest.contains(y) <==> stack.contains(y) && y != x by {
        if rest.contains(y) {
            let i = choose|i: int| 0 <= i < rest.len() && rest[i] == y;
            assert(stack[i] == y);
        }
        if stack.contains(y) && y != x {
            let i = choose|i: int| 0 <= i < stack.len() && stack[i] == y;
            assert(rest[i] == y);
        }
    }
    // the children of `x` are new
    assert forall|c: u128| kids.contains(c) implies !seen(out, stack, c) && c != x
        && m.contains_key(c) && m[c].parent == Some(x) by {
        let i = choose|i: int| 0 <= i < kids.len() && kids[i] == c;
        assert(m.contains_key(m[x].children[i]));
    }
    assert forall|y: u128| stack2.contains(y) <==> rest.contains(y) || kids.contains(y) by {
        if stack2.contains(y) {
            let i = choose|i: int| 0 <= i < stack2.len() && stack2[i] == y;
            if i < rest.len() {
                assert(rest[i] == y);
            } else {
                assert(kids[i - rest.len()] == y);
            }
        }
        if rest.contains(y) {
            let i = choose|i: int| 0 <= i < rest.len() && rest[i] == y;
            assert(stack2[i] == y);
        }
        if kids.contains(y) {
            let i = choose|i: int| 0 <= i < kids.len() && kids[i] == y;
            assert(stack2[rest.len() + i] == y);
        }
    }
    assert(stack2.no_duplicates()) by {
        assert forall|i: int, j: int|
            0 <= i < stack2.len() && 0 <= j < stack2.len() && i != j implies stack2[i]
            != stack2[j] by {
            if i < rest.len() && j < rest.len() {
                assert(stack[i] == stack2[i] && stack[j] == stack2[j]);
            } else if i >= rest.len() && j >= rest.len() {
                assert(kids[i - rest.len()] == stack2[i] && kids[j - rest.len()] == stack2[j]);
            } else if i < rest.len() {
                assert(rest[i] == stack2[i]);
                assert(kids[j - rest.len()] == stack2[j]);
                assert(rest.contains(stack2[i]));
                assert(kids.contains(stack2[j]));
            } else {
                assert(rest[j] == stack2[j]);
                assert(kids[i - rest.len()] == stack2[i]);
                assert(rest.contains(stack2[j]));
                assert(kids.contains(stack2[i]));
            }
        }
    }
    assert forall|y: u128| #[trigger] seen(out2, stack2, y) implies is_ancestor(m, e, y) && (m[y].parent
        == Some(e) || out2.contains(m[y].parent.unwrap())) by {
        if kids.contains(y) {
            lemma_ancestor_step(m, e, y);
        } else {
            assert(seen(out, stack, y));
        }
    }
    assert forall|i: int| 0 <= i < m[e].children.len() implies seen(
        out2,
        stack2,
        #[trigger] m[e].children[i],
    ) by {
        assert(seen(out, stack, m[e].children[i]));
    }
    assert forall|y: u128, i: int| out2.contains(y) && 0 <= i < m[y].children.len() implies seen(
        out2,
        stack2,
        #[trigger] m[y].children[i],
    ) by {
        if y == x {
            assert(kids.contains(kids[i]));
        } else {
            assert(seen(out, stack, m[y].children[i]));
        }
    }
    // the visited entities are distinct entities of the tree
    assert(out2.len() <= m.dom().len()) by {
        out2.unique_seq_to_set();
        assert(out2.to_set().subset_of(m.dom())) by {
            assert forall|y: u128| out2.to_set().contains(y) implies m.dom().contains(y) by {
                assert(out2.contains(y));
                assert(seen(out2, stack2, y));
            }
        }
        vstd::set_lib::lemma_len_subset(out2.to_set(), m.dom());
    }
}

/// A descendant of `e` has been visited once the stack is empty.
pub proof fn lemma_walk_covers(m: Map<u128, Node>, e: u128, out: Seq<u128>, d: u128)
    requires
        walking(m, e, out, Seq::empty()),
        is_ancestor(m, e, d),
    ensures
        out.contains(d),
    decreases rank_of(m)(d),
{
    let none = Seq::<u128>::empty();
    lemma_ancestor_step(m, e, d);
    lemma_rank(m);
    let p = m[d].parent.unwrap();
    assert(m[p].children.contains(d));
    let i = choose|i: int| 0 <= i < m[p].children.len() && m[p].children[i] == d;
    if p == e {
        assert(seen(out, none, m[e].children[i]));
    } else {
        lemma_walk_covers(m, e, out, p);
        assert(seen(out, none, m[p].children[i]));
    }
}

/// Once the stack is empty, the visited entities are the descendants of
/// `e`, each once.
pub proof fn lemma_walk_done(m: Map<u128, Node>, e: u128, out: Seq<u128>)
    requires
        walking(m, e, out, Seq::empty()),
    ensures
        out.no_duplicates(),
        out.to_set() == descendants(m, e),
        parents_first(m, e, out),
{
    let none = Seq::<u128>::empty();
    assert forall|d: u128| out.to_set().contains(d) <==> descendants(m, e).contains(d) by {
        if out.contains(d) {
            assert(seen(out, none, d));
        }
        if is_ancestor(m, e, d) {
            lemma_walk_covers(m, e, out, d);
        }
    }
    assert(out.to_set() =~= descendants(m, e));
}

} // verus!
