//! The mathematical model of the hierarchy: who is whose parent, what it
//! means for the links to be consistent and free of cycles, and the ancestor
//! and descendant relations that the tree's queries are stated over.

use vstd::prelude::*;

verus! {

/// The links of one entity: its parent, if it has one, and its children in
/// the order in which they were attached.
pub struct Node {
    pub parent: Option<u128>,
    pub children: Seq<u128>,
}

/// Parent and child links agree: a child names a parent exactly when that
/// parent lists the child, and it lists it once.
pub open spec fn linked(m: Map<u128, Node>) -> bool {
    &&& forall|c: u128| #[trigger]
        m.contains_key(c) ==> match m[c].parent {
            Some(p) => m.contains_key(p) && m[p].children.contains(c),
            None => true,
        }
    &&& forall|p: u128, i: int|
        m.contains_key(p) && 0 <= i < m[p].children.len() ==> m.contains_key(
            #[trigger] m[p].children[i],
        ) && m[m[p].children[i]].parent == Some(p)
    &&& forall|p: u128| #[trigger] m.contains_key(p) ==> m[p].children.no_duplicates()
}

/// `r` grows strictly from every parent to its child.
pub open spec fn ranked(m: Map<u128, Node>, r: spec_fn(u128) -> nat) -> bool {
    forall|c: u128| #[trigger]
        m.contains_key(c) && m[c].parent is Some ==> r(m[c].parent.unwrap()) < r(c)
}

/// No entity is its own ancestor: some measure grows along every parent link,
/// so following parents always comes to an end.
pub open spec fn acyclic(m: Map<u128, Node>) -> bool {
    exists|r: spec_fn(u128) -> nat| #[trigger] ranked(m, r)
}

/// The links form a forest.
pub open spec fn forest(m: Map<u128, Node>) -> bool {
    linked(m) && acyclic(m)
}

/// One measure that witnesses `acyclic`.
pub open spec fn rank_of(m: Map<u128, Node>) -> spec_fn(u128) -> nat {
    choose|r: spec_fn(u128) -> nat| #[trigger] ranked(m, r)
}

/// The ancestors of `id`, nearest first: its parent, then the parent's
/// parent, up to the root.
pub open spec fn ancestors(m: Map<u128, Node>, id: u128) -> Seq<u128>
    decreases rank_of(m)(id),
    when forest(m) && m.contains_key(id)
{
    match m[id].parent {
        Some(p) => seq![p] + ancestors(m, p),
        None => Seq::empty(),
    }
}

/// `a` is a proper ancestor of `d`.
pub open spec fn is_ancestor(m: Map<u128, Node>, a: u128, d: u128) -> bool {
    m.contains_key(d) && ancestors(m, d).contains(a)
}

/// Every entity that has `id` among its ancestors.
pub open spec fn descendants(m: Map<u128, Node>, id: u128) -> Set<u128> {
    Set::new(|d: u128| is_ancestor(m, id, d))
}

/// The links after `e` has left its parent: `e` is a root, and its former
/// parent, if it had one, no longer lists it.
pub open spec fn detach(m: Map<u128, Node>, e: u128) -> Map<u128, Node> {
    match m[e].parent {
        Some(p) => m.insert(
            p,
            Node { parent: m[p].parent, children: m[p].children.remove_value(e) },
        ).insert(e, Node { parent: None, children: m[e].children }),
        None => m,
    }
}

/// The links after the root `e` has become the last child of `n`.
pub open spec fn attach(m: Map<u128, Node>, e: u128, n: u128) -> Map<u128, Node> {
    m.insert(n, Node { parent: m[n].parent, children: m[n].children.push(e) }).insert(
        e,
        Node { parent: Some(n), children: m[e].children },
    )
}

/// The links after `e` has been given the parent `n`, or none.
pub open spec fn reparent(m: Map<u128, Node>, e: u128, n: Option<u128>) -> Map<u128, Node> {
    match n {
        Some(n) => attach(detach(m, e), e, n),
        None => detach(m, e),
    }
}

/// Whether `e` may be given the parent `n`: both are known, and `n` is
/// neither `e` itself nor one of its descendants.
pub open spec fn may_adopt(m: Map<u128, Node>, e: u128, n: u128) -> bool {
    m.contains_key(e) && m.contains_key(n) && n != e && !is_ancestor(m, e, n)
}

/// The measure that `rank_of(m)` witnesses does grow along the parent links.
pub proof fn lemma_rank(m: Map<u128, Node>)
    requires
        acyclic(m),
    ensures
        ranked(m, rank_of(m)),
{
}

/// Every ancestor is known and lies strictly higher than the entity.
pub proof fn lemma_ancestors_known(m: Map<u128, Node>, id: u128)
    requires
        forest(m),
        m.contains_key(id),
    ensures
        forall|a: u128| #[trigger]
            ancestors(m, id).contains(a) ==> m.contains_key(a) && rank_of(m)(a) < rank_of(m)(id),
    decreases rank_of(m)(id),
{
    lemma_rank(m);
    match m[id].parent {
        Some(p) => {
            lemma_ancestors_known(m, p);
            assert forall|a: u128| #[trigger] ancestors(m, id).contains(a) implies m.contains_key(
                a,
            ) && rank_of(m)(a) < rank_of(m)(id) by {
                lemma_ancestor_step(m, a, id);
            }
        },
        None => {},
    }
}

/// An ancestor of `d` is the parent of `d` or an ancestor of that parent.
pub proof fn lemma_ancestor_step(m: Map<u128, Node>, a: u128, d: u128)
    requires
        forest(m),
        m.contains_key(d),
    ensures
        ancestors(m, d).contains(a) <==> m[d].parent is Some && (m[d].parent.unwrap() == a
            || ancestors(m, m[d].parent.unwrap()).contains(a)),
{
    match m[d].parent {
        Some(p) => {
            let rest = ancestors(m, p);
            let all = seq![p] + rest;
            assert(ancestors(m, d) == all);
            if all.contains(a) {
                let i = choose|i: int| 0 <= i < all.len() && all[i] == a;
                if i > 0 {
                    assert(rest[i - 1] == a);
                }
            }
            if p == a {
                assert(all[0] == a);
            }
            if rest.contains(a) {
                let j = choose|j: int| 0 <= j < rest.len() && rest[j] == a;
                assert(all[j + 1] == a);
            }
        },
        None => {},
    }
}

/// The `i`-th ancestor is the parent of the one before it, the first is the
/// parent of the entity itself, and the last has no parent.
pub proof fn lemma_ancestors_chain(m: Map<u128, Node>, id: u128)
    requires
        forest(m),
        m.contains_key(id),
    ensures
        ancestors(m, id).len() == 0 <==> m[id].parent is None,
        forall|i: int|
            0 <= i < ancestors(m, id).len() ==> m.contains_key(#[trigger] ancestors(m, id)[i]),
        forall|i: int|
            0 <= i < ancestors(m, id).len() ==> Some(#[trigger] ancestors(m, id)[i]) == (if i
                == 0 {
                m[id].parent
            } else {
                m[ancestors(m, id)[i - 1]].parent
            }),
        ancestors(m, id).len() > 0 ==> m[ancestors(m, id).last()].parent is None,
    decreases rank_of(m)(id),
{
    lemma_rank(m);
    if let Some(p) = m[id].parent {
        lemma_ancestors_chain(m, p);
        let rest = ancestors(m, p);
        let all = ancestors(m, id);
        assert(all == seq![p] + rest);
        assert(all[0] == p);
        assert forall|i: int| 0 <= i < all.len() implies m.contains_key(#[trigger] all[i]) by {
            if i > 0 {
                assert(all[i] == rest[i - 1]);
            }
        }
        assert forall|i: int| 0 <= i < all.len() implies Some(#[trigger] all[i]) == (if i == 0 {
            m[id].parent
        } else {
            m[all[i - 1]].parent
        }) by {
            if i > 0 {
                assert(all[i] == rest[i - 1]);
                if i > 1 {
                    assert(all[i - 1] == rest[i - 2]);
                }
            }
        }
        if rest.len() > 0 {
            assert(all.last() == rest.last());
        }
    }
}

/// An entity without children is nobody's ancestor.
pub proof fn lemma_childless(m: Map<u128, Node>, e: u128, d: u128)
    requires
        forest(m),
        m.contains_key(e),
        m.contains_key(d),
        m[e].children.len() == 0,
    ensures
        !is_ancestor(m, e, d),
    decreases rank_of(m)(d),
{
    lemma_rank(m);
    lemma_ancestor_step(m, e, d);
    if let Some(p) = m[d].parent {
        assert(m[p].children.contains(d));
        lemma_childless(m, e, p);
    }
}

/// No entity is among its own ancestors.
pub proof fn lemma_not_own_ancestor(m: Map<u128, Node>, id: u128)
    requires
        forest(m),
        m.contains_key(id),
    ensures
        !ancestors(m, id).contains(id),
{
    lemma_ancestors_known(m, id);
}

/// What a sequence holds once `x` has been pushed onto it.
pub proof fn lemma_push(s: Seq<u128>, x: u128)
    ensures
        forall|y: u128| #[trigger] s.push(x).contains(y) <==> s.contains(y) || y == x,
        s.no_duplicates() && !s.contains(x) ==> s.push(x).no_duplicates(),
{
    let t = s.push(x);
    assert(t[s.len() as int] == x);
    assert forall|y: u128| #[trigger] t.contains(y) <==> s.contains(y) || y == x by {
        if s.contains(y) {
            let i = choose|i: int| 0 <= i < s.len() && s[i] == y;
            assert(t[i] == y);
        }
        if t.contains(y) && y != x {
            let i = choose|i: int| 0 <= i < t.len() && t[i] == y;
            assert(s[i] == y);
        }
    }
    if s.no_duplicates() && !s.contains(x) {
        assert forall|i: int, j: int| 0 <= i < t.len() && 0 <= j < t.len() && i != j implies t[i]
            != t[j] by {
            if i < s.len() {
                assert(s[i] == t[i]);
            }
            if j < s.len() {
                assert(s[j] == t[j]);
            }
        }
    }
}

/// What is left of a duplicate-free sequence once `x` is taken out of it.
pub proof fn lemma_remove_value(s: Seq<u128>, x: u128)
    requires
        s.no_duplicates(),
    ensures
        s.remove_value(x).no_duplicates(),
        !s.remove_value(x).contains(x),
        forall|y: u128| y != x ==> (#[trigger] s.remove_value(x).contains(y) <==> s.contains(y)),
{
    s.index_of_first_ensures(x);
    match s.index_of_first(x) {
        Some(i) => {
            let t = s.remove(i);
            s.remove_ensures(i);
            assert(t == s.remove_value(x));
            assert forall|a: int, b: int| 0 <= a < t.len() && 0 <= b < t.len() && a != b implies t[a]
                != t[b] by {
                let a0 = if a < i { a } else { a + 1 };
                let b0 = if b < i { b } else { b + 1 };
                assert(t[a] == s[a0] && t[b] == s[b0]);
            }
            if t.contains(x) {
                let a = choose|a: int| 0 <= a < t.len() && t[a] == x;
                let a0 = if a < i { a } else { a + 1 };
                assert(t[a] == s[a0]);
            }
            assert forall|y: u128| y != x implies (#[trigger] t.contains(y) <==> s.contains(y)) by {
                if t.contains(y) {
                    let a = choose|a: int| 0 <= a < t.len() && t[a] == y;
                    let a0 = if a < i { a } else { a + 1 };
                    assert(t[a] == s[a0]);
                }
                if s.contains(y) {
                    let b = choose|b: int| 0 <= b < s.len() && s[b] == y;
                    let b0 = if b < i { b } else { b - 1 };
                    assert(t[b0] == s[b]);
                }
            }
        },
        None => {},
    }
}

/// Detaching keeps the links consistent.
pub proof fn lemma_detach_forest(m: Map<u128, Node>, e: u128)
    requires
        forest(m),
        m.contains_key(e),
    ensures
        forest(detach(m, e)),
        detach(m, e).dom() == m.dom(),
        detach(m, e)[e].parent is None,
        detach(m, e)[e].children == m[e].children,
        forall|c: u128| c != e ==> (#[trigger] detach(m, e)[c]).parent == m[c].parent,
{
    let m1 = detach(m, e);
    lemma_rank(m);
    let r = rank_of(m);
    match m[e].parent {
        Some(p) => {
            lemma_remove_value(m[p].children, e);
            assert(m1.dom() =~= m.dom());
            assert(p != e);
            assert forall|c: u128| #[trigger] m1.contains_key(c) implies match m1[c].parent {
                Some(q) => m1.contains_key(q) && m1[q].children.contains(c),
                None => true,
            } by {
                assert(m.contains_key(c));
                if c != e {
                    if let Some(q) = m[c].parent {
                        assert(m[q].children.contains(c));
                    }
                }
            }
            assert forall|x: u128, i: int|
                m1.contains_key(x) && 0 <= i < m1[x].children.len() implies m1.contains_key(
                #[trigger] m1[x].children[i],
            ) && m1[m1[x].children[i]].parent == Some(x) by {
                let k = m1[x].children[i];
                assert(m.contains_key(x));
                if x == p {
                    assert(m1[p].children.contains(k));
                    assert(m[p].children.contains(k));
                    let j = choose|j: int| 0 <= j < m[p].children.len() && m[p].children[j] == k;
                    assert(m.contains_key(m[p].children[j]));
                } else {
                    assert(m.contains_key(m[x].children[i]));
                    assert(m.contains_key(k));
                    if k == e {
                        assert(m[e].parent == Some(x));
                    }
                }
            }
            assert forall|x: u128| #[trigger] m1.contains_key(x) implies m1[x].children.no_duplicates() by {
                assert(m.contains_key(x));
            }
            assert forall|c: u128| #[trigger]
                m1.contains_key(c) && m1[c].parent is Some implies r(m1[c].parent.unwrap()) < r(
                c,
            ) by {
                assert(m.contains_key(c));
            }
            assert(ranked(m1, r));
        },
        None => {},
    }
}

/// Attaching a root under another known entity keeps the parent and child
/// links in agreement.
pub proof fn lemma_attach_linked(m: Map<u128, Node>, e: u128, n: u128)
    requires
        linked(m),
        m.contains_key(e),
        m.contains_key(n),
        m[e].parent is None,
        n != e,
    ensures
        linked(attach(m, e, n)),
        attach(m, e, n).dom() == m.dom(),
{
    let m2 = attach(m, e, n);
    assert(m2.dom() =~= m.dom());
    let kids = m[n].children;
    if kids.contains(e) {
        let j = choose|j: int| 0 <= j < kids.len() && kids[j] == e;
        assert(m.contains_key(m[n].children[j]));
    }
    assert(kids.push(e).no_duplicates());
    assert(kids.push(e)[kids.len() as int] == e);
    assert forall|c: u128| #[trigger] m2.contains_key(c) implies match m2[c].parent {
        Some(q) => m2.contains_key(q) && m2[q].children.contains(c),
        None => true,
    } by {
        assert(m.contains_key(c));
        if c != e {
            if let Some(q) = m[c].parent {
                assert(m[q].children.contains(c));
                if q == n {
                    let j = choose|j: int| 0 <= j < kids.len() && kids[j] == c;
                    assert(kids.push(e)[j] == c);
                }
            }
        }
    }
    assert forall|x: u128, i: int|
        m2.contains_key(x) && 0 <= i < m2[x].children.len() implies m2.contains_key(
        #[trigger] m2[x].children[i],
    ) && m2[m2[x].children[i]].parent == Some(x) by {
        let k = m2[x].children[i];
        assert(m.contains_key(x));
        if x == n && i == kids.len() {
        } else {
            assert(k == m[x].children[i]);
            assert(m.contains_key(m[x].children[i]));
        }
    }
    assert forall|x: u128| #[trigger] m2.contains_key(x) implies m2[x].children.no_duplicates() by {
        assert(m.contains_key(x));
    }
}

/// Giving `e` a parent that is neither `e` nor below `e` closes no cycle.
pub proof fn lemma_reparent_forest(m: Map<u128, Node>, e: u128, n: Option<u128>)
    requires
        forest(m),
        m.contains_key(e),
        n is Some ==> may_adopt(m, e, n.unwrap()),
    ensures
        forest(reparent(m, e, n)),
        reparent(m, e, n).dom() == m.dom(),
{
    let m1 = detach(m, e);
    lemma_detach_forest(m, e);
    if let Some(n) = n {
        let m2 = attach(m1, e, n);
        lemma_attach_linked(m1, e, n);
        lemma_rank(m);
        let r = rank_of(m);
        let below = |x: u128| x == e || ancestors(m, x).contains(e);
        let r2 = |x: u128| if below(x) { (r(x) + r(n) + 1) as nat } else { r(x) };
        assert forall|c: u128| #[trigger]
            m2.contains_key(c) && m2[c].parent is Some implies r2(m2[c].parent.unwrap()) < r2(
            c,
        ) by {
            assert(m.contains_key(c));
            if c == e {
                assert(!below(n));
            } else {
                assert(m2[c].parent == m1[c].parent);
                assert(m1[c].parent == m[c].parent);
                let q = m[c].parent.unwrap();
                lemma_ancestor_step(m, e, c);
                assert(below(c) <==> below(q));
            }
        }
        assert(ranked(m2, r2));
    }
}

} // verus!
