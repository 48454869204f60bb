//! Which pages are in use after a tree has changed.
use vstd::prelude::*;

use crate::storage::page::PageView;
use crate::storage::tree::{cut_left, cut_right, join, merge, node_owns, owns, rotate, Tree};

verus! {

/// Every page in use belongs to one of the trees that a tree has become, or was in use and belonged to no
/// part of it: no page is left behind.
pub open spec fn tidy(m: Map<u32, PageView>, m2: Map<u32, PageView>, t: Tree, a: Tree, b: Tree) -> bool {
    forall|x: u32| #[trigger] m2.contains_key(x) ==> owns(a, x) || owns(b, x) || (m.contains_key(x) && !owns(t, x))
}

/// One change after the other.
pub proof fn tidy_twice(
    m: Map<u32, PageView>,
    m1: Map<u32, PageView>,
    m2: Map<u32, PageView>,
    t: Tree,
    c: Tree,
    a: Tree,
    b: Tree,
)
    requires
        tidy(m, m1, t, c, c),
        tidy(m1, m2, c, a, b),
    ensures
        tidy(m, m2, t, a, b),
{
    assert forall|x: u32| #[trigger] m2.contains_key(x) implies owns(a, x) || owns(b, x) || (m.contains_key(x) && !owns(
        t,
        x,
    )) by {
        if !owns(a, x) && !owns(b, x) {
            assert(m1.contains_key(x));
        }
    }
}

/// A child of a node has become another tree.
pub proof fn tidy_kid(
    m: Map<u32, PageView>,
    m1: Map<u32, PageView>,
    id: u32,
    keys: Seq<Seq<u8>>,
    kids: Seq<Tree>,
    i: int,
    g: Tree,
)
    requires
        0 <= i < kids.len(),
        tidy(m, m1, kids[i], g, g),
    ensures
        ({
            let t = Tree::Node { id, keys, kids };
            let t2 = Tree::Node { id, keys, kids: kids.update(i, g) };
            tidy(m, m1, t, t2, t2)
        }),
{
    let t = Tree::Node { id, keys, kids };
    let kids2 = kids.update(i, g);
    let t2 = Tree::Node { id, keys, kids: kids2 };
    assert forall|x: u32| #[trigger] m1.contains_key(x) implies owns(t2, x) || (m.contains_key(x) && !owns(t, x)) by {
        node_owns(id, keys, kids, x);
        node_owns(id, keys, kids2, x);
        if owns(g, x) {
            assert(owns(kids2[i], x));
        } else if owns(t, x) && x != id {
            let j = choose|j: int| 0 <= j < kids.len() && owns(#[trigger] kids[j], x);
            assert(owns(kids2[j], x));
        }
    }
}

/// A child of a node has become two trees.
pub proof fn tidy_split_kid(
    m: Map<u32, PageView>,
    m1: Map<u32, PageView>,
    id: u32,
    keys: Seq<Seq<u8>>,
    keys2: Seq<Seq<u8>>,
    kids: Seq<Tree>,
    i: int,
    a: Tree,
    b: Tree,
)
    requires
        0 <= i < kids.len(),
        tidy(m, m1, kids[i], a, b),
    ensures
        ({
            let t = Tree::Node { id, keys, kids };
            let c = Tree::Node { id, keys: keys2, kids: kids.update(i, a).insert(i + 1, b) };
            tidy(m, m1, t, c, c)
        }),
{
    let t = Tree::Node { id, keys, kids };
    let kids2 = kids.update(i, a).insert(i + 1, b);
    let c = Tree::Node { id, keys: keys2, kids: kids2 };
    assert forall|x: u32| #[trigger] m1.contains_key(x) implies owns(c, x) || (m.contains_key(x) && !owns(t, x)) by {
        node_owns(id, keys, kids, x);
        node_owns(id, keys2, kids2, x);
        if owns(a, x) {
            assert(owns(kids2[i], x));
        } else if owns(b, x) {
            assert(owns(kids2[i + 1], x));
        } else if owns(t, x) && x != id {
            let j = choose|j: int| 0 <= j < kids.len() && owns(#[trigger] kids[j], x);
            let j2 = if j < i {
                j
            } else {
                j + 1
            };
            assert(j != i);
            assert(kids2[j2] == kids[j]);
            assert(owns(kids2[j2], x));
        }
    }
}

proof fn leaf_owns(t: Tree, x: u32)
    requires
        t is Leaf,
    ensures
        owns(t, x) <==> x == t.id(),
{
}

/// The pages of a node that is cut go to its two parts.
pub proof fn cut_owns(c: Tree, m: int, rid: u32, x: u32)
    requires
        owns(c, x),
        c is Node ==> 0 <= m < c->kids.len(),
    ensures
        owns(cut_left(c, m, rid), x) || owns(cut_right(c, m, rid), x),
{
    match c {
        Tree::Leaf { id, .. } => {
            assert(x == id);
            assert(cut_left(c, m, rid).id() == id);
            leaf_owns(cut_left(c, m, rid), x);
        },
        Tree::Node { id, keys, kids } => {
            node_owns(id, keys, kids, x);
            node_owns(id, keys.take(m), kids.take(m + 1), x);
            node_owns(rid, keys.skip(m + 1), kids.skip(m + 1), x);
            if x != id {
                let j = choose|j: int| 0 <= j < kids.len() && owns(#[trigger] kids[j], x);
                if j < m + 1 {
                    assert(owns(kids.take(m + 1)[j], x));
                } else {
                    assert(owns(kids.skip(m + 1)[j - m - 1], x));
                }
            }
        },
    }
}

proof fn join_owns(a: Tree, sep: Seq<u8>, b: Tree, x: u32)
    requires
        a is Leaf <==> b is Leaf,
        owns(a, x) || owns(b, x),
        x != b.id(),
    ensures
        owns(join(a, sep, b), x),
{
    match (a, b) {
        (Tree::Node { id, keys, kids }, Tree::Node { id: id2, keys: keys2, kids: kids2 }) => {
            let all = kids + kids2;
            node_owns(id, keys, kids, x);
            node_owns(id2, keys2, kids2, x);
            node_owns(id, keys.push(sep) + keys2, all, x);
            if x != id {
                if owns(a, x) {
                    let j = choose|j: int| 0 <= j < kids.len() && owns(#[trigger] kids[j], x);
                    assert(owns(all[j], x));
                } else {
                    let j = choose|j: int| 0 <= j < kids2.len() && owns(#[trigger] kids2[j], x);
                    assert(all[kids.len() + j] == kids2[j]);
                    assert(owns(all[kids.len() + j], x));
                }
            }
        },
        _ => {
            leaf_owns(a, x);
            leaf_owns(b, x);
            leaf_owns(join(a, sep, b), x);
        },
    }
}

/// Moving keys between children keeps all pages of a node.
pub proof fn rotate_owns(t: Tree, i: int, at: int, x: u32)
    requires
        t is Node,
        0 <= i,
        i + 1 < t->kids.len(),
        t->kids[i] is Leaf <==> t->kids[i + 1] is Leaf,
        t->kids[i] is Node ==> 0 <= at < t->kids[i]->kids.len() + t->kids[i + 1]->kids.len(),
        owns(t, x),
    ensures
        owns(rotate(t, i, at), x),
{
    let a = t->kids[i];
    let b = t->kids[i + 1];
    let c = join(a, t->Node_keys[i], b);
    let g = rotate(t, i, at);
    node_owns(t.id(), t->Node_keys, t->kids, x);
    node_owns(g.id(), g->Node_keys, g->kids, x);
    if x != t.id() {
        let j = choose|j: int| 0 <= j < t->kids.len() && owns(#[trigger] t->kids[j], x);
        if j != i && j != i + 1 {
            assert(g->kids[j] == t->kids[j]);
            assert(owns(g->kids[j], x));
        } else if x == b.id() {
            assert(g->kids[i + 1].id() == x);
            assert(owns(g->kids[i + 1], x));
        } else {
            join_owns(a, t->Node_keys[i], b, x);
            cut_owns(c, at, b.id(), x);
            assert(owns(g->kids[i], x) || owns(g->kids[i + 1], x));
        }
    }
}

/// Joining a child to the one before it keeps all pages of a node but that of the child.
pub proof fn merge_owns(t: Tree, i: int, x: u32)
    requires
        t is Node,
        0 <= i,
        i + 1 < t->kids.len(),
        t->kids[i] is Leaf <==> t->kids[i + 1] is Leaf,
        owns(t, x),
        x != t->kids[i + 1].id(),
    ensures
        owns(merge(t, i), x),
{
    let g = merge(t, i);
    let c = join(t->kids[i], t->Node_keys[i], t->kids[i + 1]);
    node_owns(t.id(), t->Node_keys, t->kids, x);
    node_owns(g.id(), g->Node_keys, g->kids, x);
    if x != t.id() {
        let j = choose|j: int| 0 <= j < t->kids.len() && owns(#[trigger] t->kids[j], x);
        if j == i || j == i + 1 {
            join_owns(t->kids[i], t->Node_keys[i], t->kids[i + 1], x);
            assert(g->kids[i] == c);
            assert(owns(g->kids[i], x));
        } else {
            let j2 = if j < i {
                j
            } else {
                j - 1
            };
            assert(g->kids[j2] == t->kids[j]);
            assert(owns(g->kids[j2], x));
        }
    }
}

} // verus!
