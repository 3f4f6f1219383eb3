//! The document tree as an arena: nodes are numbered, node 0 is the root, and
//! every other node carries a higher number than its parent.

use crate::builder::{dom_root, node_children, root_of};
use html5ever::rcdom::{Node, RcDom};
use std::rc::Rc;
use vstd::prelude::*;

verus! {

/// The shape of a finished document: for each node its parent and the ordered
/// list of its children.
pub struct Document {
    parents: Vec<usize>,
    children: Vec<Vec<usize>>,
}

impl Document {
    /// The number of nodes.
    pub closed spec fn size(&self) -> int {
        self.parents@.len() as int
    }

    /// The parent of node `n`; the root is its own parent.
    pub closed spec fn parent_of(&self, n: int) -> int {
        self.parents@[n] as int
    }

    /// The children of node `n`, in document order.
    pub closed spec fn children_of(&self, n: int) -> Seq<usize> {
        self.children@[n]@
    }

    /// The representation is consistent: one child list per node.
    pub closed spec fn consistent(&self) -> bool {
        self.parents@.len() == self.children@.len()
    }

    /// The arena holds a tree rooted at node 0: every other node lies after
    /// its parent and occurs exactly once, in its parent's child list, and
    /// each child list is in ascending order.
    pub open spec fn wf(&self) -> bool {
        &&& self.consistent()
        &&& 1 <= self.size() <= usize::MAX
        &&& self.parent_of(0) == 0
        &&& forall|n: int| 0 < n < self.size() ==> 0 <= #[trigger] self.parent_of(n) < n
        &&& forall|p: int, j: int|
            0 <= p < self.size() && 0 <= j < self.children_of(p).len() ==> {
                &&& 0 < (#[trigger] self.children_of(p)[j]) < self.size()
                &&& self.parent_of(self.children_of(p)[j] as int) == p
            }
        &&& forall|p: int, j: int, k: int|
            0 <= p < self.size() && 0 <= j < k < self.children_of(p).len()
                ==> (#[trigger] self.children_of(p)[j]) < (#[trigger] self.children_of(p)[k])
        &&& forall|n: int|
            0 < n < self.size() ==> self.children_of(
                #[trigger] self.parent_of(n),
            ).contains(n as usize)
    }

    /// The nodes are numbered level by level, and within a level in the order
    /// of their parents: of two nodes, the later one's parent is not the
    /// earlier.
    pub open spec fn level_numbered(&self) -> bool {
        forall|m: int, n: int|
            0 < m <= n < self.size() ==> #[trigger] self.parent_of(m) <= #[trigger] self.parent_of(
                n,
            )
    }

    /// The number of edges between node `n` and the root.
    pub open spec fn depth(&self, n: int) -> nat
        decreases n,
    {
        if n <= 0 || self.parent_of(n) < 0 || self.parent_of(n) >= n {
            0
        } else {
            1 + self.depth(self.parent_of(n))
        }
    }

    /// A document that holds the root alone.
    pub fn new() -> (doc: Document)
        ensures
            doc.wf(),
            doc.size() == 1,
            doc.children_of(0) == Seq::<usize>::empty(),
    {
        let mut parents: Vec<usize> = Vec::new();
        parents.push(0);
        let mut children: Vec<Vec<usize>> = Vec::new();
        children.push(Vec::new());
        Document { parents, children }
    }

    /// The number of nodes.
    pub fn len(&self) -> (n: usize)
        requires
            self.wf(),
        ensures
            n == self.size(),
            n >= 1,
    {
        self.parents.len()
    }

    /// The parent of node `id`; the root is its own parent.
    pub fn parent(&self, id: usize) -> (p: usize)
        requires
            self.wf(),
            id < self.size(),
        ensures
            p == self.parent_of(id as int),
    {
        self.parents[id]
    }

    /// The children of node `id`, in document order.
    pub fn children(&self, id: usize) -> (kids: &Vec<usize>)
        requires
            self.wf(),
            id < self.size(),
        ensures
            kids@ == self.children_of(id as int),
    {
        &self.children[id]
    }

    /// Appends a new node as the last child of `parent` and returns its
    /// number, which is the number of nodes before the call.
    pub fn add_child(&mut self, parent: usize) -> (id: usize)
        requires
            old(self).wf(),
            parent < old(self).size(),
            old(self).size() < usize::MAX,
        ensures
            final(self).wf(),
            id == old(self).size(),
            final(self).size() == old(self).size() + 1,
            final(self).parent_of(id as int) == parent,
            final(self).children_of(id as int) == Seq::<usize>::empty(),
            final(self).children_of(parent as int) == old(self).children_of(parent as int).push(id),
            forall|n: int|
                0 <= n < old(self).size() ==> final(self).parent_of(n) == old(self).parent_of(n),
            forall|n: int|
                0 <= n < old(self).size() && n != parent ==> final(self).children_of(n) == old(
                    self,
                ).children_of(n),
    {
        let id: usize = self.parents.len();
        self.parents.push(parent);
        self.children.push(Vec::new());
        let mut kids: Vec<usize> = Vec::new();
        self.children.set_and_swap(parent, &mut kids);
        kids.push(id);
        self.children.set(parent, kids);
        proof {
            let before = *old(self);
            let after = *self;
            assert forall|n: int| 0 < n < after.size() implies 0 <= #[trigger] after.parent_of(n)
                < n by {
                if n != id {
                    assert(after.parent_of(n) == before.parent_of(n));
                }
            }
            assert forall|n: int| 0 < n < after.size() implies after.children_of(
                #[trigger] after.parent_of(n),
            ).contains(n as usize) by {
                if n == id {
                    let last = before.children_of(parent as int).len() as int;
                    assert(after.children_of(parent as int)[last] == id);
                } else {
                    let p = before.parent_of(n);
                    assert(before.children_of(p).contains(n as usize));
                    let j = choose|j: int|
                        0 <= j < before.children_of(p).len() && before.children_of(p)[j]
                            == n as usize;
                    assert(after.children_of(p)[j] == n as usize);
                }
            }
            assert forall|p: int, j: int|
                0 <= p < after.size() && 0 <= j < after.children_of(p).len() implies {
                &&& 0 < (#[trigger] after.children_of(p)[j]) < after.size()
                &&& after.parent_of(after.children_of(p)[j] as int) == p
            } by {
                if p == parent && j == before.children_of(p).len() {
                } else {
                    assert(after.children_of(p)[j] == before.children_of(p)[j]);
                }
            }
            assert forall|p: int, j: int, k: int|
                0 <= p < after.size() && 0 <= j < k < after.children_of(p).len() implies (
            #[trigger] after.children_of(p)[j]) < (#[trigger] after.children_of(p)[k]) by {
                assert(after.children_of(p)[j] == before.children_of(p)[j]);
                if p == parent && k == before.children_of(p).len() {
                } else {
                    assert(after.children_of(p)[k] == before.children_of(p)[k]);
                }
            }
        }
        id
    }

    /// Reads the shape of a parsed document off its nodes, level by level.
    /// Node 0 is the document's root, and a node's children are numbered in
    /// their order, after every node that was met before them. With the
    /// document comes the handle of each node, at the node's number, the
    /// root's first. Each node's children are read once, when its turn comes;
    /// the result is `None` if a list could not be read then, because another
    /// holder of the node was changing it.
    pub fn from_dom(dom: &RcDom) -> (out: Option<(Document, Vec<Rc<Node>>)>)
        ensures
            out matches Some((doc, handles)) ==> {
                &&& doc.wf()
                &&& doc.level_numbered()
                &&& handles@.len() == doc.size()
                &&& handles@[0] == root_of(*dom)
            },
    {
        let mut doc = Document::new();
        let mut handles: Vec<Rc<Node>> = Vec::new();
        handles.push(dom_root(dom));
        let mut i: usize = 0;
        while i < handles.len()
            invariant
                doc.wf(),
                doc.level_numbered(),
                forall|n: int| 0 < n < doc.size() ==> #[trigger] doc.parent_of(n) < i,
                handles@.len() == doc.size(),
                handles@[0] == root_of(*dom),
            decreases usize::MAX - i,
        {
            let kids = match node_children(&handles[i]) {
                Some(kids) => kids,
                None => {
                    return None;
                },
            };
            let ghost before = doc;
            doc.adopt(&mut handles, i, kids);
            proof {
                assert forall|n: int| 0 < n < doc.size() implies #[trigger] doc.parent_of(n)
                    <= i by {
                    if n < before.size() {
                        assert(doc.parent_of(n) == before.parent_of(n));
                    }
                }
                assert forall|m: int, n: int| 0 < m <= n < doc.size() implies
                    #[trigger] doc.parent_of(m) <= #[trigger] doc.parent_of(n) by {
                    if n < before.size() {
                        assert(doc.parent_of(m) == before.parent_of(m));
                        assert(doc.parent_of(n) == before.parent_of(n));
                    }
                }
            }
            i += 1;
        }
        Some((doc, handles))
    }

    /// Takes `kids`, the handles of the children of node `parent` as its
    /// node holds them, into the document and into `handles`, which holds
    /// the handle of each node at the node's number: the children become new
    /// nodes under `parent`, numbered in their order from the number of nodes
    /// before the call, and their handles join `handles` in the same order.
    pub fn adopt(&mut self, handles: &mut Vec<Rc<Node>>, parent: usize, kids: Vec<Rc<Node>>)
        requires
            old(self).wf(),
            parent < old(self).size(),
            old(handles)@.len() == old(self).size(),
        ensures
            final(self).wf(),
            final(handles)@ == old(handles)@ + kids@,
            final(self).size() == old(self).size() + kids@.len(),
            final(self).children_of(parent as int) == old(self).children_of(parent as int)
                + Seq::new(kids@.len(), |k: int| (old(self).size() + k) as usize),
            forall|n: int|
                0 <= n < old(self).size() ==> #[trigger] final(self).parent_of(n) == old(
                    self,
                ).parent_of(n),
            forall|n: int|
                0 <= n < old(self).size() && n != parent ==> #[trigger] final(self).children_of(n)
                    == old(self).children_of(n),
            forall|n: int|
                #![trigger final(self).parent_of(n)]
                #![trigger final(self).children_of(n)]
                old(self).size() <= n < final(self).size() ==> {
                    &&& final(self).parent_of(n) == parent
                    &&& final(self).children_of(n) == Seq::<usize>::empty()
                },
    {
        let mut kids = kids;
        let count: usize = kids.len();
        handles.append(&mut kids);
        let total: usize = handles.len();
        assert(self.size() + count == total);
        self.add_children(parent, count);
    }

    /// Appends `count` new nodes as the next children of `parent`. They take
    /// the numbers that follow the last node, in order, and have no children
    /// of their own; nothing else changes.
    pub fn add_children(&mut self, parent: usize, count: usize)
        requires
            old(self).wf(),
            parent < old(self).size(),
            old(self).size() + count <= usize::MAX,
        ensures
            final(self).wf(),
            final(self).size() == old(self).size() + count,
            final(self).children_of(parent as int) == old(self).children_of(parent as int)
                + Seq::new(count as nat, |k: int| (old(self).size() + k) as usize),
            forall|n: int|
                0 <= n < old(self).size() ==> #[trigger] final(self).parent_of(n) == old(
                    self,
                ).parent_of(n),
            forall|n: int|
                0 <= n < old(self).size() && n != parent ==> #[trigger] final(self).children_of(n)
                    == old(self).children_of(n),
            forall|n: int|
                #![trigger final(self).parent_of(n)]
                #![trigger final(self).children_of(n)]
                old(self).size() <= n < final(self).size() ==> {
                    &&& final(self).parent_of(n) == parent
                    &&& final(self).children_of(n) == Seq::<usize>::empty()
                },
    {
        let ghost start = *self;
        let mut j: usize = 0;
        proof {
            assert(start.children_of(parent as int) + Seq::new(
                0,
                |k: int| (start.size() + k) as usize,
            ) =~= start.children_of(parent as int));
        }
        while j < count
            invariant
                start.wf(),
                parent < start.size(),
                start.size() + count <= usize::MAX,
                self.wf(),
                j <= count,
                self.size() == start.size() + j,
                self.children_of(parent as int) == start.children_of(parent as int) + Seq::new(
                    j as nat,
                    |k: int| (start.size() + k) as usize,
                ),
                forall|n: int|
                    0 <= n < start.size() ==> #[trigger] self.parent_of(n) == start.parent_of(n),
                forall|n: int|
                    0 <= n < start.size() && n != parent ==> #[trigger] self.children_of(n)
                        == start.children_of(n),
                forall|n: int|
                    #![trigger self.parent_of(n)]
                    #![trigger self.children_of(n)]
                    start.size() <= n < self.size() ==> {
                        &&& self.parent_of(n) == parent
                        &&& self.children_of(n) == Seq::<usize>::empty()
                    },
            decreases count - j,
        {
            let ghost before = *self;
            let id = self.add_child(parent);
            proof {
                assert(Seq::new(j as nat, |k: int| (start.size() + k) as usize).push(id)
                    =~= Seq::new((j + 1) as nat, |k: int| (start.size() + k) as usize));
                assert((start.children_of(parent as int) + Seq::new(
                    j as nat,
                    |k: int| (start.size() + k) as usize,
                )).push(id) =~= start.children_of(parent as int) + Seq::new(
                    (j + 1) as nat,
                    |k: int| (start.size() + k) as usize,
                ));
                assert forall|n: int| 0 <= n < start.size() implies #[trigger] self.parent_of(n)
                    == start.parent_of(n) by {
                    assert(self.parent_of(n) == before.parent_of(n));
                }
                assert forall|n: int| 0 <= n < start.size() && n != parent implies
                    #[trigger] self.children_of(n) == start.children_of(n) by {
                    assert(self.children_of(n) == before.children_of(n));
                }
                assert forall|n: int|
                    #![trigger self.parent_of(n)]
                    #![trigger self.children_of(n)]
                    start.size() <= n < self.size() implies {
                    &&& self.parent_of(n) == parent
                    &&& self.children_of(n) == Seq::<usize>::empty()
                } by {
                    if n < before.size() {
                        assert(self.parent_of(n) == before.parent_of(n));
                        assert(self.children_of(n) == before.children_of(n));
                    }
                }
            }
            j += 1;
        }
    }
}

} // verus!
