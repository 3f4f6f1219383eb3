//! Breadth-first traversal of a document, and the two adapters that hand its
//! nodes out one at a time.

use crate::document::Document;
use std::collections::VecDeque;
use vstd::prelude::*;

verus! {

/// Node `n` occurs among the first `upto` entries of `order`.
pub open spec fn seen(order: Seq<usize>, upto: int, n: int) -> bool {
    exists|i: int| 0 <= i < upto && #[trigger] order[i] == n
}

/// What holds of a breadth-first walk in every state. `order` lists the nodes
/// met so far: the first `done` of them have been handed out, the rest wait.
/// No node is listed twice, depths never fall along the list, the waiting
/// nodes span at most two levels, and a node is listed exactly when it is the
/// root or its parent has been handed out.
pub open spec fn walk_inv(doc: Document, order: Seq<usize>, done: int) -> bool {
    &&& doc.wf()
    &&& 0 <= done <= order.len()
    &&& forall|i: int| 0 <= i < order.len() ==> (#[trigger] order[i]) < doc.size()
    &&& forall|i: int, j: int|
        0 <= i < j < order.len() ==> (#[trigger] order[i]) != (#[trigger] order[j])
    &&& forall|i: int, j: int|
        0 <= i < j < order.len() ==> doc.depth((#[trigger] order[i]) as int) <= doc.depth(
            (#[trigger] order[j]) as int,
        )
    &&& done < order.len() ==> doc.depth(order[order.len() - 1] as int) <= doc.depth(
        order[done] as int,
    ) + 1
    &&& forall|n: int|
        0 <= n < doc.size() ==> (#[trigger] seen(order, order.len() as int, n) <==> (n == 0
            || seen(order, done, doc.parent_of(n))))
    &&& doc.level_numbered() ==> in_number_order(order)
}

/// Every entry of `order` is its own position.
pub open spec fn in_number_order(order: Seq<usize>) -> bool {
    forall|i: int| 0 <= i < order.len() ==> #[trigger] order[i] == i
}

/// An ascending list that starts no lower than `base` and holds every number
/// from `base` to its last entry is the run `base`, `base + 1`, and so on.
pub proof fn lemma_dense_ascending(s: Seq<usize>, base: int, a: int)
    requires
        forall|j: int, k: int| 0 <= j < k < s.len() ==> (#[trigger] s[j]) < (#[trigger] s[k]),
        forall|j: int| 0 <= j < s.len() ==> (#[trigger] s[j]) >= base,
        forall|m: int| base <= m <= s[s.len() - 1] ==> #[trigger] seen(s, s.len() as int, m),
        0 <= a < s.len(),
    ensures
        s[a] == base + a,
    decreases a,
{
    let last = s.len() - 1;
    if a > 0 {
        lemma_dense_ascending(s, base, a - 1);
    }
    let m = base + a;
    assert(s[a] >= m) by {
        if a > 0 {
            assert(s[a - 1] < s[a]);
        }
    }
    assert(s[a] <= s[last]) by {
        if a < last {
            assert(s[a] < s[last]);
        }
    }
    assert(seen(s, s.len() as int, m));
    let j = choose|j: int| 0 <= j < s.len() && #[trigger] s[j] == m;
    if j < a {
        if j < a - 1 {
            assert(s[j] < s[a - 1]);
        }
    } else if j > a {
        assert(s[a] < s[j]);
    }
}

/// A list without repeats that holds every number below `m` and no other has
/// `m` entries.
pub proof fn lemma_full_list_len(s: Seq<usize>, m: int)
    requires
        0 <= m,
        forall|i: int| 0 <= i < s.len() ==> (#[trigger] s[i]) < m,
        forall|i: int, j: int| 0 <= i < j < s.len() ==> (#[trigger] s[i]) != (#[trigger] s[j]),
        forall|n: int| 0 <= n < m ==> #[trigger] seen(s, s.len() as int, n),
    ensures
        s.len() == m,
    decreases m,
{
    if m == 0 {
        if s.len() > 0 {
            assert(s[0] < m);
        }
    } else {
        assert(seen(s, s.len() as int, m - 1));
        let k = choose|k: int| 0 <= k < s.len() && #[trigger] s[k] == m - 1;
        let t = Seq::new(
            (s.len() - 1) as nat,
            |i: int|
                if i < k {
                    s[i]
                } else {
                    s[i + 1]
                },
        );
        assert forall|i: int| 0 <= i < t.len() implies (#[trigger] t[i]) < m - 1 by {
            if i < k {
                assert(s[i] != s[k]);
            } else {
                assert(s[k] != s[i + 1]);
            }
        }
        assert forall|i: int, j: int| 0 <= i < j < t.len() implies (#[trigger] t[i]) != (
        #[trigger] t[j]) by {
            let si = if i < k { i } else { i + 1 };
            let sj = if j < k { j } else { j + 1 };
            assert(s[si] != s[sj]);
        }
        assert forall|n: int| 0 <= n < m - 1 implies #[trigger] seen(t, t.len() as int, n) by {
            assert(seen(s, s.len() as int, n));
            let i = choose|i: int| 0 <= i < s.len() && #[trigger] s[i] == n;
            if i < k {
                assert(t[i] == n);
            } else {
                assert(t[i - 1] == n);
            }
        }
        lemma_full_list_len(t, m - 1);
    }
}

/// A child lies one level below its parent.
pub proof fn lemma_child_depth(doc: Document, p: int, j: int)
    requires
        doc.wf(),
        0 <= p < doc.size(),
        0 <= j < doc.children_of(p).len(),
    ensures
        doc.depth(doc.children_of(p)[j] as int) == doc.depth(p) + 1,
{
    let c = doc.children_of(p)[j] as int;
    assert(doc.parent_of(c) == p);
    assert(0 <= doc.parent_of(c) < c);
}

/// A walk that has only met the root satisfies the invariant.
pub proof fn lemma_walk_start(doc: Document)
    requires
        doc.wf(),
    ensures
        walk_inv(doc, seq![0usize], 0),
{
    let order = seq![0usize];
    assert forall|n: int| 0 <= n < doc.size() implies (#[trigger] seen(
        order,
        order.len() as int,
        n,
    ) <==> (n == 0 || seen(order, 0, doc.parent_of(n)))) by {
        if n == 0 {
            assert(order[0] == 0);
        }
    }
}

/// In a document that is numbered level by level, a walk that has kept to the
/// order of the numbers goes on in it: the children of the first waiting node
/// are the numbers that follow the last one listed.
pub proof fn lemma_walk_step_numbered(doc: Document, order: Seq<usize>, done: int)
    requires
        walk_inv(doc, order, done),
        done < order.len(),
        doc.level_numbered(),
    ensures
        in_number_order(order + doc.children_of(order[done] as int)),
{
    let x = order[done] as int;
    let kids = doc.children_of(x);
    let next = order + kids;
    let len = order.len() as int;
    assert(x == done);
    if kids.len() > 0 {
        let top = kids[kids.len() - 1] as int;
        assert forall|j: int| 0 <= j < kids.len() implies (#[trigger] kids[j]) >= len by {
            let c = kids[j] as int;
            if c < len {
                assert(order[c] == c);
                assert(seen(order, len, c));
                assert(doc.parent_of(c) == x);
                let k = choose|k: int| 0 <= k < done && #[trigger] order[k] == x;
                assert(order[k] == k);
            }
        }
        assert forall|m: int| len <= m <= top implies #[trigger] seen(
            kids,
            kids.len() as int,
            m,
        ) by {
            if seen(order, len, m) {
                let i = choose|i: int| 0 <= i < len && #[trigger] order[i] == m;
                assert(order[i] == i);
            }
            let p = doc.parent_of(m);
            assert(0 <= p < m);
            if p < done {
                assert(order[p] == p);
                assert(seen(order, done, p));
            }
            assert(doc.parent_of(top) == x);
            assert(p <= doc.parent_of(top));
            assert(kids.contains(m as usize));
            let a = choose|a: int| 0 <= a < kids.len() && kids[a] == m as usize;
            assert(kids[a] == m);
        }
        assert forall|i: int| 0 <= i < next.len() implies #[trigger] next[i] == i by {
            if i < len {
                assert(next[i] == order[i]);
            } else {
                lemma_dense_ascending(kids, len, i - len);
                assert(next[i] == kids[i - len]);
            }
        }
    } else {
        assert(next =~= order);
    }
}

/// One step of the walk keeps the invariant: the first waiting node is handed
/// out and its children join the end of the list.
pub proof fn lemma_walk_step(doc: Document, order: Seq<usize>, done: int)
    requires
        walk_inv(doc, order, done),
        done < order.len(),
    ensures
        walk_inv(doc, order + doc.children_of(order[done] as int), done + 1),
{
    let x = order[done] as int;
    let kids = doc.children_of(x);
    let next = order + kids;
    let len = order.len() as int;
    if doc.level_numbered() {
        lemma_walk_step_numbered(doc, order, done);
    }
    assert forall|a: int| 0 <= a < kids.len() implies doc.depth(#[trigger] kids[a] as int)
        == doc.depth(x) + 1 by {
        lemma_child_depth(doc, x, a);
    }
    assert forall|i: int| 0 <= i < next.len() implies (#[trigger] next[i]) < doc.size() by {
        if i < len {
            assert(next[i] == order[i]);
        } else {
            assert(next[i] == kids[i - len]);
        }
    }
    assert forall|i: int, j: int| 0 <= i < j < next.len() implies (#[trigger] next[i]) != (
    #[trigger] next[j]) by {
        if j < len {
            assert(next[i] == order[i] && next[j] == order[j]);
        } else if i >= len {
            assert(next[i] == kids[i - len] && next[j] == kids[j - len]);
        } else {
            assert(next[i] == order[i] && next[j] == kids[j - len]);
            if order[i] == kids[j - len] {
                let c = order[i] as int;
                assert(doc.parent_of(c) == x);
                assert(seen(order, len, c));
                assert(seen(order, done, x));
                let k = choose|k: int| 0 <= k < done && #[trigger] order[k] == x;
                assert(order[k] != order[done]);
            }
        }
    }
    assert forall|i: int, j: int| 0 <= i < j < next.len() implies doc.depth(
        (#[trigger] next[i]) as int,
    ) <= doc.depth((#[trigger] next[j]) as int) by {
        if j < len {
            assert(next[i] == order[i] && next[j] == order[j]);
        } else if i >= len {
            assert(next[i] == kids[i - len] && next[j] == kids[j - len]);
        } else {
            assert(next[i] == order[i] && next[j] == kids[j - len]);
            if i < len - 1 {
                assert(doc.depth(order[i] as int) <= doc.depth(order[len - 1] as int));
            }
        }
    }
    if done + 1 < next.len() {
        let last = next.len() - 1;
        if done + 1 < len {
            assert(next[done + 1] == order[done + 1]);
            assert(doc.depth(order[done] as int) <= doc.depth(order[done + 1] as int));
        } else {
            assert(next[done + 1] == kids[0]);
        }
        if last < len {
            assert(next[last] == order[last]);
        } else {
            assert(next[last] == kids[last - len]);
        }
    }
    assert forall|n: int| 0 <= n < doc.size() implies (#[trigger] seen(
        next,
        next.len() as int,
        n,
    ) <==> (n == 0 || seen(next, done + 1, doc.parent_of(n)))) by {
        if seen(next, next.len() as int, n) {
            let i = choose|i: int| 0 <= i < next.len() && #[trigger] next[i] == n;
            if i < len {
                assert(order[i] == n);
                assert(seen(order, len, n));
                if n != 0 {
                    let k = choose|k: int| 0 <= k < done && #[trigger] order[k] == doc.parent_of(n);
                    assert(next[k] == doc.parent_of(n));
                }
            } else {
                assert(kids[i - len] == n);
                assert(doc.parent_of(n) == x);
                assert(next[done] == x);
            }
        }
        if n == 0 {
            assert(seen(order, len, 0));
            let i = choose|i: int| 0 <= i < len && #[trigger] order[i] == 0;
            assert(next[i] == 0);
        } else if seen(next, done + 1, doc.parent_of(n)) {
            let k = choose|k: int| 0 <= k < done + 1 && #[trigger] next[k] == doc.parent_of(n);
            assert(next[k] == order[k]);
            if k < done {
                assert(seen(order, done, doc.parent_of(n)));
                assert(seen(order, len, n));
                let i = choose|i: int| 0 <= i < len && #[trigger] order[i] == n;
                assert(next[i] == n);
            } else {
                assert(doc.parent_of(n) == x);
                assert(kids.contains(n as usize));
                let a = choose|a: int| 0 <= a < kids.len() && kids[a] == n as usize;
                assert(next[len + a] == n);
            }
        }
    }
}

/// Once nothing waits, every node of the document has been met.
pub proof fn lemma_walk_covers(doc: Document, order: Seq<usize>, n: int)
    requires
        walk_inv(doc, order, order.len() as int),
        0 <= n < doc.size(),
    ensures
        seen(order, order.len() as int, n),
    decreases n,
{
    if n > 0 {
        assert(0 <= doc.parent_of(n) < n);
        lemma_walk_covers(doc, order, doc.parent_of(n));
    }
}

/// A node that has not been handed out lies no higher in the tree than any
/// node that has.
pub proof fn lemma_walk_rest_not_shallower(
    doc: Document,
    order: Seq<usize>,
    done: int,
    i: int,
    n: int,
)
    requires
        walk_inv(doc, order, done),
        0 <= i < done,
        0 <= n < doc.size(),
        !seen(order, done, n),
    ensures
        doc.depth(order[i] as int) <= doc.depth(n),
    decreases n,
{
    if seen(order, order.len() as int, n) {
        let j = choose|j: int| 0 <= j < order.len() && #[trigger] order[j] == n;
        assert(j >= done);
        assert(doc.depth(order[i] as int) <= doc.depth(order[j] as int));
    } else {
        let p = doc.parent_of(n);
        assert(0 <= p < n);
        lemma_walk_rest_not_shallower(doc, order, done, i, p);
    }
}

/// A breadth-first walk over a document, driven by a first-in first-out queue
/// of the nodes that wait to be handed out.
pub struct NodeTraverser<'a> {
    doc: &'a Document,
    queue: VecDeque<usize>,
    handed: Ghost<Seq<usize>>,
}

impl<'a> NodeTraverser<'a> {
    /// The document that is walked.
    pub closed spec fn document(&self) -> Document {
        *self.doc
    }

    /// The nodes handed out so far, first to last.
    pub closed spec fn visited(&self) -> Seq<usize> {
        self.handed@
    }

    /// The queue of waiting nodes, front first.
    pub closed spec fn pending(&self) -> Seq<usize> {
        self.queue@
    }

    /// The walk's invariant holds of this state.
    pub open spec fn wf(&self) -> bool {
        walk_inv(self.document(), self.visited() + self.pending(), self.visited().len() as int)
    }

    /// What one call of `next` does: with an empty queue nothing changes and
    /// nothing is handed out; otherwise the front node leaves the queue and is
    /// handed out, and its children join the back in their own order.
    pub open spec fn steps_to(&self, after: &Self, out: Option<usize>) -> bool {
        &&& after.document() == self.document()
        &&& if self.pending().len() == 0 {
            &&& out == None::<usize>
            &&& after.visited() == self.visited()
            &&& after.pending() == self.pending()
        } else {
            &&& out == Some(self.pending()[0])
            &&& after.visited() == self.visited().push(self.pending()[0])
            &&& after.pending() == self.pending().skip(1) + self.document().children_of(
                self.pending()[0] as int,
            )
        }
    }

    /// A walk that is about to hand out the root.
    pub fn new(doc: &'a Document) -> (walk: Self)
        requires
            doc.wf(),
        ensures
            walk.wf(),
            walk.document() == *doc,
            walk.visited() == Seq::<usize>::empty(),
            walk.pending() == seq![0usize],
    {
        let mut queue: VecDeque<usize> = VecDeque::new();
        queue.push_back(0);
        proof {
            lemma_walk_start(*doc);
            assert(Seq::<usize>::empty() + queue@ =~= seq![0usize]);
            assert(queue@ =~= seq![0usize]);
        }
        NodeTraverser { doc, queue, handed: Ghost(Seq::empty()) }
    }

    /// Hands out the next node in breadth-first order, or `None` once every
    /// node has been handed out.
    pub fn next(&mut self) -> (out: Option<usize>)
        requires
            old(self).wf(),
        ensures
            final(self).wf(),
            old(self).steps_to(final(self), out),
    {
        let ghost before = *self;
        match self.queue.pop_front() {
            Some(id) => {
                proof {
                    assert((before.visited() + before.pending())[before.visited().len() as int]
                        == id);
                }
                let kids = self.doc.children(id);
                let mut i: usize = 0;
                while i < kids.len()
                    invariant
                        i <= kids.len(),
                        kids@ == before.document().children_of(id as int),
                        self.doc == before.doc,
                        self.handed == before.handed,
                        self.queue@ == before.pending().skip(1) + kids@.take(i as int),
                    decreases kids.len() - i,
                {
                    self.queue.push_back(kids[i]);
                    proof {
                        assert(kids@.take(i as int).push(kids@[i as int]) =~= kids@.take(
                            i as int + 1,
                        ));
                        assert((before.pending().skip(1) + kids@.take(i as int)).push(
                            kids@[i as int],
                        ) =~= before.pending().skip(1) + kids@.take(i as int + 1));
                    }
                    i += 1;
                }
                proof {
                    assert(kids@.take(kids@.len() as int) =~= kids@);
                    self.handed@ = before.visited().push(id);
                    lemma_walk_step(
                        before.document(),
                        before.visited() + before.pending(),
                        before.visited().len() as int,
                    );
                    assert(self.visited() + self.pending() =~= (before.visited()
                        + before.pending()) + kids@);
                }
                Some(id)
            },
            None => None,
        }
    }

    /// No node is handed out before a node of a shallower level.
    pub proof fn lemma_level_order(&self, i: int, j: int)
        requires
            self.wf(),
            0 <= i <= j < self.visited().len(),
        ensures
            self.document().depth(self.visited()[i] as int) <= self.document().depth(
                self.visited()[j] as int,
            ),
    {
        let order = self.visited() + self.pending();
        assert(order[i] == self.visited()[i]);
        assert(order[j] == self.visited()[j]);
    }

    /// No node that has been handed out lies deeper than a node that has
    /// not, be it waiting or not yet met.
    pub proof fn lemma_level_order_ahead(&self, i: int, n: usize)
        requires
            self.wf(),
            0 <= i < self.visited().len(),
            n < self.document().size(),
            !self.visited().contains(n),
        ensures
            self.document().depth(self.visited()[i] as int) <= self.document().depth(n as int),
    {
        let order = self.visited() + self.pending();
        let done = self.visited().len() as int;
        assert(order[i] == self.visited()[i]);
        if seen(order, done, n as int) {
            let k = choose|k: int| 0 <= k < done && #[trigger] order[k] == n as int;
            assert(self.visited()[k] == n);
        }
        lemma_walk_rest_not_shallower(self.document(), order, done, i, n as int);
    }

    /// No node is handed out twice, and none that still waits has been handed
    /// out.
    pub proof fn lemma_no_repeats(&self)
        requires
            self.wf(),
        ensures
            (self.visited() + self.pending()).no_duplicates(),
            self.visited().no_duplicates(),
    {
        let order = self.visited() + self.pending();
        assert forall|i: int, j: int|
            0 <= i < self.visited().len() && 0 <= j < self.visited().len() && i != j implies
            self.visited()[i] != self.visited()[j] by {
            assert(order[i] == self.visited()[i]);
            assert(order[j] == self.visited()[j]);
        }
    }

    /// In a document that is numbered level by level, the nodes are handed
    /// out in the order of their numbers.
    pub proof fn lemma_number_order(&self, k: int)
        requires
            self.wf(),
            self.document().level_numbered(),
            0 <= k < self.visited().len(),
        ensures
            self.visited()[k] == k,
    {
        let order = self.visited() + self.pending();
        assert(order[k] == self.visited()[k]);
    }

    /// Once the queue is empty, every node of the document has been handed
    /// out, and as many nodes have been handed out as the document has.
    pub proof fn lemma_exhausted_covers(&self)
        requires
            self.wf(),
            self.pending().len() == 0,
        ensures
            forall|n: usize| n < self.document().size() ==> self.visited().contains(n),
            self.visited().len() == self.document().size(),
    {
        let order = self.visited() + self.pending();
        assert(order =~= self.visited());
        assert forall|n: int| 0 <= n < self.document().size() implies #[trigger] seen(
            order,
            order.len() as int,
            n,
        ) by {
            lemma_walk_covers(self.document(), order, n);
        }
        lemma_full_list_len(order, self.document().size());
        assert forall|n: usize| n < self.document().size() implies self.visited().contains(
            n,
        ) by {
            lemma_walk_covers(self.document(), order, n as int);
            let i = choose|i: int| 0 <= i < order.len() && #[trigger] order[i] == n as int;
            assert(self.visited()[i] == n);
        }
    }
}

/// A result that is there, or not there yet.
pub enum Async<T> {
    /// The result.
    Ready(T),
    /// Nothing yet: ask again later.
    NotReady,
}

/// The walk as a lazy sequence for a consumer that polls. The walk needs no
/// input from outside, so every poll has its answer at once.
pub struct NodeStream<'a>(NodeTraverser<'a>);

impl<'a> NodeStream<'a> {
    /// The walk behind the sequence.
    pub closed spec fn walk(&self) -> NodeTraverser<'a> {
        self.0
    }

    /// A sequence that starts at the root of `doc`.
    pub fn new(doc: &'a Document) -> (stream: Self)
        requires
            doc.wf(),
        ensures
            stream.walk().wf(),
            stream.walk().document() == *doc,
            stream.walk().visited() == Seq::<usize>::empty(),
            stream.walk().pending() == seq![0usize],
    {
        NodeStream(NodeTraverser::new(doc))
    }

    /// The next node of the walk, or `None` at its end: always ready, never
    /// an error.
    pub fn poll(&mut self) -> (polled: Result<Async<Option<usize>>, ()>)
        requires
            old(self).walk().wf(),
        ensures
            final(self).walk().wf(),
            polled matches Ok(Async::Ready(out)) && old(self).walk().steps_to(
                &final(self).walk(),
                out,
            ),
    {
        Ok(Async::Ready(self.0.next()))
    }
}

/// The walk as a single-pass forward iterator.
pub struct NodeIter<'a>(NodeTraverser<'a>);

impl<'a> NodeIter<'a> {
    /// The walk behind the iterator.
    pub closed spec fn walk(&self) -> NodeTraverser<'a> {
        self.0
    }

    /// An iterator that starts at the root of `doc`.
    pub fn new(doc: &'a Document) -> (iter: Self)
        requires
            doc.wf(),
        ensures
            iter.walk().wf(),
            iter.walk().document() == *doc,
            iter.walk().visited() == Seq::<usize>::empty(),
            iter.walk().pending() == seq![0usize],
    {
        NodeIter(NodeTraverser::new(doc))
    }

    /// The next node of the walk, or `None` at its end.
    pub fn next(&mut self) -> (out: Option<usize>)
        requires
            old(self).walk().wf(),
        ensures
            final(self).walk().wf(),
            old(self).walk().steps_to(&final(self).walk(), out),
    {
        self.0.next()
    }
}

} // verus!
