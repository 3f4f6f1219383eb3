use html5ever_stream::common::Async;
use html5ever_stream::{Document, NodeIter, NodeStream, NodeTraverser};

/// A tree numbered depth first:
/// 0 > (1, 4, 5); 1 > (2, 3); 5 > (6); 6 > (7).
fn depth_first_numbered() -> Document {
    let mut doc = Document::new();
    assert_eq!(doc.add_child(0), 1);
    assert_eq!(doc.add_child(1), 2);
    assert_eq!(doc.add_child(1), 3);
    assert_eq!(doc.add_child(0), 4);
    assert_eq!(doc.add_child(0), 5);
    assert_eq!(doc.add_child(5), 6);
    assert_eq!(doc.add_child(6), 7);
    doc
}

fn depth(doc: &Document, mut id: usize) -> usize {
    let mut d = 0;
    while id != 0 {
        id = doc.parent(id);
        d += 1;
    }
    d
}

#[test]
fn new_document_is_a_lone_root() {
    let doc = Document::new();
    assert_eq!(doc.len(), 1);
    assert_eq!(doc.parent(0), 0);
    assert!(doc.children(0).is_empty());
    let mut walk = NodeTraverser::new(&doc);
    assert_eq!(walk.next(), Some(0));
    assert_eq!(walk.next(), None);
}

#[test]
fn add_child_numbers_nodes_in_order_of_arrival() {
    let doc = depth_first_numbered();
    assert_eq!(doc.len(), 8);
    assert_eq!(doc.children(0), &vec![1, 4, 5]);
    assert_eq!(doc.children(1), &vec![2, 3]);
    assert_eq!(doc.children(5), &vec![6]);
    assert_eq!(doc.children(6), &vec![7]);
    assert!(doc.children(7).is_empty());
    assert_eq!(doc.parent(7), 6);
    assert_eq!(doc.parent(4), 0);
    assert_eq!(doc.parent(3), 1);
}

#[test]
fn walk_is_breadth_first() {
    let doc = depth_first_numbered();
    let mut walk = NodeTraverser::new(&doc);
    let mut order = Vec::new();
    while let Some(id) = walk.next() {
        order.push(id);
    }
    assert_eq!(order, vec![0, 1, 4, 5, 2, 3, 6, 7]);
}

#[test]
fn walk_never_goes_back_up_a_level() {
    let doc = depth_first_numbered();
    let mut iter = NodeIter::new(&doc);
    let mut last = 0;
    while let Some(id) = iter.next() {
        let d = depth(&doc, id);
        assert!(d >= last);
        last = d;
    }
    assert_eq!(last, 3);
}

#[test]
fn walk_yields_each_node_once() {
    let doc = depth_first_numbered();
    let mut seen = vec![0usize; doc.len()];
    let mut iter = NodeIter::new(&doc);
    while let Some(id) = iter.next() {
        seen[id] += 1;
    }
    assert_eq!(seen, vec![1; 8]);
}

#[test]
fn exhausted_walk_stays_exhausted() {
    let doc = depth_first_numbered();
    let mut iter = NodeIter::new(&doc);
    for _ in 0..8 {
        assert!(iter.next().is_some());
    }
    assert_eq!(iter.next(), None);
    assert_eq!(iter.next(), None);
    let mut again = NodeIter::new(&doc);
    assert_eq!(again.next(), Some(0));
}

#[test]
fn stream_is_always_ready() {
    let doc = depth_first_numbered();
    let mut stream = NodeStream::new(&doc);
    let mut order = Vec::new();
    loop {
        match stream.poll() {
            Ok(Async::Ready(Some(id))) => order.push(id),
            Ok(Async::Ready(None)) => break,
            Ok(Async::NotReady) => panic!("the walk never waits"),
            Err(()) => panic!("the walk never fails"),
        }
    }
    assert_eq!(order, vec![0, 1, 4, 5, 2, 3, 6, 7]);
    assert!(matches!(stream.poll(), Ok(Async::Ready(None))));
}

#[test]
fn deep_chain_is_walked_without_recursion() {
    let mut doc = Document::new();
    let mut last = 0;
    for _ in 0..200_000 {
        last = doc.add_child(last);
    }
    let mut iter = NodeIter::new(&doc);
    let mut count = 0;
    let mut prev = None;
    while let Some(id) = iter.next() {
        count += 1;
        prev = Some(id);
    }
    assert_eq!(count, 200_001);
    assert_eq!(prev, Some(200_000));
}

#[test]
fn add_children_appends_a_run_of_numbers() {
    let mut doc = Document::new();
    doc.add_children(0, 2);
    assert_eq!(doc.len(), 3);
    assert_eq!(doc.children(0), &vec![1, 2]);
    doc.add_children(1, 3);
    doc.add_children(0, 1);
    doc.add_children(2, 0);
    assert_eq!(doc.len(), 7);
    assert_eq!(doc.children(0), &vec![1, 2, 6]);
    assert_eq!(doc.children(1), &vec![3, 4, 5]);
    assert!(doc.children(2).is_empty());
    assert_eq!(doc.parent(5), 1);
    assert_eq!(doc.parent(6), 0);
    let mut walk = NodeTraverser::new(&doc);
    let mut order = Vec::new();
    while let Some(id) = walk.next() {
        order.push(id);
    }
    assert_eq!(order, vec![0, 1, 2, 6, 3, 4, 5]);
}
