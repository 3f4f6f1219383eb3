use futures::Stream;
use html5ever::rcdom::{Handle, NodeData, RcDom};
use html5ever_stream::builder::MAX_INPUT;
use html5ever_stream::errors::Error;
use html5ever_stream::common::Async;
use html5ever_stream::fut::{Polled, Progress};
use html5ever_stream::{Document, NodeIter, NodeStream, ParserFuture, ParserSink};
use std::collections::VecDeque;
use std::rc::Rc;

const TEST_HTML: &str = "<html> <head> <title> test </title> </head> </html>";

/// Runs the engine over the chunks of a hyper body, as a blocking caller does.
fn run_body(body: hyper::Body) -> Result<RcDom, Error> {
    let mut engine = ParserFuture::new(RcDom::default());
    for item in body.wait() {
        match item {
            Ok(chunk) => {
                let bytes: &[u8] = chunk.as_ref();
                assert!(bytes.len() <= engine.room_left());
                match engine.step::<Error>(Polled::Chunk(bytes.to_vec())) {
                    Progress::Continue => {}
                    _ => panic!("a chunk must let the engine go on"),
                }
            }
            Err(e) => match engine.step(Polled::Failed(Error::from(e))) {
                Progress::Failed(err) => return Err(err),
                _ => panic!("a failure must be handed on"),
            },
        }
    }
    match engine.step::<Error>(Polled::End) {
        Progress::Ready(dom) => Ok(dom),
        _ => panic!("the end of the source must finish the engine"),
    }
}

/// Parses the given chunks through the engine.
fn parse_chunks(chunks: &[&[u8]]) -> RcDom {
    let mut engine = ParserFuture::new(RcDom::default());
    for chunk in chunks {
        match engine.step::<()>(Polled::Chunk(chunk.to_vec())) {
            Progress::Continue => {}
            _ => panic!("a chunk must let the engine go on"),
        }
    }
    match engine.step::<()>(Polled::End) {
        Progress::Ready(dom) => dom,
        _ => panic!("the end of the source must finish the engine"),
    }
}

/// The shape of a parsed document, as parent numbers and child lists.
fn shape(dom: &RcDom) -> (Vec<usize>, Vec<Vec<usize>>) {
    let (doc, handles) = Document::from_dom(dom).unwrap();
    assert_eq!(handles.len(), doc.len());
    let mut parents = Vec::new();
    let mut children = Vec::new();
    for id in 0..doc.len() {
        parents.push(doc.parent(id));
        children.push(doc.children(id).clone());
    }
    (parents, children)
}

/// The text of all text nodes, in breadth-first order.
fn text_of(dom: &RcDom) -> String {
    let (doc, handles) = Document::from_dom(dom).unwrap();
    let mut text = String::new();
    let mut iter = NodeIter::new(&doc);
    while let Some(id) = iter.next() {
        let handle: &Handle = &handles[id];
        if let NodeData::Text { contents } = &handle.data {
            text.push_str(&contents.borrow());
        }
    }
    text
}

#[test]
fn test_hyper_body_stream() {
    let body: hyper::Body = TEST_HTML.into();
    let res = run_body(body);
    assert_eq!(res.is_ok(), true);
}

#[test]
fn test_basic_hyper_node_stream() {
    let body: hyper::Body = TEST_HTML.into();
    let res = run_body(body);
    assert_eq!(res.is_ok(), true);
    let dom = res.unwrap();

    let (doc, _handles) = Document::from_dom(&dom).unwrap();
    let mut stream = NodeStream::new(&doc);
    let mut collected: Result<Vec<usize>, ()> = Ok(Vec::new());
    loop {
        match stream.poll() {
            Ok(Async::Ready(Some(id))) => {
                collected.as_mut().unwrap().push(id)
            }
            Ok(Async::Ready(None)) => break,
            Ok(Async::NotReady) => panic!("the walk never waits"),
            Err(()) => {
                collected = Err(());
                break;
            }
        }
    }
    assert_eq!(collected.is_ok(), true);
    assert_eq!(collected.unwrap().len(), 9);
}

#[test]
fn test_reqwest_body_stream() {
    let mut engine = ParserFuture::new(RcDom::default());
    let res: Result<RcDom, ()> = match engine.step::<()>(Polled::End) {
        Progress::Ready(dom) => Ok(dom),
        Progress::Failed(e) => Err(e),
        _ => panic!("the end of the source must finish the engine"),
    };
    assert_eq!(res.is_ok(), true);
}

#[test]
fn test_write() {
    let mut ps = ParserSink::new(RcDom::default());
    assert_eq!(ps.write(TEST_HTML.as_bytes()).unwrap(), TEST_HTML.len());
    ps.finish();
}

#[test]
fn sink_flush_succeeds_and_sample_has_nine_nodes() {
    let mut ps = ParserSink::new(RcDom::default());
    assert_eq!(ps.write(TEST_HTML.as_bytes()).unwrap(), TEST_HTML.len());
    assert!(ps.flush().is_ok());
    let dom = ps.finish();
    let (doc, handles) = Document::from_dom(&dom).unwrap();
    assert_eq!(doc.len(), 9);
    assert_eq!(handles.len(), 9);
    assert!(Rc::ptr_eq(&handles[0], &dom.document));
    let mut iter = NodeIter::new(&doc);
    let mut count = 0;
    while let Some(_) = iter.next() {
        count += 1;
    }
    assert_eq!(count, 9);
}

#[test]
fn sample_shape_is_read_level_by_level() {
    let dom = parse_chunks(&[TEST_HTML.as_bytes()]);
    let (parents, children) = shape(&dom);
    // document > html > (head, " ", body); head > (" ", title, " "); title > " test "
    assert_eq!(parents, vec![0, 0, 1, 1, 1, 2, 2, 2, 6]);
    assert_eq!(
        children,
        vec![
            vec![1],
            vec![2, 3, 4],
            vec![5, 6, 7],
            vec![],
            vec![],
            vec![],
            vec![8],
            vec![],
            vec![]
        ]
    );
    assert_eq!(text_of(&dom), "    test ");
}

#[test]
fn chunk_boundaries_do_not_change_the_document() {
    let whole = parse_chunks(&[TEST_HTML.as_bytes()]);
    let expected = shape(&whole);
    let bytes = TEST_HTML.as_bytes();
    for cut in 1..bytes.len() {
        let split = parse_chunks(&[&bytes[..cut], &bytes[cut..]]);
        assert_eq!(shape(&split), expected);
        assert_eq!(text_of(&split), text_of(&whole));
    }
    let singles: Vec<&[u8]> = bytes.chunks(1).collect();
    let bytewise = parse_chunks(&singles);
    assert_eq!(shape(&bytewise), expected);
}

#[test]
fn split_multibyte_character_decodes_as_unsplit() {
    let html = "<p>caf\u{e9} \u{20ac}</p>";
    let bytes = html.as_bytes();
    let whole = parse_chunks(&[bytes]);
    assert_eq!(text_of(&whole), "caf\u{e9} \u{20ac}");
    for cut in 1..bytes.len() {
        let split = parse_chunks(&[&bytes[..cut], &bytes[cut..]]);
        assert_eq!(text_of(&split), "caf\u{e9} \u{20ac}");
        assert_eq!(shape(&split), shape(&whole));
    }
}

#[test]
fn malformed_bytes_are_replaced() {
    let dom = parse_chunks(&[b"<p>a\xffb</p>"]);
    assert_eq!(text_of(&dom), "a\u{fffd}b");
}

#[test]
fn not_ready_changes_nothing_and_failure_finishes() {
    let mut engine = ParserFuture::new(RcDom::default());
    assert!(!engine.is_finished());
    assert!(matches!(engine.step::<u8>(Polled::NotReady), Progress::NotReady));
    assert!(!engine.is_finished());
    assert!(matches!(
        engine.step::<u8>(Polled::Chunk(b"<p>".to_vec())),
        Progress::Continue
    ));
    assert!(!engine.is_finished());
    assert!(matches!(engine.step(Polled::Failed(7u8)), Progress::Failed(7u8)));
    assert!(engine.is_finished());
}

#[test]
fn engine_is_finished_after_its_result() {
    let mut engine = ParserFuture::new(RcDom::default());
    assert!(matches!(engine.step::<()>(Polled::End), Progress::Ready(_)));
    assert!(engine.is_finished());
}

#[test]
fn source_failure_is_wrapped() {
    let err = Error::from(hyper::Error::Incomplete);
    assert!(matches!(err, Error::Hyper(hyper::Error::Incomplete)));
    let body: hyper::Body = TEST_HTML.into();
    assert!(run_body(body).is_ok());
}

#[test]
fn abandoned_engine_keeps_no_node() {
    let dom = RcDom::default();
    let root = Rc::clone(&dom.document);
    let mut engine = ParserFuture::new(dom);
    assert!(matches!(
        engine.step::<()>(Polled::Chunk(b"<html><body><p>left".to_vec())),
        Progress::Continue
    ));
    assert!(Rc::strong_count(&root) > 1);
    drop(engine);
    assert_eq!(Rc::strong_count(&root), 1);
}

#[test]
fn abandoned_walk_keeps_no_node() {
    let dom = parse_chunks(&[TEST_HTML.as_bytes()]);
    let root = Rc::clone(&dom.document);
    {
        let (doc, handles) = Document::from_dom(&dom).unwrap();
        let mut iter = NodeIter::new(&doc);
        assert_eq!(iter.next(), Some(0));
        assert_eq!(iter.next(), Some(1));
        assert_eq!(handles.len(), 9);
    }
    assert_eq!(Rc::strong_count(&root), 2);
    drop(dom);
    assert_eq!(Rc::strong_count(&root), 1);
}

#[test]
fn nodes_come_in_the_order_of_a_queue_walk_over_the_handles() {
    let html = "<html><head><title>t</title></head><body><div><p>a</p><p>b<b>c</b></p></div><ul><li>1</li><li>2</li></ul></body></html>";
    let dom = parse_chunks(&[html.as_bytes()]);
    let mut expected: Vec<Handle> = Vec::new();
    let mut queue: VecDeque<Handle> = VecDeque::new();
    queue.push_back(Rc::clone(&dom.document));
    while let Some(handle) = queue.pop_front() {
        for child in handle.children.borrow().iter() {
            queue.push_back(Rc::clone(child));
        }
        expected.push(handle);
    }
    let (doc, handles) = Document::from_dom(&dom).unwrap();
    assert_eq!(doc.len(), expected.len());
    let mut iter = NodeIter::new(&doc);
    let mut position = 0;
    while let Some(id) = iter.next() {
        assert_eq!(id, position);
        assert!(Rc::ptr_eq(&handles[id], &expected[position]));
        assert_eq!(doc.children(id).len(), handles[id].children.borrow().len());
        position += 1;
    }
    assert_eq!(position, expected.len());
}

#[test]
fn poll_takes_chunks_until_the_source_waits_or_ends() {
    let mut source: VecDeque<Polled<u8>> = VecDeque::new();
    source.push_back(Polled::Chunk(b"<html> <head> <title> te".to_vec()));
    source.push_back(Polled::Chunk(b"st </title> </he".to_vec()));
    source.push_back(Polled::NotReady);
    source.push_back(Polled::Chunk(b"ad> </html>".to_vec()));
    source.push_back(Polled::End);
    source.push_back(Polled::Chunk(b"<p>late</p>".to_vec()));

    let mut engine = ParserFuture::new(RcDom::default());
    assert!(matches!(engine.poll(&mut source), Ok(Async::NotReady)));
    assert_eq!(source.len(), 3);
    assert!(!engine.is_finished());
    let dom = match engine.poll(&mut source) {
        Ok(Async::Ready(dom)) => dom,
        _ => panic!("the end of the source must finish the engine"),
    };
    assert!(engine.is_finished());
    assert_eq!(source.len(), 1);
    assert_eq!(shape(&dom), shape(&parse_chunks(&[TEST_HTML.as_bytes()])));
    assert_eq!(Document::from_dom(&dom).unwrap().0.len(), 9);
}

#[test]
fn poll_on_a_dry_source_is_not_ready() {
    let mut source: VecDeque<Polled<u8>> = VecDeque::new();
    let mut engine = ParserFuture::new(RcDom::default());
    assert!(matches!(engine.poll(&mut source), Ok(Async::NotReady)));
    assert!(!engine.is_finished());
    source.push_back(Polled::Chunk(b"<p>x</p>".to_vec()));
    assert!(matches!(engine.poll(&mut source), Ok(Async::NotReady)));
    assert!(source.is_empty());
    source.push_back(Polled::End);
    let dom = match engine.poll(&mut source) {
        Ok(Async::Ready(dom)) => dom,
        _ => panic!("the end of the source must finish the engine"),
    };
    assert_eq!(text_of(&dom), "x");
}

#[test]
fn poll_hands_a_failure_on_and_stops() {
    let mut source: VecDeque<Polled<u8>> = VecDeque::new();
    source.push_back(Polled::Chunk(b"<p>".to_vec()));
    source.push_back(Polled::Failed(3));
    source.push_back(Polled::End);
    let mut engine = ParserFuture::new(RcDom::default());
    assert!(matches!(engine.poll(&mut source), Err(3)));
    assert!(engine.is_finished());
    assert_eq!(source.len(), 1);
}

#[test]
fn sink_and_engine_build_the_same_document() {
    let parts: [&[u8]; 3] = [b"<ul><li>a</li>", b"<li>b", b"</li></ul>"];
    let mut sink = ParserSink::new(RcDom::default());
    for part in parts.iter() {
        assert_eq!(sink.write(part).unwrap(), part.len());
    }
    let from_sink = sink.finish();
    let from_engine = parse_chunks(&parts);
    assert_eq!(shape(&from_sink), shape(&from_engine));
    assert_eq!(text_of(&from_sink), "ab");
    assert_eq!(text_of(&from_engine), "ab");
}

#[test]
fn room_shrinks_by_the_bytes_taken() {
    assert_eq!(MAX_INPUT, 715_827_882);
    assert!(3 * (MAX_INPUT as u64) <= 1u64 << 31);
    let mut sink = ParserSink::new(RcDom::default());
    assert_eq!(sink.room_left(), MAX_INPUT);
    assert_eq!(sink.write(TEST_HTML.as_bytes()).unwrap(), 51);
    assert_eq!(sink.room_left(), MAX_INPUT - 51);
    assert_eq!(sink.write(b"").unwrap(), 0);
    assert_eq!(sink.room_left(), MAX_INPUT - 51);

    let mut engine = ParserFuture::new(RcDom::default());
    assert_eq!(engine.room_left(), MAX_INPUT);
    assert!(matches!(
        engine.step::<()>(Polled::Chunk(b"<p>abc".to_vec())),
        Progress::Continue
    ));
    assert_eq!(engine.room_left(), MAX_INPUT - 6);
    assert!(matches!(engine.step::<()>(Polled::NotReady), Progress::NotReady));
    assert_eq!(engine.room_left(), MAX_INPUT - 6);
    assert!(matches!(engine.step::<()>(Polled::End), Progress::Ready(_)));
    assert_eq!(engine.room_left(), 0);
}

#[test]
fn adopt_numbers_children_and_keeps_their_handles_in_order() {
    let dom = parse_chunks(&[b"<html><head></head><body><p>a</p><p>b</p><p>c</p></body></html>"]);
    let html = Rc::clone(&dom.document.children.borrow()[0]);
    let body = Rc::clone(&html.children.borrow()[1]);
    let kids: Vec<Handle> = body.children.borrow().clone();
    assert_eq!(kids.len(), 3);

    let mut doc = Document::new();
    let first = doc.add_child(0);
    let mut handles: Vec<Handle> = vec![Rc::clone(&html), Rc::clone(&body)];
    doc.adopt(&mut handles, first, kids.clone());
    assert_eq!(doc.len(), 5);
    assert_eq!(handles.len(), 5);
    assert_eq!(doc.children(first), &vec![2, 3, 4]);
    assert_eq!(doc.children(0), &vec![1]);
    for k in 0..3 {
        assert_eq!(doc.parent(2 + k), first);
        assert!(doc.children(2 + k).is_empty());
        assert!(Rc::ptr_eq(&handles[2 + k], &kids[k]));
    }
    doc.adopt(&mut handles, 3, Vec::new());
    assert_eq!(doc.len(), 5);
    assert_eq!(handles.len(), 5);
}

#[test]
fn a_child_list_that_is_being_changed_is_not_read() {
    let dom = parse_chunks(&[TEST_HTML.as_bytes()]);
    {
        let held = dom.document.children.borrow_mut();
        assert_eq!(held.len(), 1);
        assert!(Document::from_dom(&dom).is_none());
    }
    let html = Rc::clone(&dom.document.children.borrow()[0]);
    {
        let _held = html.children.borrow_mut();
        assert!(Document::from_dom(&dom).is_none());
    }
    {
        let _shared = html.children.borrow();
        assert_eq!(Document::from_dom(&dom).unwrap().0.len(), 9);
    }
    assert_eq!(Document::from_dom(&dom).unwrap().0.len(), 9);
}

#[test]
fn fits_tells_whether_the_leading_chunks_have_room() {
    let mut source: VecDeque<Polled<u8>> = VecDeque::new();
    let mut engine = ParserFuture::new(RcDom::default());
    assert!(engine.fits(&source));
    source.push_back(Polled::Chunk(b"<p>".to_vec()));
    source.push_back(Polled::Chunk(b"abc".to_vec()));
    source.push_back(Polled::NotReady);
    source.push_back(Polled::Chunk(vec![b'x'; 64]));
    source.push_back(Polled::End);
    assert!(engine.fits(&source));
    assert!(matches!(engine.poll(&mut source), Ok(Async::NotReady)));
    assert_eq!(engine.room_left(), MAX_INPUT - 6);
    assert!(engine.fits(&source));
    assert!(matches!(engine.poll(&mut source), Ok(Async::Ready(_))));
    assert!(engine.is_finished());
    assert!(!engine.fits(&source));
    let mut empty: VecDeque<Polled<u8>> = VecDeque::new();
    assert!(!engine.fits(&empty));
    empty.push_back(Polled::End);
    assert!(!engine.fits(&empty));
}
