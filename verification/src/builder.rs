//! The document builder of html5ever, as far as this library drives it: a
//! parser that takes successive byte chunks and is finished once.

use html5ever::rcdom::{Node, RcDom};
use html5ever::tendril::stream::{TendrilSink, Utf8LossyDecoder};
use html5ever::Parser;
use std::rc::Rc;
use vstd::prelude::*;

verus! {

/// html5ever's reference-counted document.
#[verifier::external_type_specification]
#[verifier::external_body]
pub struct ExRcDom(RcDom);

/// A node of html5ever's reference-counted document.
#[verifier::external_type_specification]
#[verifier::external_body]
pub struct ExNode(Node);

/// html5ever's parser behind tendril's lossy UTF-8 decoding stage. The two
/// outside types are bounded by traits of their crates, so the builder is
/// held here as a whole and nothing inside it is seen.
#[verifier::external_body]
pub struct DocumentBuilder {
    inner: Utf8LossyDecoder<Parser<RcDom>>,
}

/// The chunks that a builder has been given so far, first to last.
pub uninterp spec fn fed(builder: DocumentBuilder) -> Seq<Seq<u8>>;

/// The document that a builder was started on.
pub uninterp spec fn seed(builder: DocumentBuilder) -> RcDom;

/// The document that html5ever's parser hands out at the end, started on
/// `seed` and given `chunks` one after the other.
pub uninterp spec fn built(seed: RcDom, chunks: Seq<Seq<u8>>) -> RcDom;

/// The most input, in bytes, that a builder takes over its whole life.
/// tendril grows a buffer to the next power of two and fails where that
/// passes 32 bits, which is for any length above 2^31; and a byte of input
/// can come to three bytes of text, the replacement character. Three times
/// this bound stays below 2^31.
pub const MAX_INPUT: usize = 0x2aaa_aaaa;

/// The number of bytes in all of `chunks`.
pub open spec fn total_len(chunks: Seq<Seq<u8>>) -> nat
    decreases chunks.len(),
{
    if chunks.len() == 0 {
        0
    } else {
        total_len(chunks.drop_last()) + chunks.last().len()
    }
}

/// One more chunk adds its length to the total.
pub proof fn lemma_total_len_push(chunks: Seq<Seq<u8>>, chunk: Seq<u8>)
    ensures
        total_len(chunks.push(chunk)) == total_len(chunks) + chunk.len(),
{
    assert(chunks.push(chunk).drop_last() =~= chunks);
}

/// Calls `html5ever::parse_document` on `dom` with the default options, and
/// `Parser::from_utf8` on the parser. The new builder has been given no chunk
/// and remembers the document it was started on.
#[verifier::external_body]
pub(crate) fn builder_new(dom: RcDom) -> (builder: DocumentBuilder)
    ensures
        fed(builder) == Seq::<Seq<u8>>::empty(),
        seed(builder) == dom,
{
    DocumentBuilder { inner: html5ever::parse_document(dom, Default::default()).from_utf8() }
}

/// Calls `TendrilSink::process` of the decoding stage on a copy of `chunk`.
/// The chunk joins the end of what the builder has been given. tendril fails
/// where a buffer would pass 2^31 bytes, be it the copy of the chunk or text
/// that the parser gathers from several chunks, so the input as a whole is
/// kept within `MAX_INPUT`.
#[verifier::external_body]
pub(crate) fn builder_process(builder: &mut DocumentBuilder, chunk: &[u8])
    requires
        total_len(fed(*old(builder))) + chunk@.len() <= MAX_INPUT,
    ensures
        fed(*final(builder)) == fed(*old(builder)).push(chunk@),
        seed(*final(builder)) == seed(*old(builder)),
{
    builder.inner.process(chunk.into());
}

/// Calls `TendrilSink::finish` of the decoding stage, which ends the input
/// and hands out the document. The document depends on nothing but the
/// document the builder was started on and the chunks it was given, in their
/// order; what it holds is html5ever's business and is not stated.
#[verifier::external_body]
pub(crate) fn builder_finish(builder: DocumentBuilder) -> (dom: RcDom)
    ensures
        dom == built(seed(builder), fed(builder)),
{
    builder.inner.finish()
}

/// The handle of a document's root.
pub uninterp spec fn root_of(dom: RcDom) -> Rc<Node>;

/// Clones the handle of the document's root, the field `document` of `RcDom`:
/// the result is that field, whatever else the document holds.
#[verifier::external_body]
pub(crate) fn dom_root(dom: &RcDom) -> (root: Rc<Node>)
    ensures
        root == root_of(*dom),
{
    dom.document.clone()
}

/// Tries to borrow the field `children` of `Node`, with `RefCell::try_borrow`,
/// and clones the list of handles in it. The result is `None` where the list
/// is being changed by another holder. Nothing is stated of the list: it is
/// what the node holds at the time of the call.
#[verifier::external_body]
pub(crate) fn node_children(node: &Rc<Node>) -> (kids: Option<Vec<Rc<Node>>>) {
    match node.children.try_borrow() {
        Ok(list) => Some(list.clone()),
        Err(_) => None,
    }
}

} // verus!
