//! A push-style front for the document builder: the caller hands over bytes
//! as it has them and asks for the document at the end.

use crate::builder::{
    built, builder_finish, builder_new, builder_process, fed, lemma_total_len_push, seed,
    total_len, DocumentBuilder, MAX_INPUT,
};
use html5ever::rcdom::RcDom;
use vstd::prelude::*;

verus! {

/// The error type of `std::io`.
#[verifier::external_type_specification]
#[verifier::external_body]
pub struct ExIoError(std::io::Error);

/// A document builder that is fed by writing bytes to it.
pub struct ParserSink {
    inner: DocumentBuilder,
    taken: usize,
}

impl ParserSink {
    /// The builder behind the sink.
    pub closed spec fn builder(&self) -> DocumentBuilder {
        self.inner
    }

    /// The buffers written so far, first to last.
    pub open spec fn written(&self) -> Seq<Seq<u8>> {
        fed(self.builder())
    }

    /// The document that the sink was created on.
    pub open spec fn origin(&self) -> RcDom {
        seed(self.builder())
    }

    /// The sink's count of the bytes written is right.
    pub closed spec fn wf(&self) -> bool {
        &&& self.taken == total_len(fed(self.inner))
        &&& self.taken <= MAX_INPUT
    }

    /// The number of bytes that the sink still takes.
    pub open spec fn room(&self) -> int {
        MAX_INPUT - total_len(self.written())
    }

    /// A sink on `dom` to which nothing has been written.
    pub fn new(dom: RcDom) -> (sink: Self)
        ensures
            sink.wf(),
            sink.written() == Seq::<Seq<u8>>::empty(),
            sink.origin() == dom,
    {
        let parser = builder_new(dom);
        ParserSink { inner: parser, taken: 0 }
    }

    /// The number of bytes that the sink still takes.
    pub fn room_left(&self) -> (room: usize)
        requires
            self.wf(),
        ensures
            room == self.room(),
    {
        MAX_INPUT - self.taken
    }

    /// Ends the input and hands out the document built from everything that
    /// was written.
    pub fn finish(self) -> (dom: RcDom)
        ensures
            dom == built(self.origin(), self.written()),
    {
        builder_finish(self.inner)
    }

    /// Hands all of `buf` to the builder at once and reports its length. This
    /// never fails and never takes only a part.
    pub fn write(&mut self, buf: &[u8]) -> (done: Result<usize, std::io::Error>)
        requires
            old(self).wf(),
            buf@.len() <= old(self).room(),
        ensures
            final(self).wf(),
            done == Ok::<usize, std::io::Error>(buf@.len() as usize),
            final(self).written() == old(self).written().push(buf@),
            final(self).origin() == old(self).origin(),
    {
        proof {
            lemma_total_len_push(fed(self.inner), buf@);
        }
        builder_process(&mut self.inner, buf);
        self.taken = self.taken + buf.len();
        Ok(buf.len())
    }

    /// Does nothing: the builder holds no bytes back.
    pub fn flush(&mut self) -> (done: Result<(), std::io::Error>)
        ensures
            done == Ok::<(), std::io::Error>(()),
            *final(self) == *old(self),
    {
        Ok(())
    }
}

} // verus!
