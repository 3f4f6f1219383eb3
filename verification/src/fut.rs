//! The incremental parse engine: a state machine that takes what a chunk
//! source reports, one report at a time, and ends with the finished document.

use crate::builder::{
    built, builder_finish, builder_new, builder_process, fed, lemma_total_len_push, seed,
    total_len, DocumentBuilder, MAX_INPUT,
};
use crate::common::Async;
use crate::io::ParserSink;
use html5ever::rcdom::RcDom;
use std::collections::VecDeque;
use vstd::prelude::*;

verus! {

/// What polling the chunk source gave.
pub enum Polled<E> {
    /// The next chunk of input.
    Chunk(Vec<u8>),
    /// The source has ended.
    End,
    /// No chunk is there yet; more may come.
    NotReady,
    /// The source failed.
    Failed(E),
}

/// What the engine reports after it has taken one report of the source.
pub enum Progress<E> {
    /// The chunk was taken; poll the source again at once.
    Continue,
    /// The source had nothing: poll the engine again later.
    NotReady,
    /// The input has ended, and this is the document.
    Ready(RcDom),
    /// The source failed, and the engine has stopped.
    Failed(E),
}

/// The number of chunks that stand at the front of `reports`, before the
/// first report of another kind.
pub open spec fn leading_chunks<E>(reports: Seq<Polled<E>>) -> nat
    decreases reports.len(),
{
    if reports.len() > 0 && reports[0] is Chunk {
        1 + leading_chunks(reports.skip(1))
    } else {
        0
    }
}

/// The bytes of the first `k` reports, all of them chunks.
pub open spec fn chunk_bytes<E>(reports: Seq<Polled<E>>, k: nat) -> Seq<Seq<u8>> {
    Seq::new(k, |i: int| reports[i]->Chunk_0@)
}

/// Chunks at the front of a list are counted among the leading ones.
pub proof fn lemma_leading_at_least<E>(reports: Seq<Polled<E>>, n: nat)
    requires
        n <= reports.len(),
        forall|i: int| 0 <= i < n ==> #[trigger] reports[i] is Chunk,
    ensures
        leading_chunks(reports) >= n,
    decreases n,
{
    if n > 0 {
        let rest = reports.skip(1);
        assert(reports[0] is Chunk);
        assert forall|i: int| 0 <= i < n - 1 implies #[trigger] rest[i] is Chunk by {
            assert(rest[i] == reports[i + 1]);
        }
        lemma_leading_at_least(rest, (n - 1) as nat);
    }
}

/// The bytes of more reports are no fewer.
pub proof fn lemma_chunk_bytes_grow<E>(reports: Seq<Polled<E>>, n: nat, k: nat)
    requires
        n <= k,
    ensures
        total_len(chunk_bytes(reports, n)) <= total_len(chunk_bytes(reports, k)),
    decreases k - n,
{
    if n < k {
        let shorter = chunk_bytes(reports, (k - 1) as nat);
        assert(chunk_bytes(reports, k) =~= shorter.push(reports[k - 1]->Chunk_0@));
        lemma_total_len_push(shorter, reports[k - 1]->Chunk_0@);
        lemma_chunk_bytes_grow(reports, n, (k - 1) as nat);
    }
}

/// If the first `n` reports are chunks and the next one, if there is one, is
/// not, then `n` chunks stand at the front.
pub proof fn lemma_leading_chunks<E>(reports: Seq<Polled<E>>, n: nat)
    requires
        n <= reports.len(),
        forall|i: int| 0 <= i < n ==> #[trigger] reports[i] is Chunk,
        n < reports.len() ==> !(reports[n as int] is Chunk),
    ensures
        leading_chunks(reports) == n,
    decreases n,
{
    if n > 0 {
        let rest = reports.skip(1);
        assert(reports[0] is Chunk);
        assert forall|i: int| 0 <= i < n - 1 implies #[trigger] rest[i] is Chunk by {
            assert(rest[i] == reports[i + 1]);
        }
        if n - 1 < rest.len() {
            assert(rest[n - 1] == reports[n as int]);
        }
        lemma_leading_chunks(rest, (n - 1) as nat);
    }
}

enum ParserState {
    Parsing(DocumentBuilder),
    Finished,
}

/// The engine. It starts out parsing and finishes once, when the source ends
/// or fails; a finished engine takes no further report.
#[must_use]
pub struct ParserFuture {
    state: ParserState,
    taken: usize,
}

impl ParserFuture {
    /// The engine has not finished.
    pub closed spec fn is_parsing(&self) -> bool {
        self.state is Parsing
    }

    /// The builder of an engine that has not finished.
    pub closed spec fn builder(&self) -> DocumentBuilder
        recommends
            self.is_parsing(),
    {
        self.state->Parsing_0
    }

    /// The chunks taken so far, first to last.
    pub open spec fn received(&self) -> Seq<Seq<u8>>
        recommends
            self.is_parsing(),
    {
        fed(self.builder())
    }

    /// The document that the engine was created on.
    pub open spec fn origin(&self) -> RcDom
        recommends
            self.is_parsing(),
    {
        seed(self.builder())
    }

    /// While the engine parses, its count of the bytes received is right.
    pub closed spec fn wf(&self) -> bool {
        self.state is Parsing ==> {
            &&& self.taken == total_len(fed(self.state->Parsing_0))
            &&& self.taken <= MAX_INPUT
        }
    }

    /// The number of bytes that the engine still takes.
    pub open spec fn room(&self) -> int
        recommends
            self.is_parsing(),
    {
        MAX_INPUT - total_len(self.received())
    }

    /// What `step` does to an engine that has not finished, for each report
    /// of the source. A chunk joins the end of what was received and the
    /// engine goes on; "not ready" is handed on and changes nothing; the end
    /// of the source finishes the engine with the document built from the
    /// chunks received; a failure finishes it with that failure.
    pub open spec fn steps_to<E>(&self, event: Polled<E>, after: &Self, out: Progress<E>) -> bool {
        match event {
            Polled::Chunk(chunk) => {
                &&& out is Continue
                &&& after.is_parsing()
                &&& after.received() == self.received().push(chunk@)
                &&& after.origin() == self.origin()
            },
            Polled::NotReady => {
                &&& out is NotReady
                &&& *after == *self
            },
            Polled::End => {
                &&& out == Progress::<E>::Ready(built(self.origin(), self.received()))
                &&& !after.is_parsing()
            },
            Polled::Failed(e) => {
                &&& out == Progress::<E>::Failed(e)
                &&& !after.is_parsing()
            },
        }
    }

    /// What `poll` does to an engine that has not finished, on a source
    /// that holds `reports`. The chunks at the front are received in their
    /// order. If nothing follows them, the source has run dry and the engine
    /// is not ready. Otherwise the report that follows is taken too, and
    /// decides: "not ready" is handed on, the end of the source gives the
    /// document built from all the chunks received, a failure is handed on.
    /// The reports behind it stay in the source.
    pub open spec fn polls_to<E>(
        &self,
        reports: Seq<Polled<E>>,
        after: &Self,
        left: Seq<Polled<E>>,
        out: Result<Async<RcDom>, E>,
    ) -> bool {
        let k = leading_chunks(reports);
        let received = self.received() + chunk_bytes(reports, k);
        let waiting = {
            &&& out matches Ok(Async::NotReady)
            &&& after.is_parsing()
            &&& after.received() == received
            &&& after.origin() == self.origin()
        };
        if k == reports.len() {
            &&& waiting
            &&& left.len() == 0
        } else {
            &&& left == reports.skip(k as int + 1)
            &&& match reports[k as int] {
                Polled::End => {
                    &&& out == Ok::<Async<RcDom>, E>(
                        Async::Ready(built(self.origin(), received)),
                    )
                    &&& !after.is_parsing()
                },
                Polled::Failed(e) => {
                    &&& out == Err::<Async<RcDom>, E>(e)
                    &&& !after.is_parsing()
                },
                _ => waiting,
            }
        }
    }

    /// An engine on `dom` that has received nothing.
    pub fn new(dom: RcDom) -> (engine: Self)
        ensures
            engine.wf(),
            engine.is_parsing(),
            engine.received() == Seq::<Seq<u8>>::empty(),
            engine.origin() == dom,
    {
        let parser = builder_new(dom);
        ParserFuture { state: ParserState::Parsing(parser), taken: 0 }
    }

    /// Whether the engine has finished, by the end of its source or by a
    /// failure.
    pub fn is_finished(&self) -> (done: bool)
        ensures
            done == !self.is_parsing(),
    {
        match self.state {
            ParserState::Parsing(_) => false,
            ParserState::Finished => true,
        }
    }

    /// The number of bytes that the engine still takes; none once it has
    /// finished.
    pub fn room_left(&self) -> (room: usize)
        requires
            self.wf(),
        ensures
            self.is_parsing() ==> room == self.room(),
            !self.is_parsing() ==> room == 0,
    {
        match self.state {
            ParserState::Parsing(_) => MAX_INPUT - self.taken,
            ParserState::Finished => 0,
        }
    }

    /// Whether `poll` may be called on `source`: the engine has not
    /// finished, and the chunks at the front of the source fit in the room
    /// that is left.
    pub fn fits<E>(&self, source: &VecDeque<Polled<E>>) -> (ok: bool)
        requires
            self.wf(),
        ensures
            ok == (self.is_parsing() && total_len(
                chunk_bytes(source@, leading_chunks(source@)),
            ) <= self.room()),
    {
        if self.is_finished() {
            return false;
        }
        let room = self.room_left();
        let mut sum: usize = 0;
        let mut i: usize = 0;
        while i < source.len()
            invariant
                self.is_parsing(),
                room == self.room(),
                i <= source@.len(),
                forall|k: int| 0 <= k < i ==> #[trigger] source@[k] is Chunk,
                sum == total_len(chunk_bytes(source@, i as nat)),
                sum <= room,
            decreases source@.len() - i,
        {
            match &source[i] {
                Polled::Chunk(chunk) => {
                    proof {
                        assert(chunk_bytes(source@, i as nat).push(chunk@) =~= chunk_bytes(
                            source@,
                            (i + 1) as nat,
                        ));
                        lemma_total_len_push(chunk_bytes(source@, i as nat), chunk@);
                        lemma_leading_at_least(source@, (i + 1) as nat);
                        lemma_chunk_bytes_grow(
                            source@,
                            (i + 1) as nat,
                            leading_chunks(source@),
                        );
                    }
                    if chunk.len() > room - sum {
                        return false;
                    }
                    sum = sum + chunk.len();
                },
                _ => {
                    proof {
                        lemma_leading_chunks(source@, i as nat);
                    }
                    return true;
                },
            }
            i += 1;
        }
        proof {
            lemma_leading_chunks(source@, i as nat);
        }
        true
    }

    /// Takes one report of the chunk source. The engine must not have
    /// finished, and a chunk must fit in the room that is left.
    pub fn step<E>(&mut self, event: Polled<E>) -> (out: Progress<E>)
        requires
            old(self).wf(),
            old(self).is_parsing(),
            event matches Polled::Chunk(chunk) ==> chunk@.len() <= old(self).room(),
        ensures
            final(self).wf(),
            old(self).steps_to(event, final(self), out),
    {
        match event {
            Polled::Chunk(chunk) => {
                proof {
                    lemma_total_len_push(self.received(), chunk@);
                }
                match &mut self.state {
                    ParserState::Parsing(parser) => {
                        builder_process(parser, chunk.as_slice());
                    },
                    ParserState::Finished => {},
                }
                self.taken = self.taken + chunk.len();
                Progress::Continue
            },
            Polled::NotReady => Progress::NotReady,
            Polled::End => {
                let mut state = ParserState::Finished;
                std::mem::swap(&mut self.state, &mut state);
                match state {
                    ParserState::Parsing(parser) => Progress::Ready(builder_finish(parser)),
                    ParserState::Finished => Progress::NotReady,
                }
            },
            Polled::Failed(e) => {
                self.state = ParserState::Finished;
                Progress::Failed(e)
            },
        }
    }
}

impl ParserFuture {
    /// Makes progress on a source held in memory: takes its reports one by
    /// one, without giving up control between chunks, until the source runs
    /// dry or reports anything but a chunk. The engine must not have
    /// finished, and the chunks at the front of the source must fit in the
    /// room that is left.
    pub fn poll<E>(&mut self, source: &mut VecDeque<Polled<E>>) -> (out: Result<Async<RcDom>, E>)
        requires
            old(self).wf(),
            old(self).is_parsing(),
            total_len(chunk_bytes(old(source)@, leading_chunks(old(source)@))) <= old(self).room(),
        ensures
            final(self).wf(),
            old(self).polls_to(old(source)@, final(self), final(source)@, out),
    {
        let ghost start = *self;
        let ghost reports = source@;
        let ghost mut n: nat = 0;
        proof {
            assert(reports.skip(0) =~= reports);
            assert(start.received() + chunk_bytes(reports, 0) =~= start.received());
        }
        loop
            invariant
                start == *old(self),
                reports == old(source)@,
                start.is_parsing(),
                self.wf(),
                self.is_parsing(),
                self.origin() == start.origin(),
                total_len(chunk_bytes(reports, leading_chunks(reports))) <= start.room(),
                total_len(self.received()) == total_len(start.received()) + total_len(
                    chunk_bytes(reports, n),
                ),
                n <= reports.len(),
                source@ == reports.skip(n as int),
                forall|i: int| 0 <= i < n ==> #[trigger] reports[i] is Chunk,
                self.received() == start.received() + chunk_bytes(reports, n),
            decreases source@.len(),
        {
            match source.pop_front() {
                None => {
                    proof {
                        lemma_leading_chunks(reports, n);
                    }
                    return Ok(Async::NotReady);
                },
                Some(report) => {
                    proof {
                        assert(report == reports[n as int]);
                        assert(source@ =~= reports.skip(n as int + 1));
                        if report is Chunk {
                            lemma_leading_at_least(reports, (n + 1) as nat);
                            lemma_chunk_bytes_grow(
                                reports,
                                (n + 1) as nat,
                                leading_chunks(reports),
                            );
                            lemma_total_len_push(chunk_bytes(reports, n), report->Chunk_0@);
                            lemma_total_len_push(self.received(), report->Chunk_0@);
                            assert(chunk_bytes(reports, n).push(report->Chunk_0@) =~= chunk_bytes(
                                reports,
                                (n + 1) as nat,
                            ));
                            assert((start.received() + chunk_bytes(reports, n)).push(
                                report->Chunk_0@,
                            ) =~= start.received() + chunk_bytes(reports, (n + 1) as nat));
                        } else {
                            lemma_leading_chunks(reports, n);
                        }
                    }
                    match self.step(report) {
                        Progress::Continue => {
                            proof {
                                n = n + 1;
                            }
                        },
                        Progress::NotReady => {
                            return Ok(Async::NotReady);
                        },
                        Progress::Ready(dom) => {
                            return Ok(Async::Ready(dom));
                        },
                        Progress::Failed(e) => {
                            return Err(e);
                        },
                    }
                },
            }
        }
    }
}

/// An engine finishes exactly when `step` hands out its document or the
/// failure of its source. A finished engine meets the `requires` of neither
/// `step` nor `poll`: it takes no further report, and never runs again.
pub proof fn lemma_result_is_final<E>(
    before: ParserFuture,
    event: Polled<E>,
    after: ParserFuture,
    out: Progress<E>,
)
    requires
        before.is_parsing(),
        before.steps_to(event, &after, out),
    ensures
        !after.is_parsing() <==> (out is Ready || out is Failed),
{
}

/// An engine finishes exactly when `poll` hands out its document or the
/// failure of its source.
pub proof fn lemma_polled_result_is_final<E>(
    before: ParserFuture,
    reports: Seq<Polled<E>>,
    after: ParserFuture,
    left: Seq<Polled<E>>,
    out: Result<Async<RcDom>, E>,
)
    requires
        before.is_parsing(),
        before.polls_to(reports, &after, left, out),
    ensures
        !after.is_parsing() <==> (out is Err || out matches Ok(Async::Ready(_))),
{
}

/// An engine and a sink that started on the same document and took the same
/// chunks in the same order end with the same document, however often the
/// engine's source was not ready in between.
pub proof fn lemma_engine_matches_sink<E>(
    engine: ParserFuture,
    sink: ParserSink,
    after: ParserFuture,
    out: Progress<E>,
)
    requires
        engine.is_parsing(),
        engine.origin() == sink.origin(),
        engine.received() == sink.written(),
        engine.steps_to(Polled::<E>::End, &after, out),
    ensures
        out == Progress::<E>::Ready(built(sink.origin(), sink.written())),
{
}

} // verus!
