//! Media session lifecycle: the state machine behind one spawned transcoder
//! and its reader worker.
//!
//! The session owns the scan buffer and the frame slot and decides every
//! step: what a worker turn does with a chunk, what pause, stop and a new
//! spawn mean.  The caller performs the outside work — spawning the
//! transcoder, reading its pipe, killing it and joining the worker — and
//! feeds the results in as plain values.

use vstd::prelude::*;
use crate::frame::FrameSlot;
use crate::frame::jpeg_decodes;
use crate::frame::publish_spec;
use crate::stream::StreamReader;
use crate::stream::lemma_single_span;
use crate::stream::lemma_span_prefix;
use crate::stream::lemma_wf_spans_parse_exactly;
use crate::stream::residue_of;
use crate::stream::spans_of;
use crate::stream::wf_span;

verus! {

/// The session's lifecycle state: `Stopped -> Playing <-> Paused`, and from
/// either back to `Stopped`, which is terminal until a new spawn.
#[derive(Clone, Copy, Debug, PartialEq, Eq, Structural)]
pub enum SessionState {
    /// No transcoder is running.
    Stopped,
    /// Frames are decoded and published as they complete.
    Playing,
    /// The stream keeps draining but nothing is published.
    Paused,
}

/// Mathematical model of a session: its state, the stop signal, the bytes
/// buffered by the reader, and the source bytes of the visible frame.
pub ghost struct SessionModel {
    /// Lifecycle state
    pub state: SessionState,
    /// Once set, worker turns change nothing
    pub stop_requested: bool,
    /// Bytes buffered while scanning for frame boundaries
    pub buf: Seq<u8>,
    /// The byte span the visible frame was decoded from, if any
    pub slot: Option<Seq<u8>>,
}

/// What `toggle_pause` does to the state: it flips between `Playing` and
/// `Paused`, and is a no-op while `Stopped`.
pub open spec fn toggle_spec(s: SessionState) -> SessionState {
    match s {
        SessionState::Playing => SessionState::Paused,
        SessionState::Paused => SessionState::Playing,
        SessionState::Stopped => SessionState::Stopped,
    }
}

/// What `stop` does: it sets the stop signal and lands in `Stopped`,
/// touching neither the buffer nor the visible frame.
pub open spec fn stop_spec(m: SessionModel) -> SessionModel {
    SessionModel { state: SessionState::Stopped, stop_requested: true, ..m }
}

/// What a fresh spawn outcome yields: on success a clean `Playing` session;
/// on failure everything stays `Stopped`.  Either way the prior session's
/// buffer and frame are gone.
pub open spec fn spawn_spec(ok: bool) -> SessionModel {
    SessionModel {
        state: if ok {
            SessionState::Playing
        } else {
            SessionState::Stopped
        },
        stop_requested: !ok,
        buf: Seq::empty(),
        slot: None,
    }
}

/// One worker turn on a chunk read from the pipe.  After a stop, or with
/// nothing running, it changes nothing.  Otherwise the chunk enters the
/// buffer, every frame it completes is parsed out and consumed, and — when
/// not paused — the last decodable one becomes the visible frame.  While
/// paused frames are parsed and discarded all the same, so the pipe keeps
/// draining and resuming is instantaneous.
pub open spec fn chunk_spec(m: SessionModel, chunk: Seq<u8>) -> SessionModel {
    if m.stop_requested || m.state is Stopped {
        m
    } else {
        let stream = m.buf + chunk;
        SessionModel {
            buf: residue_of(stream),
            slot: if m.state is Paused {
                m.slot
            } else {
                publish_spec(m.slot, spans_of(stream))
            },
            ..m
        }
    }
}

/// One media session: the state machine, the scan buffer, and the frame
/// slot.
pub struct MediaSession {
    state: SessionState,
    stop_requested: bool,
    reader: StreamReader,
    slot: FrameSlot,
}

impl View for MediaSession {
    type V = SessionModel;

    closed spec fn view(&self) -> SessionModel {
        SessionModel {
            state: self.state,
            stop_requested: self.stop_requested,
            buf: self.reader@,
            slot: self.slot@,
        }
    }
}

impl MediaSession {
    /// The bitmap shown right now, if any: what `read_latest_frame` hands
    /// out a copy of.
    pub closed spec fn shown(&self) -> Option<image::DynamicImage> {
        self.slot.shown()
    }

    /// The slot only ever holds a fully decoded frame.
    pub closed spec fn wf(&self) -> bool {
        self.slot.wf()
    }

    /// Whatever the session shows was successfully decoded: an ill-formed
    /// span can never become the visible frame.
    pub proof fn lemma_visible_frame_decodes(&self)
        requires
            self.wf(),
        ensures
            self@.slot matches Some(b) ==> jpeg_decodes(b),
    {
        self.slot.lemma_visible_frame_decodes();
    }

    /// A bitmap is shown exactly when the session holds a frame's bytes.
    pub proof fn lemma_shown_iff_held(&self)
        requires
            self.wf(),
        ensures
            self.shown() is Some <==> self@.slot is Some,
    {
        self.slot.lemma_shown_iff_held();
    }

    /// A session with nothing ever spawned: `Stopped`, nothing to show.
    pub fn new() -> (s: Self)
        ensures
            s.wf(),
            s@ == spawn_spec(false),
    {
        MediaSession {
            state: SessionState::Stopped,
            stop_requested: true,
            reader: StreamReader::new(),
            slot: FrameSlot::new(),
        }
    }

    /// Record the outcome of a transcoder launch.  On success the session
    /// starts `Playing` with a fresh buffer and an empty slot; on failure it
    /// stays `Stopped` with no partial session left behind.  Either way the
    /// prior session's state is discarded (the caller has stopped it first).
    pub fn on_spawn(&mut self, launch_ok: bool)
        ensures
            final(self).wf(),
            final(self)@ == spawn_spec(launch_ok),
            final(self).shown() is None,
    {
        self.state = if launch_ok {
            SessionState::Playing
        } else {
            SessionState::Stopped
        };
        self.stop_requested = !launch_ok;
        self.reader = StreamReader::new();
        self.slot = FrameSlot::new();
    }

    /// The current lifecycle state.
    pub fn state(&self) -> (s: SessionState)
        ensures
            s == self@.state,
    {
        self.state
    }

    /// Whether the reader worker should take another turn: it runs until
    /// the stop signal is set.
    pub fn should_continue(&self) -> (r: bool)
        ensures
            r == !self@.stop_requested,
    {
        !self.stop_requested
    }

    /// Flip between `Playing` and `Paused`; while `Stopped` this is a no-op
    /// with no observable effect and no error.
    pub fn toggle_pause(&mut self)
        requires
            old(self).wf(),
        ensures
            final(self).wf(),
            final(self)@ == (SessionModel { state: toggle_spec(old(self)@.state), ..old(self)@ }),
            final(self).shown() == old(self).shown(),
    {
        self.state = match self.state {
            SessionState::Playing => SessionState::Paused,
            SessionState::Paused => SessionState::Playing,
            SessionState::Stopped => SessionState::Stopped,
        };
    }

    /// Set the stop signal and land in `Stopped`.  Idempotent, total, and
    /// safe when nothing was ever spawned.  The caller then kills the
    /// transcoder and joins the worker; once the signal is set a worker
    /// turn changes nothing, so no further frame can appear.
    pub fn stop(&mut self)
        requires
            old(self).wf(),
        ensures
            final(self).wf(),
            final(self)@ == stop_spec(old(self)@),
            final(self).shown() == old(self).shown(),
    {
        self.stop_requested = true;
        self.state = SessionState::Stopped;
    }

    /// One worker turn on a chunk read from the transcoder's pipe; see
    /// [`chunk_spec`] for exactly what it does in each state.
    pub fn handle_chunk(&mut self, chunk: &[u8])
        requires
            old(self).wf(),
        ensures
            final(self).wf(),
            final(self)@ == chunk_spec(old(self)@, chunk@),
            old(self)@.stop_requested || old(self)@.state is Stopped
                ==> final(self).shown() == old(self).shown(),
            old(self)@.state is Paused ==> final(self).shown() == old(self).shown(),
    {
        if self.stop_requested {
            return ;
        }
        let paused = match self.state {
            SessionState::Stopped => {
                return ;
            },
            SessionState::Paused => true,
            SessionState::Playing => false,
        };
        let spans = self.reader.ingest(chunk);
        self.slot.publish_all(&spans, paused);
    }

    /// How many bytes wait in the scan buffer: a completed frame's bytes
    /// are consumed by the turn that parses them, paused or not.
    pub fn buffered(&self) -> (n: usize)
        ensures
            n == self@.buf.len(),
    {
        self.reader.buffered()
    }

    /// The most recently decoded frame, cloned out, or nothing: exactly a
    /// copy of the slot's current content.  Non-blocking, safe to call at
    /// any rate from any state, and never a torn or partial frame.
    pub fn read_latest_frame(&self) -> (r: Option<image::DynamicImage>)
        requires
            self.wf(),
        ensures
            r == self.shown(),
            r is Some <==> self@.slot is Some,
    {
        self.slot.latest()
    }
}

/// Stopping is idempotent and total: from any state — also with nothing
/// ever spawned — it lands in `Stopped`, and stopping again changes
/// nothing.
pub proof fn lemma_stop_idempotent(m: SessionModel)
    ensures
        stop_spec(m).state is Stopped,
        stop_spec(stop_spec(m)) == stop_spec(m),
{
}

/// After a stop no worker turn changes anything: the visible frame can no
/// longer change, whatever else is read from the pipe.
pub proof fn lemma_no_update_after_stop(m: SessionModel, chunk: Seq<u8>)
    ensures
        chunk_spec(stop_spec(m), chunk) == stop_spec(m),
{
}

/// Toggling pause while `Stopped` is a no-op: no observable state change.
pub proof fn lemma_toggle_stopped(m: SessionModel)
    requires
        m.state is Stopped,
    ensures
        (SessionModel { state: toggle_spec(m.state), ..m }) == m,
{
}

/// A worker turn over a stream of two complete spans, the first of which
/// the decoder rejects and the second of which it accepts, shows exactly
/// the second: the malformed span is dropped silently and never observable.
pub proof fn lemma_bad_then_good_frame(m: SessionModel, s1: Seq<u8>, s2: Seq<u8>)
    requires
        !m.stop_requested,
        m.state is Playing,
        m.buf == Seq::<u8>::empty(),
        wf_span(s1),
        wf_span(s2),
        !jpeg_decodes(s1),
        jpeg_decodes(s2),
    ensures
        chunk_spec(m, s1 + s2).slot == Some(s2),
        chunk_spec(m, s1 + s2).buf == Seq::<u8>::empty(),
{
    let stream = m.buf + (s1 + s2);
    assert(stream =~= s1 + s2);
    lemma_span_prefix(s1, s2);
    lemma_single_span(s2);
    assert(spans_of(s1 + s2) =~= seq![s1, s2]);
    assert(spans_of(stream).last() == s2);
    assert(residue_of(s1 + s2) == Seq::<u8>::empty());
}

/// The latest frame wins: a worker turn over a run of complete spans whose
/// last span decodes shows exactly that last span — once the last frame of a
/// delivered stream is parsed, no earlier one can be the visible frame.
pub proof fn lemma_latest_frame_wins(m: SessionModel, fs: Seq<Seq<u8>>)
    requires
        !m.stop_requested,
        m.state is Playing,
        m.buf == Seq::<u8>::empty(),
        fs.len() > 0,
        forall|i: int| 0 <= i < fs.len() ==> wf_span(#[trigger] fs[i]),
        jpeg_decodes(fs.last()),
    ensures
        chunk_spec(m, fs.flatten()).slot == Some(fs.last()),
        chunk_spec(m, fs.flatten()).buf == Seq::<u8>::empty(),
{
    lemma_wf_spans_parse_exactly(fs);
    assert(m.buf + fs.flatten() =~= fs.flatten());
}

} // verus!
