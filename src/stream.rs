use vstd::prelude::*;

use crate::container::{
    bytes_opt_view, container_readable, copy_bytes, read_container, reads_as, Container,
    ContainerError,
};

verus! {

#[verifier::external_type_specification]
#[verifier::external_body]
#[verifier::reject_recursive_types(T)]
pub struct ExSyncSender<T>(std::sync::mpsc::SyncSender<T>);

#[verifier::external_type_specification]
#[verifier::external_body]
#[verifier::reject_recursive_types(T)]
pub struct ExReceiver<T>(std::sync::mpsc::Receiver<T>);

#[verifier::external_type_specification]
#[verifier::external_body]
#[verifier::reject_recursive_types(T)]
pub struct ExSendError<T>(std::sync::mpsc::SendError<T>);

#[verifier::external_type_specification]
#[verifier::external_body]
pub struct ExRecvError(std::sync::mpsc::RecvError);

/// Relies on `std::sync::mpsc::sync_channel`: a connected sender and
/// receiver with room for one value in flight.
#[verifier::external_body]
fn open_channel<T>() -> (r: (std::sync::mpsc::SyncSender<T>, std::sync::mpsc::Receiver<T>)) {
    std::sync::mpsc::sync_channel(1)
}

/// Relies on `SyncSender::send`; blocks while a value is in flight, and
/// whether it succeeds depends on the other end.
#[verifier::external_body]
fn send_on<T>(s: &std::sync::mpsc::SyncSender<T>, v: T) -> (r: Result<(), std::sync::mpsc::SendError<T>>) {
    s.send(v)
}

/// Relies on `Receiver::recv`: blocks until a value comes or the other end hangs up.
#[verifier::external_body]
fn recv_on<T>(r: &std::sync::mpsc::Receiver<T>) -> (v: Result<T, std::sync::mpsc::RecvError>) {
    r.recv()
}

/// One end of a pair of crossed channels, each holding at most one value in
/// flight: it sends `A` and receives `B`.
#[verifier::reject_recursive_types(A)]
#[verifier::reject_recursive_types(B)]
pub struct BiChannel<A, B>(std::sync::mpsc::SyncSender<A>, std::sync::mpsc::Receiver<B>);

impl<A, B> BiChannel<A, B> {
    /// Two connected ends: what one sends, the other receives.
    pub fn new() -> (r: (BiChannel<A, B>, BiChannel<B, A>)) {
        let (txa, rxa) = open_channel::<A>();
        let (txb, rxb) = open_channel::<B>();
        (BiChannel(txa, rxb), BiChannel(txb, rxa))
    }

    /// Waits for the next value from the other end.
    pub fn recv(&self) -> (r: Result<B, std::sync::mpsc::RecvError>) {
        recv_on(&self.1)
    }

    /// Sends a value to the other end.
    pub fn send(&self, val: A) -> (r: Result<(), std::sync::mpsc::SendError<A>>) {
        send_on(&self.0, val)
    }

    /// Sends a request and waits for the answer; `None` when the other end is gone.
    pub fn send_recv(&self, val: A) -> (r: Option<B>) {
        match self.send(val) {
            Ok(()) => match self.recv() {
                Ok(v) => Some(v),
                Err(_) => None,
            },
            Err(_) => None,
        }
    }
}

/// Asks the decoding side for the next item and waits for it; `None` once
/// the stream has ended.
pub fn next_frame(bi_channel: &BiChannel<bool, Vec<u8>>) -> (r: Option<Vec<u8>>) {
    bi_channel.send_recv(true)
}

/// The decoding side of playback: answers one request at a time, first with
/// the audio, then with each frame in order.
pub struct FrameStream {
    frames: Vec<Vec<u8>>,
    audio: Option<Vec<u8>>,
    audio_sent: bool,
    next: usize,
}

/// The frames of a container, in order, as byte strings.
pub open spec fn container_frames(c: Container) -> Seq<Seq<u8>> {
    Seq::new(c.frames@.len(), |i: int| c.frames@[i].data@)
}

/// The contents of a sequence of byte vectors.
pub open spec fn views_of(s: Seq<Vec<u8>>) -> Seq<Seq<u8>> {
    Seq::new(s.len(), |i: int| s[i]@)
}

impl FrameStream {
    /// The frames to play, in order.
    pub closed spec fn frames_spec(&self) -> Seq<Seq<u8>> {
        views_of(self.frames@)
    }

    /// The audio, while not yet handed out.
    pub closed spec fn audio_spec(&self) -> Option<Seq<u8>> {
        match self.audio {
            Some(a) => Some(a@),
            None => None,
        }
    }

    /// Whether the first request (for the audio) was answered.
    pub closed spec fn audio_sent_spec(&self) -> bool {
        self.audio_sent
    }

    /// How many frames were handed out or skipped.
    pub closed spec fn position_spec(&self) -> nat {
        self.next as nat
    }

    pub open spec fn wf(&self) -> bool {
        self.position_spec() <= self.frames_spec().len()
    }

    /// A stream over the frames and audio of a container, with nothing handed out yet.
    pub fn new(c: Container) -> (r: Self)
        ensures
            r.wf(),
            r.frames_spec() == container_frames(c),
            r.audio_spec() == bytes_opt_view(c.audio),
            !r.audio_sent_spec(),
            r.position_spec() == 0,
    {
        let mut frames: Vec<Vec<u8>> = Vec::new();
        let mut i: usize = 0;
        while i < c.frames.len()
            invariant
                i <= c.frames@.len(),
                frames@.len() == i,
                forall|k: int| 0 <= k < i ==> (#[trigger] frames@[k])@ == c.frames@[k].data@,
            decreases c.frames@.len() - i,
        {
            let d = copy_bytes(&c.frames[i].data);
            frames.push(d);
            i = i + 1;
        }
        assert(views_of(frames@) =~= container_frames(c));
        FrameStream { frames, audio: c.audio, audio_sent: false, next: 0 }
    }

    /// Whether every request has been answered: audio handed out and no frame left.
    pub fn finished(&self) -> (r: bool)
        requires
            self.wf(),
        ensures
            r == (self.audio_sent_spec() && self.position_spec() == self.frames_spec().len()),
    {
        self.audio_sent && self.next >= self.frames.len()
    }

    /// Answers one request. The first is answered with the audio (empty when
    /// there is none). After that each request takes the next frame: it is
    /// handed out when `more` is set and dropped otherwise. Once the frames
    /// are used up, nothing is handed out.
    pub fn respond(&mut self, more: bool) -> (r: Option<Vec<u8>>)
        requires
            old(self).wf(),
        ensures
            final(self).wf(),
            final(self).frames_spec() == old(self).frames_spec(),
            final(self).audio_sent_spec(),
            !old(self).audio_sent_spec() ==> {
                &&& r is Some
                &&& r->Some_0@ == match old(self).audio_spec() {
                    Some(a) => a,
                    None => Seq::<u8>::empty(),
                }
                &&& final(self).position_spec() == old(self).position_spec()
            },
            old(self).audio_sent_spec() && old(self).position_spec() < old(self).frames_spec().len()
                ==> {
                &&& final(self).position_spec() == old(self).position_spec() + 1
                &&& more ==> r is Some && r->Some_0@ == old(self).frames_spec()[old(
                    self,
                ).position_spec() as int]
                &&& !more ==> r is None
            },
            old(self).audio_sent_spec() && old(self).position_spec() == old(self).frames_spec().len()
                ==> r is None && final(self).position_spec() == old(self).position_spec(),
    {
        if !self.audio_sent {
            self.audio_sent = true;
            let a = match &self.audio {
                Some(a) => copy_bytes(a),
                None => Vec::new(),
            };
            self.audio = None;
            return Some(a);
        }
        if self.next < self.frames.len() {
            let i = self.next;
            self.next = self.next + 1;
            if more {
                let f = copy_bytes(&self.frames[i]);
                return Some(f);
            }
            return None;
        }
        None
    }
}

/// Reads a container (see `read_container`) and starts a stream over it.
pub fn open_stream(bytes: &[u8]) -> (r: Result<FrameStream, ContainerError>)
    ensures
        r is Ok <==> container_readable(bytes@),
        r matches Ok(s) ==> s.wf() && !s.audio_sent_spec() && s.position_spec() == 0 && exists|
            c: Container,
        |
            reads_as(bytes@, c) && s.frames_spec() == container_frames(c) && s.audio_spec()
                == bytes_opt_view(c.audio),
{
    match read_container(bytes) {
        Ok(c) => Ok(FrameStream::new(c)),
        Err(e) => Err(e),
    }
}

} // verus!
