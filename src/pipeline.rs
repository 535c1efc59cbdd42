//! The command pipeline of one connection: requests in flight in the order
//! they were written, matched with replies in the order they arrive, and the
//! mode rules that decide which commands may be written and which inbound
//! frames are replies.
use vstd::prelude::*;
use vstd::string::StringSliceAdditionalSpecFns;
use std::collections::VecDeque;
use crate::command::{Command, encode_batch, batch_encoding};
use crate::registry::{Mode, FrameKind, word};
use crate::value::{Value, Error};
use crate::decoder::bytes_equal;

verus! {

/// The commands that subscribed mode still allows.
pub open spec fn allowed_when_subscribed(name: Seq<u8>) -> bool {
    name == "SUBSCRIBE".spec_bytes() || name == "PSUBSCRIBE".spec_bytes() || name
        == "SSUBSCRIBE".spec_bytes() || name == "UNSUBSCRIBE".spec_bytes() || name
        == "PUNSUBSCRIBE".spec_bytes() || name == "SUNSUBSCRIBE".spec_bytes() || name
        == "PING".spec_bytes() || name == "QUIT".spec_bytes() || name == "RESET".spec_bytes()
}

/// Whether the command `c` may be written in `mode`.
pub open spec fn command_allowed(mode: Mode, c: Seq<Seq<u8>>) -> bool {
    mode == Mode::Regular || (c.len() > 0 && allowed_when_subscribed(c[0]))
}

/// The words that start a push array in subscribed mode.
pub open spec fn is_push_word(w: Seq<u8>) -> bool {
    w == "message".spec_bytes() || w == "pmessage".spec_bytes() || w == "smessage".spec_bytes()
        || w == "subscribe".spec_bytes() || w == "psubscribe".spec_bytes() || w
        == "ssubscribe".spec_bytes() || w == "unsubscribe".spec_bytes() || w
        == "punsubscribe".spec_bytes() || w == "sunsubscribe".spec_bytes()
}

/// A RESP3 push is always a push; in subscribed mode, so is an array whose
/// first element is one of the pub/sub words; every other frame is a reply.
pub open spec fn classification(mode: Mode, v: Value) -> FrameKind {
    if v is Push {
        FrameKind::Push
    } else if mode == Mode::Subscribed && v is Array && v->Array_0 is Some
        && v->Array_0->Some_0@.len() > 0 && word(v->Array_0->Some_0@[0]) is Some && is_push_word(
        word(v->Array_0->Some_0@[0])->Some_0,
    ) {
        FrameKind::Push
    } else {
        FrameKind::Response
    }
}

fn allowed_name(name: &[u8]) -> (r: bool)
    ensures
        r == allowed_when_subscribed(name@),
{
    bytes_equal(name, "SUBSCRIBE".as_bytes()) || bytes_equal(name, "PSUBSCRIBE".as_bytes())
        || bytes_equal(name, "SSUBSCRIBE".as_bytes()) || bytes_equal(name, "UNSUBSCRIBE".as_bytes())
        || bytes_equal(name, "PUNSUBSCRIBE".as_bytes()) || bytes_equal(
        name,
        "SUNSUBSCRIBE".as_bytes(),
    ) || bytes_equal(name, "PING".as_bytes()) || bytes_equal(name, "QUIT".as_bytes())
        || bytes_equal(name, "RESET".as_bytes())
}

fn push_word(w: &[u8]) -> (r: bool)
    ensures
        r == is_push_word(w@),
{
    bytes_equal(w, "message".as_bytes()) || bytes_equal(w, "pmessage".as_bytes()) || bytes_equal(
        w,
        "smessage".as_bytes(),
    ) || bytes_equal(w, "subscribe".as_bytes()) || bytes_equal(w, "psubscribe".as_bytes())
        || bytes_equal(w, "ssubscribe".as_bytes()) || bytes_equal(w, "unsubscribe".as_bytes())
        || bytes_equal(w, "punsubscribe".as_bytes()) || bytes_equal(w, "sunsubscribe".as_bytes())
}

/// Fails with `ForbiddenInSubscribedMode` when `mode` does not allow the
/// command.
pub fn check_command(mode: Mode, command: &Command) -> (r: Result<(), Error>)
    ensures
        command_allowed(mode, command@) ==> r is Ok,
        !command_allowed(mode, command@) ==> r == Err::<(), Error>(Error::ForbiddenInSubscribedMode),
{
    match mode {
        Mode::Regular => Ok(()),
        Mode::Subscribed => {
            if command.parts.len() > 0 && allowed_name(command.name()) {
                Ok(())
            } else {
                Err(Error::ForbiddenInSubscribedMode)
            }
        },
    }
}

/// Whether an inbound frame is a reply or a push, in `mode`.
pub fn classify(mode: Mode, v: &Value) -> (r: FrameKind)
    ensures
        r == classification(mode, *v),
{
    match v {
        Value::Push(_) => FrameKind::Push,
        Value::Array(Some(items)) => {
            if mode == Mode::Subscribed && items.len() > 0 {
                match &items[0] {
                    Value::BulkString(Some(w)) => {
                        if push_word(w.as_slice()) {
                            FrameKind::Push
                        } else {
                            FrameKind::Response
                        }
                    },
                    _ => FrameKind::Response,
                }
            } else {
                FrameKind::Response
            }
        },
        _ => FrameKind::Response,
    }
}

/// What the pipeline makes of an inbound frame.
#[derive(Debug, PartialEq)]
pub enum Inbound {
    /// The reply to the oldest request in flight, tagged as that request was.
    Response(u64, Value),
    /// A frame the server sent on its own.
    Push(Value),
    /// A reply while no request was in flight.
    Unsolicited(Value),
}

/// The requests in flight on one connection, oldest first.  Each holds the
/// tag that its sender gave it.
pub struct Pipeline {
    pending: VecDeque<u64>,
}

impl Pipeline {
    pub closed spec fn view(&self) -> Seq<u64> {
        self.pending@
    }

    pub fn new() -> (r: Pipeline)
        ensures
            r.view() == Seq::<u64>::empty(),
    {
        Pipeline { pending: VecDeque::new() }
    }

    pub fn len(&self) -> (r: usize)
        ensures
            r == self.view().len(),
    {
        self.pending.len()
    }

    /// Submits a batch of commands, each tagged `tag`: when `mode` allows
    /// every one of them, enqueues one entry per command and gives the bytes
    /// of the single write; else fails with `ForbiddenInSubscribedMode`,
    /// leaving the pipeline as it was and writing nothing.
    pub fn submit(&mut self, mode: Mode, commands: &Vec<Command>, tag: u64) -> (r: Result<Vec<u8>, Error>)
        ensures
            (forall|i: int| 0 <= i < commands@.len() ==> command_allowed(mode, #[trigger] commands@[i]@))
                ==> r is Ok && r->Ok_0@ == batch_encoding(commands@.map_values(|c: Command| c@))
                && final(self).view() == old(self).view() + Seq::new(commands@.len(), |i: int| tag),
            !(forall|i: int| 0 <= i < commands@.len() ==> command_allowed(mode, #[trigger] commands@[i]@))
                ==> r == Err::<Vec<u8>, Error>(Error::ForbiddenInSubscribedMode)
                && final(self).view() == old(self).view(),
    {
        let mut i: usize = 0;
        while i < commands.len()
            invariant
                i <= commands@.len(),
                forall|j: int| 0 <= j < i ==> command_allowed(mode, #[trigger] commands@[j]@),
            decreases commands@.len() - i,
        {
            if check_command(mode, &commands[i]).is_err() {
                return Err(Error::ForbiddenInSubscribedMode);
            }
            i = i + 1;
        }
        let mut k: usize = 0;
        while k < commands.len()
            invariant
                k <= commands@.len(),
                self.view() == old(self).view() + Seq::new(k as nat, |i: int| tag),
            decreases commands@.len() - k,
        {
            self.pending.push_back(tag);
            k = k + 1;
            assert(self.view() =~= old(self).view() + Seq::new(k as nat, |i: int| tag));
        }
        Ok(encode_batch(commands))
    }

    /// Takes an inbound frame: a push goes aside; a reply completes the
    /// oldest request in flight.
    pub fn on_frame(&mut self, mode: Mode, frame: Value) -> (r: Inbound)
        ensures
            classification(mode, frame) == FrameKind::Push ==> r == Inbound::Push(frame)
                && final(self).view() == old(self).view(),
            classification(mode, frame) == FrameKind::Response && old(self).view().len() > 0 ==> r
                == Inbound::Response(old(self).view()[0], frame) && final(self).view() == old(
                self,
            ).view().drop_first(),
            classification(mode, frame) == FrameKind::Response && old(self).view().len() == 0 ==> r
                == Inbound::Unsolicited(frame) && final(self).view() == old(self).view(),
    {
        match classify(mode, &frame) {
            FrameKind::Push => Inbound::Push(frame),
            FrameKind::Response => match self.pending.pop_front() {
                Some(tag) => Inbound::Response(tag, frame),
                None => Inbound::Unsolicited(frame),
            },
        }
    }

    /// Empties the pipeline when the connection is lost: the tags of the
    /// requests that fail with `ConnectionLost`, oldest first.
    pub fn fail_all(&mut self) -> (r: Vec<u64>)
        ensures
            r@ == old(self).view(),
            final(self).view() == Seq::<u64>::empty(),
    {
        let mut out: Vec<u64> = Vec::new();
        while self.pending.len() > 0
            invariant
                out@ + self.view() == old(self).view(),
            decreases self.view().len(),
        {
            match self.pending.pop_front() {
                Some(tag) => {
                    out.push(tag);
                    assert(out@ + self.view() =~= old(self).view());
                },
                None => {},
            }
        }
        assert(out@ =~= old(self).view());
        out
    }
}

/// An event on a connection's pipeline: a batch sent with the given tags,
/// or a reply received.
pub enum PipelineEvent {
    Send(Seq<u64>),
    Reply,
}

/// After `events`, from an empty pipeline: the tags sent, the tags whose
/// replies came, and the tags still in flight.
pub open spec fn run(events: Seq<PipelineEvent>) -> (Seq<u64>, Seq<u64>, Seq<u64>)
    decreases events.len(),
{
    if events.len() == 0 {
        (Seq::empty(), Seq::empty(), Seq::empty())
    } else {
        let (sent, resolved, pending) = run(events.drop_last());
        match events.last() {
            PipelineEvent::Send(tags) => (sent + tags, resolved, pending + tags),
            PipelineEvent::Reply => if pending.len() > 0 {
                (sent, resolved.push(pending[0]), pending.drop_first())
            } else {
                (sent, resolved, pending)
            },
        }
    }
}

proof fn lemma_run_splits(events: Seq<PipelineEvent>)
    ensures
        run(events).1 + run(events).2 == run(events).0,
    decreases events.len(),
{
    if events.len() > 0 {
        lemma_run_splits(events.drop_last());
        let (sent, resolved, pending) = run(events.drop_last());
        match events.last() {
            PipelineEvent::Send(tags) => {
                assert(resolved + (pending + tags) =~= (resolved + pending) + tags);
            },
            PipelineEvent::Reply => {
                if pending.len() > 0 {
                    assert(resolved.push(pending[0]) + pending.drop_first() =~= resolved + pending);
                }
            },
        }
    }
}

/// Pipeline order: however sends and replies interleave on one connection,
/// requests are completed in the order they were sent.
pub proof fn lemma_pipeline_fifo(events: Seq<PipelineEvent>)
    ensures
        run(events).1.len() <= run(events).0.len(),
        run(events).1 == run(events).0.subrange(0, run(events).1.len() as int),
{
    lemma_run_splits(events);
    let (sent, resolved, pending) = run(events);
    assert(sent.subrange(0, resolved.len() as int) =~= resolved);
}

} // verus!
