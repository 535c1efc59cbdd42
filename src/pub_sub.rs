//! Pub/sub messages and the subscriber stream's own state: the names it
//! subscribed to, whether it was closed, and what it does with each item
//! that its sink hands it.
use vstd::prelude::*;
use vstd::string::StringSliceAdditionalSpecFns;
use vstd::utf8::encode_utf8;
use crate::command::{Command, cmd};
use crate::value::{Value, Error};
use crate::registry::SubscriptionKind;

verus! {

/// A message delivered to a subscriber: the pattern that matched (`Nil` for
/// a plain channel subscription), the channel and the payload.
#[derive(Debug, PartialEq)]
pub struct PubSubMessage {
    pub pattern: Value,
    pub channel: Value,
    pub payload: Value,
}

impl PubSubMessage {
    /// A message from a channel subscription.
    pub fn from_message(channel: Value, payload: Value) -> (r: PubSubMessage)
        ensures
            r == (PubSubMessage { pattern: Value::Nil, channel, payload }),
    {
        PubSubMessage { pattern: Value::Nil, channel, payload }
    }

    /// A message from a pattern subscription.
    pub fn from_pmessage(pattern: Value, channel: Value, payload: Value) -> (r: PubSubMessage)
        ensures
            r == (PubSubMessage { pattern, channel, payload }),
    {
        PubSubMessage { pattern, channel, payload }
    }

    /// Takes the pattern out of the message, leaving `Nil`.
    pub fn get_pattern(&mut self) -> (r: Value)
        ensures
            r == old(self).pattern,
            *final(self) == (PubSubMessage { pattern: Value::Nil, ..*old(self) }),
    {
        let mut taken = Value::Nil;
        std::mem::swap(&mut taken, &mut self.pattern);
        taken
    }

    /// Takes the channel out of the message, leaving `Nil`.
    pub fn get_channel(&mut self) -> (r: Value)
        ensures
            r == old(self).channel,
            *final(self) == (PubSubMessage { channel: Value::Nil, ..*old(self) }),
    {
        let mut taken = Value::Nil;
        std::mem::swap(&mut taken, &mut self.channel);
        taken
    }

    /// Takes the payload out of the message, leaving `Nil`.
    pub fn get_payload(&mut self) -> (r: Value)
        ensures
            r == old(self).payload,
            *final(self) == (PubSubMessage { payload: Value::Nil, ..*old(self) }),
    {
        let mut taken = Value::Nil;
        std::mem::swap(&mut taken, &mut self.payload);
        taken
    }
}

/// The parts of an array or push frame.
pub open spec fn parts_of(v: Value) -> Option<Seq<Value>> {
    match v {
        Value::Array(Some(items)) => Some(items@),
        Value::Push(items) => Some(items@),
        _ => None,
    }
}

/// The message that a sink item spells: `[pattern, channel, payload]` or
/// `[channel, payload]`.
pub open spec fn message_of(v: Value) -> Option<PubSubMessage> {
    match parts_of(v) {
        Some(p) => if p.len() == 3 {
            Some(PubSubMessage { pattern: p[0], channel: p[1], payload: p[2] })
        } else if p.len() == 2 {
            Some(PubSubMessage { pattern: Value::Nil, channel: p[0], payload: p[1] })
        } else {
            None
        },
        None => None,
    }
}

/// Reads a message out of an item of a subscriber's sink.
pub fn extract_message(message: Value) -> (r: Result<PubSubMessage, Error>)
    ensures
        match message_of(message) {
            Some(m) => r == Ok::<PubSubMessage, Error>(m),
            None => r is Err && r->Err_0 is Client,
        },
{
    let mut parts = match message {
        Value::Array(Some(items)) => items,
        Value::Push(items) => items,
        _ => {
            return Err(Error::Client("cannot parse pub/sub message".to_owned()));
        },
    };
    if parts.len() == 3 {
        let payload = parts.pop().unwrap();
        let channel = parts.pop().unwrap();
        let pattern = parts.pop().unwrap();
        Ok(PubSubMessage::from_pmessage(pattern, channel, payload))
    } else if parts.len() == 2 {
        let payload = parts.pop().unwrap();
        let channel = parts.pop().unwrap();
        Ok(PubSubMessage::from_message(channel, payload))
    } else {
        Err(Error::Client("cannot parse pub/sub message".to_owned()))
    }
}

/// The names that a subscriber stream is subscribed to, and whether it was
/// closed.  Its sink and its handle on the client live with the caller.
pub struct PubSubStream {
    closed: bool,
    channels: Vec<String>,
    patterns: Vec<String>,
    shardchannels: Vec<String>,
}

/// The command `name` followed by `args`.
pub open spec fn command_with(name: Seq<u8>, args: Seq<Seq<u8>>) -> Seq<Seq<u8>> {
    seq![name] + args
}

/// The unsubscribe commands that release the given names: one for each
/// non-empty list, channels first, then patterns, then shard channels.
pub open spec fn unsubscribe_commands(
    channels: Seq<Seq<u8>>,
    patterns: Seq<Seq<u8>>,
    shardchannels: Seq<Seq<u8>>,
) -> Seq<Seq<Seq<u8>>> {
    (if channels.len() > 0 {
        seq![command_with("UNSUBSCRIBE".spec_bytes(), channels)]
    } else {
        Seq::empty()
    }) + (if patterns.len() > 0 {
        seq![command_with("PUNSUBSCRIBE".spec_bytes(), patterns)]
    } else {
        Seq::empty()
    }) + (if shardchannels.len() > 0 {
        seq![command_with("SUNSUBSCRIBE".spec_bytes(), shardchannels)]
    } else {
        Seq::empty()
    })
}

/// The bytes of each name.
pub open spec fn names_bytes(names: Seq<String>) -> Seq<Seq<u8>> {
    names.map_values(|s: String| encode_utf8(s@))
}

fn command_for(name: &str, names: &Vec<String>) -> (r: Command)
    ensures
        r@ == command_with(name.spec_bytes(), names_bytes(names@)),
{
    let mut c = cmd(name);
    let mut i: usize = 0;
    while i < names.len()
        invariant
            i <= names@.len(),
            c@ == command_with(name.spec_bytes(), names_bytes(names@.subrange(0, i as int))),
        decreases names@.len() - i,
    {
        c = c.arg(names[i].as_str().as_bytes());
        i = i + 1;
        assert(names_bytes(names@.subrange(0, i as int)) =~= names_bytes(
            names@.subrange(0, i - 1),
        ).push(encode_utf8(names@[i - 1]@)));
        assert(c@ =~= command_with(name.spec_bytes(), names_bytes(names@.subrange(0, i as int))));
    }
    assert(names@.subrange(0, names@.len() as int) =~= names@);
    c
}

impl PubSubStream {
    pub closed spec fn is_closed_spec(&self) -> bool {
        self.closed
    }

    pub closed spec fn channels_spec(&self) -> Seq<String> {
        self.channels@
    }

    pub closed spec fn patterns_spec(&self) -> Seq<String> {
        self.patterns@
    }

    pub closed spec fn shardchannels_spec(&self) -> Seq<String> {
        self.shardchannels@
    }

    /// A stream over channel subscriptions.
    pub fn from_channels(channels: Vec<String>) -> (r: PubSubStream)
        ensures
            !r.is_closed_spec(),
            r.channels_spec() == channels@,
            r.patterns_spec().len() == 0,
            r.shardchannels_spec().len() == 0,
    {
        PubSubStream { closed: false, channels, patterns: Vec::new(), shardchannels: Vec::new() }
    }

    /// A stream over pattern subscriptions.
    pub fn from_patterns(patterns: Vec<String>) -> (r: PubSubStream)
        ensures
            !r.is_closed_spec(),
            r.channels_spec().len() == 0,
            r.patterns_spec() == patterns@,
            r.shardchannels_spec().len() == 0,
    {
        PubSubStream { closed: false, channels: Vec::new(), patterns, shardchannels: Vec::new() }
    }

    /// A stream over shard-channel subscriptions.
    pub fn from_shardchannels(shardchannels: Vec<String>) -> (r: PubSubStream)
        ensures
            !r.is_closed_spec(),
            r.channels_spec().len() == 0,
            r.patterns_spec().len() == 0,
            r.shardchannels_spec() == shardchannels@,
    {
        PubSubStream { closed: false, channels: Vec::new(), patterns: Vec::new(), shardchannels }
    }

    /// Records names that a further subscribe on the stream added, after
    /// those it holds.
    pub fn add_names(&mut self, kind: SubscriptionKind, names: Vec<String>)
        ensures
            final(self).is_closed_spec() == old(self).is_closed_spec(),
            final(self).channels_spec() == if kind == SubscriptionKind::Channel {
                old(self).channels_spec() + names@
            } else {
                old(self).channels_spec()
            },
            final(self).patterns_spec() == if kind == SubscriptionKind::Pattern {
                old(self).patterns_spec() + names@
            } else {
                old(self).patterns_spec()
            },
            final(self).shardchannels_spec() == if kind == SubscriptionKind::ShardChannel {
                old(self).shardchannels_spec() + names@
            } else {
                old(self).shardchannels_spec()
            },
    {
        let mut names = names;
        match kind {
            SubscriptionKind::Channel => self.channels.append(&mut names),
            SubscriptionKind::Pattern => self.patterns.append(&mut names),
            SubscriptionKind::ShardChannel => self.shardchannels.append(&mut names),
        }
    }

    pub fn is_closed(&self) -> (r: bool)
        ensures
            r == self.is_closed_spec(),
    {
        self.closed
    }

    /// Takes the first non-empty list of names out of the stream (channels,
    /// then patterns, then shard channels) and gives the unsubscribe command
    /// that releases it; `None` once all three lists are empty.  Closing
    /// sends each command and awaits it before taking the next, so a failed
    /// unsubscribe leaves the later lists in the stream; it marks the stream
    /// closed once this gives `None`.
    pub fn take_next_unsubscribe(&mut self) -> (r: Option<Command>)
        ensures
            final(self).is_closed_spec() == old(self).is_closed_spec(),
            old(self).channels_spec().len() > 0 ==> r is Some && r->Some_0@ == command_with(
                "UNSUBSCRIBE".spec_bytes(),
                names_bytes(old(self).channels_spec()),
            ) && final(self).channels_spec().len() == 0 && final(self).patterns_spec()
                == old(self).patterns_spec() && final(self).shardchannels_spec() == old(
                self,
            ).shardchannels_spec(),
            old(self).channels_spec().len() == 0 && old(self).patterns_spec().len() > 0 ==> r is Some
                && r->Some_0@ == command_with(
                "PUNSUBSCRIBE".spec_bytes(),
                names_bytes(old(self).patterns_spec()),
            ) && final(self).channels_spec().len() == 0 && final(self).patterns_spec().len() == 0
                && final(self).shardchannels_spec() == old(self).shardchannels_spec(),
            old(self).channels_spec().len() == 0 && old(self).patterns_spec().len() == 0
                && old(self).shardchannels_spec().len() > 0 ==> r is Some && r->Some_0@
                == command_with(
                "SUNSUBSCRIBE".spec_bytes(),
                names_bytes(old(self).shardchannels_spec()),
            ) && final(self).channels_spec().len() == 0 && final(self).patterns_spec().len() == 0
                && final(self).shardchannels_spec().len() == 0,
            old(self).channels_spec().len() == 0 && old(self).patterns_spec().len() == 0
                && old(self).shardchannels_spec().len() == 0 ==> r is None && *final(self) == *old(
                self,
            ),
    {
        if self.channels.len() > 0 {
            let mut channels: Vec<String> = Vec::new();
            std::mem::swap(&mut channels, &mut self.channels);
            Some(command_for("UNSUBSCRIBE", &channels))
        } else if self.patterns.len() > 0 {
            let mut patterns: Vec<String> = Vec::new();
            std::mem::swap(&mut patterns, &mut self.patterns);
            Some(command_for("PUNSUBSCRIBE", &patterns))
        } else if self.shardchannels.len() > 0 {
            let mut shardchannels: Vec<String> = Vec::new();
            std::mem::swap(&mut shardchannels, &mut self.shardchannels);
            Some(command_for("SUNSUBSCRIBE", &shardchannels))
        } else {
            None
        }
    }

    /// Takes every name out of the stream and gives the unsubscribe commands
    /// that release them.
    fn take_all_unsubscribes(&mut self) -> (r: Vec<Command>)
        ensures
            r@.map_values(|c: Command| c@) == unsubscribe_commands(
                names_bytes(old(self).channels_spec()),
                names_bytes(old(self).patterns_spec()),
                names_bytes(old(self).shardchannels_spec()),
            ),
            final(self).is_closed_spec() == old(self).is_closed_spec(),
            final(self).channels_spec().len() == 0,
            final(self).patterns_spec().len() == 0,
            final(self).shardchannels_spec().len() == 0,
    {
        let mut channels: Vec<String> = Vec::new();
        std::mem::swap(&mut channels, &mut self.channels);
        let mut patterns: Vec<String> = Vec::new();
        std::mem::swap(&mut patterns, &mut self.patterns);
        let mut shardchannels: Vec<String> = Vec::new();
        std::mem::swap(&mut shardchannels, &mut self.shardchannels);
        let mut out: Vec<Command> = Vec::new();
        if channels.len() > 0 {
            out.push(command_for("UNSUBSCRIBE", &channels));
        }
        if patterns.len() > 0 {
            out.push(command_for("PUNSUBSCRIBE", &patterns));
        }
        if shardchannels.len() > 0 {
            out.push(command_for("SUNSUBSCRIBE", &shardchannels));
        }
        assert(out@.map_values(|c: Command| c@) =~= unsubscribe_commands(
            names_bytes(channels@),
            names_bytes(patterns@),
            names_bytes(shardchannels@),
        ));
        out
    }

    /// Marks the stream closed, once its unsubscribes were confirmed.
    pub fn mark_closed(&mut self)
        ensures
            final(self).is_closed_spec(),
            final(self).channels_spec() == old(self).channels_spec(),
            final(self).patterns_spec() == old(self).patterns_spec(),
            final(self).shardchannels_spec() == old(self).shardchannels_spec(),
    {
        self.closed = true;
    }

    /// The unsubscribes that dropping the stream sends without awaiting them:
    /// none once it was closed, else one for each non-empty list of names.
    pub fn drop_unsubscribes(&mut self) -> (r: Vec<Command>)
        ensures
            old(self).is_closed_spec() ==> r@.len() == 0 && *final(self) == *old(self),
            !old(self).is_closed_spec() ==> r@.map_values(|c: Command| c@) == unsubscribe_commands(
                names_bytes(old(self).channels_spec()),
                names_bytes(old(self).patterns_spec()),
                names_bytes(old(self).shardchannels_spec()),
            ),
    {
        if self.closed {
            Vec::new()
        } else {
            self.take_all_unsubscribes()
        }
    }

    /// What the stream yields for an item of its sink: the end once it was
    /// closed or the sink ended, else the item's message or its error.
    pub fn next_message(&self, received: Option<Result<Value, Error>>) -> (r: Option<
        Result<PubSubMessage, Error>,
    >)
        ensures
            self.is_closed_spec() ==> r is None,
            !self.is_closed_spec() ==> match received {
                None => r is None,
                Some(Err(e)) => r == Some(Err::<PubSubMessage, Error>(e)),
                Some(Ok(v)) => match message_of(v) {
                    Some(m) => r == Some(Ok::<PubSubMessage, Error>(m)),
                    None => r is Some && r->Some_0 is Err && r->Some_0->Err_0 is Client,
                },
            },
    {
        if self.closed {
            return None;
        }
        match received {
            None => None,
            Some(Err(e)) => Some(Err(e)),
            Some(Ok(v)) => Some(extract_message(v)),
        }
    }
}

} // verus!
