//! The subscription registry and the router that hands each push message to
//! the sink registered for it, and the connection mode that follows from the
//! registry.
use vstd::prelude::*;
use vstd::string::StringSliceAdditionalSpecFns;
use vstd::slice::slice_to_vec;
use crate::pub_sub::{PubSubMessage, parts_of};
use crate::value::Value;
use crate::decoder::bytes_equal;

verus! {

/// Names bound to sinks, each name at most once.  A sink is known by its
/// number; the caller keeps the queue behind it.
pub struct Bindings {
    names: Vec<Vec<u8>>,
    sinks: Vec<u64>,
}

impl Bindings {
    pub closed spec fn wf(&self) -> bool {
        &&& self.names@.len() == self.sinks@.len()
        &&& forall|i: int, j: int|
            0 <= i < j < self.names@.len() ==> #[trigger] self.names@[i]@ != #[trigger] self.names@[j]@
    }

    /// The index at which `k` is bound.
    spec fn index_of(&self, k: Seq<u8>) -> int {
        choose|i: int| 0 <= i < self.names@.len() && self.names@[i]@ == k
    }

    spec fn binds(&self, k: Seq<u8>) -> bool {
        exists|i: int| 0 <= i < self.names@.len() && self.names@[i]@ == k
    }

    pub closed spec fn view(&self) -> Map<Seq<u8>, u64> {
        Map::new(|k: Seq<u8>| self.binds(k), |k: Seq<u8>| self.sinks@[self.index_of(k)])
    }

    pub fn new() -> (r: Bindings)
        ensures
            r.wf(),
            r.view() == Map::<Seq<u8>, u64>::empty(),
    {
        let r = Bindings { names: Vec::new(), sinks: Vec::new() };
        assert(r.view() =~= Map::<Seq<u8>, u64>::empty());
        r
    }

    fn find(&self, k: &[u8]) -> (r: Option<usize>)
        requires
            self.wf(),
        ensures
            r is Some ==> r->Some_0 < self.names@.len() && self.names@[r->Some_0 as int]@ == k@,
            r is None ==> !self.binds(k@),
    {
        let mut i: usize = 0;
        while i < self.names.len()
            invariant
                i <= self.names@.len(),
                forall|j: int| 0 <= j < i ==> self.names@[j]@ != k@,
            decreases self.names@.len() - i,
        {
            if bytes_equal(self.names[i].as_slice(), k) {
                return Some(i);
            }
            i = i + 1;
        }
        None
    }

    proof fn lemma_index(&self, i: int)
        requires
            self.wf(),
            0 <= i < self.names@.len(),
        ensures
            self.binds(self.names@[i]@),
            self.index_of(self.names@[i]@) == i,
    {
        let k = self.names@[i]@;
        assert(self.binds(k));
        let j = self.index_of(k);
        if j != i {
            if j < i {
                assert(self.names@[j]@ != self.names@[i]@);
            } else {
                assert(self.names@[i]@ != self.names@[j]@);
            }
        }
    }

    /// The sink bound to `k`, if any.
    pub fn get(&self, k: &[u8]) -> (r: Option<u64>)
        requires
            self.wf(),
        ensures
            r == (if self.view().contains_key(k@) {
                Some(self.view()[k@])
            } else {
                None
            }),
    {
        match self.find(k) {
            Some(i) => {
                proof {
                    self.lemma_index(i as int);
                }
                Some(self.sinks[i])
            },
            None => None,
        }
    }

    /// Binds `k` to `sink`, in place of any sink it was bound to.
    pub fn insert(&mut self, k: &[u8], sink: u64)
        requires
            old(self).wf(),
        ensures
            final(self).wf(),
            final(self).view() == old(self).view().insert(k@, sink),
    {
        match self.find(k) {
            Some(i) => {
                proof {
                    old(self).lemma_index(i as int);
                }
                self.sinks.set(i, sink);
                proof {
                    assert forall|q: Seq<u8>| #[trigger] self.binds(q) == old(self).binds(q) by {}
                    assert forall|q: Seq<u8>| self.binds(q) implies self.sinks@[self.index_of(q)]
                        == old(self).view().insert(k@, sink)[q] by {
                        let j = choose|j: int| 0 <= j < self.names@.len() && self.names@[j]@ == q;
                        self.lemma_index(j);
                        old(self).lemma_index(j);
                    }
                    assert(self.view() =~= old(self).view().insert(k@, sink));
                }
            },
            None => {
                self.names.push(slice_to_vec(k));
                self.sinks.push(sink);
                proof {
                    let n = old(self).names@.len() as int;
                    assert(self.names@[n]@ == k@);
                    assert forall|i: int, j: int|
                        0 <= i < j < self.names@.len() implies #[trigger] self.names@[i]@
                        != #[trigger] self.names@[j]@ by {
                        if j == n {
                            assert(old(self).names@[i] == self.names@[i]);
                        } else {
                            assert(old(self).names@[i] == self.names@[i]);
                            assert(old(self).names@[j] == self.names@[j]);
                        }
                    }
                    self.lemma_index(n);
                    assert forall|q: Seq<u8>| #[trigger] self.binds(q) == (old(self).binds(q) || q
                        == k@) by {
                        if old(self).binds(q) {
                            let j = choose|j: int| 0 <= j < old(self).names@.len() && old(self).names@[j]@ == q;
                            assert(self.names@[j] == old(self).names@[j]);
                        }
                        if self.binds(q) && q != k@ {
                            let j = choose|j: int| 0 <= j < self.names@.len() && self.names@[j]@ == q;
                            assert(j < n);
                            assert(self.names@[j] == old(self).names@[j]);
                        }
                    }
                    assert forall|q: Seq<u8>| self.binds(q) implies self.sinks@[self.index_of(q)]
                        == old(self).view().insert(k@, sink)[q] by {
                        let j = choose|j: int| 0 <= j < self.names@.len() && self.names@[j]@ == q;
                        self.lemma_index(j);
                        if j < n {
                            assert(self.names@[j] == old(self).names@[j]);
                            old(self).lemma_index(j);
                        }
                    }
                    assert(self.view() =~= old(self).view().insert(k@, sink));
                }
            },
        }
    }

    /// Unbinds `k`.
    pub fn remove(&mut self, k: &[u8])
        requires
            old(self).wf(),
        ensures
            final(self).wf(),
            final(self).view() == old(self).view().remove(k@),
    {
        match self.find(k) {
            Some(i) => {
                proof {
                    old(self).lemma_index(i as int);
                }
                self.names.remove(i);
                self.sinks.remove(i);
                proof {
                    let o = *old(self);
                    let n = o.names@.len() as int;
                    assert forall|a: int|
                        0 <= a < n - 1 implies #[trigger] self.names@[a] == o.names@[if a < i {
                        a
                    } else {
                        a + 1
                    }] && self.sinks@[a] == o.sinks@[if a < i {
                        a
                    } else {
                        a + 1
                    }] by {}
                    assert forall|a: int, b: int|
                        0 <= a < b < self.names@.len() implies #[trigger] self.names@[a]@
                        != #[trigger] self.names@[b]@ by {
                        let a2 = if a < i {
                            a
                        } else {
                            a + 1
                        };
                        let b2 = if b < i {
                            b
                        } else {
                            b + 1
                        };
                        assert(o.names@[a2]@ != o.names@[b2]@);
                    }
                    assert forall|q: Seq<u8>| #[trigger] self.binds(q) == (o.binds(q) && q != k@) by {
                        if o.binds(q) && q != k@ {
                            let j = choose|j: int| 0 <= j < n && o.names@[j]@ == q;
                            assert(j != i);
                            let a = if j < i {
                                j
                            } else {
                                j - 1
                            };
                            assert(self.names@[a] == o.names@[j]);
                        }
                        if self.binds(q) {
                            let a = choose|a: int| 0 <= a < n - 1 && self.names@[a]@ == q;
                            let j = if a < i {
                                a
                            } else {
                                a + 1
                            };
                            assert(self.names@[a] == o.names@[j]);
                            assert(j != i) by {
                                if j == i {
                                    assert(false);
                                }
                            }
                            if q == k@ {
                                assert(o.names@[j]@ == o.names@[i as int]@);
                                if j < i {
                                    assert(o.names@[j]@ != o.names@[i as int]@);
                                } else {
                                    assert(o.names@[i as int]@ != o.names@[j]@);
                                }
                            }
                        }
                    }
                    assert forall|q: Seq<u8>| self.binds(q) implies self.sinks@[self.index_of(q)]
                        == o.view().remove(k@)[q] by {
                        let a = choose|a: int| 0 <= a < n - 1 && self.names@[a]@ == q;
                        self.lemma_index(a);
                        let j = if a < i {
                            a
                        } else {
                            a + 1
                        };
                        o.lemma_index(j);
                    }
                    assert(self.view() =~= o.view().remove(k@));
                }
            },
            None => {
                assert(self.view() =~= old(self).view().remove(k@));
            },
        }
    }

    /// The bound names, in the order they were first bound.
    pub closed spec fn names_spec(&self) -> Seq<Seq<u8>> {
        self.names@.map_values(|n: Vec<u8>| n@)
    }

    pub proof fn lemma_names_are_keys(&self)
        requires
            self.wf(),
        ensures
            self.names_spec().to_set() == self.view().dom(),
            self.names_spec().no_duplicates(),
    {
        assert forall|k: Seq<u8>| #[trigger] self.names_spec().contains(k) == self.binds(k) by {
            if self.binds(k) {
                let i = choose|i: int| 0 <= i < self.names@.len() && self.names@[i]@ == k;
                assert(self.names_spec()[i] == k);
            }
        }
        assert(self.names_spec().to_set() =~= self.view().dom());
    }

    pub fn names(&self) -> (r: &Vec<Vec<u8>>)
        ensures
            r@.map_values(|n: Vec<u8>| n@) == self.names_spec(),
    {
        &self.names
    }

    pub fn is_empty(&self) -> (r: bool)
        requires
            self.wf(),
        ensures
            r == (self.view().dom() =~= Set::<Seq<u8>>::empty()),
    {
        if self.names.len() == 0 {
            assert(self.view().dom() =~= Set::<Seq<u8>>::empty());
            true
        } else {
            proof {
                self.lemma_index(0);
                assert(self.view().dom().contains(self.names@[0]@));
            }
            false
        }
    }
}

/// The three kinds of subscription.
#[derive(Debug, Clone, Copy, PartialEq, Eq, Structural)]
pub enum SubscriptionKind {
    Channel,
    Pattern,
    ShardChannel,
}

/// Whether the connection serves requests or streams pushes.
#[derive(Debug, Clone, Copy, PartialEq, Eq, Structural)]
pub enum Mode {
    Regular,
    Subscribed,
}

/// What an inbound frame is to the connection.
#[derive(Debug, Clone, Copy, PartialEq, Eq, Structural)]
pub enum FrameKind {
    /// The reply to the oldest request in flight.
    Response,
    /// A frame the server sent on its own.
    Push,
}

/// The registry's three mappings, from name to sink.
pub struct RegistryView {
    pub channels: Map<Seq<u8>, u64>,
    pub patterns: Map<Seq<u8>, u64>,
    pub shard_channels: Map<Seq<u8>, u64>,
}

impl RegistryView {
    pub open spec fn of_kind(self, kind: SubscriptionKind) -> Map<Seq<u8>, u64> {
        match kind {
            SubscriptionKind::Channel => self.channels,
            SubscriptionKind::Pattern => self.patterns,
            SubscriptionKind::ShardChannel => self.shard_channels,
        }
    }

    /// The registry with the mapping of `kind` replaced by `m`.
    pub open spec fn with_kind(self, kind: SubscriptionKind, m: Map<Seq<u8>, u64>) -> RegistryView {
        match kind {
            SubscriptionKind::Channel => RegistryView { channels: m, ..self },
            SubscriptionKind::Pattern => RegistryView { patterns: m, ..self },
            SubscriptionKind::ShardChannel => RegistryView { shard_channels: m, ..self },
        }
    }

    /// Subscribed while any subscription is registered, else regular.
    pub open spec fn mode(self) -> Mode {
        if self.channels.dom() =~= Set::empty() && self.patterns.dom() =~= Set::empty()
            && self.shard_channels.dom() =~= Set::empty() {
            Mode::Regular
        } else {
            Mode::Subscribed
        }
    }

    /// The registry once the server confirmed that `name` of `kind` was
    /// subscribed (bound to `sink`) or unsubscribed (removed).
    pub open spec fn acknowledged(
        self,
        kind: SubscriptionKind,
        subscribed: bool,
        name: Seq<u8>,
        sink: u64,
    ) -> RegistryView {
        self.with_kind(
            kind,
            if subscribed {
                self.of_kind(kind).insert(name, sink)
            } else {
                self.of_kind(kind).remove(name)
            },
        )
    }
}

/// The registry once the unsubscribes of `names` (each a kind and a name)
/// were confirmed, one after another.
pub open spec fn unsubscribed(reg: RegistryView, names: Seq<(SubscriptionKind, Seq<u8>)>) -> RegistryView
    decreases names.len(),
{
    if names.len() == 0 {
        reg
    } else {
        unsubscribed(reg, names.drop_last()).acknowledged(names.last().0, false, names.last().1, 0)
    }
}

/// The names of `kind` among `names`.
pub open spec fn named(names: Seq<(SubscriptionKind, Seq<u8>)>, kind: SubscriptionKind) -> Set<Seq<u8>> {
    Set::new(|n: Seq<u8>| exists|i: int| 0 <= i < names.len() && names[i] == (kind, n))
}

proof fn lemma_unsubscribed_kind(
    reg: RegistryView,
    names: Seq<(SubscriptionKind, Seq<u8>)>,
    kind: SubscriptionKind,
)
    ensures
        unsubscribed(reg, names).of_kind(kind) == reg.of_kind(kind).remove_keys(named(names, kind)),
    decreases names.len(),
{
    if names.len() == 0 {
        assert(reg.of_kind(kind).remove_keys(named(names, kind)) =~= reg.of_kind(kind));
    } else {
        let prefix = names.drop_last();
        lemma_unsubscribed_kind(reg, prefix, kind);
        let last = names.last();
        if last.0 == kind {
            assert(named(names, kind) =~= named(prefix, kind).insert(last.1)) by {
                assert forall|n: Seq<u8>| named(names, kind).contains(n) implies named(
                    prefix,
                    kind,
                ).insert(last.1).contains(n) by {
                    let i = choose|i: int| 0 <= i < names.len() && names[i] == (kind, n);
                    if i < names.len() - 1 {
                        assert(prefix[i] == names[i]);
                    }
                }
                assert forall|n: Seq<u8>| named(prefix, kind).contains(n) implies named(
                    names,
                    kind,
                ).contains(n) by {
                    let i = choose|i: int| 0 <= i < prefix.len() && prefix[i] == (kind, n);
                    assert(names[i] == prefix[i]);
                }
                assert(names[names.len() - 1] == (kind, last.1));
            }
        } else {
            assert(named(names, kind) =~= named(prefix, kind)) by {
                assert forall|n: Seq<u8>| named(names, kind).contains(n) implies named(
                    prefix,
                    kind,
                ).contains(n) by {
                    let i = choose|i: int| 0 <= i < names.len() && names[i] == (kind, n);
                    assert(i < names.len() - 1);
                    assert(prefix[i] == names[i]);
                }
                assert forall|n: Seq<u8>| named(prefix, kind).contains(n) implies named(
                    names,
                    kind,
                ).contains(n) by {
                    let i = choose|i: int| 0 <= i < prefix.len() && prefix[i] == (kind, n);
                    assert(names[i] == prefix[i]);
                }
            }
        }
        assert(unsubscribed(reg, names).of_kind(kind) =~= reg.of_kind(kind).remove_keys(
            named(names, kind),
        ));
    }
}

/// Closing returns to regular mode: when the unsubscribes of `names` are
/// confirmed and every name the registry held is among them (as when a
/// stream that held every subscription closes), the registry is empty and
/// the connection is regular again.
pub proof fn lemma_close_returns_to_regular(reg: RegistryView, names: Seq<(SubscriptionKind, Seq<u8>)>)
    requires
        reg.channels.dom().subset_of(named(names, SubscriptionKind::Channel)),
        reg.patterns.dom().subset_of(named(names, SubscriptionKind::Pattern)),
        reg.shard_channels.dom().subset_of(named(names, SubscriptionKind::ShardChannel)),
    ensures
        unsubscribed(reg, names).mode() == Mode::Regular,
{
    lemma_unsubscribed_kind(reg, names, SubscriptionKind::Channel);
    lemma_unsubscribed_kind(reg, names, SubscriptionKind::Pattern);
    lemma_unsubscribed_kind(reg, names, SubscriptionKind::ShardChannel);
    let after = unsubscribed(reg, names);
    assert(after.channels.dom() =~= Set::empty());
    assert(after.patterns.dom() =~= Set::empty());
    assert(after.shard_channels.dom() =~= Set::empty());
}

/// The subscription registry of one connection.
pub struct Registry {
    channels: Bindings,
    patterns: Bindings,
    shard_channels: Bindings,
}

impl Registry {
    pub closed spec fn wf(&self) -> bool {
        self.channels.wf() && self.patterns.wf() && self.shard_channels.wf()
    }

    pub closed spec fn view(&self) -> RegistryView {
        RegistryView {
            channels: self.channels.view(),
            patterns: self.patterns.view(),
            shard_channels: self.shard_channels.view(),
        }
    }

    pub fn new() -> (r: Registry)
        ensures
            r.wf(),
            r.view().channels == Map::<Seq<u8>, u64>::empty(),
            r.view().patterns == Map::<Seq<u8>, u64>::empty(),
            r.view().shard_channels == Map::<Seq<u8>, u64>::empty(),
    {
        Registry { channels: Bindings::new(), patterns: Bindings::new(), shard_channels: Bindings::new() }
    }

    /// Installs the binding of `name` to `sink`, once the server confirmed
    /// the subscription.
    pub fn confirm_subscribe(&mut self, kind: SubscriptionKind, name: &[u8], sink: u64)
        requires
            old(self).wf(),
        ensures
            final(self).wf(),
            final(self).view() == old(self).view().with_kind(
                kind,
                old(self).view().of_kind(kind).insert(name@, sink),
            ),
    {
        match kind {
            SubscriptionKind::Channel => self.channels.insert(name, sink),
            SubscriptionKind::Pattern => self.patterns.insert(name, sink),
            SubscriptionKind::ShardChannel => self.shard_channels.insert(name, sink),
        }
    }

    /// Removes the binding of `name`, once the server confirmed the
    /// unsubscription.
    pub fn confirm_unsubscribe(&mut self, kind: SubscriptionKind, name: &[u8])
        requires
            old(self).wf(),
        ensures
            final(self).wf(),
            final(self).view() == old(self).view().with_kind(
                kind,
                old(self).view().of_kind(kind).remove(name@),
            ),
    {
        match kind {
            SubscriptionKind::Channel => self.channels.remove(name),
            SubscriptionKind::Pattern => self.patterns.remove(name),
            SubscriptionKind::ShardChannel => self.shard_channels.remove(name),
        }
    }

    /// Applies a confirmation from the server: a subscribe binds the name to
    /// `sink`, an unsubscribe removes the name.
    pub fn apply_acknowledgement(&mut self, ack: &Acknowledgement, sink: u64)
        requires
            old(self).wf(),
        ensures
            final(self).wf(),
            final(self).view() == old(self).view().acknowledged(
                ack.kind,
                ack.subscribed,
                ack.name@,
                sink,
            ),
    {
        if ack.subscribed {
            self.confirm_subscribe(ack.kind, ack.name.as_slice(), sink);
        } else {
            self.confirm_unsubscribe(ack.kind, ack.name.as_slice());
        }
    }

    /// The sink bound to `name` among the subscriptions of `kind`.
    pub fn sink_of(&self, kind: SubscriptionKind, name: &[u8]) -> (r: Option<u64>)
        requires
            self.wf(),
        ensures
            r == (if self.view().of_kind(kind).contains_key(name@) {
                Some(self.view().of_kind(kind)[name@])
            } else {
                None
            }),
    {
        match kind {
            SubscriptionKind::Channel => self.channels.get(name),
            SubscriptionKind::Pattern => self.patterns.get(name),
            SubscriptionKind::ShardChannel => self.shard_channels.get(name),
        }
    }

    /// The names registered under `kind`; as a set, the keys of its mapping.
    pub closed spec fn names_of(&self, kind: SubscriptionKind) -> Seq<Seq<u8>> {
        match kind {
            SubscriptionKind::Channel => self.channels.names_spec(),
            SubscriptionKind::Pattern => self.patterns.names_spec(),
            SubscriptionKind::ShardChannel => self.shard_channels.names_spec(),
        }
    }

    pub proof fn lemma_names_of(&self, kind: SubscriptionKind)
        requires
            self.wf(),
        ensures
            self.names_of(kind).to_set() == self.view().of_kind(kind).dom(),
            self.names_of(kind).no_duplicates(),
    {
        match kind {
            SubscriptionKind::Channel => self.channels.lemma_names_are_keys(),
            SubscriptionKind::Pattern => self.patterns.lemma_names_are_keys(),
            SubscriptionKind::ShardChannel => self.shard_channels.lemma_names_are_keys(),
        }
    }

    /// The names registered under `kind`.
    pub fn names(&self, kind: SubscriptionKind) -> (r: &Vec<Vec<u8>>)
        ensures
            r@.map_values(|n: Vec<u8>| n@) == self.names_of(kind),
    {
        match kind {
            SubscriptionKind::Channel => self.channels.names(),
            SubscriptionKind::Pattern => self.patterns.names(),
            SubscriptionKind::ShardChannel => self.shard_channels.names(),
        }
    }

    /// The connection's mode.
    pub fn mode(&self) -> (r: Mode)
        requires
            self.wf(),
        ensures
            r == self.view().mode(),
    {
        if self.channels.is_empty() && self.patterns.is_empty() && self.shard_channels.is_empty() {
            Mode::Regular
        } else {
            Mode::Subscribed
        }
    }

    /// The sink that a push message goes to, and the message it delivers;
    /// `None` when no sink is registered for it (the push is dropped).
    pub fn route(&self, push: Value) -> (r: Option<(u64, PubSubMessage)>)
        requires
            self.wf(),
        ensures
            r == routing(self.view(), push),
    {
        let mut parts = match push {
            Value::Array(Some(items)) => items,
            Value::Push(items) => items,
            _ => {
                return None;
            },
        };
        if parts.len() == 0 {
            return None;
        }
        if word_is(&parts[0], "message".as_bytes()) || word_is(&parts[0], "smessage".as_bytes()) {
            let shard = !word_is(&parts[0], "message".as_bytes());
            if parts.len() != 3 {
                return None;
            }
            let sink = match word_of(&parts[1]) {
                Some(c) => if shard {
                    self.shard_channels.get(c)
                } else {
                    self.channels.get(c)
                },
                None => None,
            };
            match sink {
                Some(sink) => {
                    let payload = parts.pop().unwrap();
                    let channel = parts.pop().unwrap();
                    Some((sink, PubSubMessage::from_message(channel, payload)))
                },
                None => None,
            }
        } else if word_is(&parts[0], "pmessage".as_bytes()) {
            if parts.len() != 4 {
                return None;
            }
            let sink = match word_of(&parts[1]) {
                Some(pattern) => self.patterns.get(pattern),
                None => None,
            };
            match sink {
                Some(sink) => {
                    let payload = parts.pop().unwrap();
                    let channel = parts.pop().unwrap();
                    let pattern = parts.pop().unwrap();
                    Some((sink, PubSubMessage::from_pmessage(pattern, channel, payload)))
                },
                None => None,
            }
        } else {
            None
        }
    }
}

/// The bytes of a bulk string.
pub open spec fn word(v: Value) -> Option<Seq<u8>> {
    match v {
        Value::BulkString(Some(b)) => Some(b@),
        _ => None,
    }
}

fn word_of(v: &Value) -> (r: Option<&[u8]>)
    ensures
        match word(*v) {
            Some(w) => r is Some && r->Some_0@ == w,
            None => r is None,
        },
{
    match v {
        Value::BulkString(Some(b)) => Some(b.as_slice()),
        _ => None,
    }
}

fn word_is(v: &Value, w: &[u8]) -> (r: bool)
    ensures
        r == (word(*v) == Some(w@)),
{
    match word_of(v) {
        Some(b) => bytes_equal(b, w),
        None => false,
    }
}


/// A confirmation from the server that a name was subscribed or
/// unsubscribed.
#[derive(Debug, PartialEq)]
pub struct Acknowledgement {
    pub kind: SubscriptionKind,
    pub subscribed: bool,
    pub name: Vec<u8>,
}

/// The kind and direction that an acknowledgement word names.
pub open spec fn ack_word(w: Seq<u8>) -> Option<(SubscriptionKind, bool)> {
    if w == "subscribe".spec_bytes() {
        Some((SubscriptionKind::Channel, true))
    } else if w == "psubscribe".spec_bytes() {
        Some((SubscriptionKind::Pattern, true))
    } else if w == "ssubscribe".spec_bytes() {
        Some((SubscriptionKind::ShardChannel, true))
    } else if w == "unsubscribe".spec_bytes() {
        Some((SubscriptionKind::Channel, false))
    } else if w == "punsubscribe".spec_bytes() {
        Some((SubscriptionKind::Pattern, false))
    } else if w == "sunsubscribe".spec_bytes() {
        Some((SubscriptionKind::ShardChannel, false))
    } else {
        None
    }
}

/// Reads `[<word>, <name>, <count>]`, where `<word>` is one of the
/// subscribe-family words, as the acknowledgement it is.
pub fn read_acknowledgement(v: &Value) -> (r: Option<Acknowledgement>)
    ensures
        match parts_of(*v) {
            Some(p) => if p.len() == 3 && word(p[0]) is Some && ack_word(word(p[0])->Some_0) is Some
                && word(p[1]) is Some {
                r is Some && r->Some_0.kind == ack_word(word(p[0])->Some_0)->Some_0.0
                    && r->Some_0.subscribed == ack_word(word(p[0])->Some_0)->Some_0.1
                    && r->Some_0.name@ == word(p[1])->Some_0
            } else {
                r is None
            },
            None => r is None,
        },
{
    let items = match v {
        Value::Array(Some(items)) => items,
        Value::Push(items) => items,
        _ => {
            return None;
        },
    };
    if items.len() != 3 {
        return None;
    }
    let w = match word_of(&items[0]) {
        Some(w) => w,
        None => {
            return None;
        },
    };
    let (kind, subscribed) = if bytes_equal(w, "subscribe".as_bytes()) {
        (SubscriptionKind::Channel, true)
    } else if bytes_equal(w, "psubscribe".as_bytes()) {
        (SubscriptionKind::Pattern, true)
    } else if bytes_equal(w, "ssubscribe".as_bytes()) {
        (SubscriptionKind::ShardChannel, true)
    } else if bytes_equal(w, "unsubscribe".as_bytes()) {
        (SubscriptionKind::Channel, false)
    } else if bytes_equal(w, "punsubscribe".as_bytes()) {
        (SubscriptionKind::Pattern, false)
    } else if bytes_equal(w, "sunsubscribe".as_bytes()) {
        (SubscriptionKind::ShardChannel, false)
    } else {
        return None;
    };
    match word_of(&items[1]) {
        Some(name) => Some(Acknowledgement { kind, subscribed, name: slice_to_vec(name) }),
        None => None,
    }
}

/// Where the registry sends a push: `message <channel> <payload>` and
/// `smessage <channel> <payload>` to the sink of the channel, as a message
/// with no pattern; `pmessage <pattern> <channel> <payload>` to the sink of
/// the pattern, tagged with it.
pub open spec fn routing(reg: RegistryView, push: Value) -> Option<(u64, PubSubMessage)> {
    match parts_of(push) {
        Some(p) => if p.len() == 0 {
            None
        } else if word(p[0]) == Some("message".spec_bytes()) {
            if p.len() == 3 && word(p[1]) is Some && reg.channels.contains_key(word(p[1])->Some_0) {
                Some(
                    (
                        reg.channels[word(p[1])->Some_0],
                        PubSubMessage { pattern: Value::Nil, channel: p[1], payload: p[2] },
                    ),
                )
            } else {
                None
            }
        } else if word(p[0]) == Some("smessage".spec_bytes()) {
            if p.len() == 3 && word(p[1]) is Some && reg.shard_channels.contains_key(
                word(p[1])->Some_0,
            ) {
                Some(
                    (
                        reg.shard_channels[word(p[1])->Some_0],
                        PubSubMessage { pattern: Value::Nil, channel: p[1], payload: p[2] },
                    ),
                )
            } else {
                None
            }
        } else if word(p[0]) == Some("pmessage".spec_bytes()) {
            if p.len() == 4 && word(p[1]) is Some && reg.patterns.contains_key(word(p[1])->Some_0) {
                Some(
                    (
                        reg.patterns[word(p[1])->Some_0],
                        PubSubMessage { pattern: p[1], channel: p[2], payload: p[3] },
                    ),
                )
            } else {
                None
            }
        } else {
            None
        },
        None => None,
    }
}


/// Subscription round trip: once the server confirmed the subscription of
/// channel `c` to `sink`, a `message` push for `c` is delivered to `sink` as
/// a message with no pattern, the channel and the payload.
pub proof fn lemma_subscription_round_trip(before: RegistryView, c: Seq<u8>, sink: u64, push: Value)
    requires
        parts_of(push) is Some,
        parts_of(push)->Some_0.len() == 3,
        word(parts_of(push)->Some_0[0]) == Some("message".spec_bytes()),
        word(parts_of(push)->Some_0[1]) == Some(c),
    ensures
        ({
            let after = before.with_kind(SubscriptionKind::Channel, before.channels.insert(c, sink));
            let p = parts_of(push)->Some_0;
            routing(after, push) == Some(
                (sink, PubSubMessage { pattern: Value::Nil, channel: p[1], payload: p[2] }),
            )
        }),
{
}

/// Pattern tagging: once the server confirmed the subscription of pattern
/// `pat` to `sink`, a `pmessage` push for `pat` and a channel is delivered to
/// `sink` with that pattern and that channel.
pub proof fn lemma_pattern_tagging(before: RegistryView, pat: Seq<u8>, sink: u64, push: Value)
    requires
        parts_of(push) is Some,
        parts_of(push)->Some_0.len() == 4,
        word(parts_of(push)->Some_0[0]) == Some("pmessage".spec_bytes()),
        word(parts_of(push)->Some_0[1]) == Some(pat),
    ensures
        ({
            let after = before.with_kind(SubscriptionKind::Pattern, before.patterns.insert(pat, sink));
            let p = parts_of(push)->Some_0;
            &&& routing(after, push) is Some
            &&& routing(after, push)->Some_0.0 == sink
            &&& word(routing(after, push)->Some_0.1.pattern) == Some(pat)
            &&& routing(after, push)->Some_0.1.channel == p[2]
            &&& routing(after, push)->Some_0.1.payload == p[3]
        }),
{
    lemma_message_words_differ();
}

/// The three message words are different byte strings.
pub proof fn lemma_message_words_differ()
    ensures
        "message".spec_bytes() != "pmessage".spec_bytes(),
        "smessage".spec_bytes() != "pmessage".spec_bytes(),
        "message".spec_bytes() != "smessage".spec_bytes(),
{
    reveal_strlit("message");
    reveal_strlit("pmessage");
    reveal_strlit("smessage");
    vstd::utf8::is_ascii_chars_encode_utf8("message"@);
    vstd::utf8::is_ascii_chars_encode_utf8("pmessage"@);
    vstd::utf8::is_ascii_chars_encode_utf8("smessage"@);
    assert("message".spec_bytes().len() == 7);
    assert("pmessage".spec_bytes().len() == 8);
    assert("smessage".spec_bytes()[0] != "pmessage".spec_bytes()[0]);
}

} // verus!
