//! What a connection does when it comes back: the handshake it replays, the
//! subscriptions it sends again, and how long it waits between attempts.
use vstd::prelude::*;
use vstd::string::StringSliceAdditionalSpecFns;
use vstd::utf8::encode_utf8;
use crate::command::{Command, cmd, decimal, decimal_text};
use crate::pub_sub::{parts_of, PubSubMessage};
use crate::registry::{Registry, SubscriptionKind, routing, word, lemma_message_words_differ};
use crate::value::Value;

verus! {

/// What a connection replays once it is back.
pub struct ConnectionConfig {
    pub username: Option<String>,
    pub password: Option<String>,
    pub connection_name: Option<String>,
    pub database: u64,
    /// Send the registered subscriptions again.
    pub auto_resubscribe: bool,
}

pub open spec fn text_bytes(s: String) -> Seq<u8> {
    encode_utf8(s@)
}

/// `AUTH [username] password` when a password is set, then `CLIENT SETNAME`
/// when a name is set, then `SELECT` when the database is not the first.
pub open spec fn handshake(
    username: Option<Seq<u8>>,
    password: Option<Seq<u8>>,
    name: Option<Seq<u8>>,
    database: nat,
) -> Seq<Seq<Seq<u8>>> {
    (match password {
        Some(p) => match username {
            Some(u) => seq![seq!["AUTH".spec_bytes(), u, p]],
            None => seq![seq!["AUTH".spec_bytes(), p]],
        },
        None => Seq::empty(),
    }) + (match name {
        Some(n) => seq![seq!["CLIENT".spec_bytes(), "SETNAME".spec_bytes(), n]],
        None => Seq::empty(),
    }) + (if database != 0 {
        seq![seq!["SELECT".spec_bytes(), decimal(database)]]
    } else {
        Seq::empty()
    })
}

pub open spec fn option_bytes(o: Option<String>) -> Option<Seq<u8>> {
    match o {
        Some(s) => Some(text_bytes(s)),
        None => None,
    }
}

pub open spec fn commands_view(cs: Seq<Command>) -> Seq<Seq<Seq<u8>>> {
    cs.map_values(|c: Command| c@)
}

/// The commands that a new connection sends first.
pub fn handshake_commands(config: &ConnectionConfig) -> (r: Vec<Command>)
    ensures
        commands_view(r@) == handshake(
            option_bytes(config.username),
            option_bytes(config.password),
            option_bytes(config.connection_name),
            config.database as nat,
        ),
{
    let mut out: Vec<Command> = Vec::new();
    match &config.password {
        Some(p) => {
            let c = match &config.username {
                Some(u) => cmd("AUTH").arg(u.as_str().as_bytes()).arg(p.as_str().as_bytes()),
                None => cmd("AUTH").arg(p.as_str().as_bytes()),
            };
            out.push(c);
        },
        None => {},
    }
    let ghost auth_part = match option_bytes(config.password) {
        Some(p) => match option_bytes(config.username) {
            Some(u) => seq![seq!["AUTH".spec_bytes(), u, p]],
            None => seq![seq!["AUTH".spec_bytes(), p]],
        },
        None => Seq::<Seq<Seq<u8>>>::empty(),
    };
    assert(commands_view(out@) =~~= auth_part);
    match &config.connection_name {
        Some(n) => {
            out.push(cmd("CLIENT").arg("SETNAME".as_bytes()).arg(n.as_str().as_bytes()));
        },
        None => {},
    }
    let ghost name_part = match option_bytes(config.connection_name) {
        Some(n) => seq![seq!["CLIENT".spec_bytes(), "SETNAME".spec_bytes(), n]],
        None => Seq::<Seq<Seq<u8>>>::empty(),
    };
    assert(commands_view(out@) =~~= auth_part + name_part);
    if config.database != 0 {
        let digits = decimal_text(config.database);
        out.push(cmd("SELECT").arg(digits.as_slice()));
    }
    assert(commands_view(out@) =~~= handshake(
        option_bytes(config.username),
        option_bytes(config.password),
        option_bytes(config.connection_name),
        config.database as nat,
    ));
    out
}

/// `verb` followed by every name, or nothing when there is no name.
pub open spec fn verb_over(verb: Seq<u8>, names: Seq<Seq<u8>>) -> Seq<Seq<Seq<u8>>> {
    if names.len() > 0 {
        seq![seq![verb] + names]
    } else {
        Seq::empty()
    }
}

/// `SUBSCRIBE`, `PSUBSCRIBE` and `SSUBSCRIBE` over the registered names.
pub open spec fn resubscription(
    channels: Seq<Seq<u8>>,
    patterns: Seq<Seq<u8>>,
    shard_channels: Seq<Seq<u8>>,
) -> Seq<Seq<Seq<u8>>> {
    verb_over("SUBSCRIBE".spec_bytes(), channels) + verb_over("PSUBSCRIBE".spec_bytes(), patterns)
        + verb_over("SSUBSCRIBE".spec_bytes(), shard_channels)
}

fn verb_command(verb: &str, names: &Vec<Vec<u8>>) -> (r: Command)
    ensures
        r@ == seq![verb.spec_bytes()] + names@.map_values(|n: Vec<u8>| n@),
{
    let mut c = cmd(verb);
    let mut i: usize = 0;
    while i < names.len()
        invariant
            i <= names@.len(),
            c@ == seq![verb.spec_bytes()] + names@.subrange(0, i as int).map_values(|n: Vec<u8>| n@),
        decreases names@.len() - i,
    {
        c = c.arg(names[i].as_slice());
        i = i + 1;
        assert(c@ =~= seq![verb.spec_bytes()] + names@.subrange(0, i as int).map_values(
            |n: Vec<u8>| n@,
        ));
    }
    assert(names@.subrange(0, names@.len() as int) =~= names@);
    c
}

/// The subscriptions that a new connection sends again: all the registered
/// ones when `auto_resubscribe` is set, none otherwise (the registry stays
/// as it is either way).
pub fn resubscribe_commands(registry: &Registry, auto_resubscribe: bool) -> (r: Vec<Command>)
    requires
        registry.wf(),
    ensures
        auto_resubscribe ==> commands_view(r@) == resubscription(
            registry.names_of(SubscriptionKind::Channel),
            registry.names_of(SubscriptionKind::Pattern),
            registry.names_of(SubscriptionKind::ShardChannel),
        ),
        !auto_resubscribe ==> r@.len() == 0,
{
    let mut out: Vec<Command> = Vec::new();
    if !auto_resubscribe {
        return out;
    }
    let channels = registry.names(SubscriptionKind::Channel);
    if channels.len() > 0 {
        out.push(verb_command("SUBSCRIBE", channels));
    }
    let patterns = registry.names(SubscriptionKind::Pattern);
    if patterns.len() > 0 {
        out.push(verb_command("PSUBSCRIBE", patterns));
    }
    let shard_channels = registry.names(SubscriptionKind::ShardChannel);
    if shard_channels.len() > 0 {
        out.push(verb_command("SSUBSCRIBE", shard_channels));
    }
    assert(commands_view(out@) =~~= resubscription(
        registry.names_of(SubscriptionKind::Channel),
        registry.names_of(SubscriptionKind::Pattern),
        registry.names_of(SubscriptionKind::ShardChannel),
    ));
    out
}

/// Auto-resubscribe: with `auto_resubscribe` set, a new connection subscribes
/// again to every registered channel, and a `message` push for that channel
/// on it goes to the sink of the stream that subscribed before.
pub proof fn lemma_auto_resubscribe(registry: &Registry, c: Seq<u8>, push: Value)
    requires
        registry.wf(),
        registry.view().channels.contains_key(c),
        parts_of(push) is Some,
        parts_of(push)->Some_0.len() == 3,
        word(parts_of(push)->Some_0[0]) == Some("message".spec_bytes()),
        word(parts_of(push)->Some_0[1]) == Some(c),
    ensures
        ({
            let replay = resubscription(
                registry.names_of(SubscriptionKind::Channel),
                registry.names_of(SubscriptionKind::Pattern),
                registry.names_of(SubscriptionKind::ShardChannel),
            );
            let p = parts_of(push)->Some_0;
            &&& replay.len() > 0
            &&& replay[0][0] == "SUBSCRIBE".spec_bytes()
            &&& replay[0].contains(c)
            &&& routing(registry.view(), push) == Some(
                (
                    registry.view().channels[c],
                    PubSubMessage { pattern: Value::Nil, channel: p[1], payload: p[2] },
                ),
            )
        }),
{
    registry.lemma_names_of(SubscriptionKind::Channel);
    let names = registry.names_of(SubscriptionKind::Channel);
    assert(names.to_set().contains(c));
    let i = choose|i: int| 0 <= i < names.len() && names[i] == c;
    let replay = resubscription(
        names,
        registry.names_of(SubscriptionKind::Pattern),
        registry.names_of(SubscriptionKind::ShardChannel),
    );
    assert(replay[0] == seq!["SUBSCRIBE".spec_bytes()] + names);
    assert(replay[0][i + 1] == c);
}

/// Auto-resubscribe, for patterns: with `auto_resubscribe` set, a new
/// connection subscribes again to every registered pattern, and a `pmessage`
/// push for that pattern on it goes to the sink of the stream that
/// subscribed before, tagged with the pattern and the channel.
pub proof fn lemma_auto_resubscribe_pattern(registry: &Registry, pat: Seq<u8>, push: Value)
    requires
        registry.wf(),
        registry.view().patterns.contains_key(pat),
        parts_of(push) is Some,
        parts_of(push)->Some_0.len() == 4,
        word(parts_of(push)->Some_0[0]) == Some("pmessage".spec_bytes()),
        word(parts_of(push)->Some_0[1]) == Some(pat),
    ensures
        ({
            let replay = resubscription(
                registry.names_of(SubscriptionKind::Channel),
                registry.names_of(SubscriptionKind::Pattern),
                registry.names_of(SubscriptionKind::ShardChannel),
            );
            let p = parts_of(push)->Some_0;
            &&& exists|i: int|
                0 <= i < replay.len() && replay[i][0] == "PSUBSCRIBE".spec_bytes()
                    && #[trigger] replay[i].contains(pat)
            &&& routing(registry.view(), push) == Some(
                (
                    registry.view().patterns[pat],
                    PubSubMessage { pattern: p[1], channel: p[2], payload: p[3] },
                ),
            )
        }),
{
    registry.lemma_names_of(SubscriptionKind::Pattern);
    let names = registry.names_of(SubscriptionKind::Pattern);
    assert(names.to_set().contains(pat));
    let j = choose|j: int| 0 <= j < names.len() && names[j] == pat;
    let chans = registry.names_of(SubscriptionKind::Channel);
    let replay = resubscription(chans, names, registry.names_of(SubscriptionKind::ShardChannel));
    let i: int = if chans.len() > 0 {
        1
    } else {
        0
    };
    assert(replay[i] == seq!["PSUBSCRIBE".spec_bytes()] + names);
    assert(replay[i][j + 1] == pat);
    assert(replay[i].contains(pat));
    lemma_message_words_differ();
}

/// The verbs that open a subscription.
pub open spec fn is_subscribe_verb(v: Seq<u8>) -> bool {
    v == "SUBSCRIBE".spec_bytes() || v == "PSUBSCRIBE".spec_bytes() || v == "SSUBSCRIBE".spec_bytes()
}

/// Some command of `sent` opens a subscription.
pub open spec fn opens_subscription(sent: Seq<Seq<Seq<u8>>>) -> bool {
    exists|i: int| 0 <= i < sent.len() && sent[i].len() > 0 && is_subscribe_verb(#[trigger] sent[i][0])
}

proof fn lemma_handshake_verbs_differ()
    ensures
        !is_subscribe_verb("AUTH".spec_bytes()),
        !is_subscribe_verb("CLIENT".spec_bytes()),
        !is_subscribe_verb("SELECT".spec_bytes()),
{
    reveal_strlit("AUTH");
    reveal_strlit("CLIENT");
    reveal_strlit("SELECT");
    reveal_strlit("SUBSCRIBE");
    reveal_strlit("PSUBSCRIBE");
    reveal_strlit("SSUBSCRIBE");
    vstd::utf8::is_ascii_chars_encode_utf8("AUTH"@);
    vstd::utf8::is_ascii_chars_encode_utf8("CLIENT"@);
    vstd::utf8::is_ascii_chars_encode_utf8("SELECT"@);
    vstd::utf8::is_ascii_chars_encode_utf8("SUBSCRIBE"@);
    vstd::utf8::is_ascii_chars_encode_utf8("PSUBSCRIBE"@);
    vstd::utf8::is_ascii_chars_encode_utf8("SSUBSCRIBE"@);
}

/// No resubscribe: with `auto_resubscribe` unset, `resubscribe_commands`
/// gives nothing, and what a new connection then sends on its own (the
/// handshake) opens no subscription; so nothing is pushed to it until the
/// caller subscribes again.
pub proof fn lemma_no_resubscribe(
    username: Option<Seq<u8>>,
    password: Option<Seq<u8>>,
    name: Option<Seq<u8>>,
    database: nat,
    resubscribed: Seq<Seq<Seq<u8>>>,
)
    requires
        resubscribed.len() == 0,
    ensures
        !opens_subscription(handshake(username, password, name, database) + resubscribed),
{
    lemma_handshake_verbs_differ();
    let sent = handshake(username, password, name, database) + resubscribed;
    assert forall|i: int| 0 <= i < sent.len() && sent[i].len() > 0 implies !is_subscribe_verb(
        #[trigger] sent[i][0],
    ) by {
        let a = match password {
            Some(p) => match username {
                Some(u) => seq![seq!["AUTH".spec_bytes(), u, p]],
                None => seq![seq!["AUTH".spec_bytes(), p]],
            },
            None => Seq::<Seq<Seq<u8>>>::empty(),
        };
        let n = match name {
            Some(n) => seq![seq!["CLIENT".spec_bytes(), "SETNAME".spec_bytes(), n]],
            None => Seq::<Seq<Seq<u8>>>::empty(),
        };
        if i < a.len() {
            assert(sent[i] == a[i]);
        } else if i < a.len() + n.len() {
            assert(sent[i] == n[i - a.len()]);
        } else {
            assert(sent[i][0] == "SELECT".spec_bytes());
        }
    }
}

/// How long to wait before each reconnection attempt: the first delay,
/// multiplied by `multiplier` at each further attempt, never more than
/// `max_delay`; `max_attempts` attempts at most, 0 meaning no limit.
pub struct ReconnectPolicy {
    pub initial_delay: u64,
    pub multiplier: u64,
    pub max_delay: u64,
    pub max_attempts: u64,
}

/// `b` to the power `e`.
pub open spec fn power(b: int, e: nat) -> int
    decreases e,
{
    if e == 0 {
        1
    } else {
        power(b, (e - 1) as nat) * b
    }
}

pub open spec fn capped(x: int, cap: int) -> int {
    if x < cap {
        x
    } else {
        cap
    }
}

impl ReconnectPolicy {
    /// The delay before attempt number `attempt` (the first is 0), or `None`
    /// once the attempts are used up.
    pub open spec fn delay_spec(&self, attempt: nat) -> Option<int> {
        if self.max_attempts != 0 && attempt >= self.max_attempts {
            None
        } else {
            Some(capped(self.initial_delay * power(self.multiplier as int, attempt), self.max_delay as int))
        }
    }

    pub fn next_delay(&self, attempt: u64) -> (r: Option<u64>)
        ensures
            match self.delay_spec(attempt as nat) {
                Some(d) => r is Some && r->Some_0 as int == d,
                None => r is None,
            },
    {
        if self.max_attempts != 0 && attempt >= self.max_attempts {
            return None;
        }
        let ghost m = self.multiplier as int;
        let ghost cap = self.max_delay as int;
        let mut d: u64 = if self.initial_delay < self.max_delay {
            self.initial_delay
        } else {
            self.max_delay
        };
        let mut i: u64 = 0;
        proof {
            assert(power(m, 0) == 1);
        }
        while i < attempt
            invariant
                i <= attempt,
                m == self.multiplier,
                cap == self.max_delay,
                self.initial_delay * power(m, i as nat) >= 0,
                d as int == capped(self.initial_delay * power(m, i as nat), cap),
            decreases attempt - i,
        {
            let ghost x = self.initial_delay * power(m, i as nat);
            proof {
                lemma_power_nonneg(m, (i + 1) as nat);
                assert(power(m, (i + 1) as nat) == power(m, i as nat) * m);
                assert(self.initial_delay * power(m, (i + 1) as nat) == x * m) by (nonlinear_arith)
                    requires
                        power(m, (i + 1) as nat) == power(m, i as nat) * m,
                        x == self.initial_delay * power(m, i as nat),
                ;
                assert(x * m >= 0) by (nonlinear_arith)
                    requires
                        x >= 0,
                        m >= 0,
                ;
                lemma_capped_scale(x, m, cap);
            }
            if self.multiplier != 0 && d > self.max_delay / self.multiplier {
                proof {
                    assert(d * m > cap) by (nonlinear_arith)
                        requires
                            m > 0,
                            d > cap / m,
                            cap >= 0,
                    ;
                }
                d = self.max_delay;
            } else {
                proof {
                    assert(d * m <= cap) by (nonlinear_arith)
                        requires
                            m == 0 || d <= cap / m,
                            cap >= 0,
                            m >= 0,
                    ;
                }
                d = d * self.multiplier;
            }
            i = i + 1;
        }
        Some(d)
    }
}

proof fn lemma_power_nonneg(b: int, e: nat)
    requires
        b >= 0,
    ensures
        power(b, e) >= 0,
    decreases e,
{
    if e > 0 {
        lemma_power_nonneg(b, (e - 1) as nat);
        assert(power(b, (e - 1) as nat) * b >= 0) by (nonlinear_arith)
            requires
                power(b, (e - 1) as nat) >= 0,
                b >= 0,
        ;
    }
}

/// Capping before or after multiplying by `m` gives the same capped value.
proof fn lemma_capped_scale(x: int, m: int, cap: int)
    requires
        x >= 0,
        m >= 0,
        cap >= 0,
    ensures
        capped(capped(x, cap) * m, cap) == capped(x * m, cap),
{
    if x >= cap && m >= 1 {
        assert(x * m >= cap * m) by (nonlinear_arith)
            requires
                x >= cap,
                m >= 1,
        ;
        assert(cap * m >= cap) by (nonlinear_arith)
            requires
                cap >= 0,
                m >= 1,
        ;
    }
    if x >= cap && m == 0 {
        assert(x * m == 0);
        assert(cap * m == 0);
    }
}

} // verus!
