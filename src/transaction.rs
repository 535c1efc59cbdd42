//! Transactions: commands queued between `MULTI` and `EXEC`, each with a flag
//! that says whether its result is kept, and the extraction of the result
//! from the replies to the whole batch.
use vstd::prelude::*;
use vstd::string::StringSliceAdditionalSpecFns;
use crate::command::{Command, cmd};
use crate::value::{Value, RedisError, Error};

verus! {

/// An ongoing transaction on one client.
pub struct Transaction {
    commands: Vec<Command>,
    forget_flags: Vec<bool>,
}

impl Transaction {
    /// The commands queued so far, `MULTI` first.
    pub closed spec fn queued(&self) -> Seq<Seq<Seq<u8>>> {
        self.commands@.map_values(|c: Command| c@)
    }

    /// For each queued command, whether its result is dropped.
    pub closed spec fn flags(&self) -> Seq<bool> {
        self.forget_flags@
    }

    /// A transaction that holds `MULTI`, whose result is kept.
    pub fn new() -> (r: Transaction)
        ensures
            r.queued() == seq![seq!["MULTI".spec_bytes()]],
            r.flags() == seq![false],
    {
        let mut r = Transaction { commands: Vec::new(), forget_flags: Vec::new() };
        r.queue(cmd("MULTI"));
        assert(r.queued() =~= seq![seq!["MULTI".spec_bytes()]]);
        assert(r.flags() =~= seq![false]);
        r
    }

    /// Queues a command whose result is kept.
    pub fn queue(&mut self, command: Command)
        ensures
            final(self).queued() == old(self).queued().push(command@),
            final(self).flags() == old(self).flags().push(false),
    {
        let ghost c = command@;
        self.commands.push(command);
        self.forget_flags.push(false);
        assert(self.queued() =~= old(self).queued().push(c));
    }

    /// Queues a command whose result is dropped.
    pub fn forget(&mut self, command: Command)
        ensures
            final(self).queued() == old(self).queued().push(command@),
            final(self).flags() == old(self).flags().push(true),
    {
        let ghost c = command@;
        self.commands.push(command);
        self.forget_flags.push(true);
        assert(self.queued() =~= old(self).queued().push(c));
    }

    /// Closes the transaction with `EXEC`: the batch to send, and the flags
    /// that `transaction_result` needs to read the replies.
    pub fn execute(self) -> (r: (Vec<Command>, Vec<bool>))
        ensures
            r.0@.map_values(|c: Command| c@) == self.queued().push(seq!["EXEC".spec_bytes()]),
            r.1@ == self.flags(),
    {
        let mut commands = self.commands;
        commands.push(cmd("EXEC"));
        assert(commands@.map_values(|c: Command| c@) =~= self.queued().push(
            seq!["EXEC".spec_bytes()],
        ));
        (commands, self.forget_flags)
    }
}

/// The first server error among the first `m` replies, from `i` on.
pub open spec fn first_error(rs: Seq<Value>, i: int, m: int) -> Option<RedisError>
    decreases m - i,
{
    if i >= m || i >= rs.len() {
        None
    } else if rs[i] is Error {
        Some(rs[i]->Error_0)
    } else {
        first_error(rs, i + 1, m)
    }
}

/// The results of `EXEC` that are kept: each result paired with its
/// command's flag, those with a flag set dropped, and those with no flag
/// left out.
pub open spec fn kept(results: Seq<Value>, flags: Seq<bool>) -> Seq<Value>
    decreases results.len(),
{
    if results.len() == 0 {
        Seq::empty()
    } else {
        let i = results.len() - 1;
        let rest = kept(results.drop_last(), flags);
        if i < flags.len() && !flags[i] {
            rest.push(results[i])
        } else {
            rest
        }
    }
}

/// The flags of the commands between `MULTI` and `EXEC`.
pub open spec fn command_flags(flags: Seq<bool>) -> Seq<bool> {
    if flags.len() == 0 {
        flags
    } else {
        flags.drop_first()
    }
}

/// A reply that says `EXEC` did not run the transaction.
pub open spec fn is_null_reply(v: Value) -> bool {
    v == Value::Nil || v == Value::Array(None) || v == Value::BulkString(None)
}

/// What a transaction returns, given the replies to its batch (`MULTI`, one
/// per queued command, `EXEC`) and the flags of the queued commands.
pub open spec fn transaction_outcome_holds(rs: Seq<Value>, flags: Seq<bool>, r: Result<Value, Error>) -> bool {
    let m = flags.len() as int;
    match first_error(rs, 0, m) {
        Some(e) => r == Err::<Value, Error>(Error::Redis(e)),
        None => if rs.len() <= m {
            r is Err && r->Err_0 is Client
        } else if is_null_reply(rs[m]) {
            r == Err::<Value, Error>(Error::Aborted)
        } else if rs[m] is Array {
            let k = kept(rs[m]->Array_0->Some_0@, command_flags(flags));
            if k.len() == 1 {
                if k[0] is Error {
                    r == Err::<Value, Error>(Error::Redis(k[0]->Error_0))
                } else {
                    r == Ok::<Value, Error>(k[0])
                }
            } else {
                r is Ok && r->Ok_0 is Array && r->Ok_0->Array_0 is Some
                    && r->Ok_0->Array_0->Some_0@ == k
            }
        } else {
            r is Err && r->Err_0 is Client
        },
    }
}

fn kept_results(results: Vec<Value>, flags: &[bool]) -> (r: Vec<Value>)
    ensures
        r@ == kept(results@, flags@),
{
    let ghost all = results@;
    let mut results = results;
    let mut out: Vec<Value> = Vec::new();
    let mut i: usize = 0;
    let n = results.len();
    while i < n
        invariant
            n == all.len(),
            i <= n,
            results@ == all.subrange(i as int, n as int),
            out@ == kept(all.subrange(0, i as int), flags@),
        decreases n - i,
    {
        let v = results.remove(0);
        proof {
            let s = all.subrange(0, i + 1);
            assert(s.drop_last() =~= all.subrange(0, i as int));
            assert(v == all[i as int]);
        }
        if i < flags.len() && !flags[i] {
            out.push(v);
        }
        i = i + 1;
        assert(results@ =~= all.subrange(i as int, n as int));
    }
    assert(all.subrange(0, n as int) =~= all);
    out
}

/// Reads the result of a transaction from the replies to its batch.
///
/// A server error among the replies to `MULTI` and the queued commands fails
/// the transaction; a null `EXEC` reply means it was aborted; an `EXEC` array
/// gives the kept results: the only one if one is left (a server error there
/// fails the transaction), else an array of them.
pub fn transaction_result(batch_replies: Vec<Value>, forget_flags: &[bool]) -> (r: Result<Value, Error>)
    ensures
        transaction_outcome_holds(batch_replies@, forget_flags@, r),
{
    let ghost rs = batch_replies@;
    let mut replies = batch_replies;
    let m = forget_flags.len();
    let mut i: usize = 0;
    while i < m && i < replies.len()
        invariant
            replies@ == rs,
            rs == batch_replies@,
            i <= m,
            m == forget_flags@.len(),
            first_error(rs, 0, m as int) == first_error(rs, i as int, m as int),
        decreases m - i,
    {
        if matches!(replies[i], Value::Error(_)) {
            let v = replies.remove(i);
            assert(v == rs[i as int]);
            assert(first_error(rs, i as int, m as int) == Some(v->Error_0));
            return match v {
                Value::Error(e) => Err(Error::Redis(e)),
                _ => Err(Error::Client("unexpected transaction reply".to_owned())),
            };
        }
        i = i + 1;
    }
    assert(first_error(rs, i as int, m as int) == None::<RedisError>);
    if replies.len() <= m {
        return Err(Error::Client("missing transaction reply".to_owned()));
    }
    let exec_reply = replies.remove(m);
    let later_flags = if m == 0 {
        forget_flags
    } else {
        vstd::slice::slice_subrange(forget_flags, 1, m)
    };
    assert(later_flags@ == command_flags(forget_flags@));
    match exec_reply {
        Value::Array(Some(results)) => {
            let mut k = kept_results(results, later_flags);
            if k.len() == 1 {
                match k.pop() {
                    Some(Value::Error(e)) => Err(Error::Redis(e)),
                    Some(v) => Ok(v),
                    None => Ok(Value::Nil),
                }
            } else {
                Ok(Value::Array(Some(k)))
            }
        },
        Value::Array(None) => Err(Error::Aborted),
        Value::BulkString(None) => Err(Error::Aborted),
        Value::Nil => Err(Error::Aborted),
        _ => Err(Error::Client("unexpected transaction reply".to_owned())),
    }
}

} // verus!
