//! Commands and the way they go on the wire: a RESP2 array of bulk strings.
use vstd::prelude::*;
use vstd::slice::slice_to_vec;
use vstd::string::StringSliceAdditionalSpecFns;

verus! {

/// A command: its name, then its arguments, each a byte string.
pub struct Command {
    pub parts: Vec<Vec<u8>>,
}

impl View for Command {
    type V = Seq<Seq<u8>>;

    open spec fn view(&self) -> Seq<Seq<u8>> {
        self.parts@.map_values(|p: Vec<u8>| p@)
    }
}

/// A command with no arguments yet.
pub fn cmd(name: &str) -> (r: Command)
    ensures
        r@ == seq![name.spec_bytes()],
{
    let mut parts: Vec<Vec<u8>> = Vec::new();
    parts.push(slice_to_vec(name.as_bytes()));
    let r = Command { parts };
    assert(r@ =~= seq![name.spec_bytes()]);
    r
}

impl Command {
    /// The command with one more argument.
    pub fn arg(self, a: &[u8]) -> (r: Command)
        ensures
            r@ == self@.push(a@),
    {
        let mut parts = self.parts;
        parts.push(slice_to_vec(a));
        let r = Command { parts };
        assert(r@ =~= self@.push(a@));
        r
    }

    /// The command's name: its first part (empty for a command with no parts).
    pub fn name(&self) -> (r: &[u8])
        ensures
            self@.len() > 0 ==> r@ == self@[0],
            self@.len() == 0 ==> r@.len() == 0,
    {
        if self.parts.len() > 0 {
            self.parts[0].as_slice()
        } else {
            &[]
        }
    }
}

/// The decimal digits of `n`.
pub open spec fn decimal(n: nat) -> Seq<u8>
    decreases n,
{
    if n < 10 {
        seq![(0x30 + n) as u8]
    } else {
        decimal(n / 10).push((0x30 + n % 10) as u8)
    }
}

/// `$<len>\r\n<bytes>\r\n`
pub open spec fn bulk_encoding(b: Seq<u8>) -> Seq<u8> {
    seq![0x24u8] + decimal(b.len()) + seq![0x0du8, 0x0a] + b + seq![0x0du8, 0x0a]
}

/// The bulk strings of `parts` back to back.
pub open spec fn bulks_encoding(parts: Seq<Seq<u8>>) -> Seq<u8>
    decreases parts.len(),
{
    if parts.len() == 0 {
        Seq::empty()
    } else {
        bulks_encoding(parts.drop_last()) + bulk_encoding(parts.last())
    }
}

/// `*<n>\r\n` followed by the `n` parts as bulk strings.
pub open spec fn command_encoding(parts: Seq<Seq<u8>>) -> Seq<u8> {
    seq![0x2au8] + decimal(parts.len()) + seq![0x0du8, 0x0a] + bulks_encoding(parts)
}

/// The encoding of several commands, one after another.
pub open spec fn batch_encoding(cmds: Seq<Seq<Seq<u8>>>) -> Seq<u8>
    decreases cmds.len(),
{
    if cmds.len() == 0 {
        Seq::empty()
    } else {
        batch_encoding(cmds.drop_last()) + command_encoding(cmds.last())
    }
}

fn push_decimal(out: &mut Vec<u8>, n: u64)
    ensures
        final(out)@ == old(out)@ + decimal(n as nat),
    decreases n,
{
    if n < 10 {
        out.push(0x30 + n as u8);
    } else {
        push_decimal(out, n / 10);
        out.push(0x30 + (n % 10) as u8);
    }
    assert(final(out)@ =~= old(out)@ + decimal(n as nat));
}

fn push_line_end(out: &mut Vec<u8>)
    ensures
        final(out)@ == old(out)@ + seq![0x0du8, 0x0a],
{
    out.push(0x0d);
    out.push(0x0a);
    assert(final(out)@ =~= old(out)@ + seq![0x0du8, 0x0a]);
}

fn push_bytes(out: &mut Vec<u8>, b: &[u8])
    ensures
        final(out)@ == old(out)@ + b@,
{
    let mut i: usize = 0;
    while i < b.len()
        invariant
            i <= b@.len(),
            out@ == old(out)@ + b@.subrange(0, i as int),
        decreases b@.len() - i,
    {
        out.push(b[i]);
        i = i + 1;
        assert(out@ =~= old(out)@ + b@.subrange(0, i as int));
    }
    assert(b@.subrange(0, b@.len() as int) =~= b@);
}

fn push_command(out: &mut Vec<u8>, command: &Command)
    ensures
        final(out)@ == old(out)@ + command_encoding(command@),
{
    out.push(0x2a);
    push_decimal(out, command.parts.len() as u64);
    push_line_end(out);
    let ghost header = out@;
    let mut i: usize = 0;
    while i < command.parts.len()
        invariant
            i <= command@.len(),
            command@.len() == command.parts@.len(),
            out@ == header + bulks_encoding(command@.subrange(0, i as int)),
        decreases command.parts@.len() - i,
    {
        let part = &command.parts[i];
        out.push(0x24);
        push_decimal(out, part.len() as u64);
        push_line_end(out);
        push_bytes(out, part.as_slice());
        push_line_end(out);
        proof {
            let s = command@.subrange(0, i + 1);
            assert(s.drop_last() =~= command@.subrange(0, i as int));
            assert(s.last() == part@);
        }
        i = i + 1;
        assert(out@ =~= header + bulks_encoding(command@.subrange(0, i as int)));
    }
    assert(command@.subrange(0, command@.len() as int) =~= command@);
    assert(final(out)@ =~= old(out)@ + command_encoding(command@));
}

/// The decimal digits of `n`.
pub fn decimal_text(n: u64) -> (r: Vec<u8>)
    ensures
        r@ == decimal(n as nat),
{
    let mut out: Vec<u8> = Vec::new();
    push_decimal(&mut out, n);
    assert(out@ =~= decimal(n as nat));
    out
}

/// The bytes that send `command`.
pub fn encode_command(command: &Command) -> (r: Vec<u8>)
    ensures
        r@ == command_encoding(command@),
{
    let mut out: Vec<u8> = Vec::new();
    push_command(&mut out, command);
    assert(out@ =~= command_encoding(command@));
    out
}

/// The bytes that send a batch of commands in one write.
pub fn encode_batch(commands: &Vec<Command>) -> (r: Vec<u8>)
    ensures
        r@ == batch_encoding(commands@.map_values(|c: Command| c@)),
{
    let ghost cmds = commands@.map_values(|c: Command| c@);
    let mut out: Vec<u8> = Vec::new();
    let mut i: usize = 0;
    while i < commands.len()
        invariant
            i <= commands@.len(),
            cmds == commands@.map_values(|c: Command| c@),
            out@ == batch_encoding(cmds.subrange(0, i as int)),
        decreases commands@.len() - i,
    {
        push_command(&mut out, &commands[i]);
        proof {
            let s = cmds.subrange(0, i + 1);
            assert(s.drop_last() =~= cmds.subrange(0, i as int));
        }
        i = i + 1;
    }
    assert(cmds.subrange(0, cmds.len() as int) =~= cmds);
    out
}

} // verus!
