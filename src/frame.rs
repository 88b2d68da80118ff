//! Reassembly of complete commands from a byte stream that arrives in pieces
//! of any size.

use crate::command::{decode_command, frame_len, is_frame, parse_command, payload_size, Command};
use vstd::prelude::*;

verus! {

/// The complete commands at the front of `s`, in stream order.
pub open spec fn frames(s: Seq<u8>) -> Seq<Seq<u8>>
    decreases s.len(),
{
    if s.len() == 0 {
        Seq::empty()
    } else if s.len() >= frame_len(s[0]) {
        seq![s.take(frame_len(s[0]) as int)] + frames(s.skip(frame_len(s[0]) as int))
    } else {
        Seq::empty()
    }
}

/// What is left of `s` after its complete commands: the start of the next one.
pub open spec fn rest(s: Seq<u8>) -> Seq<u8>
    decreases s.len(),
{
    if s.len() == 0 {
        Seq::empty()
    } else if s.len() >= frame_len(s[0]) {
        rest(s.skip(frame_len(s[0]) as int))
    } else {
        s
    }
}

/// The commands that complete frames decode to.
pub open spec fn parse_all(fs: Seq<Seq<u8>>) -> Seq<Command> {
    fs.map_values(|f: Seq<u8>| parse_command(f))
}

/// `p` is the start of a command, at most all of it.
pub open spec fn is_prefix_of_frame(p: Seq<u8>) -> bool {
    p.len() == 0 || p.len() <= frame_len(p[0])
}

/// How many bytes the next read may take while `p` is pending: the opcode when
/// nothing is pending, the rest of the payload otherwise, none once complete.
pub open spec fn wanted_of(p: Seq<u8>) -> nat {
    if p.len() == 0 {
        1
    } else if p.len() <= frame_len(p[0]) {
        (frame_len(p[0]) - p.len()) as nat
    } else {
        0
    }
}

/// A complete command at the front of a stream is split off whole.
pub proof fn lemma_frame_then(f: Seq<u8>, t: Seq<u8>)
    requires
        is_frame(f),
    ensures
        frames(f + t) == seq![f] + frames(t),
        rest(f + t) == rest(t),
{
    let s = f + t;
    assert(s.take(f.len() as int) =~= f);
    assert(s.skip(f.len() as int) =~= t);
}

/// Bytes that hold no complete command yield no command and stay pending.
pub proof fn lemma_incomplete(p: Seq<u8>)
    requires
        p.len() == 0 || p.len() < frame_len(p[0]),
    ensures
        frames(p) == Seq::<Seq<u8>>::empty(),
        rest(p) == p,
{
}

/// Cutting a stream in two changes nothing: the commands of `s + t` are those
/// completed within `s`, then those completed by what `s` left pending
/// followed by `t`; and the same bytes stay pending.
pub proof fn lemma_frames_split(s: Seq<u8>, t: Seq<u8>)
    ensures
        frames(s + t) == frames(s) + frames(rest(s) + t),
        rest(s + t) == rest(rest(s) + t),
    decreases s.len(),
{
    if s.len() == 0 {
        assert(s + t =~= t);
        assert(frames(s) + frames(rest(s) + t) =~= frames(t));
    } else if s.len() >= frame_len(s[0]) {
        let n = frame_len(s[0]) as int;
        let u = s + t;
        assert(u.take(n) =~= s.take(n));
        assert(u.skip(n) =~= s.skip(n) + t);
        lemma_frames_split(s.skip(n), t);
        assert(frames(u) =~= frames(s) + frames(rest(s) + t));
    } else {
        assert(frames(s) + frames(rest(s) + t) =~= frames(rest(s) + t));
    }
}

/// What is left pending never holds a complete command.
pub proof fn lemma_rest_incomplete(s: Seq<u8>)
    ensures
        rest(s).len() == 0 || rest(s).len() < frame_len(rest(s)[0]),
    decreases s.len(),
{
    if s.len() > 0 && s.len() >= frame_len(s[0]) {
        lemma_rest_incomplete(s.skip(frame_len(s[0]) as int));
    }
}

/// The commands yielded when the deliveries `chunks` are fed one after the
/// other, starting with `p` pending.
pub open spec fn chunk_commands(p: Seq<u8>, chunks: Seq<Seq<u8>>) -> Seq<Command>
    decreases chunks.len(),
{
    if chunks.len() == 0 {
        Seq::empty()
    } else {
        parse_all(frames(p + chunks[0])) + chunk_commands(rest(p + chunks[0]), chunks.drop_first())
    }
}

/// The bytes left pending after the deliveries `chunks`, starting with `p`.
pub open spec fn chunk_pending(p: Seq<u8>, chunks: Seq<Seq<u8>>) -> Seq<u8>
    decreases chunks.len(),
{
    if chunks.len() == 0 {
        p
    } else {
        chunk_pending(rest(p + chunks[0]), chunks.drop_first())
    }
}

/// However a stream is cut into deliveries, feeding them one after the other
/// yields the same commands, in the same order, and leaves the same bytes
/// pending as feeding the whole stream at once.
pub proof fn lemma_any_partition(p: Seq<u8>, chunks: Seq<Seq<u8>>)
    requires
        p.len() == 0 || p.len() < frame_len(p[0]),
    ensures
        chunk_commands(p, chunks) == parse_all(frames(p + chunks.flatten())),
        chunk_pending(p, chunks) == rest(p + chunks.flatten()),
    decreases chunks.len(),
{
    if chunks.len() == 0 {
        assert(p + chunks.flatten() =~= p);
        lemma_incomplete(p);
        assert(parse_all(Seq::<Seq<u8>>::empty()) =~= Seq::<Command>::empty());
    } else {
        let c0 = chunks[0];
        let tail = chunks.drop_first().flatten();
        assert(chunks.flatten() == c0 + tail);
        assert(p + chunks.flatten() =~= (p + c0) + tail);
        lemma_frames_split(p + c0, tail);
        lemma_rest_incomplete(p + c0);
        lemma_any_partition(rest(p + c0), chunks.drop_first());
        let a = frames(p + c0);
        let b = frames(rest(p + c0) + tail);
        assert(parse_all(a + b) =~= parse_all(a) + parse_all(b));
    }
}

/// The bytes of one complete command, cut into deliveries in any way, yield
/// that one command exactly once and leave nothing pending.
pub proof fn lemma_one_command_any_partition(chunks: Seq<Seq<u8>>)
    requires
        is_frame(chunks.flatten()),
    ensures
        chunk_commands(Seq::empty(), chunks) == seq![parse_command(chunks.flatten())],
        chunk_pending(Seq::empty(), chunks) == Seq::<u8>::empty(),
{
    let f = chunks.flatten();
    lemma_any_partition(Seq::empty(), chunks);
    assert(Seq::<u8>::empty() + f =~= f);
    lemma_frame_then(f, Seq::empty());
    assert(f + Seq::<u8>::empty() =~= f);
    assert(frames(f) =~= seq![f]);
    assert(parse_all(seq![f]) =~= seq![parse_command(f)]);
}

/// Two complete commands delivered together are split into exactly those two,
/// in order, with nothing left pending.
pub proof fn lemma_two_frames(f1: Seq<u8>, f2: Seq<u8>)
    requires
        is_frame(f1),
        is_frame(f2),
    ensures
        frames(f1 + f2) == seq![f1, f2],
        rest(f1 + f2) == Seq::<u8>::empty(),
        parse_all(frames(f1 + f2)) == seq![parse_command(f1), parse_command(f2)],
{
    lemma_frame_then(f1, f2);
    lemma_frame_then(f2, Seq::empty());
    assert(f2 + Seq::<u8>::empty() =~= f2);
    assert(frames(f1 + f2) =~= seq![f1, f2]);
    assert(parse_all(frames(f1 + f2)) =~= seq![parse_command(f1), parse_command(f2)]);
}

/// Where the reassembler stands.
#[derive(Debug, Clone, Copy, PartialEq, Eq, Structural)]
pub enum RocketState {
    /// Waiting for the opcode of the next command.
    NewCommand,
    /// The opcode is in; this many payload bytes are still missing.
    IncompleteCommand(usize),
    /// A whole command is pending and goes out at the next step.
    CompleteCommand,
}

/// Accumulates the bytes of one command at a time.
pub struct Reassembler {
    state: RocketState,
    cmd: Vec<u8>,
}

impl Reassembler {
    /// The bytes of the command in progress.
    pub closed spec fn pending(&self) -> Seq<u8> {
        self.cmd@
    }

    /// The state agrees with the pending bytes, which never exceed one command.
    pub closed spec fn wf(&self) -> bool {
        match self.state {
            RocketState::NewCommand => self.cmd@.len() == 0,
            RocketState::IncompleteCommand(n) => self.cmd@.len() >= 1 && n > 0 && self.cmd@.len()
                + n == frame_len(self.cmd@[0]),
            RocketState::CompleteCommand => is_frame(self.cmd@),
        }
    }

    proof fn lemma_wf(&self)
        requires
            self.wf(),
        ensures
            is_prefix_of_frame(self.pending()),
            is_frame(self.pending()) <==> self.state == RocketState::CompleteCommand,
    {
    }

    /// Nothing pending, waiting for an opcode.
    pub fn new() -> (r: Reassembler)
        ensures
            r.wf(),
            r.pending() == Seq::<u8>::empty(),
    {
        Reassembler { state: RocketState::NewCommand, cmd: Vec::new() }
    }

    /// The state of the machine.
    pub fn state(&self) -> (r: RocketState)
        requires
            self.wf(),
        ensures
            r == RocketState::NewCommand <==> self.pending().len() == 0,
            r == RocketState::CompleteCommand <==> is_frame(self.pending()),
            r == RocketState::IncompleteCommand(wanted_of(self.pending()) as usize) <==> (
            self.pending().len() > 0 && !is_frame(self.pending())),
    {
        self.state
    }

    /// How many bytes the next step may take; see `wanted_of`.
    pub fn wanted(&self) -> (r: usize)
        requires
            self.wf(),
        ensures
            r == wanted_of(self.pending()),
            r == 0 <==> is_frame(self.pending()),
    {
        match self.state {
            RocketState::NewCommand => 1,
            RocketState::IncompleteCommand(n) => n,
            RocketState::CompleteCommand => 0,
        }
    }

    /// One step of the machine on `data[from..to]`, the bytes that one read
    /// brought.
    fn step_from(&mut self, data: &[u8], from: usize, to: usize) -> (r: Option<Command>)
        requires
            old(self).wf(),
            from <= to <= data@.len(),
            to - from <= wanted_of(old(self).pending()),
        ensures
            final(self).wf(),
            is_frame(old(self).pending()) ==> r == Some(parse_command(old(self).pending()))
                && final(self).pending() == Seq::<u8>::empty(),
            !is_frame(old(self).pending()) ==> r is None && final(self).pending() == old(
                self,
            ).pending() + data@.subrange(from as int, to as int),
    {
        match self.state {
            RocketState::NewCommand => {
                if from < to {
                    let op = data[from];
                    self.cmd.push(op);
                    let n = payload_size(op);
                    if n == 0 {
                        self.state = RocketState::CompleteCommand;
                    } else {
                        self.state = RocketState::IncompleteCommand(n);
                    }
                    assert(self.cmd@ =~= old(self).cmd@ + data@.subrange(from as int, to as int));
                } else {
                    assert(self.cmd@ =~= old(self).cmd@ + data@.subrange(from as int, to as int));
                }
                None
            },
            RocketState::IncompleteCommand(n) => {
                let mut i = from;
                while i < to
                    invariant
                        from <= i <= to <= data@.len(),
                        self.state == old(self).state,
                        self.cmd@ == old(self).cmd@ + data@.subrange(from as int, i as int),
                    decreases to - i,
                {
                    self.cmd.push(data[i]);
                    i = i + 1;
                    assert(self.cmd@ =~= old(self).cmd@ + data@.subrange(from as int, i as int));
                }
                let got = to - from;
                if got < n {
                    self.state = RocketState::IncompleteCommand(n - got);
                } else {
                    self.state = RocketState::CompleteCommand;
                }
                None
            },
            RocketState::CompleteCommand => {
                let c = decode_command(self.cmd.as_slice());
                self.cmd.clear();
                self.state = RocketState::NewCommand;
                Some(c)
            },
        }
    }

    /// One step of the machine, as one poll makes it: a complete pending
    /// command is decoded and handed out, and the buffer emptied; otherwise the
    /// bytes that one read brought (none, if it would have blocked) join the
    /// pending ones.
    pub fn step(&mut self, got: &[u8]) -> (r: Option<Command>)
        requires
            old(self).wf(),
            got@.len() <= wanted_of(old(self).pending()),
        ensures
            final(self).wf(),
            is_frame(old(self).pending()) ==> r == Some(parse_command(old(self).pending()))
                && final(self).pending() == Seq::<u8>::empty(),
            !is_frame(old(self).pending()) ==> r is None && final(self).pending() == old(
                self,
            ).pending() + got@,
    {
        let r = self.step_from(got, 0, got.len());
        assert(got@.subrange(0, got@.len() as int) =~= got@);
        r
    }

    /// Runs the machine over one delivery until every byte is taken and no
    /// complete command is left pending; returns the commands in stream order.
    pub fn feed(&mut self, data: &[u8]) -> (r: Vec<Command>)
        requires
            old(self).wf(),
        ensures
            final(self).wf(),
            !is_frame(final(self).pending()),
            r@ == parse_all(frames(old(self).pending() + data@)),
            final(self).pending() == rest(old(self).pending() + data@),
    {
        let ghost total = self.pending() + data@;
        let ghost mut done: Seq<Seq<u8>> = Seq::empty();
        let mut out: Vec<Command> = Vec::new();
        let mut i: usize = 0;
        assert(data@.skip(0) =~= data@);
        assert(done + frames(total) =~= frames(total));
        loop
            invariant
                self.wf(),
                i <= data@.len(),
                frames(total) == done + frames(self.pending() + data@.skip(i as int)),
                rest(total) == rest(self.pending() + data@.skip(i as int)),
                out@ == parse_all(done),
            ensures
                self.wf(),
                !is_frame(self.pending()),
                frames(total) == done,
                rest(total) == self.pending(),
                out@ == parse_all(done),
            decreases 2 * (data@.len() - i) + if is_frame(self.pending()) { 1int } else { 0 },
        {
            proof {
                self.lemma_wf();
            }
            let wanted = self.wanted();
            if wanted == 0 {
                let ghost f = self.pending();
                proof {
                    lemma_frame_then(f, data@.skip(i as int));
                }
                let c = self.step_from(data, i, i);
                match c {
                    Some(c) => out.push(c),
                    None => {},
                }
                proof {
                    assert(self.pending() + data@.skip(i as int) =~= data@.skip(i as int));
                    assert(done + seq![f] + frames(data@.skip(i as int)) =~= done + (seq![f]
                        + frames(data@.skip(i as int))));
                    done = done.push(f);
                    assert(out@ =~= parse_all(done));
                }
            } else if i == data.len() {
                proof {
                    lemma_incomplete(self.pending());
                    assert(self.pending() + data@.skip(i as int) =~= self.pending());
                    assert(done + Seq::<Seq<u8>>::empty() =~= done);
                }
                break;
            } else {
                let left = data.len() - i;
                let take = if wanted < left {
                    wanted
                } else {
                    left
                };
                let ghost before = self.pending();
                let _ = self.step_from(data, i, i + take);
                assert(before + data@.skip(i as int) =~= self.pending() + data@.skip(
                    (i + take) as int,
                ));
                i = i + take;
            }
        }
        out
    }
}

} // verus!
