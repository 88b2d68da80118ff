//! The client: the local mirror of the editor's tracks, row and pause flag,
//! driven by the reassembler one poll at a time.

use crate::codec::Key;
use crate::command::{
    encode_get_track, encode_set_row, get_track_bytes, is_frame, parse_command, set_row_bytes,
    Command,
};
use crate::frame::{frames, parse_all, rest, wanted_of, Reassembler};
use vstd::prelude::*;
use vstd::string::StringSliceAdditionalSpecFns;

verus! {

/// A named value curve, mirrored from the editor.
#[derive(Debug)]
pub struct Track {
    pub name: String,
    pub keys: Vec<Key>,
}

impl Track {
    /// A track without keys.
    pub fn new(name: &str) -> (r: Track)
        ensures
            r.name@ == name@,
            r.keys@.len() == 0,
    {
        Track { name: name.to_owned(), keys: Vec::new() }
    }
}

/// The names of the tracks, in table order.
pub open spec fn track_names(ts: Seq<Track>) -> Seq<Seq<char>> {
    ts.map_values(|t: Track| t.name@)
}

/// The names after a request for `name`: unchanged if it is there, else with
/// `name` added at the end.
pub open spec fn with_track(names: Seq<Seq<char>>, name: Seq<char>) -> Seq<Seq<char>> {
    if names.contains(name) {
        names
    } else {
        names.push(name)
    }
}

/// Asking twice for the same track: after the first request the name is in
/// the table, so the second one changes nothing and sends nothing; names stay
/// unique.
pub proof fn lemma_request_twice(names: Seq<Seq<char>>, name: Seq<char>)
    ensures
        with_track(names, name).contains(name),
        with_track(with_track(names, name), name) == with_track(names, name),
        names.no_duplicates() ==> with_track(names, name).no_duplicates(),
{
    if !names.contains(name) {
        assert(names.push(name)[names.len() as int] == name);
        assert forall|i: int, j: int|
            names.no_duplicates() && 0 <= i < j < names.len() + 1 implies names.push(name)[i]
            != names.push(name)[j] by {
            if j == names.len() {
                assert(names[i] == names.push(name)[i]);
            }
        }
    }
}

/// The row after command `c`: a SET_ROW sets it, nothing else touches it.
pub open spec fn row_after(row: u32, c: Command) -> u32 {
    match c {
        Command::SetRow { row: r } => r,
        _ => row,
    }
}

/// The pause flag after command `c`: a PAUSE sets it to whether its flag
/// byte is 1, nothing else touches it.
pub open spec fn paused_after(paused: bool, c: Command) -> bool {
    match c {
        Command::Pause { flag } => flag == 1,
        _ => paused,
    }
}

/// The row after the commands `cs`, in order.
pub open spec fn row_after_all(row: u32, cs: Seq<Command>) -> u32
    decreases cs.len(),
{
    if cs.len() == 0 {
        row
    } else {
        row_after(row_after_all(row, cs.drop_last()), cs.last())
    }
}

/// The pause flag after the commands `cs`, in order.
pub open spec fn paused_after_all(paused: bool, cs: Seq<Command>) -> bool
    decreases cs.len(),
{
    if cs.len() == 0 {
        paused
    } else {
        paused_after(paused_after_all(paused, cs.drop_last()), cs.last())
    }
}

/// Failure of the greeting exchange.
#[derive(Debug, Clone, Copy, PartialEq, Eq, Structural)]
pub struct RocketErr {}

/// What the client says first: "hello, synctracker!" in ASCII.
pub open spec fn client_greeting_bytes() -> Seq<u8> {
    seq![104, 101, 108, 108, 111, 44, 32, 115, 121, 110, 99, 116, 114, 97, 99, 107, 101, 114, 33]
}

/// What the editor must answer: "hello, demo!" in ASCII.
pub open spec fn server_greeting_bytes() -> Seq<u8> {
    seq![104, 101, 108, 108, 111, 44, 32, 100, 101, 109, 111, 33]
}

/// The greeting to send when the connection opens.
pub fn client_greeting() -> (r: Vec<u8>)
    ensures
        r@ == client_greeting_bytes(),
{
    let r = vec![104, 101, 108, 108, 111, 44, 32, 115, 121, 110, 99, 116, 114, 97, 99, 107, 101, 114, 33];
    assert(r@ =~= client_greeting_bytes());
    r
}

/// Length of the editor's answer to the greeting.
pub const SERVER_GREETING_LEN: usize = 12;

/// Accepts the editor's answer to the greeting exactly when it is the
/// expected one.
pub fn check_server_greeting(reply: &[u8]) -> (r: Result<(), RocketErr>)
    ensures
        r is Ok <==> reply@ == server_greeting_bytes(),
{
    let expected: [u8; 12] = [104, 101, 108, 108, 111, 44, 32, 100, 101, 109, 111, 33];
    assert(expected@ =~= server_greeting_bytes());
    if reply.len() != SERVER_GREETING_LEN {
        return Err(RocketErr {});
    }
    let mut i: usize = 0;
    while i < SERVER_GREETING_LEN
        invariant
            i <= SERVER_GREETING_LEN,
            reply@.len() == SERVER_GREETING_LEN,
            expected@ == server_greeting_bytes(),
            reply@.subrange(0, i as int) == expected@.subrange(0, i as int),
        decreases SERVER_GREETING_LEN - i,
    {
        if reply[i] != expected[i] {
            return Err(RocketErr {});
        }
        i = i + 1;
        assert(reply@.subrange(0, i as int) =~= expected@.subrange(0, i as int));
    }
    assert(reply@ =~= reply@.subrange(0, 12));
    assert(expected@ =~= expected@.subrange(0, 12));
    Ok(())
}

/// The client's local state and the command in progress.
pub struct Rocket {
    reassembler: Reassembler,
    tracks: Vec<Track>,
    row: u32,
    paused: bool,
}

impl Rocket {
    /// The bytes of the command in progress.
    pub closed spec fn pending(&self) -> Seq<u8> {
        self.reassembler.pending()
    }

    /// The current row.
    pub closed spec fn spec_row(&self) -> u32 {
        self.row
    }

    /// The pause flag.
    pub closed spec fn spec_paused(&self) -> bool {
        self.paused
    }

    /// The track table, in order of creation.
    pub closed spec fn spec_tracks(&self) -> Seq<Track> {
        self.tracks@
    }

    /// The reassembler is consistent and no two tracks share a name.
    pub closed spec fn wf(&self) -> bool {
        self.reassembler.wf() && track_names(self.tracks@).no_duplicates()
    }

    /// A client before any command: row 0, paused, no tracks, nothing pending.
    pub fn new() -> (r: Rocket)
        ensures
            r.wf(),
            r.spec_row() == 0,
            r.spec_paused(),
            r.spec_tracks().len() == 0,
            r.pending() == Seq::<u8>::empty(),
    {
        let r = Rocket { reassembler: Reassembler::new(), tracks: Vec::new(), row: 0, paused: true };
        assert(track_names(r.tracks@) =~= Seq::<Seq<char>>::empty());
        r
    }

    /// The current row.
    pub fn get_row(&self) -> (r: u32)
        ensures
            r == self.spec_row(),
    {
        self.row
    }

    /// Whether playback is paused.
    pub fn is_paused(&self) -> (r: bool)
        ensures
            r == self.spec_paused(),
    {
        self.paused
    }

    /// Number of tracks in the table.
    pub fn track_count(&self) -> (r: usize)
        ensures
            r == self.spec_tracks().len(),
    {
        self.tracks.len()
    }

    /// The track at position `i` of the table.
    pub fn track(&self, i: usize) -> (r: &Track)
        requires
            i < self.spec_tracks().len(),
        ensures
            *r == self.spec_tracks()[i as int],
    {
        &self.tracks[i]
    }

    /// Position of the track called `name`, if the table has one.
    pub fn find_track(&self, name: &str) -> (r: Option<usize>)
        ensures
            r is None <==> !track_names(self.spec_tracks()).contains(name@),
            r is Some ==> r->0 < self.spec_tracks().len(),
            r is Some ==> self.spec_tracks()[r->0 as int].name@ == name@,
    {
        let key = name.to_owned();
        let mut i: usize = 0;
        while i < self.tracks.len()
            invariant
                i <= self.tracks@.len(),
                key@ == name@,
                forall|j: int| 0 <= j < i ==> self.tracks@[j].name@ != name@,
            decreases self.tracks@.len() - i,
        {
            if self.tracks[i].name == key {
                proof {
                    assert(track_names(self.tracks@)[i as int] == name@);
                }
                return Some(i);
            }
            i = i + 1;
        }
        proof {
            if track_names(self.tracks@).contains(name@) {
                let j = choose|j: int|
                    0 <= j < track_names(self.tracks@).len() && track_names(self.tracks@)[j]
                        == name@;
                assert(self.tracks@[j].name@ == name@);
            }
        }
        None
    }

    /// Makes sure the table has a track called `name`. A new one is empty and
    /// the editor has to be asked for it: the request to send is returned.
    /// For a name already there nothing changes and nothing is to be sent.
    pub fn get_track(&mut self, name: &str) -> (r: Option<Vec<u8>>)
        requires
            old(self).wf(),
            name.spec_bytes().len() <= u32::MAX,
        ensures
            final(self).wf(),
            final(self).spec_row() == old(self).spec_row(),
            final(self).spec_paused() == old(self).spec_paused(),
            final(self).pending() == old(self).pending(),
            track_names(final(self).spec_tracks()) == with_track(
                track_names(old(self).spec_tracks()),
                name@,
            ),
            final(self).spec_tracks().subrange(0, old(self).spec_tracks().len() as int) == old(
                self,
            ).spec_tracks(),
            track_names(old(self).spec_tracks()).contains(name@) ==> r is None,
            !track_names(old(self).spec_tracks()).contains(name@) ==> r is Some,
            r is Some ==> r->0@ == get_track_bytes(name.spec_bytes()),
            r is Some ==> final(self).spec_tracks().last().keys@.len() == 0,
    {
        match self.find_track(name) {
            Some(_) => {
                assert(self.tracks@.subrange(0, self.tracks@.len() as int) =~= self.tracks@);
                None
            },
            None => {
                let request = encode_get_track(name);
                self.tracks.push(Track::new(name));
                proof {
                    assert(track_names(self.tracks@) =~= track_names(old(self).tracks@).push(name@));
                    assert(self.tracks@.subrange(0, old(self).tracks@.len() as int)
                        =~= old(self).tracks@);
                }
                Some(request)
            },
        }
    }

    /// Moves to `row` at once, before the editor confirms it; returns the
    /// request that tells the editor.
    pub fn set_row(&mut self, row: u32) -> (r: Vec<u8>)
        requires
            old(self).wf(),
        ensures
            final(self).wf(),
            final(self).spec_row() == row,
            final(self).spec_paused() == old(self).spec_paused(),
            final(self).spec_tracks() == old(self).spec_tracks(),
            final(self).pending() == old(self).pending(),
            r@ == set_row_bytes(row),
    {
        self.row = row;
        encode_set_row(row)
    }

    /// Applies a decoded command to the local state.
    pub fn dispatch(&mut self, c: &Command)
        requires
            old(self).wf(),
        ensures
            final(self).wf(),
            final(self).spec_row() == row_after(old(self).spec_row(), *c),
            final(self).spec_paused() == paused_after(old(self).spec_paused(), *c),
            final(self).spec_tracks() == old(self).spec_tracks(),
            final(self).pending() == old(self).pending(),
    {
        match c {
            Command::SetRow { row } => {
                self.row = *row;
            },
            Command::Pause { flag } => {
                self.paused = *flag == 1;
            },
            _ => {},
        }
    }

    /// How many bytes the next poll may read; see `wanted_of`.
    pub fn wanted(&self) -> (r: usize)
        requires
            self.wf(),
        ensures
            r == wanted_of(self.pending()),
    {
        self.reassembler.wanted()
    }

    /// One poll: `got` is what one read of at most `wanted()` bytes brought
    /// (nothing, if it would have blocked). A complete pending command is
    /// decoded, applied and returned instead of taking bytes.
    pub fn poll_events(&mut self, got: &[u8]) -> (r: Option<Command>)
        requires
            old(self).wf(),
            got@.len() <= wanted_of(old(self).pending()),
        ensures
            final(self).wf(),
            final(self).spec_tracks() == old(self).spec_tracks(),
            r is Some <==> is_frame(old(self).pending()),
            r is Some ==> r->0 == parse_command(old(self).pending()),
            r is Some ==> final(self).pending() == Seq::<u8>::empty(),
            r is Some ==> final(self).spec_row() == row_after(old(self).spec_row(), r->0),
            r is Some ==> final(self).spec_paused() == paused_after(old(self).spec_paused(), r->0),
            r is None ==> final(self).pending() == old(self).pending() + got@,
            r is None ==> final(self).spec_row() == old(self).spec_row(),
            r is None ==> final(self).spec_paused() == old(self).spec_paused(),
    {
        let r = self.reassembler.step(got);
        match &r {
            Some(c) => self.dispatch(c),
            None => {},
        }
        r
    }

    /// Takes one delivery of bytes whole: every command it completes is
    /// decoded and applied in stream order and returned; the start of an
    /// unfinished one stays pending.
    pub fn feed(&mut self, data: &[u8]) -> (r: Vec<Command>)
        requires
            old(self).wf(),
        ensures
            final(self).wf(),
            final(self).spec_tracks() == old(self).spec_tracks(),
            r@ == parse_all(frames(old(self).pending() + data@)),
            final(self).pending() == rest(old(self).pending() + data@),
            final(self).spec_row() == row_after_all(old(self).spec_row(), r@),
            final(self).spec_paused() == paused_after_all(old(self).spec_paused(), r@),
    {
        let cs = self.reassembler.feed(data);
        let mut i: usize = 0;
        while i < cs.len()
            invariant
                self.wf(),
                i <= cs@.len(),
                self.tracks@ == old(self).tracks@,
                self.pending() == rest(old(self).pending() + data@),
                self.row == row_after_all(old(self).row, cs@.take(i as int)),
                self.paused == paused_after_all(old(self).paused, cs@.take(i as int)),
            decreases cs@.len() - i,
        {
            self.dispatch(&cs[i]);
            assert(cs@.take(i + 1).drop_last() =~= cs@.take(i as int));
            i = i + 1;
        }
        assert(cs@.take(i as int) =~= cs@);
        cs
    }
}

} // verus!
