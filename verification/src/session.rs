//! Sessions and the session registry: one hosted room per short code, the
//! participants' outbound queues, and routing between them and the game.

use vstd::prelude::*;

use rand::thread_rng;
use rand::Rng;

use crate::games::Game;
use crate::protocol::{CmdV, Command, PlayerId};

verus! {

/// The model of a pending outbound batch: direct replies to the invoking
/// participant, and targeted or broadcast sends to be flushed afterwards.
pub struct QueueV {
    pub replies: Seq<CmdV>,
    pub sends: Seq<(Option<PlayerId>, CmdV)>,
}

/// Commands produced while handling one inbound command or one tick.
/// Replies go straight back to the invoking participant; queued sends go to
/// one named participant (`Some`) or to everyone (`None`) once the handling
/// pass is over. The connection layer drains both.
pub struct CommandQueue {
    replies: Vec<Command>,
    sends: Vec<(Option<PlayerId>, Command)>,
}

impl View for CommandQueue {
    type V = QueueV;

    closed spec fn view(&self) -> QueueV {
        QueueV {
            replies: self.replies@.map_values(|c: Command| c@),
            sends: self.sends@.map_values(|e: (Option<PlayerId>, Command)| (e.0, e.1@)),
        }
    }
}

impl CommandQueue {
    pub fn new() -> (r: Self)
        ensures
            r@.replies == Seq::<CmdV>::empty(),
            r@.sends == Seq::<(Option<PlayerId>, CmdV)>::empty(),
    {
        let r = CommandQueue { replies: Vec::new(), sends: Vec::new() };
        proof {
            assert(r@.replies =~= Seq::<CmdV>::empty());
            assert(r@.sends =~= Seq::<(Option<PlayerId>, CmdV)>::empty());
        }
        r
    }

    /// Queues a direct reply to the participant whose command is being
    /// handled.
    pub fn reply(&mut self, cmd: Command)
        ensures
            final(self)@.replies == old(self)@.replies.push(cmd@),
            final(self)@.sends == old(self)@.sends,
    {
        proof {
            assert(self.replies@.push(cmd).map_values(|c: Command| c@) =~= self@.replies.push(
                cmd@,
            ));
        }
        self.replies.push(cmd);
    }

    /// Queues a command for one named participant.
    pub fn send_to(&mut self, id: PlayerId, cmd: Command)
        ensures
            final(self)@.replies == old(self)@.replies,
            final(self)@.sends == old(self)@.sends.push((Some(id), cmd@)),
    {
        proof {
            assert(self.sends@.push((Some(id), cmd)).map_values(
                |e: (Option<PlayerId>, Command)| (e.0, e.1@),
            ) =~= self@.sends.push((Some(id), cmd@)));
        }
        self.sends.push((Some(id), cmd));
    }

    /// Queues a command for every current participant.
    pub fn broadcast(&mut self, cmd: Command)
        ensures
            final(self)@.replies == old(self)@.replies,
            final(self)@.sends == old(self)@.sends.push((None, cmd@)),
    {
        proof {
            assert(self.sends@.push((None, cmd)).map_values(
                |e: (Option<PlayerId>, Command)| (e.0, e.1@),
            ) =~= self@.sends.push((None, cmd@)));
        }
        self.sends.push((None, cmd));
    }

    /// Reborrows the queue for a nested call that also emits commands.
    pub fn reborrow(&mut self) -> &mut Self {
        self
    }

    /// Hands the direct replies out for flushing, leaving none queued.
    pub fn take_replies(&mut self) -> (r: Vec<Command>)
        ensures
            r@.map_values(|c: Command| c@) == old(self)@.replies,
            final(self)@.replies == Seq::<CmdV>::empty(),
            final(self)@.sends == old(self)@.sends,
    {
        let mut r: Vec<Command> = Vec::new();
        core::mem::swap(&mut self.replies, &mut r);
        proof {
            assert(final(self)@.replies =~= Seq::<CmdV>::empty());
        }
        r
    }

    /// Hands the queued sends out for flushing, leaving none queued.
    pub fn take_sends(&mut self) -> (r: Vec<(Option<PlayerId>, Command)>)
        ensures
            r@.map_values(|e: (Option<PlayerId>, Command)| (e.0, e.1@)) == old(self)@.sends,
            final(self)@.sends == Seq::<(Option<PlayerId>, CmdV)>::empty(),
            final(self)@.replies == old(self)@.replies,
    {
        let mut r: Vec<(Option<PlayerId>, Command)> = Vec::new();
        core::mem::swap(&mut self.sends, &mut r);
        proof {
            assert(final(self)@.sends =~= Seq::<(Option<PlayerId>, CmdV)>::empty());
        }
        r
    }
}

/// Strictly ascending participant ids.
pub open spec fn ascending(s: Seq<u32>) -> bool {
    forall|i: int, j: int| 0 <= i < j < s.len() ==> s[i] < s[j]
}

/// The id list with every occurrence of `v` removed, order kept.
pub open spec fn remove_player(s: Seq<u32>, v: u32) -> Seq<u32>
    decreases s.len(),
{
    if s.len() == 0 {
        Seq::empty()
    } else {
        remove_player(s.drop_last(), v) + (if s.last() == v {
            Seq::<u32>::empty()
        } else {
            seq![s.last()]
        })
    }
}

proof fn lemma_remove_player_sorted(s: Seq<u32>, v: u32)
    requires
        ascending(s),
    ensures
        ascending(remove_player(s, v)),
        forall|k: int|
            0 <= k < remove_player(s, v).len() ==> exists|j: int|
                0 <= j < s.len() && s[j] == #[trigger] remove_player(s, v)[k],
    decreases s.len(),
{
    if s.len() > 0 {
        let dl = s.drop_last();
        assert(ascending(dl)) by {
            assert(forall|i: int| 0 <= i < dl.len() ==> dl[i] == s[i]);
        }
        lemma_remove_player_sorted(dl, v);
        let r = remove_player(s, v);
        let rd = remove_player(dl, v);
        assert forall|k: int|
            0 <= k < r.len() implies exists|j: int| 0 <= j < s.len() && s[j] == #[trigger] r[k] by {
            if k < rd.len() {
                assert(r[k] == rd[k]);
                let j = choose|j: int| 0 <= j < dl.len() && dl[j] == rd[k];
                assert(s[j] == r[k]);
            } else {
                assert(r[k] == s.last());
                assert(s[s.len() - 1] == r[k]);
            }
        }
        assert forall|i: int, j: int| 0 <= i < j < r.len() implies r[i] < r[j] by {
            if j < rd.len() {
            } else {
                assert(r[j] == s.last());
                assert(r[i] == rd[i]);
                let m = choose|m: int| 0 <= m < dl.len() && dl[m] == rd[i];
                assert(s[m] < s.last());
            }
        }
    }
}

/// One hosted room: the ordered participant ids and the one game instance.
/// The host (id 0) is seated at creation; later joiners get the next id up,
/// and ids are never reused. A session with no participants left is dead.
pub struct Session<G: Game> {
    players: Vec<u32>,
    pub game: G,
}

impl<G: Game> Session<G> {
    pub closed spec fn spec_players(&self) -> Seq<u32> {
        self.players@
    }

    pub closed spec fn spec_game(&self) -> G {
        self.game
    }

    pub open spec fn wf(&self) -> bool {
        ascending(self.spec_players()) && self.spec_game().ginv()
    }

    /// A new room with the host seated as participant 0.
    pub fn new(game: G) -> (r: Self)
        requires
            game.ginv(),
        ensures
            r.wf(),
            r.spec_players() == seq![0u32],
            r.spec_game() == game,
    {
        let mut players: Vec<u32> = Vec::new();
        players.push(0);
        let r = Session { players, game };
        proof {
            assert(r.spec_players() =~= seq![0u32]);
        }
        r
    }

    /// Whether every participant has left, making the session dead.
    pub fn is_empty(&self) -> (r: bool)
        ensures
            r == (self.spec_players().len() == 0),
    {
        self.players.len() == 0
    }

    /// A join succeeds while the game reports space, the session is alive,
    /// and an id is still available.
    pub open spec fn spec_can_join(&self) -> bool {
        self.spec_game().spec_has_space() && self.spec_players().len() > 0
            && self.spec_players().last() < u32::MAX
    }

    /// Seats a new participant under the next id, if the game has space.
    pub fn join(&mut self) -> (r: Option<PlayerId>)
        requires
            old(self).wf(),
        ensures
            final(self).wf(),
            old(self).spec_can_join() ==> {
                &&& r == Some(PlayerId((old(self).spec_players().last() + 1) as u32))
                &&& final(self).spec_players() == old(self).spec_players().push(
                    (old(self).spec_players().last() + 1) as u32,
                )
            },
            !old(self).spec_can_join() ==> r is None && *final(self) == *old(self),
    {
        if self.players.len() == 0 {
            return None;
        }
        let last = self.players[self.players.len() - 1];
        if last == u32::MAX {
            return None;
        }
        if self.game.has_space() {
            let new_key = last + 1;
            self.players.push(new_key);
            proof {
                let s0 = old(self).spec_players();
                assert(forall|i: int| 0 <= i < s0.len() - 1 ==> #[trigger] s0[i] < s0[s0.len() - 1]);
                assert(ascending(self.spec_players()));
            }
            let pid = PlayerId(new_key);
            self.game.join(pid);
            Some(pid)
        } else {
            None
        }
    }

    /// Removes a departed participant and tells the game.
    pub fn leave(&mut self, pid: PlayerId)
        requires
            old(self).wf(),
        ensures
            final(self).wf(),
            final(self).spec_players() == remove_player(old(self).spec_players(), pid.0),
    {
        let ghost s0 = self.players@;
        let mut out: Vec<u32> = Vec::new();
        let mut i: usize = 0;
        proof {
            assert(s0.take(0) =~= Seq::<u32>::empty());
            assert(out@ =~= remove_player(s0.take(0), pid.0));
        }
        while i < self.players.len()
            invariant
                0 <= i <= self.players@.len(),
                self.players@ == s0,
                out@ == remove_player(s0.take(i as int), pid.0),
            decreases self.players@.len() - i,
        {
            let v = self.players[i];
            proof {
                assert(s0.take(i as int + 1).drop_last() =~= s0.take(i as int));
                assert(s0.take(i as int + 1).last() == s0[i as int]);
            }
            if v != pid.0 {
                out.push(v);
                proof {
                    assert(out@ =~= remove_player(s0.take(i as int), pid.0) + seq![v]);
                }
            } else {
                proof {
                    assert(remove_player(s0.take(i as int), pid.0) + Seq::<u32>::empty()
                        =~= remove_player(s0.take(i as int), pid.0));
                }
            }
            i = i + 1;
        }
        proof {
            assert(s0.take(s0.len() as int) =~= s0);
            lemma_remove_player_sorted(s0, pid.0);
        }
        self.players = out;
        self.game.leave(pid);
    }

    /// Routes one inbound command: a nonempty chat line is broadcast back
    /// to everyone under the sender's id, a keepalive does nothing, and
    /// everything else goes to the game.
    pub fn handle_in(&mut self, pid: PlayerId, cmd: Command, cmds: &mut CommandQueue)
        requires
            old(self).wf(),
        ensures
            final(self).wf(),
            final(self).spec_players() == old(self).spec_players(),
            match cmd@ {
                CmdV::Chat(m) => *final(self) == *old(self) && final(cmds)@.replies == old(
                    cmds,
                )@.replies && (if m.len() > 0 {
                    final(cmds)@.sends == old(cmds)@.sends.push((None, CmdV::ChatMsg(pid, m)))
                } else {
                    final(cmds)@.sends == old(cmds)@.sends
                }),
                CmdV::Nop => *final(self) == *old(self) && final(cmds)@.replies == old(
                    cmds,
                )@.replies && final(cmds)@.sends == old(cmds)@.sends,
                _ => true,
            },
    {
        match cmd {
            Command::Chat(m) => {
                if !m.as_str().is_empty() {
                    cmds.broadcast(Command::ChatMsg(pid, m));
                }
            },
            Command::Nop => {},
            cmd => {
                self.game.handle(pid, cmd, cmds);
            },
        }
    }

    /// One periodic pass for the game.
    pub fn tick(&mut self, cmds: &mut CommandQueue) -> (r: bool)
        requires
            old(self).wf(),
        ensures
            final(self).wf(),
            final(self).spec_players() == old(self).spec_players(),
    {
        self.game.tick(cmds)
    }
}

/// Whether a room code is registered.
pub open spec fn has_code<G: Game>(s: Seq<(u16, Session<G>)>, code: u16) -> bool {
    exists|i: int| 0 <= i < s.len() && (#[trigger] s[i]).0 == code
}

/// The index of a registered room code, or -1.
pub open spec fn code_index<G: Game>(s: Seq<(u16, Session<G>)>, code: u16) -> int
    decreases s.len(),
{
    if s.len() == 0 {
        -1
    } else if s[0].0 == code {
        0
    } else {
        let r = code_index(s.skip(1), code);
        if r < 0 {
            -1
        } else {
            r + 1
        }
    }
}

pub proof fn lemma_code_index<G: Game>(s: Seq<(u16, Session<G>)>, code: u16)
    ensures
        -1 <= code_index(s, code) < s.len(),
        has_code(s, code) <==> 0 <= code_index(s, code),
        0 <= code_index(s, code) ==> s[code_index(s, code)].0 == code,
        forall|j: int| 0 <= j < code_index(s, code) ==> (#[trigger] s[j]).0 != code,
    decreases s.len(),
{
    if s.len() > 0 {
        lemma_code_index(s.skip(1), code);
        assert(forall|j: int| 0 <= j < s.skip(1).len() ==> #[trigger] s.skip(1)[j] == s[j + 1]);
        if s[0].0 != code {
            if has_code(s, code) {
                let i = choose|i: int| 0 <= i < s.len() && (#[trigger] s[i]).0 == code;
                assert(s.skip(1)[i - 1].0 == code);
                assert(has_code(s.skip(1), code));
            }
            if has_code(s.skip(1), code) {
                let i = choose|i: int|
                    0 <= i < s.skip(1).len() && (#[trigger] s.skip(1)[i]).0 == code;
                assert(s[i + 1].0 == code);
            }
            if code_index(s.skip(1), code) >= 0 {
                let ri = code_index(s.skip(1), code);
                assert(code_index(s, code) == ri + 1);
                assert(s[ri + 1] == s.skip(1)[ri]);
                assert forall|j: int| 0 <= j < ri + 1 implies (#[trigger] s[j]).0 != code by {
                    if j > 0 {
                        assert(s.skip(1)[j - 1].0 != code);
                    }
                }
            }
        }
    }
}

/// The registry entries that survive a cleanup pass: live sessions whose
/// code is not about to be overwritten.
pub open spec fn keep_live<G: Game>(s: Seq<(u16, Session<G>)>, code: u16) -> Seq<
    (u16, Session<G>),
>
    decreases s.len(),
{
    if s.len() == 0 {
        Seq::empty()
    } else {
        (if s[0].1.spec_players().len() > 0 && s[0].0 != code {
            seq![s[0]]
        } else {
            Seq::empty()
        }) + keep_live(s.skip(1), code)
    }
}

proof fn lemma_keep_live<G: Game>(s: Seq<(u16, Session<G>)>, code: u16)
    requires
        forall|i: int, j: int| 0 <= i < j < s.len() ==> (#[trigger] s[i]).0 != (#[trigger] s[j]).0,
        forall|i: int| 0 <= i < s.len() ==> (#[trigger] s[i]).1.wf(),
    ensures
        ({
            let r = keep_live(s, code);
            &&& forall|k: int|
                0 <= k < r.len() ==> exists|j: int| 0 <= j < s.len() && s[j] == #[trigger] r[k]
            &&& forall|k: int| 0 <= k < r.len() ==> (#[trigger] r[k]).0 != code
            &&& forall|k: int| 0 <= k < r.len() ==> (#[trigger] r[k]).1.wf()
            &&& forall|k1: int, k2: int|
                0 <= k1 < k2 < r.len() ==> (#[trigger] r[k1]).0 != (#[trigger] r[k2]).0
        }),
    decreases s.len(),
{
    if s.len() > 0 {
        let t = s.skip(1);
        assert(forall|j: int| 0 <= j < t.len() ==> #[trigger] t[j] == s[j + 1]);
        lemma_keep_live(t, code);
        let r = keep_live(s, code);
        let rt = keep_live(t, code);
        let kept = s[0].1.spec_players().len() > 0 && s[0].0 != code;
        assert forall|k: int|
            0 <= k < r.len() implies exists|j: int| 0 <= j < s.len() && s[j] == #[trigger] r[k] by {
            if kept && k == 0 {
                assert(s[0] == r[0]);
            } else {
                let k2 = if kept {
                    k - 1
                } else {
                    k
                };
                assert(r[k] == rt[k2]);
                let j = choose|j: int| 0 <= j < t.len() && t[j] == rt[k2];
                assert(s[j + 1] == r[k]);
            }
        }
        assert forall|k1: int, k2: int|
            0 <= k1 < k2 < r.len() implies (#[trigger] r[k1]).0 != (#[trigger] r[k2]).0 by {
            if kept && k1 == 0 {
                assert(r[k2] == rt[k2 - 1]);
                let j = choose|j: int| 0 <= j < t.len() && t[j] == rt[k2 - 1];
                assert(s[j + 1] == r[k2]);
                assert(s[0].0 != s[j + 1].0);
            }
        }
    }
}

/// The outcome of a join attempt against a registered room.
#[derive(Debug, Clone, Copy, PartialEq, Eq, Structural)]
pub enum JoinOutcome {
    /// Seated, under this id.
    Joined(PlayerId),
    /// The room exists but has no space left.
    Full,
    /// No room is registered under that code.
    NotFound,
}

/// The process-wide registry of live rooms, keyed by 16-bit codes. Dead
/// sessions are swept out opportunistically whenever a room is registered.
pub struct SessionStore<G: Game> {
    sessions: Vec<(u16, Session<G>)>,
}

impl<G: Game> SessionStore<G> {
    pub closed spec fn spec_sessions(&self) -> Seq<(u16, Session<G>)> {
        self.sessions@
    }

    pub open spec fn wf(&self) -> bool {
        &&& forall|i: int, j: int|
            0 <= i < j < self.spec_sessions().len() ==> (#[trigger] self.spec_sessions()[i]).0 != (
            #[trigger] self.spec_sessions()[j]).0
        &&& forall|i: int|
            0 <= i < self.spec_sessions().len() ==> (#[trigger] self.spec_sessions()[i]).1.wf()
    }

    pub fn new() -> (r: Self)
        ensures
            r.wf(),
            r.spec_sessions() == Seq::<(u16, Session<G>)>::empty(),
    {
        let r = SessionStore { sessions: Vec::new() };
        proof {
            assert(r.spec_sessions() =~= Seq::<(u16, Session<G>)>::empty());
        }
        r
    }

    /// Registers a session under a code, sweeping dead sessions out and
    /// replacing any session previously under that code.
    pub fn add(&mut self, code: u16, session: Session<G>)
        requires
            old(self).wf(),
            session.wf(),
        ensures
            final(self).wf(),
            final(self).spec_sessions() == keep_live(old(self).spec_sessions(), code).push(
                (code, session),
            ),
    {
        let ghost s0 = self.sessions@;
        let mut kept: Vec<(u16, Session<G>)> = Vec::new();
        proof {
            assert(kept@ + keep_live(s0, code) =~= keep_live(s0, code));
        }
        while self.sessions.len() > 0
            invariant
                kept@ + keep_live(self.sessions@, code) == keep_live(s0, code),
            decreases self.sessions@.len(),
        {
            let ghost cur = self.sessions@;
            let (c, sess) = self.sessions.remove(0);
            proof {
                assert(self.sessions@ =~= cur.skip(1));
                assert(cur[0] == (c, sess));
            }
            if !sess.is_empty() && c != code {
                kept.push((c, sess));
                proof {
                    assert(keep_live(cur, code) == seq![(c, sess)] + keep_live(cur.skip(1), code));
                    assert(kept@ + keep_live(self.sessions@, code) =~= keep_live(s0, code));
                }
            } else {
                proof {
                    assert(keep_live(cur, code) == Seq::<(u16, Session<G>)>::empty() + keep_live(
                        cur.skip(1),
                        code,
                    ));
                    assert(kept@ + keep_live(self.sessions@, code) =~= keep_live(s0, code));
                }
            }
        }
        proof {
            assert(self.sessions@ =~= Seq::<(u16, Session<G>)>::empty());
            assert(keep_live(self.sessions@, code) =~= Seq::<(u16, Session<G>)>::empty());
            assert(kept@ =~= keep_live(s0, code));
            assert(old(self).spec_sessions() == s0);
            lemma_keep_live(s0, code);
        }
        kept.push((code, session));
        self.sessions = kept;
    }

    /// Whether a room is registered under the code.
    pub fn has(&self, code: u16) -> (r: bool)
        ensures
            r == has_code(self.spec_sessions(), code),
    {
        let mut i: usize = 0;
        while i < self.sessions.len()
            invariant
                0 <= i <= self.spec_sessions().len(),
                forall|j: int| 0 <= j < i ==> (#[trigger] self.spec_sessions()[j]).0 != code,
            decreases self.spec_sessions().len() - i,
        {
            if self.sessions[i].0 == code {
                return true;
            }
            i = i + 1;
        }
        false
    }

    /// Relies on rand's `Rng::gen` for a random 16-bit room code; nothing
    /// is assumed of the value, and collisions are retried by the caller.
    #[verifier::external_body]
    fn random_code() -> u16 {
        thread_rng().gen()
    }

    /// Registers a session under a freshly drawn code that collides with no
    /// current room, retrying on collision; a room is owed whenever any
    /// 16-bit code is free, so registration fails only in the degenerate
    /// case that every code is taken.
    pub fn host_session(&mut self, session: Session<G>) -> (code: Option<u16>)
        requires
            old(self).wf(),
            session.wf(),
        ensures
            final(self).wf(),
            match code {
                Some(c) => !has_code(old(self).spec_sessions(), c) && final(self).spec_sessions()
                    == keep_live(old(self).spec_sessions(), c).push((c, session)),
                None => *final(self) == *old(self) && forall|c: u16|
                    #[trigger] has_code(old(self).spec_sessions(), c),
            },
    {
        let mut found: Option<u16> = None;
        let mut tries: u8 = 0;
        while tries < 32 && found.is_none()
            invariant
                *self == *old(self),
                match found {
                    Some(c) => !has_code(old(self).spec_sessions(), c),
                    None => true,
                },
            decreases 32 - tries,
        {
            let code = Self::random_code();
            if !self.has(code) {
                found = Some(code);
            }
            tries = tries + 1;
        }
        if found.is_none() {
            let mut c: u32 = 0;
            while c <= 65535 && found.is_none()
                invariant
                    *self == *old(self),
                    c <= 65536,
                    match found {
                        Some(cc) => !has_code(old(self).spec_sessions(), cc),
                        None => forall|x: u16|
                            (x as int) < c ==> #[trigger] has_code(old(self).spec_sessions(), x),
                    },
                decreases 65536 - c,
            {
                if !self.has(c as u16) {
                    found = Some(c as u16);
                } else {
                    proof {
                        assert forall|x: u16| (x as int) < c + 1 implies #[trigger] has_code(
                            old(self).spec_sessions(),
                            x,
                        ) by {
                            if x as int == c {
                                assert(x == c as u16);
                            }
                        }
                    }
                }
                c = c + 1;
            }
        }
        match found {
            Some(c) => {
                self.add(c, session);
                Some(c)
            },
            None => None,
        }
    }

    /// The position of a code's entry, if registered.
    fn find_code(&self, code: u16) -> (r: Option<usize>)
        ensures
            match r {
                Some(i) => i == code_index(self.spec_sessions(), code) && 0 <= i
                    < self.spec_sessions().len() && self.spec_sessions()[i as int].0 == code,
                None => !has_code(self.spec_sessions(), code),
            },
    {
        proof {
            lemma_code_index(self.spec_sessions(), code);
        }
        let mut i: usize = 0;
        while i < self.sessions.len()
            invariant
                0 <= i <= self.spec_sessions().len(),
                forall|j: int| 0 <= j < i ==> (#[trigger] self.spec_sessions()[j]).0 != code,
                -1 <= code_index(self.spec_sessions(), code) < self.spec_sessions().len(),
                has_code(self.spec_sessions(), code) <==> 0 <= code_index(
                    self.spec_sessions(),
                    code,
                ),
                0 <= code_index(self.spec_sessions(), code) ==> self.spec_sessions()[code_index(
                    self.spec_sessions(),
                    code,
                )].0 == code,
                forall|j: int|
                    0 <= j < code_index(self.spec_sessions(), code) ==> (
                    #[trigger] self.spec_sessions()[j]).0 != code,
            decreases self.spec_sessions().len() - i,
        {
            if self.sessions[i].0 == code {
                proof {
                    let ci = code_index(self.spec_sessions(), code);
                    if ci != i as int {
                        assert(self.spec_sessions()[i as int].0 == code);
                        assert(has_code(self.spec_sessions(), code));
                    }
                }
                return Some(i);
            }
            i = i + 1;
        }
        None
    }

    /// The registered session under a code, if any.
    pub fn get(&self, code: u16) -> (r: Option<&Session<G>>)
        ensures
            match r {
                Some(sess) => has_code(self.spec_sessions(), code) && *sess == self.spec_sessions()[
                    code_index(self.spec_sessions(), code)
                ].1,
                None => !has_code(self.spec_sessions(), code),
            },
    {
        match self.find_code(code) {
            Some(i) => {
                let e = &self.sessions[i];
                Some(&e.1)
            },
            None => None,
        }
    }

    /// Attempts to seat a participant in the room under `code`: either a
    /// fresh id, a full room, or no such room.
    pub fn join_session(&mut self, code: u16) -> (r: JoinOutcome)
        requires
            old(self).wf(),
        ensures
            final(self).wf(),
            ({
                let s = old(self).spec_sessions();
                let idx = code_index(s, code);
                if idx < 0 {
                    r == JoinOutcome::NotFound && *final(self) == *old(self)
                } else {
                    let sess = s[idx].1;
                    &&& final(self).spec_sessions().len() == s.len()
                    &&& forall|k: int|
                        0 <= k < s.len() && k != idx ==> final(self).spec_sessions()[k] == s[k]
                    &&& final(self).spec_sessions()[idx].0 == code
                    &&& if sess.spec_can_join() {
                        r == JoinOutcome::Joined(PlayerId((sess.spec_players().last() + 1) as u32))
                            && final(self).spec_sessions()[idx].1.spec_players()
                            == sess.spec_players().push((sess.spec_players().last() + 1) as u32)
                    } else {
                        r == JoinOutcome::Full && final(self).spec_sessions()[idx].1.spec_players()
                            == sess.spec_players()
                    }
                }
            }),
    {
        proof {
            lemma_code_index(old(self).spec_sessions(), code);
        }
        let idx = match self.find_code(code) {
            Some(i) => i,
            None => {
                return JoinOutcome::NotFound;
            },
        };
        let ghost s = self.sessions@;
        let (c, mut sess) = self.sessions.remove(idx);
        let res = sess.join();
        self.sessions.insert(idx, (c, sess));
        proof {
            assert(self.sessions@ =~= s.update(idx as int, (c, sess)));
        }
        match res {
            Some(pid) => JoinOutcome::Joined(pid),
            None => JoinOutcome::Full,
        }
    }

    /// Removes a departed participant from the room under `code`, if it is
    /// registered.
    pub fn leave_session(&mut self, code: u16, pid: PlayerId)
        requires
            old(self).wf(),
        ensures
            final(self).wf(),
            ({
                let s = old(self).spec_sessions();
                let idx = code_index(s, code);
                if idx < 0 {
                    *final(self) == *old(self)
                } else {
                    &&& final(self).spec_sessions().len() == s.len()
                    &&& forall|k: int|
                        0 <= k < s.len() && k != idx ==> final(self).spec_sessions()[k] == s[k]
                    &&& final(self).spec_sessions()[idx].0 == code
                    &&& final(self).spec_sessions()[idx].1.spec_players() == remove_player(
                        s[idx].1.spec_players(),
                        pid.0,
                    )
                }
            }),
    {
        proof {
            lemma_code_index(old(self).spec_sessions(), code);
        }
        let idx = match self.find_code(code) {
            Some(i) => i,
            None => {
                return ;
            },
        };
        let ghost s = self.sessions@;
        let (c, mut sess) = self.sessions.remove(idx);
        sess.leave(pid);
        self.sessions.insert(idx, (c, sess));
        proof {
            assert(self.sessions@ =~= s.update(idx as int, (c, sess)));
        }
    }

    /// Routes one inbound command to the room under `code`; returns whether
    /// the room was found.
    pub fn handle_command(
        &mut self,
        code: u16,
        pid: PlayerId,
        cmd: Command,
        cmds: &mut CommandQueue,
    ) -> (found: bool)
        requires
            old(self).wf(),
        ensures
            final(self).wf(),
            found == has_code(old(self).spec_sessions(), code),
            !found ==> *final(self) == *old(self) && final(cmds)@.replies == old(cmds)@.replies
                && final(cmds)@.sends == old(cmds)@.sends,
            found ==> ({
                let s = old(self).spec_sessions();
                let idx = code_index(s, code);
                &&& final(self).spec_sessions().len() == s.len()
                &&& forall|k: int|
                    0 <= k < s.len() && k != idx ==> final(self).spec_sessions()[k] == s[k]
                &&& final(self).spec_sessions()[idx].0 == code
                &&& final(self).spec_sessions()[idx].1.spec_players() == s[idx].1.spec_players()
            }),
    {
        proof {
            lemma_code_index(old(self).spec_sessions(), code);
        }
        let idx = match self.find_code(code) {
            Some(i) => i,
            None => {
                return false;
            },
        };
        let ghost s = self.sessions@;
        let (c, mut sess) = self.sessions.remove(idx);
        sess.handle_in(pid, cmd, cmds);
        self.sessions.insert(idx, (c, sess));
        proof {
            assert(self.sessions@ =~= s.update(idx as int, (c, sess)));
        }
        true
    }

    /// Gives the room under `code` a periodic pass; returns whether the
    /// room was found.
    pub fn tick_session(&mut self, code: u16, cmds: &mut CommandQueue) -> (found: bool)
        requires
            old(self).wf(),
        ensures
            final(self).wf(),
            found == has_code(old(self).spec_sessions(), code),
            !found ==> *final(self) == *old(self) && final(cmds)@.replies == old(cmds)@.replies
                && final(cmds)@.sends == old(cmds)@.sends,
            found ==> ({
                let s = old(self).spec_sessions();
                let idx = code_index(s, code);
                &&& final(self).spec_sessions().len() == s.len()
                &&& forall|k: int|
                    0 <= k < s.len() && k != idx ==> final(self).spec_sessions()[k] == s[k]
                &&& final(self).spec_sessions()[idx].0 == code
                &&& final(self).spec_sessions()[idx].1.spec_players() == s[idx].1.spec_players()
            }),
    {
        proof {
            lemma_code_index(old(self).spec_sessions(), code);
        }
        let idx = match self.find_code(code) {
            Some(i) => i,
            None => {
                return false;
            },
        };
        let ghost s = self.sessions@;
        let (c, mut sess) = self.sessions.remove(idx);
        let _more = sess.tick(cmds);
        self.sessions.insert(idx, (c, sess));
        proof {
            assert(self.sessions@ =~= s.update(idx as int, (c, sess)));
        }
        true
    }
}

} // verus!
