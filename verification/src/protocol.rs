//! The line-oriented command protocol: every message exchanged between a
//! participant and the server, its textual encoding, and the inverse parse.
//!
//! A command is rendered as a tag token followed by space-separated fields
//! in a fixed order. Room codes are hexadecimal, cards travel as their
//! integer id, amounts and player ids as decimal. Parsing splits on single
//! spaces, matches the first token against the known tags, and fails with a
//! generic error on any missing or malformed field or unknown tag.

use vstd::prelude::*;
use vstd::string::*;

use crate::card::Card;
use crate::digits::{
    all_dec_digits, all_hex_digits, dec_digits, dec_val, dec_val_of_char, hex_digits4, hex_val,
    is_dec_digit, lemma_dec_digits_no_space, lemma_dec_round_trip, lemma_hex_round_trip, parse_u16_hex,
    parse_u32, render_hex_u16, render_u32,
};

verus! {

/// A participant within a session. The host is always id 0; later joiners
/// get monotonically increasing ids.
#[derive(Debug, Copy, Clone, PartialEq, Eq, PartialOrd, Ord, Hash, Structural)]
pub struct PlayerId(pub u32);

impl PlayerId {
    /// The host's id.
    pub fn host() -> (r: Self)
        ensures
            r.0 == 0,
    {
        PlayerId(0)
    }
}

/// Which game a hosted room runs.
#[derive(Debug, Clone, Copy, PartialEq, Eq, Structural)]
pub enum GameId {
    Blackjack,
    Chatroom,
}

/// A protocol message.
#[derive(Debug, Clone, PartialEq, Eq)]
pub enum Command {
    Host(GameId),
    Join(u16),
    HostOk(u16),
    JoinOk(u16, Option<String>),
    Start,
    Draw,
    PlayerDraw(PlayerId, Card),
    DeckSize(u8),
    Bet(u32),
    SendMoney(u32),
    TakeMoney(u32),
    ValueUpdate(Option<PlayerId>, u8, bool),
    DealerDraw(Card),
    RevealDown(Option<PlayerId>, Card),
    DownCard(Card),
    Status {
        hit: bool,
        stand: bool,
        double: bool,
        surrender: bool,
        split: bool,
        new_game: bool,
    },
    Stand,
    Hit,
    DoubleDown,
    Surrender,
    Split,
    ChatMsg(PlayerId, String),
    Chat(String),
    Win,
    Lose,
    Nop,
}

/// The mathematical model of a command: the same variants with text fields
/// abstracted to character sequences and cards to their integer ids.
pub enum CmdV {
    Host(GameId),
    Join(u16),
    HostOk(u16),
    JoinOk(u16, Option<Seq<char>>),
    Start,
    Draw,
    PlayerDraw(PlayerId, u8),
    DeckSize(u8),
    Bet(u32),
    SendMoney(u32),
    TakeMoney(u32),
    ValueUpdate(Option<PlayerId>, u8, bool),
    DealerDraw(u8),
    RevealDown(Option<PlayerId>, u8),
    DownCard(u8),
    Status {
        hit: bool,
        stand: bool,
        double: bool,
        surrender: bool,
        split: bool,
        new_game: bool,
    },
    Stand,
    Hit,
    DoubleDown,
    Surrender,
    Split,
    ChatMsg(PlayerId, Seq<char>),
    Chat(Seq<char>),
    Win,
    Lose,
    Nop,
}

impl View for Command {
    type V = CmdV;

    open spec fn view(&self) -> CmdV {
        match self {
            Command::Host(g) => CmdV::Host(*g),
            Command::Join(c) => CmdV::Join(*c),
            Command::HostOk(c) => CmdV::HostOk(*c),
            Command::JoinOk(c, s) => CmdV::JoinOk(
                *c,
                match s {
                    Some(t) => Some(t@),
                    None => None,
                },
            ),
            Command::Start => CmdV::Start,
            Command::Draw => CmdV::Draw,
            Command::PlayerDraw(p, c) => CmdV::PlayerDraw(*p, c@),
            Command::DeckSize(n) => CmdV::DeckSize(*n),
            Command::Bet(b) => CmdV::Bet(*b),
            Command::SendMoney(m) => CmdV::SendMoney(*m),
            Command::TakeMoney(m) => CmdV::TakeMoney(*m),
            Command::ValueUpdate(p, v, s) => CmdV::ValueUpdate(*p, *v, *s),
            Command::DealerDraw(c) => CmdV::DealerDraw(c@),
            Command::RevealDown(p, c) => CmdV::RevealDown(*p, c@),
            Command::DownCard(c) => CmdV::DownCard(c@),
            Command::Status { hit, stand, double, surrender, split, new_game } => CmdV::Status {
                hit: *hit,
                stand: *stand,
                double: *double,
                surrender: *surrender,
                split: *split,
                new_game: *new_game,
            },
            Command::Stand => CmdV::Stand,
            Command::Hit => CmdV::Hit,
            Command::DoubleDown => CmdV::DoubleDown,
            Command::Surrender => CmdV::Surrender,
            Command::Split => CmdV::Split,
            Command::ChatMsg(p, m) => CmdV::ChatMsg(*p, m@),
            Command::Chat(m) => CmdV::Chat(m@),
            Command::Win => CmdV::Win,
            Command::Lose => CmdV::Lose,
            Command::Nop => CmdV::Nop,
        }
    }
}

/// Any card carried by the command is one of the 52 standard cards.
pub open spec fn cmd_wf(v: CmdV) -> bool {
    match v {
        CmdV::PlayerDraw(_, c) => c < 52,
        CmdV::DealerDraw(c) => c < 52,
        CmdV::RevealDown(_, c) => c < 52,
        CmdV::DownCard(c) => c < 52,
        _ => true,
    }
}

// The tag tokens of the wire grammar.
pub open spec fn t_host() -> Seq<char> {
    seq!['H', 'O', 'S', 'T']
}

pub open spec fn t_join() -> Seq<char> {
    seq!['J', 'O', 'I', 'N']
}

pub open spec fn t_host_ok() -> Seq<char> {
    seq!['H', 'O', 'S', 'T', '_', 'O', 'K']
}

pub open spec fn t_join_ok() -> Seq<char> {
    seq!['J', 'O', 'I', 'N', '_', 'O', 'K']
}

pub open spec fn t_start() -> Seq<char> {
    seq!['S', 'T', 'A', 'R', 'T']
}

pub open spec fn t_bet() -> Seq<char> {
    seq!['B', 'E', 'T']
}

pub open spec fn t_takemoney() -> Seq<char> {
    seq!['T', 'A', 'K', 'E', 'M', 'O', 'N', 'E', 'Y']
}

pub open spec fn t_sendmoney() -> Seq<char> {
    seq!['S', 'E', 'N', 'D', 'M', 'O', 'N', 'E', 'Y']
}

pub open spec fn t_draw() -> Seq<char> {
    seq!['D', 'R', 'A', 'W']
}

pub open spec fn t_revealdown() -> Seq<char> {
    seq!['R', 'E', 'V', 'E', 'A', 'L', 'D', 'O', 'W', 'N']
}

pub open spec fn t_playerdraw() -> Seq<char> {
    seq!['P', 'L', 'A', 'Y', 'E', 'R', 'D', 'R', 'A', 'W']
}

pub open spec fn t_decksize() -> Seq<char> {
    seq!['D', 'E', 'C', 'K', 'S', 'I', 'Z', 'E']
}

pub open spec fn t_dealerdraw() -> Seq<char> {
    seq!['D', 'E', 'A', 'L', 'E', 'R', 'D', 'R', 'A', 'W']
}

pub open spec fn t_downcard() -> Seq<char> {
    seq!['D', 'O', 'W', 'N', 'C', 'A', 'R', 'D']
}

pub open spec fn t_stand() -> Seq<char> {
    seq!['S', 'T', 'A', 'N', 'D']
}

pub open spec fn t_hit() -> Seq<char> {
    seq!['H', 'I', 'T']
}

pub open spec fn t_doubledown() -> Seq<char> {
    seq!['D', 'O', 'U', 'B', 'L', 'E', 'D', 'O', 'W', 'N']
}

pub open spec fn t_surrender() -> Seq<char> {
    seq!['S', 'U', 'R', 'R', 'E', 'N', 'D', 'E', 'R']
}

pub open spec fn t_split() -> Seq<char> {
    seq!['S', 'P', 'L', 'I', 'T']
}

pub open spec fn t_valueupdate() -> Seq<char> {
    seq!['V', 'A', 'L', 'U', 'E', 'U', 'P', 'D', 'A', 'T', 'E']
}

pub open spec fn t_status() -> Seq<char> {
    seq!['S', 'T', 'A', 'T', 'U', 'S']
}

pub open spec fn t_chat_msg() -> Seq<char> {
    seq!['C', 'H', 'A', 'T', '_', 'M', 'S', 'G']
}

pub open spec fn t_chat() -> Seq<char> {
    seq!['C', 'H', 'A', 'T']
}

pub open spec fn t_win() -> Seq<char> {
    seq!['W', 'I', 'N']
}

pub open spec fn t_lose() -> Seq<char> {
    seq!['L', 'O', 'S', 'E']
}

pub open spec fn t_nop() -> Seq<char> {
    seq!['N', 'O', 'P']
}

pub open spec fn t_soft() -> Seq<char> {
    seq!['s', 'o', 'f', 't']
}

pub open spec fn t_blackjack() -> Seq<char> {
    seq!['B', 'L', 'A', 'C', 'K', 'J', 'A', 'C', 'K']
}

pub open spec fn t_chatroom() -> Seq<char> {
    seq!['C', 'H', 'A', 'T', 'R', 'O', 'O', 'M']
}

/// The index of the first space in `s`, or its length when there is none.
pub open spec fn first_space(s: Seq<char>) -> int
    decreases s.len(),
{
    if s.len() == 0 {
        0
    } else if s[0] == ' ' {
        0
    } else {
        1 + first_space(s.skip(1))
    }
}

/// Splitting on every single space: `tokens` of the empty sequence is one
/// empty token, and every space separates two (possibly empty) tokens.
pub open spec fn tokens(s: Seq<char>) -> Seq<Seq<char>>
    decreases s.len(),
    via tokens_decreases
{
    let e = first_space(s);
    if e == s.len() {
        seq![s]
    } else {
        seq![s.take(e)] + tokens(s.skip(e + 1))
    }
}

#[via_fn]
proof fn tokens_decreases(s: Seq<char>) {
    lemma_first_space_bounds(s);
}

pub proof fn lemma_first_space_bounds(s: Seq<char>)
    ensures
        0 <= first_space(s) <= s.len(),
        first_space(s) < s.len() ==> s[first_space(s)] == ' ',
        forall|j: int| 0 <= j < first_space(s) ==> s[j] != ' ',
    decreases s.len(),
{
    if s.len() > 0 && s[0] != ' ' {
        lemma_first_space_bounds(s.skip(1));
        assert(forall|j: int| 0 <= j < s.skip(1).len() ==> #[trigger] s.skip(1)[j] == s[j + 1]);
        assert forall|j: int| 0 <= j < first_space(s) implies s[j] != ' ' by {
            if j > 0 {
                assert(s.skip(1)[j - 1] != ' ');
            }
        }
    }
}

/// The characterization in the other direction: if nothing before `e` is a
/// space and `e` is a space (or the end), then `e` is the first space.
pub proof fn lemma_first_space_is(s: Seq<char>, e: int)
    requires
        0 <= e <= s.len(),
        forall|j: int| 0 <= j < e ==> s[j] != ' ',
        e < s.len() ==> s[e] == ' ',
    ensures
        first_space(s) == e,
    decreases s.len(),
{
    if s.len() == 0 {
    } else if s[0] == ' ' {
    } else {
        assert(e >= 1);
        let t = s.skip(1);
        assert(forall|j: int| 0 <= j < t.len() ==> t[j] == s[j + 1]);
        lemma_first_space_is(t, e - 1);
    }
}

pub proof fn lemma_tokens_len(s: Seq<char>)
    ensures
        tokens(s).len() >= 1,
    decreases s.len(),
{
    lemma_first_space_bounds(s);
}

/// Joining tokens with single spaces.
pub open spec fn join_tokens(ts: Seq<Seq<char>>) -> Seq<char>
    decreases ts.len(),
{
    if ts.len() == 0 {
        Seq::empty()
    } else if ts.len() == 1 {
        ts[0]
    } else {
        ts[0] + seq![' '] + join_tokens(ts.skip(1))
    }
}

pub open spec fn no_space(t: Seq<char>) -> bool {
    forall|i: int| 0 <= i < t.len() ==> t[i] != ' '
}

pub open spec fn all_no_space(ts: Seq<Seq<char>>) -> bool {
    forall|k: int| 0 <= k < ts.len() ==> no_space(#[trigger] ts[k])
}

/// Splitting undoes joining, provided no token contains a space.
pub proof fn lemma_tokens_of_join(ts: Seq<Seq<char>>)
    requires
        ts.len() >= 1,
        all_no_space(ts),
    ensures
        tokens(join_tokens(ts)) == ts,
    decreases ts.len(),
{
    let s = join_tokens(ts);
    if ts.len() == 1 {
        assert(no_space(ts[0]));
        lemma_first_space_is(s, s.len() as int);
        assert(tokens(s) =~= seq![ts[0]]);
        assert(tokens(s) =~= ts);
    } else {
        let rest = join_tokens(ts.skip(1));
        assert(s == ts[0] + seq![' '] + rest);
        let e = ts[0].len() as int;
        assert(forall|j: int| 0 <= j < e ==> s[j] == ts[0][j]);
        assert(s[e] == ' ');
        lemma_first_space_is(s, e);
        assert(s.take(e) =~= ts[0]);
        assert(s.skip(e + 1) =~= rest);
        assert(all_no_space(ts.skip(1))) by {
            assert(forall|k: int| 0 <= k < ts.skip(1).len() ==> ts.skip(1)[k] == ts[k + 1]);
        }
        lemma_tokens_of_join(ts.skip(1));
        assert(tokens(s) =~= seq![ts[0]] + tokens(rest));
        assert(tokens(s) =~= ts);
    }
}

/// Splits a line into its space-separated tokens.
pub fn split_spaces<'a>(s: &'a str) -> (r: Vec<&'a str>)
    ensures
        r@.len() == tokens(s@).len(),
        forall|k: int| 0 <= k < r@.len() ==> (#[trigger] r@[k])@ == tokens(s@)[k],
{
    let len = s.unicode_len();
    let mut r: Vec<&'a str> = Vec::new();
    let mut start: usize = 0;
    let mut i: usize = 0;
    proof {
        assert(s@.skip(0) =~= s@);
        assert(r@.map_values(|t: &str| t@) =~= Seq::<Seq<char>>::empty());
    }
    while i < len
        invariant
            0 <= start <= i <= len,
            len == s@.len(),
            forall|j: int| start <= j < i ==> s@[j] != ' ',
            tokens(s@) =~= r@.map_values(|t: &str| t@) + tokens(s@.skip(start as int)),
            r@.len() == r@.map_values(|t: &str| t@).len(),
        decreases len - i,
    {
        let c = s.get_char(i);
        if c == ' ' {
            let tok = s.substring_char(start, i);
            proof {
                let suffix = s@.skip(start as int);
                assert(forall|j: int| 0 <= j < suffix.len() ==> suffix[j] == s@[start + j]);
                lemma_first_space_is(suffix, i as int - start as int);
                assert(suffix.take(i as int - start as int) =~= s@.subrange(
                    start as int,
                    i as int,
                ));
                assert(suffix.skip(i as int - start as int + 1) =~= s@.skip(i as int + 1));
                assert(tokens(suffix) == seq![s@.subrange(start as int, i as int)] + tokens(
                    s@.skip(i as int + 1),
                ));
                let m0 = r@.map_values(|t: &str| t@);
                let m1 = r@.push(tok).map_values(|t: &str| t@);
                assert(m1 =~= m0 + seq![tok@]);
            }
            r.push(tok);
            start = i + 1;
        }
        i = i + 1;
    }
    let tok = s.substring_char(start, len);
    proof {
        let suffix = s@.skip(start as int);
        assert(forall|j: int| 0 <= j < suffix.len() ==> suffix[j] == s@[start + j]);
        lemma_first_space_is(suffix, suffix.len() as int);
        assert(tokens(suffix) == seq![suffix]);
        assert(suffix =~= s@.subrange(start as int, len as int));
        let m0 = r@.map_values(|t: &str| t@);
        let m1 = r@.push(tok).map_values(|t: &str| t@);
        assert(m1 =~= m0 + seq![tok@]);
        assert(m0 + seq![suffix] =~= m1);
    }
    r.push(tok);
    r
}

/// Character-by-character string equality, equivalent to equality of views.
pub fn str_eq(a: &str, b: &str) -> (r: bool)
    ensures
        r == (a@ == b@),
{
    let la = a.unicode_len();
    let lb = b.unicode_len();
    if la != lb {
        return false;
    }
    let mut i: usize = 0;
    while i < la
        invariant
            0 <= i <= a@.len(),
            la == a@.len(),
            la == b@.len(),
            forall|j: int| 0 <= j < i ==> a@[j] == b@[j],
        decreases la - i,
    {
        if s_get(a, i) != s_get(b, i) {
            return false;
        }
        i = i + 1;
    }
    proof {
        assert(a@ =~= b@);
    }
    true
}

#[inline]
fn s_get(s: &str, i: usize) -> (c: char)
    requires
        i < s@.len(),
    ensures
        c == s@[i as int],
{
    s.get_char(i)
}

// The single-letter action flags of a `Status` command.
pub open spec fn f_h() -> Seq<char> {
    seq!['H']
}

pub open spec fn f_s() -> Seq<char> {
    seq!['S']
}

pub open spec fn f_d() -> Seq<char> {
    seq!['D']
}

pub open spec fn f_u() -> Seq<char> {
    seq!['U']
}

pub open spec fn f_p() -> Seq<char> {
    seq!['P']
}

pub open spec fn f_n() -> Seq<char> {
    seq!['N']
}

// Spec-level field parsers, mirroring the executable ones.
pub open spec fn sp_dec32(t: Seq<char>) -> Option<u32> {
    if t.len() > 0 && all_dec_digits(t) && dec_val(t) <= u32::MAX {
        Some(dec_val(t) as u32)
    } else {
        None
    }
}

pub open spec fn sp_dec8(t: Seq<char>) -> Option<u8> {
    if t.len() > 0 && all_dec_digits(t) && dec_val(t) <= u8::MAX {
        Some(dec_val(t) as u8)
    } else {
        None
    }
}

/// A card id field: a decimal number naming one of the 52 cards.
pub open spec fn sp_card(t: Seq<char>) -> Option<u8> {
    if t.len() > 0 && all_dec_digits(t) && dec_val(t) < 52 {
        Some(dec_val(t) as u8)
    } else {
        None
    }
}

pub open spec fn sp_hex16(t: Seq<char>) -> Option<u16> {
    if t.len() > 0 && all_hex_digits(t) && hex_val(t) <= u16::MAX {
        Some(hex_val(t) as u16)
    } else {
        None
    }
}

/// Everything after the first space (the free-text field of a chat line),
/// or nothing when there is no space.
pub open spec fn chat_text(s: Seq<char>) -> Seq<char> {
    let e = first_space(s);
    if e == s.len() {
        Seq::empty()
    } else {
        s.skip(e + 1)
    }
}

/// The optional player id just before the value field of `VALUEUPDATE`:
/// present when a token stands between the tag and the value and parses.
pub open spec fn vu_pid(ts: Seq<Seq<char>>, vi: int) -> Option<PlayerId> {
    if vi >= 2 {
        match sp_dec32(ts[vi - 1]) {
            Some(p) => Some(PlayerId(p)),
            None => None,
        }
    } else {
        None
    }
}

/// Every field of a `STATUS` line is one of the six action letters.
pub open spec fn status_fields_valid(ts: Seq<Seq<char>>) -> bool {
    forall|k: int|
        1 <= k < ts.len() ==> (#[trigger] ts[k]) == f_h() || ts[k] == f_s() || ts[k] == f_d()
            || ts[k] == f_u() || ts[k] == f_p() || ts[k] == f_n()
}

pub open spec fn has_flag(ts: Seq<Seq<char>>, f: Seq<char>) -> bool {
    exists|k: int| 1 <= k < ts.len() && (#[trigger] ts[k]) == f
}

/// What parsing a line yields: the command, or nothing on a malformed or
/// unknown line. This is the mathematical mirror of `Command::decode`.
pub open spec fn decode_spec(s: Seq<char>) -> Option<CmdV> {
    let ts = tokens(s);
    let tag = ts[0];
    if tag == t_host() {
        if ts.len() >= 2 {
            if ts[1] == t_blackjack() {
                Some(CmdV::Host(GameId::Blackjack))
            } else if ts[1] == t_chatroom() {
                Some(CmdV::Host(GameId::Chatroom))
            } else {
                None
            }
        } else {
            None
        }
    } else if tag == t_join() {
        if ts.len() >= 2 {
            match sp_hex16(ts[1]) {
                Some(c) => Some(CmdV::Join(c)),
                None => None,
            }
        } else {
            None
        }
    } else if tag == t_host_ok() {
        if ts.len() >= 2 {
            match sp_hex16(ts[1]) {
                Some(c) => Some(CmdV::HostOk(c)),
                None => None,
            }
        } else {
            None
        }
    } else if tag == t_join_ok() {
        if ts.len() >= 2 {
            match sp_hex16(ts[1]) {
                Some(c) => Some(
                    CmdV::JoinOk(
                        c,
                        if ts.len() >= 3 {
                            Some(ts[2])
                        } else {
                            None
                        },
                    ),
                ),
                None => None,
            }
        } else {
            None
        }
    } else if tag == t_start() {
        Some(CmdV::Start)
    } else if tag == t_bet() {
        if ts.len() >= 2 {
            match sp_dec32(ts[1]) {
                Some(b) => Some(CmdV::Bet(b)),
                None => None,
            }
        } else {
            None
        }
    } else if tag == t_takemoney() {
        if ts.len() >= 2 {
            match sp_dec32(ts[1]) {
                Some(b) => Some(CmdV::TakeMoney(b)),
                None => None,
            }
        } else {
            None
        }
    } else if tag == t_sendmoney() {
        if ts.len() >= 2 {
            match sp_dec32(ts[1]) {
                Some(b) => Some(CmdV::SendMoney(b)),
                None => None,
            }
        } else {
            None
        }
    } else if tag == t_draw() {
        Some(CmdV::Draw)
    } else if tag == t_revealdown() {
        if ts.len() >= 2 {
            match sp_card(ts[ts.len() - 1]) {
                Some(c) => if ts.len() == 2 {
                    Some(CmdV::RevealDown(None, c))
                } else {
                    match sp_dec32(ts[1]) {
                        Some(p) => Some(CmdV::RevealDown(Some(PlayerId(p)), c)),
                        None => None,
                    }
                },
                None => None,
            }
        } else {
            None
        }
    } else if tag == t_playerdraw() {
        if ts.len() >= 3 {
            match (sp_dec32(ts[1]), sp_card(ts[2])) {
                (Some(p), Some(c)) => Some(CmdV::PlayerDraw(PlayerId(p), c)),
                _ => None,
            }
        } else {
            None
        }
    } else if tag == t_decksize() {
        if ts.len() >= 2 {
            match sp_dec8(ts[1]) {
                Some(n) => Some(CmdV::DeckSize(n)),
                None => None,
            }
        } else {
            None
        }
    } else if tag == t_dealerdraw() {
        if ts.len() >= 2 {
            match sp_card(ts[1]) {
                Some(c) => Some(CmdV::DealerDraw(c)),
                None => None,
            }
        } else {
            None
        }
    } else if tag == t_downcard() {
        if ts.len() >= 2 {
            match sp_card(ts[1]) {
                Some(c) => Some(CmdV::DownCard(c)),
                None => None,
            }
        } else {
            None
        }
    } else if tag == t_stand() {
        Some(CmdV::Stand)
    } else if tag == t_hit() {
        Some(CmdV::Hit)
    } else if tag == t_doubledown() {
        Some(CmdV::DoubleDown)
    } else if tag == t_surrender() {
        Some(CmdV::Surrender)
    } else if tag == t_split() {
        Some(CmdV::Split)
    } else if tag == t_valueupdate() {
        let n = ts.len() as int;
        if n < 2 {
            None
        } else if ts[n - 1] == t_soft() {
            if n < 3 {
                None
            } else {
                match sp_dec8(ts[n - 2]) {
                    Some(v) => Some(CmdV::ValueUpdate(vu_pid(ts, n - 2), v, true)),
                    None => None,
                }
            }
        } else {
            match sp_dec8(ts[n - 1]) {
                Some(v) => Some(CmdV::ValueUpdate(vu_pid(ts, n - 1), v, false)),
                None => None,
            }
        }
    } else if tag == t_status() {
        if status_fields_valid(ts) {
            Some(
                CmdV::Status {
                    hit: has_flag(ts, f_h()),
                    stand: has_flag(ts, f_s()),
                    double: has_flag(ts, f_d()),
                    surrender: has_flag(ts, f_u()),
                    split: has_flag(ts, f_p()),
                    new_game: has_flag(ts, f_n()),
                },
            )
        } else {
            None
        }
    } else if tag == t_chat_msg() {
        if ts.len() >= 2 {
            match sp_dec32(ts[1]) {
                Some(p) => Some(CmdV::ChatMsg(PlayerId(p), chat_text(chat_text(s)))),
                None => None,
            }
        } else {
            None
        }
    } else if tag == t_chat() {
        Some(CmdV::Chat(chat_text(s)))
    } else if tag == t_win() {
        Some(CmdV::Win)
    } else if tag == t_lose() {
        Some(CmdV::Lose)
    } else if tag == t_nop() {
        Some(CmdV::Nop)
    } else {
        None
    }
}

pub open spec fn gid_tok(g: GameId) -> Seq<char> {
    match g {
        GameId::Blackjack => t_blackjack(),
        GameId::Chatroom => t_chatroom(),
    }
}

/// The `VALUEUPDATE` token list: tag, optional player id, value, optional
/// `soft` marker.
pub open spec fn vu_tokens(p: Option<PlayerId>, v: u8, soft: bool) -> Seq<Seq<char>> {
    seq![t_valueupdate()] + (match p {
        Some(p) => seq![dec_digits(p.0 as nat)],
        None => Seq::empty(),
    }) + seq![dec_digits(v as nat)] + (if soft {
        seq![t_soft()]
    } else {
        Seq::empty()
    })
}

/// The `STATUS` token list: the tag followed by the letters of the set
/// flags, in the fixed order H S D U P N.
pub open spec fn status_tokens(
    hit: bool,
    stand: bool,
    double: bool,
    surrender: bool,
    split: bool,
    new_game: bool,
) -> Seq<Seq<char>> {
    seq![t_status()] + (if hit {
        seq![f_h()]
    } else {
        Seq::empty()
    }) + (if stand {
        seq![f_s()]
    } else {
        Seq::empty()
    }) + (if double {
        seq![f_d()]
    } else {
        Seq::empty()
    }) + (if surrender {
        seq![f_u()]
    } else {
        Seq::empty()
    }) + (if split {
        seq![f_p()]
    } else {
        Seq::empty()
    }) + (if new_game {
        seq![f_n()]
    } else {
        Seq::empty()
    })
}

/// The canonical rendering of a command; `Command::encode` produces exactly
/// this text.
pub open spec fn encode_spec(v: CmdV) -> Seq<char> {
    match v {
        CmdV::Host(g) => join_tokens(seq![t_host(), gid_tok(g)]),
        CmdV::Join(c) => join_tokens(seq![t_join(), hex_digits4(c as nat)]),
        CmdV::HostOk(c) => join_tokens(seq![t_host_ok(), hex_digits4(c as nat)]),
        CmdV::JoinOk(c, None) => join_tokens(seq![t_join_ok(), hex_digits4(c as nat)]),
        CmdV::JoinOk(c, Some(t)) => join_tokens(seq![t_join_ok(), hex_digits4(c as nat), t]),
        CmdV::Start => t_start(),
        CmdV::Draw => t_draw(),
        CmdV::PlayerDraw(p, c) => join_tokens(
            seq![t_playerdraw(), dec_digits(p.0 as nat), dec_digits(c as nat)],
        ),
        CmdV::DeckSize(n) => join_tokens(seq![t_decksize(), dec_digits(n as nat)]),
        CmdV::Bet(b) => join_tokens(seq![t_bet(), dec_digits(b as nat)]),
        CmdV::SendMoney(m) => join_tokens(seq![t_sendmoney(), dec_digits(m as nat)]),
        CmdV::TakeMoney(m) => join_tokens(seq![t_takemoney(), dec_digits(m as nat)]),
        CmdV::ValueUpdate(p, val, soft) => join_tokens(vu_tokens(p, val, soft)),
        CmdV::DealerDraw(c) => join_tokens(seq![t_dealerdraw(), dec_digits(c as nat)]),
        CmdV::RevealDown(None, c) => join_tokens(seq![t_revealdown(), dec_digits(c as nat)]),
        CmdV::RevealDown(Some(p), c) => join_tokens(
            seq![t_revealdown(), dec_digits(p.0 as nat), dec_digits(c as nat)],
        ),
        CmdV::DownCard(c) => join_tokens(seq![t_downcard(), dec_digits(c as nat)]),
        CmdV::Status { hit, stand, double, surrender, split, new_game } => join_tokens(
            status_tokens(hit, stand, double, surrender, split, new_game),
        ),
        CmdV::Stand => t_stand(),
        CmdV::Hit => t_hit(),
        CmdV::DoubleDown => t_doubledown(),
        CmdV::Surrender => t_surrender(),
        CmdV::Split => t_split(),
        CmdV::ChatMsg(p, m) => join_tokens(seq![t_chat_msg(), dec_digits(p.0 as nat)]) + seq![' ']
            + m,
        CmdV::Chat(m) => t_chat() + seq![' '] + m,
        CmdV::Win => t_win(),
        CmdV::Lose => t_lose(),
        CmdV::Nop => t_nop(),
    }
}

pub proof fn lemma_join2(a: Seq<char>, b: Seq<char>)
    ensures
        join_tokens(seq![a, b]) == a + seq![' '] + b,
{
    assert(seq![a, b].skip(1) =~= seq![b]);
    assert(join_tokens(seq![b]) == b);
}

pub proof fn lemma_join3(a: Seq<char>, b: Seq<char>, c: Seq<char>)
    ensures
        join_tokens(seq![a, b, c]) == a + seq![' '] + (b + seq![' '] + c),
{
    assert(seq![a, b, c].skip(1) =~= seq![b, c]);
    lemma_join2(b, c);
}

pub proof fn lemma_join4(a: Seq<char>, b: Seq<char>, c: Seq<char>, d: Seq<char>)
    ensures
        join_tokens(seq![a, b, c, d]) == a + seq![' '] + (b + seq![' '] + (c + seq![' '] + d)),
{
    assert(seq![a, b, c, d].skip(1) =~= seq![b, c, d]);
    lemma_join3(b, c, d);
}

/// Joining a head token onto a list is the head followed by each further
/// token with a space before it.
pub open spec fn cat_sp(ts: Seq<Seq<char>>) -> Seq<char>
    decreases ts.len(),
{
    if ts.len() == 0 {
        Seq::empty()
    } else {
        seq![' '] + ts[0] + cat_sp(ts.skip(1))
    }
}

pub proof fn lemma_join_as_cat(a: Seq<char>, ts: Seq<Seq<char>>)
    ensures
        join_tokens(seq![a] + ts) == a + cat_sp(ts),
    decreases ts.len(),
{
    let whole = seq![a] + ts;
    if ts.len() == 0 {
        assert(whole =~= seq![a]);
        assert(join_tokens(seq![a]) == a);
        assert(a + cat_sp(ts) =~= a);
    } else {
        assert(whole.len() >= 2);
        assert(whole[0] == a);
        assert(whole.skip(1) =~= ts);
        assert(ts =~= seq![ts[0]] + ts.skip(1));
        lemma_join_as_cat(ts[0], ts.skip(1));
        assert(join_tokens(ts) == ts[0] + cat_sp(ts.skip(1)));
        assert(join_tokens(whole) == a + seq![' '] + (ts[0] + cat_sp(ts.skip(1))));
        assert(a + seq![' '] + (ts[0] + cat_sp(ts.skip(1))) =~= a + cat_sp(ts));
    }
}

pub proof fn lemma_cat_sp_concat(x: Seq<Seq<char>>, y: Seq<Seq<char>>)
    ensures
        cat_sp(x + y) == cat_sp(x) + cat_sp(y),
    decreases x.len(),
{
    if x.len() == 0 {
        assert(x + y =~= y);
        assert(cat_sp(x) + cat_sp(y) =~= cat_sp(y));
    } else {
        assert((x + y)[0] == x[0]);
        assert((x + y).skip(1) =~= x.skip(1) + y);
        lemma_cat_sp_concat(x.skip(1), y);
        assert(cat_sp(x + y) =~= cat_sp(x) + cat_sp(y));
    }
}

pub proof fn lemma_cat_sp_one(t: Seq<char>)
    ensures
        cat_sp(seq![t]) == seq![' '] + t,
{
    assert(seq![t].skip(1) =~= Seq::<Seq<char>>::empty());
    assert(cat_sp(Seq::<Seq<char>>::empty()) == Seq::<char>::empty());
    assert(cat_sp(seq![t]) == seq![' '] + t + Seq::<char>::empty());
    assert(seq![' '] + t + Seq::<char>::empty() =~= seq![' '] + t);
}

/// The joined `STATUS` line written out flag by flag, as the encoder
/// builds it.
#[verifier::rlimit(60)]
pub proof fn lemma_status_line(
    hit: bool,
    stand: bool,
    double: bool,
    surrender: bool,
    split: bool,
    new_game: bool,
)
    ensures
        join_tokens(status_tokens(hit, stand, double, surrender, split, new_game)) == t_status()
            + (if hit {
            seq![' '] + f_h()
        } else {
            Seq::empty()
        }) + (if stand {
            seq![' '] + f_s()
        } else {
            Seq::empty()
        }) + (if double {
            seq![' '] + f_d()
        } else {
            Seq::empty()
        }) + (if surrender {
            seq![' '] + f_u()
        } else {
            Seq::empty()
        }) + (if split {
            seq![' '] + f_p()
        } else {
            Seq::empty()
        }) + (if new_game {
            seq![' '] + f_n()
        } else {
            Seq::empty()
        }),
{
    let a: Seq<Seq<char>> = if hit {
        seq![f_h()]
    } else {
        Seq::empty()
    };
    let b: Seq<Seq<char>> = if stand {
        seq![f_s()]
    } else {
        Seq::empty()
    };
    let c: Seq<Seq<char>> = if double {
        seq![f_d()]
    } else {
        Seq::empty()
    };
    let d: Seq<Seq<char>> = if surrender {
        seq![f_u()]
    } else {
        Seq::empty()
    };
    let e: Seq<Seq<char>> = if split {
        seq![f_p()]
    } else {
        Seq::empty()
    };
    let f: Seq<Seq<char>> = if new_game {
        seq![f_n()]
    } else {
        Seq::empty()
    };
    let ts = a + b + c + d + e + f;
    assert(status_tokens(hit, stand, double, surrender, split, new_game) == seq![t_status()] + ts);
    lemma_join_as_cat(t_status(), ts);
    lemma_cat_sp_concat(a + b + c + d + e, f);
    lemma_cat_sp_concat(a + b + c + d, e);
    lemma_cat_sp_concat(a + b + c, d);
    lemma_cat_sp_concat(a + b, c);
    lemma_cat_sp_concat(a, b);
    lemma_cat_sp_one(f_h());
    lemma_cat_sp_one(f_s());
    lemma_cat_sp_one(f_d());
    lemma_cat_sp_one(f_u());
    lemma_cat_sp_one(f_p());
    lemma_cat_sp_one(f_n());
    assert(cat_sp(Seq::<Seq<char>>::empty()) == Seq::<char>::empty());
    let ca: Seq<char> = if hit {
        seq![' '] + f_h()
    } else {
        Seq::empty()
    };
    let cb: Seq<char> = if stand {
        seq![' '] + f_s()
    } else {
        Seq::empty()
    };
    let cc: Seq<char> = if double {
        seq![' '] + f_d()
    } else {
        Seq::empty()
    };
    let cd: Seq<char> = if surrender {
        seq![' '] + f_u()
    } else {
        Seq::empty()
    };
    let ce: Seq<char> = if split {
        seq![' '] + f_p()
    } else {
        Seq::empty()
    };
    let cf: Seq<char> = if new_game {
        seq![' '] + f_n()
    } else {
        Seq::empty()
    };
    assert(cat_sp(a) == ca);
    assert(cat_sp(b) == cb);
    assert(cat_sp(c) == cc);
    assert(cat_sp(d) == cd);
    assert(cat_sp(e) == ce);
    assert(cat_sp(f) == cf);
    assert(cat_sp(a + b) == ca + cb);
    assert(cat_sp(a + b + c) == ca + cb + cc);
    assert(cat_sp(a + b + c + d) == ca + cb + cc + cd);
    assert(cat_sp(a + b + c + d + e) == ca + cb + cc + cd + ce);
    assert(cat_sp(ts) == ca + cb + cc + cd + ce + cf);
    assert(join_tokens(seq![t_status()] + ts) == t_status() + (ca + cb + cc + cd + ce + cf));
    assert(t_status() + (ca + cb + cc + cd + ce + cf) =~= t_status() + ca + cb + cc + cd + ce + cf);
}

/// The six action letters are pairwise distinct tokens.
pub proof fn lemma_flags_distinct()
    ensures
        f_h() != f_s() && f_h() != f_d() && f_h() != f_u() && f_h() != f_p() && f_h() != f_n(),
        f_s() != f_d() && f_s() != f_u() && f_s() != f_p() && f_s() != f_n(),
        f_d() != f_u() && f_d() != f_p() && f_d() != f_n(),
        f_u() != f_p() && f_u() != f_n(),
        f_p() != f_n(),
{
    assert(f_h()[0] == 'H');
    assert(f_s()[0] == 'S');
    assert(f_d()[0] == 'D');
    assert(f_u()[0] == 'U');
    assert(f_p()[0] == 'P');
    assert(f_n()[0] == 'N');
}

fn gid_str(g: &GameId) -> (s: &'static str)
    ensures
        s@ == gid_tok(*g),
{
    match g {
        GameId::Blackjack => {
            let s = "BLACKJACK";
            proof {
                reveal_strlit("BLACKJACK");
                assert(s@ =~= t_blackjack());
            }
            s
        },
        GameId::Chatroom => {
            let s = "CHATROOM";
            proof {
                reveal_strlit("CHATROOM");
                assert(s@ =~= t_chatroom());
            }
            s
        },
    }
}

/// The index of the first space, as an executable function.
pub fn find_first_space(s: &str) -> (r: usize)
    ensures
        r == first_space(s@),
{
    let len = s.unicode_len();
    let mut i: usize = 0;
    while i < len
        invariant
            0 <= i <= len,
            len == s@.len(),
            forall|j: int| 0 <= j < i ==> s@[j] != ' ',
        decreases len - i,
    {
        if s.get_char(i) == ' ' {
            proof {
                lemma_first_space_is(s@, i as int);
            }
            return i;
        }
        i = i + 1;
    }
    proof {
        lemma_first_space_is(s@, len as int);
    }
    len
}

/// Parses a card-id field into a card.
fn parse_card_tok(t: &str) -> (r: Option<Card>)
    ensures
        r is Some <==> sp_card(t@) is Some,
        r is Some ==> r.unwrap()@ == sp_card(t@).unwrap() && r.unwrap()@ < 52,
{
    match parse_u32(t) {
        Some(v) => {
            if v < 52 {
                Some(Card::from_u8(v as u8))
            } else {
                None
            }
        },
        None => None,
    }
}

/// Parses a small decimal field (a deck size or a hand value).
fn parse_u8_tok(t: &str) -> (r: Option<u8>)
    ensures
        r == sp_dec8(t@),
{
    match parse_u32(t) {
        Some(v) => {
            if v <= 255 {
                Some(v as u8)
            } else {
                None
            }
        },
        None => None,
    }
}

/// Everything after the first space, or the empty string.
fn rest_after_first_space<'a>(s: &'a str) -> (r: &'a str)
    ensures
        r@ == chat_text(s@),
{
    let len = s.unicode_len();
    let e = find_first_space(s);
    proof {
        lemma_first_space_bounds(s@);
    }
    if e == len {
        let r = "";
        proof {
            reveal_strlit("");
            assert(r@ =~= Seq::<char>::empty());
        }
        r
    } else {
        let r = s.substring_char(e + 1, len);
        proof {
            assert(r@ =~= s@.skip(e as int + 1));
        }
        r
    }
}

impl Command {
    /// Parses one wire line; the result is exactly what `decode_spec` says:
    /// the command on a well-formed line, a unit error on anything else.
    #[verifier::rlimit(100)]
    pub fn decode(s: &str) -> (r: Result<Command, ()>)
        ensures
            r is Ok ==> decode_spec(s@) == Some(r.unwrap()@) && cmd_wf(r.unwrap()@),
            r is Err ==> decode_spec(s@) is None,
    {
        proof {
            lemma_tokens_len(s@);
            reveal_strlit("HOST");
            reveal_strlit("JOIN");
            reveal_strlit("HOST_OK");
            reveal_strlit("JOIN_OK");
            reveal_strlit("START");
            reveal_strlit("BET");
            reveal_strlit("TAKEMONEY");
            reveal_strlit("SENDMONEY");
            reveal_strlit("DRAW");
            reveal_strlit("REVEALDOWN");
            reveal_strlit("PLAYERDRAW");
            reveal_strlit("DECKSIZE");
            reveal_strlit("DEALERDRAW");
            reveal_strlit("DOWNCARD");
            reveal_strlit("STAND");
            reveal_strlit("HIT");
            reveal_strlit("DOUBLEDOWN");
            reveal_strlit("SURRENDER");
            reveal_strlit("SPLIT");
            reveal_strlit("VALUEUPDATE");
            reveal_strlit("STATUS");
            reveal_strlit("CHAT_MSG");
            reveal_strlit("CHAT");
            reveal_strlit("WIN");
            reveal_strlit("LOSE");
            reveal_strlit("NOP");
            reveal_strlit("BLACKJACK");
            reveal_strlit("CHATROOM");
            reveal_strlit("soft");
            assert("HOST"@ =~= t_host());
            assert("JOIN"@ =~= t_join());
            assert("HOST_OK"@ =~= t_host_ok());
            assert("JOIN_OK"@ =~= t_join_ok());
            assert("START"@ =~= t_start());
            assert("BET"@ =~= t_bet());
            assert("TAKEMONEY"@ =~= t_takemoney());
            assert("SENDMONEY"@ =~= t_sendmoney());
            assert("DRAW"@ =~= t_draw());
            assert("REVEALDOWN"@ =~= t_revealdown());
            assert("PLAYERDRAW"@ =~= t_playerdraw());
            assert("DECKSIZE"@ =~= t_decksize());
            assert("DEALERDRAW"@ =~= t_dealerdraw());
            assert("DOWNCARD"@ =~= t_downcard());
            assert("STAND"@ =~= t_stand());
            assert("HIT"@ =~= t_hit());
            assert("DOUBLEDOWN"@ =~= t_doubledown());
            assert("SURRENDER"@ =~= t_surrender());
            assert("SPLIT"@ =~= t_split());
            assert("VALUEUPDATE"@ =~= t_valueupdate());
            assert("STATUS"@ =~= t_status());
            assert("CHAT_MSG"@ =~= t_chat_msg());
            assert("CHAT"@ =~= t_chat());
            assert("WIN"@ =~= t_win());
            assert("LOSE"@ =~= t_lose());
            assert("NOP"@ =~= t_nop());
            assert("BLACKJACK"@ =~= t_blackjack());
            assert("CHATROOM"@ =~= t_chatroom());
            assert("soft"@ =~= t_soft());
        }
        let toks = split_spaces(s);
        let tag = toks[0];
        if str_eq(tag, "HOST") {
            if toks.len() >= 2 {
                if str_eq(toks[1], "BLACKJACK") {
                    Ok(Command::Host(GameId::Blackjack))
                } else if str_eq(toks[1], "CHATROOM") {
                    Ok(Command::Host(GameId::Chatroom))
                } else {
                    Err(())
                }
            } else {
                Err(())
            }
        } else if str_eq(tag, "JOIN") {
            if toks.len() >= 2 {
                match parse_u16_hex(toks[1]) {
                    Some(c) => Ok(Command::Join(c)),
                    None => Err(()),
                }
            } else {
                Err(())
            }
        } else if str_eq(tag, "HOST_OK") {
            if toks.len() >= 2 {
                match parse_u16_hex(toks[1]) {
                    Some(c) => Ok(Command::HostOk(c)),
                    None => Err(()),
                }
            } else {
                Err(())
            }
        } else if str_eq(tag, "JOIN_OK") {
            if toks.len() >= 2 {
                match parse_u16_hex(toks[1]) {
                    Some(c) => {
                        if toks.len() >= 3 {
                            Ok(Command::JoinOk(c, Some(String::from_str(toks[2]))))
                        } else {
                            Ok(Command::JoinOk(c, None))
                        }
                    },
                    None => Err(()),
                }
            } else {
                Err(())
            }
        } else if str_eq(tag, "START") {
            Ok(Command::Start)
        } else if str_eq(tag, "BET") {
            if toks.len() >= 2 {
                match parse_u32(toks[1]) {
                    Some(b) => Ok(Command::Bet(b)),
                    None => Err(()),
                }
            } else {
                Err(())
            }
        } else if str_eq(tag, "TAKEMONEY") {
            if toks.len() >= 2 {
                match parse_u32(toks[1]) {
                    Some(b) => Ok(Command::TakeMoney(b)),
                    None => Err(()),
                }
            } else {
                Err(())
            }
        } else if str_eq(tag, "SENDMONEY") {
            if toks.len() >= 2 {
                match parse_u32(toks[1]) {
                    Some(b) => Ok(Command::SendMoney(b)),
                    None => Err(()),
                }
            } else {
                Err(())
            }
        } else if str_eq(tag, "DRAW") {
            Ok(Command::Draw)
        } else if str_eq(tag, "REVEALDOWN") {
            if toks.len() >= 2 {
                match parse_card_tok(toks[toks.len() - 1]) {
                    Some(c) => {
                        if toks.len() == 2 {
                            Ok(Command::RevealDown(None, c))
                        } else {
                            match parse_u32(toks[1]) {
                                Some(p) => Ok(Command::RevealDown(Some(PlayerId(p)), c)),
                                None => Err(()),
                            }
                        }
                    },
                    None => Err(()),
                }
            } else {
                Err(())
            }
        } else if str_eq(tag, "PLAYERDRAW") {
            if toks.len() >= 3 {
                match (parse_u32(toks[1]), parse_card_tok(toks[2])) {
                    (Some(p), Some(c)) => Ok(Command::PlayerDraw(PlayerId(p), c)),
                    _ => Err(()),
                }
            } else {
                Err(())
            }
        } else if str_eq(tag, "DECKSIZE") {
            if toks.len() >= 2 {
                match parse_u8_tok(toks[1]) {
                    Some(n) => Ok(Command::DeckSize(n)),
                    None => Err(()),
                }
            } else {
                Err(())
            }
        } else if str_eq(tag, "DEALERDRAW") {
            if toks.len() >= 2 {
                match parse_card_tok(toks[1]) {
                    Some(c) => Ok(Command::DealerDraw(c)),
                    None => Err(()),
                }
            } else {
                Err(())
            }
        } else if str_eq(tag, "DOWNCARD") {
            if toks.len() >= 2 {
                match parse_card_tok(toks[1]) {
                    Some(c) => Ok(Command::DownCard(c)),
                    None => Err(()),
                }
            } else {
                Err(())
            }
        } else if str_eq(tag, "STAND") {
            Ok(Command::Stand)
        } else if str_eq(tag, "HIT") {
            Ok(Command::Hit)
        } else if str_eq(tag, "DOUBLEDOWN") {
            Ok(Command::DoubleDown)
        } else if str_eq(tag, "SURRENDER") {
            Ok(Command::Surrender)
        } else if str_eq(tag, "SPLIT") {
            Ok(Command::Split)
        } else if str_eq(tag, "VALUEUPDATE") {
            let n = toks.len();
            if n < 2 {
                Err(())
            } else if str_eq(toks[n - 1], "soft") {
                if n < 3 {
                    Err(())
                } else {
                    match parse_u8_tok(toks[n - 2]) {
                        Some(v) => {
                            let pid = if n >= 4 {
                                match parse_u32(toks[n - 3]) {
                                    Some(p) => Some(PlayerId(p)),
                                    None => None,
                                }
                            } else {
                                None
                            };
                            Ok(Command::ValueUpdate(pid, v, true))
                        },
                        None => Err(()),
                    }
                }
            } else {
                match parse_u8_tok(toks[n - 1]) {
                    Some(v) => {
                        let pid = if n >= 3 {
                            match parse_u32(toks[n - 2]) {
                                Some(p) => Some(PlayerId(p)),
                                None => None,
                            }
                        } else {
                            None
                        };
                        Ok(Command::ValueUpdate(pid, v, false))
                    },
                    None => Err(()),
                }
            }
        } else if str_eq(tag, "STATUS") {
            let mut hit = false;
            let mut stand = false;
            let mut double = false;
            let mut surrender = false;
            let mut split = false;
            let mut new_game = false;
            let mut i: usize = 1;
            proof {
                reveal_strlit("H");
                reveal_strlit("S");
                reveal_strlit("D");
                reveal_strlit("U");
                reveal_strlit("P");
                reveal_strlit("N");
                assert("H"@ =~= f_h());
                assert("S"@ =~= f_s());
                assert("D"@ =~= f_d());
                assert("U"@ =~= f_u());
                assert("P"@ =~= f_p());
                assert("N"@ =~= f_n());
            }
            while i < toks.len()
                invariant
                    1 <= i <= toks@.len(),
                    toks@.len() == tokens(s@).len(),
                    forall|k: int| 0 <= k < toks@.len() ==> (#[trigger] toks@[k])@ == tokens(s@)[k],
                    tokens(s@)[0] == t_status(),
                    "H"@ == f_h() && "S"@ == f_s() && "D"@ == f_d() && "U"@ == f_u() && "P"@
                        == f_p() && "N"@ == f_n(),
                    forall|k: int|
                        1 <= k < i ==> ((#[trigger] tokens(s@)[k]) == f_h() || tokens(s@)[k]
                            == f_s() || tokens(s@)[k] == f_d() || tokens(s@)[k] == f_u() || tokens(
                            s@,
                        )[k] == f_p() || tokens(s@)[k] == f_n()),
                    hit == exists|k: int| 1 <= k < i && (#[trigger] tokens(s@)[k]) == f_h(),
                    stand == exists|k: int| 1 <= k < i && (#[trigger] tokens(s@)[k]) == f_s(),
                    double == exists|k: int| 1 <= k < i && (#[trigger] tokens(s@)[k]) == f_d(),
                    surrender == exists|k: int| 1 <= k < i && (#[trigger] tokens(s@)[k]) == f_u(),
                    split == exists|k: int| 1 <= k < i && (#[trigger] tokens(s@)[k]) == f_p(),
                    new_game == exists|k: int| 1 <= k < i && (#[trigger] tokens(s@)[k]) == f_n(),
                decreases toks@.len() - i,
            {
                proof {
                    lemma_flags_distinct();
                }
                let t = toks[i];
                if str_eq(t, "H") {
                    hit = true;
                } else if str_eq(t, "S") {
                    stand = true;
                } else if str_eq(t, "D") {
                    double = true;
                } else if str_eq(t, "U") {
                    surrender = true;
                } else if str_eq(t, "P") {
                    split = true;
                } else if str_eq(t, "N") {
                    new_game = true;
                } else {
                    proof {
                        assert(!status_fields_valid(tokens(s@)));
                    }
                    return Err(());
                }
                i = i + 1;
            }
            proof {
                assert(status_fields_valid(tokens(s@)));
            }
            Ok(Command::Status { hit, stand, double, surrender, split, new_game })
        } else if str_eq(tag, "CHAT_MSG") {
            if toks.len() >= 2 {
                match parse_u32(toks[1]) {
                    Some(p) => {
                        let rest = rest_after_first_space(s);
                        let text = rest_after_first_space(rest);
                        Ok(Command::ChatMsg(PlayerId(p), String::from_str(text)))
                    },
                    None => Err(()),
                }
            } else {
                Err(())
            }
        } else if str_eq(tag, "CHAT") {
            let text = rest_after_first_space(s);
            Ok(Command::Chat(String::from_str(text)))
        } else if str_eq(tag, "WIN") {
            Ok(Command::Win)
        } else if str_eq(tag, "LOSE") {
            Ok(Command::Lose)
        } else if str_eq(tag, "NOP") {
            Ok(Command::Nop)
        } else {
            Err(())
        }
    }

    /// Renders the command as its wire line; the result is exactly
    /// `encode_spec` of the command's model.
    pub fn encode(&self) -> (r: String)
        ensures
            r@ == encode_spec(self@),
    {
        match self {
            Command::Host(g) => {
                let mut s = String::from_str("HOST ");
                s.append(gid_str(g));
                proof {
                    reveal_strlit("HOST ");
                    assert("HOST "@ =~= t_host() + seq![' ']);
                    lemma_join2(t_host(), gid_tok(*g));
                    assert(s@ =~= encode_spec(self@));
                }
                s
            },
            Command::Join(c) => {
                let mut s = String::from_str("JOIN ");
                let h = render_hex_u16(*c);
                s.append(h.as_str());
                proof {
                    reveal_strlit("JOIN ");
                    assert("JOIN "@ =~= t_join() + seq![' ']);
                    lemma_join2(t_join(), hex_digits4(*c as nat));
                    assert(s@ =~= encode_spec(self@));
                }
                s
            },
            Command::HostOk(c) => {
                let mut s = String::from_str("HOST_OK ");
                let h = render_hex_u16(*c);
                s.append(h.as_str());
                proof {
                    reveal_strlit("HOST_OK ");
                    assert("HOST_OK "@ =~= t_host_ok() + seq![' ']);
                    lemma_join2(t_host_ok(), hex_digits4(*c as nat));
                    assert(s@ =~= encode_spec(self@));
                }
                s
            },
            Command::JoinOk(c, t) => {
                let mut s = String::from_str("JOIN_OK ");
                let h = render_hex_u16(*c);
                s.append(h.as_str());
                proof {
                    reveal_strlit("JOIN_OK ");
                    reveal_strlit(" ");
                    assert("JOIN_OK "@ =~= t_join_ok() + seq![' ']);
                    assert(" "@ =~= seq![' ']);
                }
                match t {
                    Some(t) => {
                        s.append(" ");
                        s.append(t.as_str());
                        proof {
                            lemma_join3(t_join_ok(), hex_digits4(*c as nat), t@);
                            assert(s@ =~= encode_spec(self@));
                        }
                    },
                    None => {
                        proof {
                            lemma_join2(t_join_ok(), hex_digits4(*c as nat));
                            assert(s@ =~= encode_spec(self@));
                        }
                    },
                }
                s
            },
            Command::Start => {
                let s = String::from_str("START");
                proof {
                    reveal_strlit("START");
                    assert(s@ =~= t_start());
                }
                s
            },
            Command::Draw => {
                let s = String::from_str("DRAW");
                proof {
                    reveal_strlit("DRAW");
                    assert(s@ =~= t_draw());
                }
                s
            },
            Command::PlayerDraw(p, c) => {
                let mut s = String::from_str("PLAYERDRAW ");
                let d1 = render_u32(p.0);
                s.append(d1.as_str());
                s.append(" ");
                let d2 = render_u32(c.into_u8() as u32);
                s.append(d2.as_str());
                proof {
                    reveal_strlit("PLAYERDRAW ");
                    reveal_strlit(" ");
                    assert("PLAYERDRAW "@ =~= t_playerdraw() + seq![' ']);
                    assert(" "@ =~= seq![' ']);
                    lemma_join3(t_playerdraw(), dec_digits(p.0 as nat), dec_digits(c@ as nat));
                    assert(s@ =~= encode_spec(self@));
                }
                s
            },
            Command::DeckSize(n) => {
                let mut s = String::from_str("DECKSIZE ");
                let d = render_u32(*n as u32);
                s.append(d.as_str());
                proof {
                    reveal_strlit("DECKSIZE ");
                    assert("DECKSIZE "@ =~= t_decksize() + seq![' ']);
                    lemma_join2(t_decksize(), dec_digits(*n as nat));
                    assert(s@ =~= encode_spec(self@));
                }
                s
            },
            Command::Bet(b) => {
                let mut s = String::from_str("BET ");
                let d = render_u32(*b);
                s.append(d.as_str());
                proof {
                    reveal_strlit("BET ");
                    assert("BET "@ =~= t_bet() + seq![' ']);
                    lemma_join2(t_bet(), dec_digits(*b as nat));
                    assert(s@ =~= encode_spec(self@));
                }
                s
            },
            Command::SendMoney(m) => {
                let mut s = String::from_str("SENDMONEY ");
                let d = render_u32(*m);
                s.append(d.as_str());
                proof {
                    reveal_strlit("SENDMONEY ");
                    assert("SENDMONEY "@ =~= t_sendmoney() + seq![' ']);
                    lemma_join2(t_sendmoney(), dec_digits(*m as nat));
                    assert(s@ =~= encode_spec(self@));
                }
                s
            },
            Command::TakeMoney(m) => {
                let mut s = String::from_str("TAKEMONEY ");
                let d = render_u32(*m);
                s.append(d.as_str());
                proof {
                    reveal_strlit("TAKEMONEY ");
                    assert("TAKEMONEY "@ =~= t_takemoney() + seq![' ']);
                    lemma_join2(t_takemoney(), dec_digits(*m as nat));
                    assert(s@ =~= encode_spec(self@));
                }
                s
            },
            Command::ValueUpdate(p, v, soft) => {
                let mut s = String::from_str("VALUEUPDATE");
                proof {
                    reveal_strlit("VALUEUPDATE");
                    reveal_strlit(" ");
                    reveal_strlit(" soft");
                    assert("VALUEUPDATE"@ =~= t_valueupdate());
                    assert(" "@ =~= seq![' ']);
                    assert(" soft"@ =~= seq![' '] + t_soft());
                }
                match p {
                    Some(pid) => {
                        s.append(" ");
                        let d = render_u32(pid.0);
                        s.append(d.as_str());
                    },
                    None => {},
                }
                s.append(" ");
                let d = render_u32(*v as u32);
                s.append(d.as_str());
                if *soft {
                    s.append(" soft");
                }
                proof {
                    let dv = dec_digits(*v as nat);
                    match p {
                        Some(pid) => {
                            let dp = dec_digits(pid.0 as nat);
                            if *soft {
                                assert(vu_tokens(*p, *v, *soft) =~= seq![
                                    t_valueupdate(),
                                    dp,
                                    dv,
                                    t_soft(),
                                ]);
                                lemma_join4(t_valueupdate(), dp, dv, t_soft());
                            } else {
                                assert(vu_tokens(*p, *v, *soft) =~= seq![t_valueupdate(), dp, dv]);
                                lemma_join3(t_valueupdate(), dp, dv);
                            }
                        },
                        None => {
                            if *soft {
                                assert(vu_tokens(*p, *v, *soft) =~= seq![
                                    t_valueupdate(),
                                    dv,
                                    t_soft(),
                                ]);
                                lemma_join3(t_valueupdate(), dv, t_soft());
                            } else {
                                assert(vu_tokens(*p, *v, *soft) =~= seq![t_valueupdate(), dv]);
                                lemma_join2(t_valueupdate(), dv);
                            }
                        },
                    }
                    assert(s@ =~= encode_spec(self@));
                }
                s
            },
            Command::DealerDraw(c) => {
                let mut s = String::from_str("DEALERDRAW ");
                let d = render_u32(c.into_u8() as u32);
                s.append(d.as_str());
                proof {
                    reveal_strlit("DEALERDRAW ");
                    assert("DEALERDRAW "@ =~= t_dealerdraw() + seq![' ']);
                    lemma_join2(t_dealerdraw(), dec_digits(c@ as nat));
                    assert(s@ =~= encode_spec(self@));
                }
                s
            },
            Command::RevealDown(p, c) => {
                let mut s = String::from_str("REVEALDOWN ");
                proof {
                    reveal_strlit("REVEALDOWN ");
                    reveal_strlit(" ");
                    assert("REVEALDOWN "@ =~= t_revealdown() + seq![' ']);
                    assert(" "@ =~= seq![' ']);
                }
                match p {
                    Some(pid) => {
                        let d = render_u32(pid.0);
                        s.append(d.as_str());
                        s.append(" ");
                    },
                    None => {},
                }
                let d = render_u32(c.into_u8() as u32);
                s.append(d.as_str());
                proof {
                    match p {
                        Some(pid) => {
                            lemma_join3(
                                t_revealdown(),
                                dec_digits(pid.0 as nat),
                                dec_digits(c@ as nat),
                            );
                        },
                        None => {
                            lemma_join2(t_revealdown(), dec_digits(c@ as nat));
                        },
                    }
                    assert(s@ =~= encode_spec(self@));
                }
                s
            },
            Command::DownCard(c) => {
                let mut s = String::from_str("DOWNCARD ");
                let d = render_u32(c.into_u8() as u32);
                s.append(d.as_str());
                proof {
                    reveal_strlit("DOWNCARD ");
                    assert("DOWNCARD "@ =~= t_downcard() + seq![' ']);
                    lemma_join2(t_downcard(), dec_digits(c@ as nat));
                    assert(s@ =~= encode_spec(self@));
                }
                s
            },
            Command::Status { hit, stand, double, surrender, split, new_game } => {
                let mut s = String::from_str("STATUS");
                proof {
                    reveal_strlit("STATUS");
                    reveal_strlit(" H");
                    reveal_strlit(" S");
                    reveal_strlit(" D");
                    reveal_strlit(" U");
                    reveal_strlit(" P");
                    reveal_strlit(" N");
                    assert("STATUS"@ =~= t_status());
                    assert(" H"@ =~= seq![' '] + f_h());
                    assert(" S"@ =~= seq![' '] + f_s());
                    assert(" D"@ =~= seq![' '] + f_d());
                    assert(" U"@ =~= seq![' '] + f_u());
                    assert(" P"@ =~= seq![' '] + f_p());
                    assert(" N"@ =~= seq![' '] + f_n());
                }
                if *hit {
                    s.append(" H");
                }
                if *stand {
                    s.append(" S");
                }
                if *double {
                    s.append(" D");
                }
                if *surrender {
                    s.append(" U");
                }
                if *split {
                    s.append(" P");
                }
                if *new_game {
                    s.append(" N");
                }
                proof {
                    lemma_status_line(*hit, *stand, *double, *surrender, *split, *new_game);
                    assert(s@ =~= encode_spec(self@));
                }
                s
            },
            Command::Stand => {
                let s = String::from_str("STAND");
                proof {
                    reveal_strlit("STAND");
                    assert(s@ =~= t_stand());
                }
                s
            },
            Command::Hit => {
                let s = String::from_str("HIT");
                proof {
                    reveal_strlit("HIT");
                    assert(s@ =~= t_hit());
                }
                s
            },
            Command::DoubleDown => {
                let s = String::from_str("DOUBLEDOWN");
                proof {
                    reveal_strlit("DOUBLEDOWN");
                    assert(s@ =~= t_doubledown());
                }
                s
            },
            Command::Surrender => {
                let s = String::from_str("SURRENDER");
                proof {
                    reveal_strlit("SURRENDER");
                    assert(s@ =~= t_surrender());
                }
                s
            },
            Command::Split => {
                let s = String::from_str("SPLIT");
                proof {
                    reveal_strlit("SPLIT");
                    assert(s@ =~= t_split());
                }
                s
            },
            Command::ChatMsg(p, m) => {
                let mut s = String::from_str("CHAT_MSG ");
                let d = render_u32(p.0);
                s.append(d.as_str());
                s.append(" ");
                s.append(m.as_str());
                proof {
                    reveal_strlit("CHAT_MSG ");
                    reveal_strlit(" ");
                    assert("CHAT_MSG "@ =~= t_chat_msg() + seq![' ']);
                    assert(" "@ =~= seq![' ']);
                    lemma_join2(t_chat_msg(), dec_digits(p.0 as nat));
                    assert(s@ =~= encode_spec(self@));
                }
                s
            },
            Command::Chat(m) => {
                let mut s = String::from_str("CHAT ");
                s.append(m.as_str());
                proof {
                    reveal_strlit("CHAT ");
                    assert("CHAT "@ =~= t_chat() + seq![' ']);
                    assert(s@ =~= encode_spec(self@));
                }
                s
            },
            Command::Win => {
                let s = String::from_str("WIN");
                proof {
                    reveal_strlit("WIN");
                    assert(s@ =~= t_win());
                }
                s
            },
            Command::Lose => {
                let s = String::from_str("LOSE");
                proof {
                    reveal_strlit("LOSE");
                    assert(s@ =~= t_lose());
                }
                s
            },
            Command::Nop => {
                let s = String::from_str("NOP");
                proof {
                    reveal_strlit("NOP");
                    assert(s@ =~= t_nop());
                }
                s
            },
        }
    }

    /// The legal actions at the start of a fresh hand.
    pub fn status_new(split: bool) -> (r: Self)
        ensures
            r@ == (CmdV::Status {
                hit: true,
                stand: true,
                double: true,
                surrender: true,
                split,
                new_game: false,
            }),
    {
        Self::Status { hit: true, stand: true, double: true, surrender: true, split, new_game: false }
    }

    /// No action is legal: it is another participant's turn.
    pub fn status_wait() -> (r: Self)
        ensures
            r@ == (CmdV::Status {
                hit: false,
                stand: false,
                double: false,
                surrender: false,
                split: false,
                new_game: false,
            }),
    {
        Self::Status {
            hit: false,
            stand: false,
            double: false,
            surrender: false,
            split: false,
            new_game: false,
        }
    }

    /// Only starting a new game is legal.
    pub fn status_new_game() -> (r: Self)
        ensures
            r@ == (CmdV::Status {
                hit: false,
                stand: false,
                double: false,
                surrender: false,
                split: false,
                new_game: true,
            }),
    {
        Self::Status {
            hit: false,
            stand: false,
            double: false,
            surrender: false,
            split: false,
            new_game: true,
        }
    }

    /// Mid-hand: only hitting and standing are legal.
    pub fn status_mid_hand() -> (r: Self)
        ensures
            r@ == (CmdV::Status {
                hit: true,
                stand: true,
                double: false,
                surrender: false,
                split: false,
                new_game: false,
            }),
    {
        Self::Status {
            hit: true,
            stand: true,
            double: false,
            surrender: false,
            split: false,
            new_game: false,
        }
    }
}

impl core::str::FromStr for Command {
    type Err = ();

    fn from_str(s: &str) -> Result<Command, ()> {
        Command::decode(s)
    }
}

// ---------------------------------------------------------------------
// The round-trip law: decoding an encoded command gives the command back.
// ---------------------------------------------------------------------
/// Every tag token of the grammar is free of spaces.
proof fn lemma_tags_no_space()
    ensures
        no_space(t_host()),
        no_space(t_join()),
        no_space(t_host_ok()),
        no_space(t_join_ok()),
        no_space(t_start()),
        no_space(t_bet()),
        no_space(t_takemoney()),
        no_space(t_sendmoney()),
        no_space(t_draw()),
        no_space(t_revealdown()),
        no_space(t_playerdraw()),
        no_space(t_decksize()),
        no_space(t_dealerdraw()),
        no_space(t_downcard()),
        no_space(t_stand()),
        no_space(t_hit()),
        no_space(t_doubledown()),
        no_space(t_surrender()),
        no_space(t_split()),
        no_space(t_valueupdate()),
        no_space(t_status()),
        no_space(t_chat_msg()),
        no_space(t_chat()),
        no_space(t_win()),
        no_space(t_lose()),
        no_space(t_nop()),
        no_space(t_soft()),
        no_space(t_blackjack()),
        no_space(t_chatroom()),
        no_space(f_h()),
        no_space(f_s()),
        no_space(f_d()),
        no_space(f_u()),
        no_space(f_p()),
        no_space(f_n()),
{
}

/// Tags of equal length differ in some character, so no two tags are the
/// same token.
proof fn lemma_tags_distinct()
    ensures
        t_host() != t_join() && t_host() != t_draw() && t_host() != t_chat() && t_host()
            != t_lose(),
        t_join() != t_draw() && t_join() != t_chat() && t_join() != t_lose(),
        t_draw() != t_chat() && t_draw() != t_lose(),
        t_chat() != t_lose(),
        t_bet() != t_hit() && t_bet() != t_win() && t_bet() != t_nop(),
        t_hit() != t_win() && t_hit() != t_nop(),
        t_win() != t_nop(),
        t_start() != t_stand() && t_start() != t_split(),
        t_stand() != t_split(),
        t_host_ok() != t_join_ok(),
        t_decksize() != t_downcard() && t_decksize() != t_chat_msg() && t_decksize()
            != t_chatroom(),
        t_downcard() != t_chat_msg() && t_downcard() != t_chatroom(),
        t_chat_msg() != t_chatroom(),
        t_takemoney() != t_sendmoney() && t_takemoney() != t_surrender() && t_takemoney()
            != t_blackjack(),
        t_sendmoney() != t_surrender() && t_sendmoney() != t_blackjack(),
        t_surrender() != t_blackjack(),
        t_revealdown() != t_playerdraw() && t_revealdown() != t_dealerdraw() && t_revealdown()
            != t_doubledown(),
        t_playerdraw() != t_dealerdraw() && t_playerdraw() != t_doubledown(),
        t_dealerdraw() != t_doubledown(),
{
    assert(t_host()[0] == 'H' && t_join()[0] == 'J' && t_draw()[0] == 'D' && t_chat()[0] == 'C'
        && t_lose()[0] == 'L');
    assert(t_bet()[0] == 'B' && t_hit()[0] == 'H' && t_win()[0] == 'W' && t_nop()[0] == 'N');
    assert(t_start()[3] == 'R' && t_stand()[3] == 'N' && t_split()[1] == 'P' && t_start()[1] == 'T'
        && t_stand()[1] == 'T');
    assert(t_host_ok()[0] == 'H' && t_join_ok()[0] == 'J');
    assert(t_decksize()[0] == 'D' && t_downcard()[0] == 'D' && t_chat_msg()[0] == 'C'
        && t_chatroom()[0] == 'C');
    assert(t_decksize()[1] == 'E' && t_downcard()[1] == 'O');
    assert(t_chat_msg()[4] == '_' && t_chatroom()[4] == 'R');
    assert(t_takemoney()[0] == 'T' && t_sendmoney()[0] == 'S' && t_surrender()[0] == 'S'
        && t_blackjack()[0] == 'B');
    assert(t_sendmoney()[1] == 'E' && t_surrender()[1] == 'U');
    assert(t_revealdown()[0] == 'R' && t_playerdraw()[0] == 'P' && t_dealerdraw()[0] == 'D'
        && t_doubledown()[0] == 'D');
    assert(t_dealerdraw()[1] == 'E' && t_doubledown()[1] == 'O');
}

proof fn lemma_tok1(a: Seq<char>)
    requires
        no_space(a),
    ensures
        tokens(a) == seq![a],
{
    assert(all_no_space(seq![a]));
    lemma_tokens_of_join(seq![a]);
    assert(join_tokens(seq![a]) == a);
}

proof fn lemma_tok2(a: Seq<char>, b: Seq<char>)
    requires
        no_space(a),
        no_space(b),
    ensures
        tokens(join_tokens(seq![a, b])) == seq![a, b],
{
    assert(all_no_space(seq![a, b]));
    lemma_tokens_of_join(seq![a, b]);
}

proof fn lemma_tok3(a: Seq<char>, b: Seq<char>, c: Seq<char>)
    requires
        no_space(a),
        no_space(b),
        no_space(c),
    ensures
        tokens(join_tokens(seq![a, b, c])) == seq![a, b, c],
{
    assert(all_no_space(seq![a, b, c]));
    lemma_tokens_of_join(seq![a, b, c]);
}

proof fn lemma_tok4(a: Seq<char>, b: Seq<char>, c: Seq<char>, d: Seq<char>)
    requires
        no_space(a),
        no_space(b),
        no_space(c),
        no_space(d),
    ensures
        tokens(join_tokens(seq![a, b, c, d])) == seq![a, b, c, d],
{
    assert(all_no_space(seq![a, b, c, d]));
    lemma_tokens_of_join(seq![a, b, c, d]);
}

/// A rendered decimal number is never the token `soft`.
proof fn lemma_dec_not_soft(n: nat)
    ensures
        dec_digits(n) != t_soft(),
{
    lemma_dec_round_trip(n);
    if dec_digits(n) == t_soft() {
        assert(dec_digits(n)[0] == 's');
        assert(is_dec_digit(dec_digits(n)[0]));
        assert(dec_val_of_char('s') == -1);
    }
}

proof fn lemma_rt_valueupdate(p: Option<PlayerId>, val: u8, soft: bool)
    ensures
        decode_spec(encode_spec(CmdV::ValueUpdate(p, val, soft))) == Some(
            CmdV::ValueUpdate(p, val, soft),
        ),
{
    lemma_tags_no_space();
    lemma_tags_distinct();
    let v = CmdV::ValueUpdate(p, val, soft);
    let s = encode_spec(v);
    let dv = dec_digits(val as nat);
    lemma_dec_round_trip(val as nat);
    lemma_dec_digits_no_space(val as nat);
    lemma_dec_not_soft(val as nat);
    match p {
        Some(pid) => {
            let dp = dec_digits(pid.0 as nat);
            lemma_dec_round_trip(pid.0 as nat);
            lemma_dec_digits_no_space(pid.0 as nat);
            if soft {
                assert(vu_tokens(p, val, soft) =~= seq![t_valueupdate(), dp, dv, t_soft()]);
                lemma_tok4(t_valueupdate(), dp, dv, t_soft());
                assert(tokens(s) == seq![t_valueupdate(), dp, dv, t_soft()]);
            } else {
                assert(vu_tokens(p, val, soft) =~= seq![t_valueupdate(), dp, dv]);
                lemma_tok3(t_valueupdate(), dp, dv);
                assert(tokens(s) == seq![t_valueupdate(), dp, dv]);
            }
            assert(PlayerId(pid.0) == pid);
        },
        None => {
            if soft {
                assert(vu_tokens(p, val, soft) =~= seq![t_valueupdate(), dv, t_soft()]);
                lemma_tok3(t_valueupdate(), dv, t_soft());
                assert(tokens(s) == seq![t_valueupdate(), dv, t_soft()]);
            } else {
                assert(vu_tokens(p, val, soft) =~= seq![t_valueupdate(), dv]);
                lemma_tok2(t_valueupdate(), dv);
                assert(tokens(s) == seq![t_valueupdate(), dv]);
            }
        },
    }
}

#[verifier::rlimit(100)]
#[verifier::spinoff_prover]
proof fn lemma_status_flags(hit: bool, stand: bool, double: bool, surrender: bool, split: bool, new_game: bool)
    ensures
        ({
            let ts = status_tokens(hit, stand, double, surrender, split, new_game);
            &&& tokens(join_tokens(ts)) == ts
            &&& ts[0] == t_status()
            &&& status_fields_valid(ts)
            &&& has_flag(ts, f_h()) == hit
            &&& has_flag(ts, f_s()) == stand
            &&& has_flag(ts, f_d()) == double
            &&& has_flag(ts, f_u()) == surrender
            &&& has_flag(ts, f_p()) == split
            &&& has_flag(ts, f_n()) == new_game
        }),
{
    lemma_tags_no_space();
    lemma_flags_distinct();
    let ts = status_tokens(hit, stand, double, surrender, split, new_game);
    assert(all_no_space(ts)) by {
        assert forall|k: int| 0 <= k < ts.len() implies no_space(#[trigger] ts[k]) by {}
    }
    lemma_tokens_of_join(ts);
    let ih: int = if hit {
        1
    } else {
        0
    };
    let is_: int = if stand {
        1
    } else {
        0
    };
    let id: int = if double {
        1
    } else {
        0
    };
    let iu: int = if surrender {
        1
    } else {
        0
    };
    let ip: int = if split {
        1
    } else {
        0
    };
    assert(status_fields_valid(ts)) by {
        assert forall|k: int|
            1 <= k < ts.len() implies ((#[trigger] ts[k]) == f_h() || ts[k] == f_s() || ts[k]
            == f_d() || ts[k] == f_u() || ts[k] == f_p() || ts[k] == f_n()) by {}
    }
    if hit {
        assert(ts[1] == f_h());
    }
    if stand {
        assert(ts[1 + ih] == f_s());
    }
    if double {
        assert(ts[1 + ih + is_] == f_d());
    }
    if surrender {
        assert(ts[1 + ih + is_ + id] == f_u());
    }
    if split {
        assert(ts[1 + ih + is_ + id + iu] == f_p());
    }
    if new_game {
        assert(ts[1 + ih + is_ + id + iu + ip] == f_n());
    }
    assert forall|k: int| 1 <= k < ts.len() implies ((ts[k] == f_h() ==> hit) && (ts[k] == f_s()
        ==> stand) && (ts[k] == f_d() ==> double) && (ts[k] == f_u() ==> surrender) && (ts[k]
        == f_p() ==> split) && (ts[k] == f_n() ==> new_game)) by {}
    assert(has_flag(ts, f_h()) == hit);
    assert(has_flag(ts, f_s()) == stand);
    assert(has_flag(ts, f_d()) == double);
    assert(has_flag(ts, f_u()) == surrender);
    assert(has_flag(ts, f_p()) == split);
    assert(has_flag(ts, f_n()) == new_game);
}

#[verifier::rlimit(100)]
#[verifier::spinoff_prover]
proof fn lemma_rt_status(hit: bool, stand: bool, double: bool, surrender: bool, split: bool, new_game: bool)
    ensures
        decode_spec(
            encode_spec(CmdV::Status { hit, stand, double, surrender, split, new_game }),
        ) == Some(CmdV::Status { hit, stand, double, surrender, split, new_game }),
{
    lemma_tags_no_space();
    lemma_tags_distinct();
    lemma_status_flags(hit, stand, double, surrender, split, new_game);
}

proof fn lemma_rt_chat(m: Seq<char>)
    ensures
        decode_spec(encode_spec(CmdV::Chat(m))) == Some(CmdV::Chat(m)),
{
    lemma_tags_no_space();
    lemma_tags_distinct();
    let s = encode_spec(CmdV::Chat(m));
    assert(s == t_chat() + seq![' '] + m);
    assert(forall|j: int| 0 <= j < 4 ==> s[j] == t_chat()[j]);
    assert(s[4] == ' ');
    lemma_first_space_is(s, 4);
    assert(tokens(s)[0] == s.take(4));
    assert(s.take(4) =~= t_chat());
    assert(chat_text(s) =~= m);
}

proof fn lemma_rt_chat_msg(p: PlayerId, m: Seq<char>)
    ensures
        decode_spec(encode_spec(CmdV::ChatMsg(p, m))) == Some(CmdV::ChatMsg(p, m)),
{
    lemma_tags_no_space();
    lemma_tags_distinct();
    let dp = dec_digits(p.0 as nat);
    lemma_dec_round_trip(p.0 as nat);
    lemma_dec_digits_no_space(p.0 as nat);
    let s = encode_spec(CmdV::ChatMsg(p, m));
    lemma_join2(t_chat_msg(), dp);
    assert(s =~= t_chat_msg() + seq![' '] + (dp + seq![' '] + m));
    assert(forall|j: int| 0 <= j < 8 ==> s[j] == t_chat_msg()[j]);
    assert(s[8] == ' ');
    lemma_first_space_is(s, 8);
    let r1 = s.skip(9);
    assert(r1 =~= dp + seq![' '] + m);
    assert(chat_text(s) == r1);
    assert(tokens(s) == seq![s.take(8)] + tokens(r1));
    assert(s.take(8) =~= t_chat_msg());
    assert(forall|j: int| 0 <= j < dp.len() ==> r1[j] == dp[j]);
    assert(r1[dp.len() as int] == ' ');
    lemma_first_space_is(r1, dp.len() as int);
    assert(tokens(r1)[0] == r1.take(dp.len() as int));
    assert(r1.take(dp.len() as int) =~= dp);
    assert(tokens(s)[1] == dp);
    assert(tokens(s).len() >= 2);
    assert(chat_text(r1) =~= m);
    assert(PlayerId(p.0) == p);
}

/// The round-trip law of the protocol: decoding the encoding of any
/// well-formed command yields exactly that command. The one proviso is
/// that the optional trailing text of `JoinOk` must not contain a space,
/// since it is parsed back as a single token.
pub proof fn lemma_round_trip(v: CmdV)
    requires
        cmd_wf(v),
        match v {
            CmdV::JoinOk(_, Some(t)) => no_space(t),
            _ => true,
        },
    ensures
        decode_spec(encode_spec(v)) == Some(v),
{
    lemma_tags_no_space();
    lemma_tags_distinct();
    let s = encode_spec(v);
    match v {
        CmdV::Host(g) => {
            assert(no_space(gid_tok(g)));
            lemma_tok2(t_host(), gid_tok(g));
            assert(t_blackjack() != t_chatroom()) by {
                assert(t_blackjack()[0] == 'B' && t_chatroom()[0] == 'C');
            }
        },
        CmdV::Join(c) => {
            lemma_hex_round_trip(c);
            lemma_tok2(t_join(), hex_digits4(c as nat));
        },
        CmdV::HostOk(c) => {
            lemma_hex_round_trip(c);
            lemma_tok2(t_host_ok(), hex_digits4(c as nat));
        },
        CmdV::JoinOk(c, t) => {
            lemma_hex_round_trip(c);
            match t {
                Some(t) => {
                    lemma_tok3(t_join_ok(), hex_digits4(c as nat), t);
                },
                None => {
                    lemma_tok2(t_join_ok(), hex_digits4(c as nat));
                },
            }
        },
        CmdV::Start => {
            lemma_tok1(t_start());
        },
        CmdV::Draw => {
            lemma_tok1(t_draw());
        },
        CmdV::PlayerDraw(p, c) => {
            lemma_dec_round_trip(p.0 as nat);
            lemma_dec_digits_no_space(p.0 as nat);
            lemma_dec_round_trip(c as nat);
            lemma_dec_digits_no_space(c as nat);
            lemma_tok3(t_playerdraw(), dec_digits(p.0 as nat), dec_digits(c as nat));
            assert(PlayerId(p.0) == p);
        },
        CmdV::DeckSize(n) => {
            lemma_dec_round_trip(n as nat);
            lemma_dec_digits_no_space(n as nat);
            lemma_tok2(t_decksize(), dec_digits(n as nat));
        },
        CmdV::Bet(b) => {
            lemma_dec_round_trip(b as nat);
            lemma_dec_digits_no_space(b as nat);
            lemma_tok2(t_bet(), dec_digits(b as nat));
        },
        CmdV::SendMoney(m) => {
            lemma_dec_round_trip(m as nat);
            lemma_dec_digits_no_space(m as nat);
            lemma_tok2(t_sendmoney(), dec_digits(m as nat));
        },
        CmdV::TakeMoney(m) => {
            lemma_dec_round_trip(m as nat);
            lemma_dec_digits_no_space(m as nat);
            lemma_tok2(t_takemoney(), dec_digits(m as nat));
        },
        CmdV::ValueUpdate(p, val, soft) => {
            lemma_rt_valueupdate(p, val, soft);
        },
        CmdV::DealerDraw(c) => {
            lemma_dec_round_trip(c as nat);
            lemma_dec_digits_no_space(c as nat);
            lemma_tok2(t_dealerdraw(), dec_digits(c as nat));
        },
        CmdV::RevealDown(p, c) => {
            lemma_dec_round_trip(c as nat);
            lemma_dec_digits_no_space(c as nat);
            match p {
                Some(pid) => {
                    lemma_dec_round_trip(pid.0 as nat);
                    lemma_dec_digits_no_space(pid.0 as nat);
                    lemma_tok3(t_revealdown(), dec_digits(pid.0 as nat), dec_digits(c as nat));
                    assert(PlayerId(pid.0) == pid);
                },
                None => {
                    lemma_tok2(t_revealdown(), dec_digits(c as nat));
                },
            }
        },
        CmdV::DownCard(c) => {
            lemma_dec_round_trip(c as nat);
            lemma_dec_digits_no_space(c as nat);
            lemma_tok2(t_downcard(), dec_digits(c as nat));
        },
        CmdV::Status { hit, stand, double, surrender, split, new_game } => {
            lemma_rt_status(hit, stand, double, surrender, split, new_game);
        },
        CmdV::Stand => {
            lemma_tok1(t_stand());
        },
        CmdV::Hit => {
            lemma_tok1(t_hit());
        },
        CmdV::DoubleDown => {
            lemma_tok1(t_doubledown());
        },
        CmdV::Surrender => {
            lemma_tok1(t_surrender());
        },
        CmdV::Split => {
            lemma_tok1(t_split());
        },
        CmdV::ChatMsg(p, m) => {
            lemma_rt_chat_msg(p, m);
        },
        CmdV::Chat(m) => {
            lemma_rt_chat(m);
        },
        CmdV::Win => {
            lemma_tok1(t_win());
        },
        CmdV::Lose => {
            lemma_tok1(t_lose());
        },
        CmdV::Nop => {
            lemma_tok1(t_nop());
        },
    }
}

} // verus!
