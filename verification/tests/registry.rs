use fellestrekk::games::{Blackjack, Empty, MAX_PLAYERS};
use fellestrekk::protocol::{Command, PlayerId};
use fellestrekk::session::{CommandQueue, JoinOutcome, Session, SessionStore};

#[test]
fn session_lifecycle_host_join_and_capacity() {
    // The host creates a room and gets a code distinct from any other live
    // code; joins succeed while seats remain; once the table is full a
    // further join is rejected as such.
    let mut store: SessionStore<Blackjack> = SessionStore::new();
    let first = store.host_session(Session::new(Blackjack::new())).unwrap();
    assert!(store.has(first));

    let second = store.host_session(Session::new(Blackjack::new())).unwrap();
    assert_ne!(first, second);
    assert!(store.has(first) && store.has(second));

    // The host holds seat one of MAX_PLAYERS.
    for k in 0..MAX_PLAYERS - 1 {
        assert_eq!(store.join_session(first), JoinOutcome::Joined(PlayerId(k + 1)));
    }
    assert_eq!(store.join_session(first), JoinOutcome::Full);
    // The other room is unaffected.
    assert_eq!(store.join_session(second), JoinOutcome::Joined(PlayerId(1)));
}

#[test]
fn joining_an_unknown_code_is_rejected() {
    let mut store: SessionStore<Blackjack> = SessionStore::new();
    let code = store.host_session(Session::new(Blackjack::new())).unwrap();
    assert_eq!(store.join_session(code ^ 1), JoinOutcome::NotFound);
}

#[test]
fn a_game_without_space_admits_nobody() {
    let mut store: SessionStore<Empty> = SessionStore::new();
    let code = store.host_session(Session::new(Empty)).unwrap();
    assert_eq!(store.join_session(code), JoinOutcome::Full);
}

#[test]
fn dead_sessions_are_swept_on_registration() {
    let mut store: SessionStore<Blackjack> = SessionStore::new();
    let code = store.host_session(Session::new(Blackjack::new())).unwrap();
    // The host leaves: the session is dead but still registered.
    store.leave_session(code, PlayerId(0));
    assert!(store.has(code));
    // Registering another room sweeps it out.
    let other = store.host_session(Session::new(Blackjack::new())).unwrap();
    assert!(!store.has(code) || code == other);
    assert!(store.has(other));
}

#[test]
fn chat_lines_are_broadcast_under_the_sender() {
    let mut store: SessionStore<Blackjack> = SessionStore::new();
    let code = store.host_session(Session::new(Blackjack::new())).unwrap();
    let mut q = CommandQueue::new();
    assert!(store.handle_command(code, PlayerId(0), Command::Chat("hi all".to_string()), &mut q));
    let sends = q.take_sends();
    assert_eq!(sends, vec![(None, Command::ChatMsg(PlayerId(0), "hi all".to_string()))]);
    // An empty chat line is dropped.
    assert!(store.handle_command(code, PlayerId(0), Command::Chat(String::new()), &mut q));
    assert!(q.take_sends().is_empty());
    // Commands to unknown rooms go nowhere.
    assert!(!store.handle_command(code ^ 1, PlayerId(0), Command::Hit, &mut q));
}

#[test]
fn commands_route_to_the_room_game() {
    let mut store: SessionStore<Blackjack> = SessionStore::new();
    let code = store.host_session(Session::new(Blackjack::new())).unwrap();
    let mut q = CommandQueue::new();
    assert!(store.handle_command(code, PlayerId(0), Command::Bet(25), &mut q));
    let replies = q.take_replies();
    assert_eq!(replies[0], Command::TakeMoney(25));
    // The first tick after a deck change rebroadcasts the deck size.
    assert!(store.tick_session(code, &mut q));
    let sends = q.take_sends();
    assert_eq!(sends, vec![(None, Command::DeckSize(0))]);
}

#[test]
fn get_finds_the_registered_session() {
    let mut store: SessionStore<Blackjack> = SessionStore::new();
    let code = store.host_session(Session::new(Blackjack::new())).unwrap();
    assert!(store.get(code).is_some());
    assert!(!store.get(code).unwrap().is_empty());
    assert!(store.get(code ^ 1).is_none());
}
