use fellestrekk::card::Card;
use fellestrekk::protocol::{Command, GameId, PlayerId};

fn round_trips(cmd: Command) {
    let line = cmd.encode();
    assert_eq!(Command::decode(&line), Ok(cmd));
}

#[test]
fn every_variant_round_trips() {
    round_trips(Command::Host(GameId::Blackjack));
    round_trips(Command::Host(GameId::Chatroom));
    round_trips(Command::Join(0xABCD));
    round_trips(Command::HostOk(0x0001));
    round_trips(Command::JoinOk(0xBEEF, None));
    round_trips(Command::JoinOk(0xBEEF, Some("greeting".to_string())));
    round_trips(Command::Start);
    round_trips(Command::Draw);
    round_trips(Command::PlayerDraw(PlayerId(3), Card::from_u8(51)));
    round_trips(Command::DeckSize(52));
    round_trips(Command::Bet(0));
    round_trips(Command::Bet(4294967295));
    round_trips(Command::SendMoney(250));
    round_trips(Command::TakeMoney(100));
    round_trips(Command::ValueUpdate(None, 17, false));
    round_trips(Command::ValueUpdate(None, 17, true));
    round_trips(Command::ValueUpdate(Some(PlayerId(2)), 21, false));
    round_trips(Command::ValueUpdate(Some(PlayerId(2)), 21, true));
    round_trips(Command::DealerDraw(Card::from_u8(0)));
    round_trips(Command::RevealDown(None, Card::from_u8(12)));
    round_trips(Command::RevealDown(Some(PlayerId(7)), Card::from_u8(12)));
    round_trips(Command::DownCard(Card::from_u8(25)));
    round_trips(Command::Stand);
    round_trips(Command::Hit);
    round_trips(Command::DoubleDown);
    round_trips(Command::Surrender);
    round_trips(Command::Split);
    round_trips(Command::ChatMsg(PlayerId(1), "hello there".to_string()));
    round_trips(Command::ChatMsg(PlayerId(1), String::new()));
    round_trips(Command::Chat("one two  three".to_string()));
    round_trips(Command::Chat(String::new()));
    round_trips(Command::Win);
    round_trips(Command::Lose);
    round_trips(Command::Nop);
}

#[test]
fn every_status_combination_round_trips() {
    for bits in 0..64u8 {
        round_trips(Command::Status {
            hit: bits & 1 != 0,
            stand: bits & 2 != 0,
            double: bits & 4 != 0,
            surrender: bits & 8 != 0,
            split: bits & 16 != 0,
            new_game: bits & 32 != 0,
        });
    }
}

#[test]
fn encodings_match_the_wire_grammar() {
    assert_eq!(Command::Bet(7).encode(), "BET 7");
    assert_eq!(Command::Join(0xAB).encode(), "JOIN 00AB");
    assert_eq!(Command::HostOk(0xBEEF).encode(), "HOST_OK BEEF");
    assert_eq!(Command::Host(GameId::Blackjack).encode(), "HOST BLACKJACK");
    assert_eq!(
        Command::PlayerDraw(PlayerId(2), Card::from_u8(51)).encode(),
        "PLAYERDRAW 2 51"
    );
    assert_eq!(Command::ValueUpdate(None, 17, false).encode(), "VALUEUPDATE 17");
    assert_eq!(
        Command::ValueUpdate(Some(PlayerId(3)), 17, true).encode(),
        "VALUEUPDATE 3 17 soft"
    );
    assert_eq!(Command::status_wait().encode(), "STATUS");
    assert_eq!(Command::status_new(true).encode(), "STATUS H S D U P");
    assert_eq!(Command::status_new(false).encode(), "STATUS H S D U");
    assert_eq!(Command::status_mid_hand().encode(), "STATUS H S");
    assert_eq!(Command::status_new_game().encode(), "STATUS N");
    assert_eq!(Command::ChatMsg(PlayerId(0), "hi".to_string()).encode(), "CHAT_MSG 0 hi");
    assert_eq!(Command::Chat(String::new()).encode(), "CHAT ");
    assert_eq!(Command::Nop.encode(), "NOP");
}

#[test]
fn hex_codes_parse_in_either_case() {
    assert_eq!(Command::decode("JOIN ab"), Ok(Command::Join(0xAB)));
    assert_eq!(Command::decode("JOIN AB"), Ok(Command::Join(0xAB)));
    assert_eq!(Command::decode("JOIN 00ab"), Ok(Command::Join(0xAB)));
}

#[test]
fn optional_fields_parse_from_the_end() {
    assert_eq!(
        Command::decode("VALUEUPDATE 17"),
        Ok(Command::ValueUpdate(None, 17, false))
    );
    assert_eq!(
        Command::decode("VALUEUPDATE 17 soft"),
        Ok(Command::ValueUpdate(None, 17, true))
    );
    assert_eq!(
        Command::decode("VALUEUPDATE 4 17 soft"),
        Ok(Command::ValueUpdate(Some(PlayerId(4)), 17, true))
    );
    assert_eq!(
        Command::decode("REVEALDOWN 12"),
        Ok(Command::RevealDown(None, Card::from_u8(12)))
    );
    assert_eq!(
        Command::decode("REVEALDOWN 5 12"),
        Ok(Command::RevealDown(Some(PlayerId(5)), Card::from_u8(12)))
    );
}

#[test]
fn status_flags_parse_in_any_order() {
    assert_eq!(
        Command::decode("STATUS N H"),
        Ok(Command::Status {
            hit: true,
            stand: false,
            double: false,
            surrender: false,
            split: false,
            new_game: true,
        })
    );
}

#[test]
fn chat_text_keeps_its_spaces() {
    assert_eq!(
        Command::decode("CHAT one two  three"),
        Ok(Command::Chat("one two  three".to_string()))
    );
    assert_eq!(
        Command::decode("CHAT_MSG 9 a b"),
        Ok(Command::ChatMsg(PlayerId(9), "a b".to_string()))
    );
    assert_eq!(Command::decode("CHAT"), Ok(Command::Chat(String::new())));
}

#[test]
fn malformed_lines_are_rejected() {
    assert_eq!(Command::decode(""), Err(()));
    assert_eq!(Command::decode("BOGUS"), Err(()));
    assert_eq!(Command::decode("BET"), Err(()));
    assert_eq!(Command::decode("BET x"), Err(()));
    assert_eq!(Command::decode("BET -1"), Err(()));
    assert_eq!(Command::decode("BET 4294967296"), Err(()));
    assert_eq!(Command::decode("JOIN"), Err(()));
    assert_eq!(Command::decode("JOIN xyz"), Err(()));
    assert_eq!(Command::decode("JOIN 10000"), Err(()));
    assert_eq!(Command::decode("HOST"), Err(()));
    assert_eq!(Command::decode("HOST SOLITAIRE"), Err(()));
    assert_eq!(Command::decode("PLAYERDRAW 1"), Err(()));
    assert_eq!(Command::decode("PLAYERDRAW 1 52"), Err(()));
    assert_eq!(Command::decode("DEALERDRAW 200"), Err(()));
    assert_eq!(Command::decode("DECKSIZE 256"), Err(()));
    assert_eq!(Command::decode("VALUEUPDATE"), Err(()));
    assert_eq!(Command::decode("VALUEUPDATE soft"), Err(()));
    assert_eq!(Command::decode("STATUS H X"), Err(()));
    assert_eq!(Command::decode("CHAT_MSG"), Err(()));
    assert_eq!(Command::decode("CHAT_MSG x hi"), Err(()));
    assert_eq!(Command::decode("bet 1"), Err(()));
}

#[test]
fn trailing_garbage_on_bare_tags_is_ignored() {
    assert_eq!(Command::decode("START now"), Ok(Command::Start));
    assert_eq!(Command::decode("WIN big"), Ok(Command::Win));
}
