use chessehc::models::bye::Bye;
use chessehc::models::game::{Game, GameState};
use chessehc::models::player::Player;
use chessehc::models::point::{ByePoint, GamePoint, Point};
use chessehc::models::round::Round;
use chessehc::models::title::{title_order_of, Error as TitleError, Title};
use chessehc::models::tournament::Tournament;
use chessehc::types::InvokeErrorBind;

const ALL_TITLES: [Title; 8] = [
    Title::WCM,
    Title::WFM,
    Title::CM,
    Title::WIM,
    Title::FM,
    Title::WGM,
    Title::IM,
    Title::GM,
];

fn player(id: i64, name: &str, rating: u16, title: Option<Title>, half_points: u32) -> Player {
    Player { id, tournament_id: 1, name: name.to_string(), half_points, rating, title }
}

#[test]
fn bye_point_values() {
    assert_eq!(ByePoint::U.get_value(), 2);
    assert_eq!(ByePoint::Z.get_value(), 0);
}

#[test]
fn game_point_values() {
    assert_eq!(GamePoint::W.get_value(), 2);
    assert_eq!(GamePoint::D.get_value(), 1);
    assert_eq!(GamePoint::L.get_value(), 0);
}

#[test]
fn bye_point_codes() {
    assert_eq!(ByePoint::U.to_string(), "U");
    assert_eq!(ByePoint::Z.to_string(), "Z");
    assert_eq!(ByePoint::from_str("U"), Ok(ByePoint::U));
    assert_eq!(ByePoint::from_str("Z"), Ok(ByePoint::Z));
    assert_eq!(ByePoint::from_str("X"), Err(String::from("Invalid")));
    assert_eq!(ByePoint::from_str(""), Err(String::from("Invalid")));
    assert_eq!(ByePoint::from_str("UZ"), Err(String::from("Invalid")));
    assert_eq!(ByePoint::from_str("u"), Err(String::from("Invalid")));
}

#[test]
fn game_point_codes() {
    assert_eq!(GamePoint::W.to_string(), "W");
    assert_eq!(GamePoint::D.to_string(), "D");
    assert_eq!(GamePoint::L.to_string(), "L");
    assert_eq!(GamePoint::from_str("W"), Ok(GamePoint::W));
    assert_eq!(GamePoint::from_str("D"), Ok(GamePoint::D));
    assert_eq!(GamePoint::from_str("L"), Ok(GamePoint::L));
    assert_eq!(GamePoint::from_str("w"), Err(String::from("Invalid")));
    assert_eq!(GamePoint::from_str("WD"), Err(String::from("Invalid")));
    assert_eq!(GamePoint::W.trf_mark_str(), "1");
    assert_eq!(GamePoint::D.trf_mark_str(), "=");
    assert_eq!(GamePoint::L.trf_mark_str(), "0");
}

#[test]
fn point_codes_round_trip() {
    for p in [GamePoint::W, GamePoint::D, GamePoint::L] {
        assert_eq!(GamePoint::from_str(&p.to_string()), Ok(p));
    }
    for b in [ByePoint::U, ByePoint::Z] {
        assert_eq!(ByePoint::from_str(&b.to_string()), Ok(b));
    }
}

#[test]
fn point_defaults() {
    assert_eq!(ByePoint::default(), ByePoint::Z);
    assert_eq!(GameState::default(), GameState::Ongoing);
}

#[test]
fn title_codes() {
    let codes = ["WCM", "WFM", "CM", "WIM", "FM", "WGM", "IM", "GM"];
    for (t, c) in ALL_TITLES.iter().zip(codes.iter()) {
        assert_eq!(t.to_string(), *c);
        assert_eq!(t.code_str(), *c);
        assert_eq!(Title::try_from_str(c), Ok(*t));
        assert_eq!(Title::try_from_bytes(c.as_bytes()), Ok(*t));
        assert_eq!(Title::try_from(*c), Ok(*t));
        assert_eq!(Title::try_from(c.as_bytes()), Ok(*t));
    }
}

#[test]
fn title_parse_errors() {
    assert_eq!(Title::try_from_str("gm"), Err(TitleError::ParseError));
    assert_eq!(Title::try_from_str(""), Err(TitleError::ParseError));
    assert_eq!(Title::try_from_str("GMX"), Err(TitleError::ParseError));
    assert_eq!(Title::try_from_bytes(&[0xff, 0xfe]), Err(TitleError::ParseError));
    assert_eq!(Title::try_from_bytes(b"G"), Err(TitleError::ParseError));
    assert_eq!(Title::try_from(&b"IMM"[..]), Err(TitleError::ParseError));
}

#[test]
fn title_rank_follows_title_order() {
    for (i, a) in ALL_TITLES.iter().enumerate() {
        assert_eq!(a.rank() as usize, i);
        for b in ALL_TITLES.iter() {
            assert_eq!(a.rank() < b.rank(), a < b);
        }
    }
    assert_eq!(title_order_of(&None), 0);
    assert_eq!(title_order_of(&Some(Title::WCM)), 1);
    assert_eq!(title_order_of(&Some(Title::GM)), 8);
    for a in ALL_TITLES.iter() {
        assert!(title_order_of(&None) < title_order_of(&Some(*a)));
        assert_eq!(None < Some(*a), true);
    }
}

#[test]
fn game_new_is_unplayed() {
    let g = Game::new(3, 7);
    assert_eq!(g, Game { id: 0, round_id: 0, white_id: 3, black_id: 7, state: GameState::Ongoing });
    assert!(g.is_ongoing());
    let f = Game { state: GameState::Finished(GamePoint::W, GamePoint::L), ..g };
    assert!(!f.is_ongoing());
    assert_eq!(Game::default(), Game::new(0, 0));
}

#[test]
fn bye_new() {
    let b = Bye::new(5, ByePoint::U);
    assert_eq!(b, Bye { id: 0, round_id: 0, player_id: 5, bye_point: ByePoint::U });
    assert_eq!(Bye::default(), Bye::new(0, ByePoint::Z));
}

#[test]
fn sum_point_adds_half_points() {
    let mut p = player(1, "Alice", 1800, None, 3);
    p.sum_point(&GamePoint::W);
    assert_eq!(p.half_points, 5);
    p.sum_point(&GamePoint::D);
    assert_eq!(p.half_points, 6);
    p.sum_point(&GamePoint::L);
    assert_eq!(p.half_points, 6);
    p.sum_point(&ByePoint::Z);
    assert_eq!(p.half_points, 6);
    p.sum_point(&ByePoint::U);
    assert_eq!(p.half_points, 8);
    assert_eq!(p.name, "Alice");
    assert_eq!(p.rating, 1800);
}

#[test]
fn trf_config() {
    let t = Tournament { id: 1, name: String::from("Open"), number_rounds: 7, current_round_id: None };
    assert_eq!(t.get_trf_config(), "XXC white1\r\nXXR 7");
    let t = Tournament { number_rounds: 11, ..t };
    assert_eq!(t.get_trf_config(), "XXC white1\r\nXXR 11");
    assert_eq!(t.get_trf_config(), format!("XXC white1\r\nXXR {}", 11));
}

#[test]
fn new_tournament_checks() {
    let t = Tournament { id: 0, name: String::from("Open"), number_rounds: 5, current_round_id: None };
    assert!(t.check_new().is_ok());
    let short = Tournament { number_rounds: 4, ..t };
    match short.check_new() {
        Err(InvokeErrorBind::Other(m)) => assert_eq!(m, "Invalid input"),
        other => panic!("unexpected {:?}", other),
    }
    let unnamed = Tournament { id: 0, name: String::new(), number_rounds: 9, current_round_id: None };
    match unnamed.check_new() {
        Err(InvokeErrorBind::Other(m)) => assert_eq!(m, "Invalid input"),
        other => panic!("unexpected {:?}", other),
    }
}

#[test]
fn next_round_numbers() {
    let t = Tournament { id: 1, name: String::from("Open"), number_rounds: 7, current_round_id: None };
    let first = t.next_round(None);
    assert_eq!(first.number, 1);
    assert_eq!(first.id, 0);
    assert_eq!(first.date, "");
    let current = Round { id: 4, tournament_id: 1, number: 3, date: String::from("2024-01-01") };
    let next = t.next_round(Some(current));
    assert_eq!(next.number, 4);
    assert_eq!(next.id, 4);
    assert_eq!(next.tournament_id, 1);
    assert_eq!(next.date, "2024-01-01");
}

#[test]
fn invoke_error_messages() {
    let e = InvokeErrorBind::Sqlite(String::from("db locked"));
    assert_eq!(e.to_string(), "db locked");
    assert_eq!(InvokeErrorBind::Io(String::from("io")).to_string(), "io");
    assert_eq!(InvokeErrorBind::Tauri(String::from("t")).to_string(), "t");
    match InvokeErrorBind::from(String::from("No valid pairing")) {
        InvokeErrorBind::Other(m) => assert_eq!(m, "No valid pairing"),
        other => panic!("unexpected {:?}", other),
    }
    match InvokeErrorBind::from(chessehc::trf::Error::PairingNotFound) {
        InvokeErrorBind::Other(m) => assert_eq!(m, "trf"),
        other => panic!("unexpected {:?}", other),
    }
    match InvokeErrorBind::other("Invalid round id") {
        InvokeErrorBind::Other(m) => assert_eq!(m, "Invalid round id"),
        other => panic!("unexpected {:?}", other),
    }
}
