use chessehc::models::bye::Bye;
use chessehc::models::game::{Game, GameState};
use chessehc::models::player::Player;
use chessehc::models::point::{ByePoint, GamePoint};
use chessehc::models::round::Round;
use chessehc::models::title::Title;
use chessehc::pairing::{assign_starting_ranks, check_pairing_allowed, games_and_byes_from_pairs,
    id_with_rank, parse_bbp_output};
use chessehc::text::{decimal_string, join, push_padded, str_eq, str_less};
use chessehc::trf::{get_players_lines, pairing_input_lines, pairing_input_text, Error as TrfError};
use chessehc::types::InvokeErrorBind;
use chessehc::utils::{helper, sort_players_initial, sort_players_ranked};

fn player(id: i64, name: &str, rating: u16, title: Option<Title>, half_points: u32) -> Player {
    Player { id, tournament_id: 1, name: name.to_string(), half_points, rating, title }
}

fn ids(players: &[Player]) -> Vec<i64> {
    players.iter().map(|p| p.id).collect()
}

fn other_message(r: Result<(), InvokeErrorBind>) -> String {
    match r {
        Err(InvokeErrorBind::Other(m)) => m,
        other => panic!("unexpected {:?}", other),
    }
}

fn plan_error(r: Result<(Vec<Game>, Vec<Bye>), InvokeErrorBind>) -> String {
    match r {
        Err(InvokeErrorBind::Other(m)) => m,
        other => panic!("unexpected {:?}", other),
    }
}

#[test]
fn decimal_and_padding() {
    assert_eq!(decimal_string(0), "0");
    assert_eq!(decimal_string(7), "7");
    assert_eq!(decimal_string(1234), "1234");
    assert_eq!(decimal_string(u64::MAX), u64::MAX.to_string());
    let mut s = String::from("a");
    push_padded(&mut s, "xy", 4);
    assert_eq!(s, "a  xy");
    let mut s = String::new();
    push_padded(&mut s, "toolong", 3);
    assert_eq!(s, "toolong");
    let mut s = String::new();
    push_padded(&mut s, "", 3);
    assert_eq!(s, "   ");
    let mut s = String::new();
    push_padded(&mut s, "é", 3);
    assert_eq!(s, format!("{:>3}", "é"));
}

#[test]
fn joining() {
    let parts = vec![String::from("a"), String::from("bc"), String::from("")];
    assert_eq!(join(&parts, "  "), parts.join("  "));
    assert_eq!(join(&Vec::new(), ", "), "");
    assert_eq!(join(&vec![String::from("x")], ", "), "x");
}

#[test]
fn string_order() {
    let words = ["", "A", "Alice", "Al", "Bob", "alice", "Zoë", "Zoe", "é", "z"];
    for a in words.iter() {
        for b in words.iter() {
            assert_eq!(str_less(a, b), a < b, "{} {}", a, b);
            assert_eq!(str_eq(a, b), a == b);
        }
    }
}

#[test]
fn initial_order_rating_title_name() {
    let mut players = vec![
        player(1, "Carl", 1500, None, 0),
        player(2, "Bea", 2100, Some(Title::FM), 0),
        player(3, "Ann", 2100, Some(Title::IM), 0),
        player(4, "Dan", 2100, Some(Title::FM), 0),
        player(5, "Abe", 2100, None, 0),
        player(6, "Eve", 1500, None, 0),
    ];
    sort_players_initial(&mut players);
    assert_eq!(ids(&players), vec![3, 2, 4, 5, 1, 6]);
}

#[test]
fn initial_order_matches_std_comparator() {
    let mut players = vec![
        player(1, "b", 1200, Some(Title::CM), 0),
        player(2, "a", 1200, Some(Title::CM), 0),
        player(3, "c", 1900, None, 0),
        player(4, "a", 1200, Some(Title::CM), 0),
        player(5, "d", 1200, Some(Title::WGM), 0),
        player(6, "a", 1200, None, 0),
    ];
    let mut expected = players.clone();
    expected.sort_by(|a, b| {
        a.rating.cmp(&b.rating).then(a.title.cmp(&b.title)).reverse().then(a.name.cmp(&b.name))
    });
    sort_players_initial(&mut players);
    assert_eq!(ids(&players), ids(&expected));
    // players 2 and 4 tie: they keep their order
    assert_eq!(ids(&players), vec![3, 5, 2, 4, 1, 6]);
}

#[test]
fn ranked_order_points_then_name() {
    let mut players = vec![
        player(1, "Carl", 1500, None, 4),
        player(2, "Bea", 2100, None, 6),
        player(3, "Ann", 1600, None, 4),
        player(4, "Ann", 1700, None, 4),
        player(5, "Zed", 1000, None, 7),
    ];
    sort_players_ranked(&mut players);
    assert_eq!(ids(&players), vec![5, 2, 3, 4, 1]);
}

#[test]
fn indexed_initial_order() {
    let mut players = vec![
        (0usize, player(1, "Carl", 1500, None, 0)),
        (1usize, player(2, "Bea", 1800, None, 0)),
        (2usize, player(3, "Ann", 1500, None, 0)),
    ];
    helper(&mut players);
    let order: Vec<usize> = players.iter().map(|(i, _)| *i).collect();
    assert_eq!(order, vec![1, 2, 0]);
}

#[test]
fn sorting_empty_and_single() {
    let mut none: Vec<Player> = Vec::new();
    sort_players_initial(&mut none);
    assert!(none.is_empty());
    let mut one = vec![player(9, "Solo", 1000, None, 0)];
    sort_players_ranked(&mut one);
    assert_eq!(ids(&one), vec![9]);
}

#[test]
fn sorting_twice_changes_nothing() {
    let mut players = vec![
        player(1, "b", 1200, None, 2),
        player(2, "a", 1300, None, 2),
        player(3, "a", 1300, None, 2),
    ];
    sort_players_initial(&mut players);
    let once = ids(&players);
    sort_players_initial(&mut players);
    assert_eq!(ids(&players), once);
}

#[test]
fn starting_ranks() {
    let ranked = assign_starting_ranks(vec![
        player(10, "a", 1, None, 0),
        player(20, "b", 1, None, 0),
        player(30, "c", 1, None, 0),
    ]);
    let got: Vec<(u16, i64)> = ranked.iter().map(|(r, p)| (*r, p.id)).collect();
    assert_eq!(got, vec![(1, 10), (2, 20), (3, 30)]);
    assert_eq!(id_with_rank(&ranked, 2), Some(20));
    assert_eq!(id_with_rank(&ranked, 4), None);
    assert!(assign_starting_ranks(Vec::new()).is_empty());
}

#[test]
fn parse_engine_output() {
    assert_eq!(parse_bbp_output("3\n1 4\n2 3\n5 0\n"), vec![(1, 4), (2, 3), (5, 0)]);
    assert_eq!(parse_bbp_output("2\r\n1 2\r\n3 4"), vec![(1, 2), (3, 4)]);
    assert_eq!(parse_bbp_output(""), vec![]);
    assert_eq!(parse_bbp_output("0\n"), vec![]);
    assert_eq!(parse_bbp_output("0"), vec![]);
}

#[test]
fn parse_engine_output_lenient_fields() {
    // missing or unreadable ranks become 0
    assert_eq!(parse_bbp_output("x\n7\n\n a  b \n+5\t+6\n70000 1\n-1 2\n"), vec![
        (7, 0),
        (0, 0),
        (0, 0),
        (5, 6),
        (0, 1),
        (0, 2),
    ]);
    // extra words are ignored, runs of whitespace separate words
    assert_eq!(parse_bbp_output("1\n  12 \t 34 56\n"), vec![(12, 34)]);
    // a carriage return alone does not end a line
    assert_eq!(parse_bbp_output("1\n1 2\r3 4\n"), vec![(1, 2)]);
    assert_eq!(parse_bbp_output("1\n65535 00065535\n"), vec![(65535, 65535)]);
    assert_eq!(parse_bbp_output("1\n65536 +\n"), vec![(0, 0)]);
}

#[test]
fn parse_engine_output_matches_std() {
    let text = "4\r\n 1 2 \n\n3\n+7 x\r\n9 10\r";
    let mut expected = Vec::new();
    let mut lines = text.lines();
    if lines.next().is_some() {
        for l in lines {
            let mut w = l.split_ascii_whitespace();
            let a: Option<u16> = w.next().and_then(|x| x.parse().ok());
            let b: Option<u16> = w.next().and_then(|x| x.parse().ok());
            expected.push((a.unwrap_or_default(), b.unwrap_or_default()));
        }
    }
    assert_eq!(parse_bbp_output(text), expected);
}

fn ranked_four() -> Vec<(u16, Player)> {
    assign_starting_ranks(vec![
        player(11, "Ann", 2000, None, 0),
        player(12, "Bob", 1900, None, 0),
        player(13, "Cid", 1800, None, 0),
        player(14, "Dee", 1700, None, 0),
    ])
}

#[test]
fn round_plan_games_and_byes() {
    let ranked = ranked_four();
    let (games, byes) = games_and_byes_from_pairs(&ranked, &vec![(1, 3), (4, 2)]).unwrap();
    assert_eq!(games, vec![Game::new(11, 13), Game::new(14, 12)]);
    assert!(byes.is_empty());
    let (games, byes) = games_and_byes_from_pairs(&ranked, &vec![(2, 1), (3, 0)]).unwrap();
    assert_eq!(games, vec![Game::new(12, 11)]);
    assert_eq!(byes, vec![Bye::new(13, ByePoint::U)]);
    let (games, byes) = games_and_byes_from_pairs(&ranked, &vec![(4, 0)]).unwrap();
    assert!(games.is_empty());
    assert_eq!(byes, vec![Bye::new(14, ByePoint::U)]);
}

#[test]
fn round_plan_errors() {
    let ranked = ranked_four();
    assert_eq!(plan_error(games_and_byes_from_pairs(&ranked, &vec![])), "No valid pairing");
    assert_eq!(plan_error(games_and_byes_from_pairs(&ranked, &vec![(9, 1)])), "Invalid white id 9");
    assert_eq!(plan_error(games_and_byes_from_pairs(&ranked, &vec![(1, 12)])), "Invalid black id 12");
    assert_eq!(
        plan_error(games_and_byes_from_pairs(&ranked, &vec![(1, 2), (3, 3)])),
        "Same players w:3\tb:3"
    );
    assert_eq!(
        plan_error(games_and_byes_from_pairs(&ranked, &vec![(1, 2), (3, 0), (4, 2)])),
        "Invalid bye 2"
    );
    assert_eq!(
        plan_error(games_and_byes_from_pairs(&ranked, &vec![(1, 2), (7, 0)])),
        "Invalid player id 7"
    );
    // the games are checked before the byes
    assert_eq!(
        plan_error(games_and_byes_from_pairs(&ranked, &vec![(8, 2), (7, 0)])),
        "Invalid white id 8"
    );
}

#[test]
fn pairing_allowed_checks() {
    let finished = Game { state: GameState::Finished(GamePoint::D, GamePoint::D), ..Game::new(1, 2) };
    assert!(check_pairing_allowed(&None, 2).is_ok());
    assert!(check_pairing_allowed(&Some(vec![finished]), 4).is_ok());
    assert_eq!(
        other_message(check_pairing_allowed(&Some(vec![finished, Game::new(3, 4)]), 4)),
        "Ongoing round"
    );
    assert_eq!(other_message(check_pairing_allowed(&None, 1)), "Not enough players");
    assert_eq!(
        other_message(check_pairing_allowed(&Some(vec![Game::new(3, 4)]), 0)),
        "Ongoing round"
    );
}

fn round(id: i64, number: u16) -> Round {
    Round { id, tournament_id: 1, number, date: String::new() }
}

fn finished(id: i64, round_id: i64, white: i64, black: i64, w: GamePoint, b: GamePoint) -> Game {
    Game { id, round_id, white_id: white, black_id: black, state: GameState::Finished(w, b) }
}

fn player_data(rank: u16, sex: &str, title: &str, p: &Player) -> String {
    format!(
        "001 {:>4} {:>1}{:>3} {:>33} {:>4} {:>3} {:>11} {:>10} {:>4.1} {:>4}",
        rank,
        sex,
        title,
        p.name,
        p.rating,
        "",
        "",
        "",
        p.half_points as f64 / 2.0,
        0
    )
}

#[test]
fn engine_input_lines() {
    let ranked = assign_starting_ranks(vec![
        player(11, "Ann", 2000, None, 3),
        player(12, "Bob", 1900, None, 1),
        player(13, "Cid", 1800, None, 2),
    ]);
    let rounds = vec![round(100, 1), round(101, 2), round(102, 3)];
    let g1 = finished(1, 100, 11, 12, GamePoint::D, GamePoint::D);
    let g2 = Game { id: 2, round_id: 101, white_id: 13, black_id: 11, state: GameState::Ongoing };
    let g3 = finished(3, 102, 12, 13, GamePoint::L, GamePoint::W);
    let mut b1 = Bye::new(13, ByePoint::U);
    b1.round_id = 100;
    let mut b2 = Bye::new(12, ByePoint::Z);
    b2.round_id = 101;
    let player_games = vec![vec![g1, g2], vec![g1, g3], vec![g2, g3]];
    let player_byes = vec![vec![], vec![b2], vec![b1]];
    let lines = pairing_input_lines(&ranked, &rounds, &player_games, &player_byes);
    assert_eq!(lines.len(), 3);
    let p = &ranked[0].1;
    assert_eq!(
        lines[0],
        format!("{}  {}", player_data(1, "x", "x", p), ["   2 w =", "   3 w  ", "--------"].join("  "))
    );
    let p = &ranked[1].1;
    assert_eq!(
        lines[1],
        format!("{}  {}", player_data(2, "x", "x", p), ["   1 w =", "0000   Z", "   3 w 0"].join("  "))
    );
    let p = &ranked[2].1;
    assert_eq!(
        lines[2],
        format!("{}  {}", player_data(3, "x", "x", p), ["0000   U", "   1 w  ", "   2 w 1"].join("  "))
    );
}

#[test]
fn engine_input_unknown_opponent() {
    let ranked = assign_starting_ranks(vec![player(11, "Ann", 2000, None, 0)]);
    let rounds = vec![round(100, 1)];
    let g = finished(1, 100, 11, 99, GamePoint::W, GamePoint::L);
    let lines = pairing_input_lines(&ranked, &rounds, &vec![vec![g]], &vec![vec![]]);
    assert_eq!(lines[0], format!("{}  --------", player_data(1, "x", "x", &ranked[0].1)));
}

#[test]
fn engine_input_text() {
    let config = String::from("XXC white1\r\nXXR 5");
    let lines = vec![String::from("A"), String::from("B")];
    assert_eq!(pairing_input_text(&config, &lines), "XXC white1\r\nXXR 5\r\nA\r\nB\r\n");
    assert_eq!(pairing_input_text(&config, &Vec::new()), "XXC white1\r\nXXR 5\r\n\r\n");
}

#[test]
fn report_lines() {
    let ranked = assign_starting_ranks(vec![
        player(11, "Ann", 2000, Some(Title::GM), 2),
        player(12, "Bob", 1900, None, 2),
        player(13, "Cid", 1800, None, 2),
    ]);
    let rounds = vec![round(100, 1), round(101, 2)];
    let games = vec![
        finished(1, 100, 11, 12, GamePoint::W, GamePoint::L),
        finished(2, 101, 13, 11, GamePoint::D, GamePoint::D),
    ];
    let mut b1 = Bye::new(13, ByePoint::U);
    b1.round_id = 100;
    let mut b2 = Bye::new(12, ByePoint::Z);
    b2.round_id = 101;
    let byes = vec![b1, b2];
    let lines = get_players_lines(&ranked, &rounds, &games, &byes).unwrap();
    assert_eq!(
        lines,
        vec![
            format!("{}  {}", player_data(1, "", "", &ranked[0].1), ["   2 w W", "   3 b D"].join("  ")),
            format!("{}  {}", player_data(2, "", "", &ranked[1].1), ["   1 b L", "0000   Z"].join("  ")),
            format!("{}  {}", player_data(3, "", "", &ranked[2].1), ["0000   U", "   1 w D"].join("  ")),
        ]
    );
    // the columns line up: 89 characters of player data, then the rounds
    assert!(lines.iter().all(|l| l.chars().count() == 89 + 2 + 8 + 2 + 8));
}

#[test]
fn report_without_rounds() {
    let ranked = assign_starting_ranks(vec![player(11, "A", 1, None, 0)]);
    let lines = get_players_lines(&ranked, &vec![], &vec![], &vec![]).unwrap();
    assert_eq!(lines, vec![format!("{}  ", player_data(1, "", "", &ranked[0].1))]);
    assert_eq!(lines[0].chars().count(), 91);
}

#[test]
fn report_errors() {
    let ranked = assign_starting_ranks(vec![player(11, "Ann", 2000, None, 0), player(12, "Bob", 1900, None, 0)]);
    let rounds = vec![round(100, 1)];
    let ongoing = vec![Game { id: 1, round_id: 100, white_id: 11, black_id: 12, state: GameState::Ongoing }];
    assert_eq!(get_players_lines(&ranked, &rounds, &ongoing, &vec![]), Err(TrfError::InvalidPairing));
    let stranger = vec![finished(1, 100, 11, 77, GamePoint::W, GamePoint::L)];
    assert_eq!(get_players_lines(&ranked, &rounds, &stranger, &vec![]), Err(TrfError::InvalidPairing));
    assert_eq!(get_players_lines(&ranked, &rounds, &vec![], &vec![]), Err(TrfError::PairingNotFound));
    let games = vec![finished(1, 100, 11, 13, GamePoint::W, GamePoint::L)];
    // Ann's opponent is unknown, which is found before Bob's missing pairing
    assert_eq!(get_players_lines(&ranked, &rounds, &games, &vec![]), Err(TrfError::InvalidPairing));
}
