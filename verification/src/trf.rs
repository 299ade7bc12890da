//! The pairing engine's input, in the FIDE tournament report format (TRF):
//! one line per player, with its starting rank, name, rating and points, then
//! one entry per round played.
use vstd::prelude::*;
use crate::models::bye::Bye;
use crate::models::game::{Game, GameState};
use crate::models::player::Player;
use crate::models::round::Round;
use crate::text::{decimal, pad_left, joined, string_views, push_decimal, push_padded, join,
    lemma_decimal_len, lemma_pad_left_len};

verus! {

broadcast use vstd::seq_lib::group_seq_properties;

/// Why a player's line of the tournament report cannot be written.
#[derive(Debug, PartialEq, Eq, Structural)]
pub enum Error {
    /// The player has neither a game nor a bye in a round.
    PairingNotFound,
    /// The player's game is unfinished, or its opponent has no starting rank.
    InvalidPairing,
}

/// A score of `hp` half points with one decimal, as `{:.1}` prints it: `2.5`, `3.0`.
pub open spec fn points_text(hp: nat) -> Seq<char> {
    decimal(hp / 2) + seq![
        '.',
        if hp % 2 == 1 {
            '5'
        } else {
            '0'
        },
    ]
}

/// The player part of a TRF line: the record type `001`, the starting rank, the
/// sex and title fields, the name, the rating, three empty fields (federation,
/// FIDE id, birth date), the points, and the rank 0.
pub open spec fn player_data(rank: nat, sex: Seq<char>, title: Seq<char>, player: Player) -> Seq<char> {
    "001 "@ + pad_left(decimal(rank), 4) + " "@ + pad_left(sex, 1) + pad_left(title, 3) + " "@
        + pad_left(player.name@, 33) + " "@ + pad_left(decimal(player.rating as nat), 4) + " "@
        + pad_left(Seq::empty(), 3) + " "@ + pad_left(Seq::empty(), 11) + " "@ + pad_left(
        Seq::empty(),
        10,
    ) + " "@ + pad_left(points_text(player.half_points as nat), 4) + " "@ + pad_left(
        decimal(0),
        4,
    )
}

/// The starting rank of the first entry at or after position `i` whose player has id `id`.
pub open spec fn rank_of_player(players: Seq<(u16, Player)>, id: i64, i: int) -> Option<u16>
    decreases players.len() - i,
{
    if 0 <= i < players.len() {
        if players[i].1.id == id {
            Some(players[i].0)
        } else {
            rank_of_player(players, id, i + 1)
        }
    } else {
        None
    }
}

/// The first game at or after position `i` that belongs to the round `round_id`.
pub open spec fn game_in_round(games: Seq<Game>, round_id: i64, i: int) -> Option<Game>
    decreases games.len() - i,
{
    if 0 <= i < games.len() {
        if games[i].round_id == round_id {
            Some(games[i])
        } else {
            game_in_round(games, round_id, i + 1)
        }
    } else {
        None
    }
}

/// The first bye at or after position `i` that belongs to the round `round_id`.
pub open spec fn bye_in_round(byes: Seq<Bye>, round_id: i64, i: int) -> Option<Bye>
    decreases byes.len() - i,
{
    if 0 <= i < byes.len() {
        if byes[i].round_id == round_id {
            Some(byes[i])
        } else {
            bye_in_round(byes, round_id, i + 1)
        }
    } else {
        None
    }
}

/// The first game at or after position `i` of the round `round_id` in which the
/// player with id `player_id` plays white or black.
pub open spec fn player_game_in_round(games: Seq<Game>, player_id: i64, round_id: i64, i: int) -> Option<Game>
    decreases games.len() - i,
{
    if 0 <= i < games.len() {
        if games[i].round_id == round_id && (games[i].white_id == player_id || games[i].black_id
            == player_id) {
            Some(games[i])
        } else {
            player_game_in_round(games, player_id, round_id, i + 1)
        }
    } else {
        None
    }
}

/// The first bye at or after position `i` of the round `round_id` for the player with id `player_id`.
pub open spec fn player_bye_in_round(byes: Seq<Bye>, player_id: i64, round_id: i64, i: int) -> Option<Bye>
    decreases byes.len() - i,
{
    if 0 <= i < byes.len() {
        if byes[i].round_id == round_id && byes[i].player_id == player_id {
            Some(byes[i])
        } else {
            player_bye_in_round(byes, player_id, round_id, i + 1)
        }
    } else {
        None
    }
}

/// The mark of a game for the pairing engine: the player's result, `1`, `=` or `0`,
/// or nothing while the game is being played.
pub open spec fn engine_mark(state: GameState, as_white: bool) -> Seq<char> {
    match state {
        GameState::Ongoing => Seq::empty(),
        GameState::Finished(wp, bp) => if as_white {
            wp.trf_mark()
        } else {
            bp.trf_mark()
        },
    }
}

/// The entry of a round in a player's line of the pairing engine's input: the
/// opponent's starting rank and the player's result (the colour is always written
/// `w`), `0000` and the bye's code, or `--------` when the player has neither or
/// the opponent has no starting rank. `games` and `byes` are the player's own.
pub open spec fn engine_entry(players: Seq<(u16, Player)>, player: Player, games: Seq<Game>, byes: Seq<Bye>, round_id: i64) -> Seq<char> {
    match game_in_round(games, round_id, 0) {
        Some(g) => {
            let as_white = g.white_id == player.id;
            let opponent = if as_white {
                g.black_id
            } else {
                g.white_id
            };
            match rank_of_player(players, opponent, 0) {
                Some(r) => pad_left(decimal(r as nat), 4) + " w "@ + pad_left(
                    engine_mark(g.state, as_white),
                    1,
                ),
                None => "--------"@,
            }
        },
        None => match bye_in_round(byes, round_id, 0) {
            Some(b) => "0000   "@ + b.bye_point.code(),
            None => "--------"@,
        },
    }
}

/// The line of player `k` in the pairing engine's input: its player data (with
/// `x` in the sex and title fields), two spaces, and its round entries separated by
/// two spaces. `games` and `byes` are that player's own.
pub open spec fn engine_line(players: Seq<(u16, Player)>, k: int, rounds: Seq<Round>, games: Seq<Game>, byes: Seq<Bye>) -> Seq<char> {
    player_data(players[k].0 as nat, "x"@, "x"@, players[k].1) + "  "@ + joined(
        Seq::new(
            rounds.len(),
            |r: int| engine_entry(players, players[k].1, games, byes, rounds[r].id),
        ),
        "  "@,
    )
}

/// The entry of a round in a player's line of the tournament report: the
/// opponent's starting rank, the player's colour (`w` or `b`) and result code,
/// or `0000` and the bye's code. An unfinished game or an opponent without a
/// starting rank is `InvalidPairing`; neither game nor bye is `PairingNotFound`.
pub open spec fn report_entry(players: Seq<(u16, Player)>, player: Player, games: Seq<Game>, byes: Seq<Bye>, round_id: i64) -> Result<Seq<char>, Error> {
    match player_game_in_round(games, player.id, round_id, 0) {
        Some(g) => {
            let as_white = player.id == g.white_id;
            let opponent = if as_white {
                g.black_id
            } else {
                g.white_id
            };
            match rank_of_player(players, opponent, 0) {
                None => Err(Error::InvalidPairing),
                Some(r) => match g.state {
                    GameState::Finished(wp, bp) => Ok(
                        pad_left(decimal(r as nat), 4) + " "@ + (if as_white {
                            "w"@
                        } else {
                            "b"@
                        }) + " "@ + (if as_white {
                            wp.code()
                        } else {
                            bp.code()
                        }),
                    ),
                    GameState::Ongoing => Err(Error::InvalidPairing),
                },
            }
        },
        None => match player_bye_in_round(byes, player.id, round_id, 0) {
            Some(b) => Ok("0000   "@ + b.bye_point.code()),
            None => Err(Error::PairingNotFound),
        },
    }
}

/// The entries of the given rounds in a player's line of the tournament report,
/// or the error of the first round that has none.
pub open spec fn report_entries(players: Seq<(u16, Player)>, player: Player, games: Seq<Game>, byes: Seq<Bye>, rounds: Seq<Round>) -> Result<Seq<Seq<char>>, Error>
    decreases rounds.len(),
{
    if rounds.len() == 0 {
        Ok(Seq::empty())
    } else {
        match report_entries(players, player, games, byes, rounds.drop_last()) {
            Err(e) => Err(e),
            Ok(es) => match report_entry(players, player, games, byes, rounds.last().id) {
                Err(e) => Err(e),
                Ok(x) => Ok(es.push(x)),
            },
        }
    }
}

/// The line of a player in the tournament report: its player data (with empty
/// sex and title fields), two spaces, and its round entries separated by two spaces.
pub open spec fn report_line(players: Seq<(u16, Player)>, entry: (u16, Player), games: Seq<Game>, byes: Seq<Bye>, rounds: Seq<Round>) -> Result<Seq<char>, Error> {
    match report_entries(players, entry.1, games, byes, rounds) {
        Err(e) => Err(e),
        Ok(es) => Ok(player_data(entry.0 as nat, ""@, ""@, entry.1) + "  "@ + joined(es, "  "@)),
    }
}

/// The lines of the first `n` players in the tournament report, or the error of the
/// first player whose line cannot be written.
pub open spec fn report_lines(players: Seq<(u16, Player)>, n: int, games: Seq<Game>, byes: Seq<Bye>, rounds: Seq<Round>) -> Result<Seq<Seq<char>>, Error>
    decreases n,
{
    if n <= 0 {
        Ok(Seq::empty())
    } else {
        match report_lines(players, n - 1, games, byes, rounds) {
            Err(e) => Err(e),
            Ok(ls) => match report_line(players, players[n - 1], games, byes, rounds) {
                Err(e) => Err(e),
                Ok(l) => Ok(ls.push(l)),
            },
        }
    }
}

/// Appends a score of `hp` half points, right-aligned in 4 characters.
fn push_points(out: &mut String, hp: u32)
    ensures
        final(out)@ == old(out)@ + pad_left(points_text(hp as nat), 4),
{
    let mut field = String::new();
    push_decimal(&mut field, (hp / 2) as u64);
    proof {
        reveal_strlit(".5");
        reveal_strlit(".0");
    }
    if hp % 2 == 1 {
        field.append(".5");
    } else {
        field.append(".0");
    }
    assert(field@ =~= points_text(hp as nat));
    push_padded(out, field.as_str(), 4);
}

/// Appends the player part of a TRF line.
fn push_player_data(out: &mut String, rank: u16, sex: &str, title: &str, player: &Player)
    ensures
        final(out)@ == old(out)@ + player_data(rank as nat, sex@, title@, *player),
{
    let ghost start = out@;
    out.append("001 ");
    let r = crate::text::decimal_string(rank as u64);
    push_padded(out, r.as_str(), 4);
    out.append(" ");
    push_padded(out, sex, 1);
    push_padded(out, title, 3);
    out.append(" ");
    push_padded(out, player.name.as_str(), 33);
    out.append(" ");
    let rt = crate::text::decimal_string(player.rating as u64);
    push_padded(out, rt.as_str(), 4);
    out.append(" ");
    proof {
        reveal_strlit("");
    }
    push_padded(out, "", 3);
    out.append(" ");
    push_padded(out, "", 11);
    out.append(" ");
    push_padded(out, "", 10);
    out.append(" ");
    push_points(out, player.half_points);
    out.append(" ");
    let z = crate::text::decimal_string(0);
    push_padded(out, z.as_str(), 4);
    assert(out@ =~= start + player_data(rank as nat, sex@, title@, *player));
}

/// The starting rank of the first entry whose player has id `id`.
fn rank_of(players: &Vec<(u16, Player)>, id: i64) -> (r: Option<u16>)
    ensures
        r == rank_of_player(players@, id, 0),
{
    let mut i: usize = 0;
    while i < players.len()
        invariant
            i <= players.len(),
            rank_of_player(players@, id, 0) == rank_of_player(players@, id, i as int),
        decreases players.len() - i,
    {
        if players[i].1.id == id {
            return Some(players[i].0);
        }
        i = i + 1;
    }
    None
}

/// The first game of the round `round_id`.
fn find_game_in_round(games: &Vec<Game>, round_id: i64) -> (r: Option<Game>)
    ensures
        r == game_in_round(games@, round_id, 0),
{
    let mut i: usize = 0;
    while i < games.len()
        invariant
            i <= games.len(),
            game_in_round(games@, round_id, 0) == game_in_round(games@, round_id, i as int),
        decreases games.len() - i,
    {
        if games[i].round_id == round_id {
            return Some(games[i]);
        }
        i = i + 1;
    }
    None
}

/// The first bye of the round `round_id`.
fn find_bye_in_round(byes: &Vec<Bye>, round_id: i64) -> (r: Option<Bye>)
    ensures
        r == bye_in_round(byes@, round_id, 0),
{
    let mut i: usize = 0;
    while i < byes.len()
        invariant
            i <= byes.len(),
            bye_in_round(byes@, round_id, 0) == bye_in_round(byes@, round_id, i as int),
        decreases byes.len() - i,
    {
        if byes[i].round_id == round_id {
            return Some(byes[i]);
        }
        i = i + 1;
    }
    None
}

/// The first game of the round `round_id` in which the player plays.
fn find_player_game(games: &Vec<Game>, player_id: i64, round_id: i64) -> (r: Option<Game>)
    ensures
        r == player_game_in_round(games@, player_id, round_id, 0),
{
    let mut i: usize = 0;
    while i < games.len()
        invariant
            i <= games.len(),
            player_game_in_round(games@, player_id, round_id, 0) == player_game_in_round(
                games@,
                player_id,
                round_id,
                i as int,
            ),
        decreases games.len() - i,
    {
        let g = games[i];
        if g.round_id == round_id && (g.white_id == player_id || g.black_id == player_id) {
            return Some(g);
        }
        i = i + 1;
    }
    None
}

/// The first bye of the round `round_id` for the player.
fn find_player_bye(byes: &Vec<Bye>, player_id: i64, round_id: i64) -> (r: Option<Bye>)
    ensures
        r == player_bye_in_round(byes@, player_id, round_id, 0),
{
    let mut i: usize = 0;
    while i < byes.len()
        invariant
            i <= byes.len(),
            player_bye_in_round(byes@, player_id, round_id, 0) == player_bye_in_round(
                byes@,
                player_id,
                round_id,
                i as int,
            ),
        decreases byes.len() - i,
    {
        let b = byes[i];
        if b.round_id == round_id && b.player_id == player_id {
            return Some(b);
        }
        i = i + 1;
    }
    None
}

/// The entry of a round in a player's line of the pairing engine's input.
fn engine_entry_string(players: &Vec<(u16, Player)>, player: &Player, games: &Vec<Game>, byes: &Vec<Bye>, round_id: i64) -> (s: String)
    ensures
        s@ == engine_entry(players@, *player, games@, byes@, round_id),
{
    proof {
        reveal_strlit("");
        reveal_strlit("1");
        reveal_strlit("=");
        reveal_strlit("0");
    }
    match find_game_in_round(games, round_id) {
        Some(g) => {
            let as_white = g.white_id == player.id;
            let opponent = if as_white {
                g.black_id
            } else {
                g.white_id
            };
            match rank_of(players, opponent) {
                Some(r) => {
                    let mut s = String::new();
                    let rs = crate::text::decimal_string(r as u64);
                    push_padded(&mut s, rs.as_str(), 4);
                    s.append(" w ");
                    let mark: &str = match g.state {
                        GameState::Ongoing => "",
                        GameState::Finished(wp, bp) => if as_white {
                            wp.trf_mark_str()
                        } else {
                            bp.trf_mark_str()
                        },
                    };
                    assert(mark@ == engine_mark(g.state, as_white));
                    push_padded(&mut s, mark, 1);
                    assert(s@ =~= engine_entry(players@, *player, games@, byes@, round_id));
                    s
                },
                None => String::from_str("--------"),
            }
        },
        None => match find_bye_in_round(byes, round_id) {
            Some(b) => {
                let mut s = String::from_str("0000   ");
                let code = b.bye_point.to_string();
                s.append(code.as_str());
                s
            },
            None => String::from_str("--------"),
        },
    }
}

/// The lines of the players in the pairing engine's input, one per player in the
/// order given. `player_games[k]` and `player_byes[k]` are the games and byes of
/// player `k`; each round of `rounds` gives one entry.
pub fn pairing_input_lines(players: &Vec<(u16, Player)>, rounds: &Vec<Round>, player_games: &Vec<Vec<Game>>, player_byes: &Vec<Vec<Bye>>) -> (lines: Vec<String>)
    requires
        player_games.len() == players.len(),
        player_byes.len() == players.len(),
    ensures
        lines.len() == players.len(),
        forall|k: int| 0 <= k < lines.len() ==> #[trigger] lines@[k]@ == engine_line(
            players@,
            k,
            rounds@,
            player_games@[k]@,
            player_byes@[k]@,
        ),
{
    let mut lines: Vec<String> = Vec::new();
    let mut k: usize = 0;
    while k < players.len()
        invariant
            k <= players.len(),
            player_games.len() == players.len(),
            player_byes.len() == players.len(),
            lines.len() == k,
            forall|i: int| 0 <= i < k ==> #[trigger] lines@[i]@ == engine_line(
                players@,
                i,
                rounds@,
                player_games@[i]@,
                player_byes@[i]@,
            ),
        decreases players.len() - k,
    {
        let player = &players[k].1;
        let games = &player_games[k];
        let byes = &player_byes[k];
        let ghost expected = Seq::new(
            rounds@.len(),
            |r: int| engine_entry(players@, players@[k as int].1, games@, byes@, rounds@[r].id),
        );
        let mut entries: Vec<String> = Vec::new();
        let mut r: usize = 0;
        while r < rounds.len()
            invariant
                r <= rounds.len(),
                k < players.len(),
                *player == players@[k as int].1,
                expected == Seq::new(
                    rounds@.len(),
                    |j: int| engine_entry(players@, players@[k as int].1, games@, byes@, rounds@[j].id),
                ),
                string_views(entries@) =~= expected.take(r as int),
            decreases rounds.len() - r,
        {
            let e = engine_entry_string(players, player, games, byes, rounds[r].id);
            let ghost before = string_views(entries@);
            let ghost ev = e@;
            entries.push(e);
            assert(string_views(entries@) =~= before.push(ev));
            assert(string_views(entries@) =~= expected.take(r + 1));
            r = r + 1;
        }
        assert(expected.take(rounds.len() as int) =~= expected);
        let mut line = String::new();
        push_player_data(&mut line, players[k].0, "x", "x", player);
        line.append("  ");
        let joined_entries = join(&entries, "  ");
        line.append(joined_entries.as_str());
        assert(line@ =~= engine_line(players@, k as int, rounds@, games@, byes@));
        lines.push(line);
        k = k + 1;
    }
    lines
}

/// The pairing engine's input: the configuration lines, then the players' lines,
/// each ended by a carriage return and a line feed.
pub open spec fn pairing_input(config: Seq<char>, lines: Seq<Seq<char>>) -> Seq<char> {
    config + "\r\n"@ + joined(lines, "\r\n"@) + "\r\n"@
}

/// The pairing engine's input file's content.
pub fn pairing_input_text(config: &String, lines: &Vec<String>) -> (text: String)
    ensures
        text@ == pairing_input(config@, string_views(lines@)),
{
    let mut text = config.clone();
    text.append("\r\n");
    let body = join(lines, "\r\n");
    text.append(body.as_str());
    text.append("\r\n");
    text
}

/// The entry of a round in a player's line of the tournament report.
fn report_entry_string(players: &Vec<(u16, Player)>, player: &Player, games: &Vec<Game>, byes: &Vec<Bye>, round_id: i64) -> (r: Result<String, Error>)
    ensures
        match (r, report_entry(players@, *player, games@, byes@, round_id)) {
            (Ok(s), Ok(e)) => s@ == e,
            (Err(a), Err(b)) => a == b,
            _ => false,
        },
{
    match find_player_game(games, player.id, round_id) {
        Some(g) => {
            let as_white = player.id == g.white_id;
            let opponent = if as_white {
                g.black_id
            } else {
                g.white_id
            };
            match rank_of(players, opponent) {
                None => Err(Error::InvalidPairing),
                Some(rank) => match g.state {
                    GameState::Finished(wp, bp) => {
                        let mut s = String::new();
                        let rs = crate::text::decimal_string(rank as u64);
                        push_padded(&mut s, rs.as_str(), 4);
                        s.append(" ");
                        if as_white {
                            s.append("w");
                        } else {
                            s.append("b");
                        }
                        s.append(" ");
                        let code = if as_white {
                            wp.to_string()
                        } else {
                            bp.to_string()
                        };
                        s.append(code.as_str());
                        Ok(s)
                    },
                    GameState::Ongoing => Err(Error::InvalidPairing),
                },
            }
        },
        None => match find_player_bye(byes, player.id, round_id) {
            Some(b) => {
                let mut s = String::from_str("0000   ");
                let code = b.bye_point.to_string();
                s.append(code.as_str());
                Ok(s)
            },
            None => Err(Error::PairingNotFound),
        },
    }
}

/// Once the entries of a prefix of the rounds fail, all of them fail the same way.
proof fn lemma_entries_error_persists(players: Seq<(u16, Player)>, player: Player, games: Seq<Game>, byes: Seq<Bye>, rounds: Seq<Round>, k: int)
    requires
        0 <= k <= rounds.len(),
        report_entries(players, player, games, byes, rounds.take(k)) is Err,
    ensures
        report_entries(players, player, games, byes, rounds) == report_entries(players, player, games, byes, rounds.take(k)),
    decreases rounds.len() - k,
{
    if k < rounds.len() {
        assert(rounds.take(k + 1).drop_last() =~= rounds.take(k));
        lemma_entries_error_persists(players, player, games, byes, rounds, k + 1);
    } else {
        assert(rounds.take(k) =~= rounds);
    }
}

/// Once the lines of the first players fail, all the lines fail the same way.
proof fn lemma_lines_error_persists(players: Seq<(u16, Player)>, games: Seq<Game>, byes: Seq<Bye>, rounds: Seq<Round>, k: int, n: int)
    requires
        0 <= k <= n,
        report_lines(players, k, games, byes, rounds) is Err,
    ensures
        report_lines(players, n, games, byes, rounds) == report_lines(players, k, games, byes, rounds),
    decreases n - k,
{
    if k < n {
        lemma_lines_error_persists(players, games, byes, rounds, k, n - 1);
    }
}

/// The players' lines of the tournament report, one per player in the order given,
/// from the games and byes of the rounds played: each player's game in a round is
/// the first one of `games` in which it plays, its bye the first one of `byes` for it.
/// The first player and round without a finished game or a bye gives the error.
pub fn get_players_lines(players: &Vec<(u16, Player)>, rounds: &Vec<Round>, games: &Vec<Game>, byes: &Vec<Bye>) -> (r: Result<Vec<String>, Error>)
    ensures
        match (r, report_lines(players@, players@.len() as int, games@, byes@, rounds@)) {
            (Ok(ls), Ok(expected)) => string_views(ls@) == expected,
            (Err(a), Err(b)) => a == b,
            _ => false,
        },
{
    let mut lines: Vec<String> = Vec::new();
    let mut k: usize = 0;
    assert(string_views(lines@) =~= Seq::<Seq<char>>::empty());
    while k < players.len()
        invariant
            k <= players.len(),
            report_lines(players@, k as int, games@, byes@, rounds@) == Ok::<Seq<Seq<char>>, Error>(
                string_views(lines@),
            ),
        decreases players.len() - k,
    {
        let player = &players[k].1;
        let mut entries: Vec<String> = Vec::new();
        let mut j: usize = 0;
        proof {
            assert(rounds@.take(0) =~= Seq::<Round>::empty());
            assert(string_views(entries@) =~= Seq::<Seq<char>>::empty());
        }
        while j < rounds.len()
            invariant
                j <= rounds.len(),
                k < players.len(),
                *player == players@[k as int].1,
                report_lines(players@, k as int, games@, byes@, rounds@) == Ok::<Seq<Seq<char>>, Error>(
                    string_views(lines@),
                ),
                report_entries(players@, *player, games@, byes@, rounds@.take(j as int)) == Ok::<
                    Seq<Seq<char>>,
                    Error,
                >(string_views(entries@)),
            decreases rounds.len() - j,
        {
            assert(rounds@.take(j + 1).drop_last() =~= rounds@.take(j as int));
            assert(rounds@.take(j + 1).last() == rounds@[j as int]);
            match report_entry_string(players, player, games, byes, rounds[j].id) {
                Ok(e) => {
                    let ghost before = string_views(entries@);
                    let ghost ev = e@;
                    entries.push(e);
                    assert(string_views(entries@) =~= before.push(ev));
                },
                Err(err) => {
                    proof {
                        lemma_entries_error_persists(
                            players@,
                            *player,
                            games@,
                            byes@,
                            rounds@,
                            j + 1,
                        );
                        assert(report_line(players@, players@[k as int], games@, byes@, rounds@)
                            == Err::<Seq<char>, Error>(err));
                        assert(report_lines(players@, k + 1, games@, byes@, rounds@) == Err::<
                            Seq<Seq<char>>,
                            Error,
                        >(err));
                        lemma_lines_error_persists(
                            players@,
                            games@,
                            byes@,
                            rounds@,
                            k + 1,
                            players@.len() as int,
                        );
                    }
                    return Err(err);
                },
            }
            j = j + 1;
        }
        assert(rounds@.take(rounds.len() as int) =~= rounds@);
        let mut line = String::new();
        push_player_data(&mut line, players[k].0, "", "", player);
        line.append("  ");
        let joined_entries = join(&entries, "  ");
        line.append(joined_entries.as_str());
        let ghost lv = line@;
        let ghost before = string_views(lines@);
        lines.push(line);
        assert(string_views(lines@) =~= before.push(lv));
        k = k + 1;
    }
    Ok(lines)
}

/// The player part of every TRF line takes the same 89 columns when its fields
/// fit their columns (rank and rating below 10000, name of at most 33 characters,
/// fewer than 100 points): the columns of the report line up.
pub proof fn lemma_player_data_width(rank: nat, sex: Seq<char>, title: Seq<char>, player: Player)
    requires
        rank < 10000,
        sex.len() <= 1,
        title.len() <= 3,
        player.name@.len() <= 33,
        player.rating < 10000,
        player.half_points < 200,
    ensures
        player_data(rank, sex, title, player).len() == 89,
{
    reveal_strlit("001 ");
    reveal_strlit(" ");
    lemma_decimal_len(rank);
    lemma_decimal_len(player.rating as nat);
    lemma_decimal_len((player.half_points / 2) as nat);
    lemma_decimal_len(0);
    lemma_pad_left_len(decimal(rank), 4);
    lemma_pad_left_len(sex, 1);
    lemma_pad_left_len(title, 3);
    lemma_pad_left_len(player.name@, 33);
    lemma_pad_left_len(decimal(player.rating as nat), 4);
    lemma_pad_left_len(Seq::empty(), 3);
    lemma_pad_left_len(Seq::empty(), 11);
    lemma_pad_left_len(Seq::empty(), 10);
    lemma_pad_left_len(points_text(player.half_points as nat), 4);
    lemma_pad_left_len(decimal(0), 4);
}

/// The player plays a game of the round.
pub open spec fn plays_in_round(games: Seq<Game>, player_id: i64, round_id: i64) -> bool {
    exists|k: int|
        0 <= k < games.len() && #[trigger] games[k].round_id == round_id && (games[k].white_id
            == player_id || games[k].black_id == player_id)
}

/// The player has a bye in the round.
pub open spec fn has_bye_in_round(byes: Seq<Bye>, player_id: i64, round_id: i64) -> bool {
    exists|k: int|
        0 <= k < byes.len() && #[trigger] byes[k].round_id == round_id && byes[k].player_id
            == player_id
}

proof fn lemma_player_game_in_round_found(games: Seq<Game>, player_id: i64, round_id: i64, i: int)
    requires
        0 <= i,
    ensures
        player_game_in_round(games, player_id, round_id, i) matches Some(g) ==> exists|k: int|
            i <= k < games.len() && #[trigger] games[k] == g && g.round_id == round_id && (
            g.white_id == player_id || g.black_id == player_id),
        (forall|k: int|
            i <= k < games.len() ==> !(#[trigger] games[k].round_id == round_id && (
            games[k].white_id == player_id || games[k].black_id == player_id)))
            ==> player_game_in_round(games, player_id, round_id, i) is None,
        (exists|k: int|
            i <= k < games.len() && #[trigger] games[k].round_id == round_id && (games[k].white_id
                == player_id || games[k].black_id == player_id)) ==> player_game_in_round(
            games,
            player_id,
            round_id,
            i,
        ) is Some,
    decreases games.len() - i,
{
    if i < games.len() {
        lemma_player_game_in_round_found(games, player_id, round_id, i + 1);
        assert(games[i] == games[i]);
    }
}

proof fn lemma_player_bye_in_round_found(byes: Seq<Bye>, player_id: i64, round_id: i64, i: int)
    requires
        0 <= i,
    ensures
        player_bye_in_round(byes, player_id, round_id, i) matches Some(b) ==> exists|k: int|
            i <= k < byes.len() && #[trigger] byes[k] == b && b.round_id == round_id
                && b.player_id == player_id,
        (forall|k: int|
            i <= k < byes.len() ==> !(#[trigger] byes[k].round_id == round_id && byes[k].player_id
                == player_id)) ==> player_bye_in_round(byes, player_id, round_id, i) is None,
        (exists|k: int|
            i <= k < byes.len() && #[trigger] byes[k].round_id == round_id && byes[k].player_id
                == player_id) ==> player_bye_in_round(byes, player_id, round_id, i) is Some,
    decreases byes.len() - i,
{
    if i < byes.len() {
        lemma_player_bye_in_round_found(byes, player_id, round_id, i + 1);
        assert(byes[i] == byes[i]);
    }
}

/// A round in which a player has no game is written from that player's own bye:
/// the entry is `0000` and the code of one of its byes of the round; it is written
/// exactly when the player has such a bye, and is `PairingNotFound` otherwise.
pub proof fn lemma_report_bye_entry_is_own(players: Seq<(u16, Player)>, player: Player, games: Seq<Game>, byes: Seq<Bye>, round_id: i64)
    requires
        !plays_in_round(games, player.id, round_id),
    ensures
        report_entry(players, player, games, byes, round_id) matches Ok(e) ==> exists|k: int|
            0 <= k < byes.len() && #[trigger] byes[k].round_id == round_id && byes[k].player_id
                == player.id && e == "0000   "@ + byes[k].bye_point.code(),
        has_bye_in_round(byes, player.id, round_id) <==> report_entry(
            players,
            player,
            games,
            byes,
            round_id,
        ) is Ok,
        !has_bye_in_round(byes, player.id, round_id) ==> report_entry(
            players,
            player,
            games,
            byes,
            round_id,
        ) == Err::<Seq<char>, Error>(Error::PairingNotFound),
{
    lemma_player_game_in_round_found(games, player.id, round_id, 0);
    lemma_player_bye_in_round_found(byes, player.id, round_id, 0);
}

/// `e` is the entry of game `k` of the round, in which the player plays, against the
/// opponent of entry `j`: the opponent's starting rank, the player's own colour
/// (`w` when it has white) and its own result, the game being finished.
pub open spec fn written_from_game(players: Seq<(u16, Player)>, player: Player, games: Seq<Game>, round_id: i64, k: int, j: int, e: Seq<char>) -> bool {
    &&& 0 <= k < games.len()
    &&& 0 <= j < players.len()
    &&& games[k].round_id == round_id
    &&& games[k].white_id == player.id || games[k].black_id == player.id
    &&& players[j].1.id == (if games[k].white_id == player.id {
        games[k].black_id
    } else {
        games[k].white_id
    })
    &&& match games[k].state {
        GameState::Finished(wp, bp) => e == pad_left(decimal(players[j].0 as nat), 4) + " "@ + (
        if games[k].white_id == player.id {
            "w"@
        } else {
            "b"@
        }) + " "@ + (if games[k].white_id == player.id {
            wp.code()
        } else {
            bp.code()
        }),
        GameState::Ongoing => false,
    }
}

/// A round in which a player has a game is written from a finished game of that
/// round in which it plays (see `written_from_game`).
pub proof fn lemma_report_game_entry_is_own(players: Seq<(u16, Player)>, player: Player, games: Seq<Game>, byes: Seq<Bye>, round_id: i64)
    requires
        plays_in_round(games, player.id, round_id),
    ensures
        report_entry(players, player, games, byes, round_id) matches Ok(e) ==> exists|k: int, j: int|
            #[trigger] written_from_game(players, player, games, round_id, k, j, e),
{
    lemma_player_game_in_round_found(games, player.id, round_id, 0);
    if let Some(g) = player_game_in_round(games, player.id, round_id, 0) {
        let opponent = if player.id == g.white_id {
            g.black_id
        } else {
            g.white_id
        };
        lemma_rank_of_player_found(players, opponent, 0);
        let k = choose|k: int|
            0 <= k < games.len() && #[trigger] games[k] == g && g.round_id == round_id && (
            g.white_id == player.id || g.black_id == player.id);
        if let Some(r) = rank_of_player(players, opponent, 0) {
            let j = choose|j: int| 0 <= j < players.len() && #[trigger] players[j] == players[j] && players[j].1.id == opponent && players[j].0 == r;
            if report_entry(players, player, games, byes, round_id) is Ok {
                let e = report_entry(players, player, games, byes, round_id)->Ok_0;
                assert(written_from_game(players, player, games, round_id, k, j, e));
            }
        }
    } else {
        let k = choose|k: int|
            0 <= k < games.len() && #[trigger] games[k].round_id == round_id && (games[k].white_id
                == player.id || games[k].black_id == player.id);
        assert(games[k].round_id == round_id);
    }
}

proof fn lemma_rank_of_player_found(players: Seq<(u16, Player)>, id: i64, i: int)
    requires
        0 <= i,
    ensures
        rank_of_player(players, id, i) matches Some(r) ==> exists|j: int|
            i <= j < players.len() && #[trigger] players[j] == players[j] && players[j].1.id == id && players[j].0 == r,
    decreases players.len() - i,
{
    if i < players.len() {
        lemma_rank_of_player_found(players, id, i + 1);
        assert(players[i] == players[i]);
    }
}

} // verus!
