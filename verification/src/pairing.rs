//! Reading the pairing engine's output: one line per pairing, after a first
//! line that gives their number.
use vstd::prelude::*;
use vstd::string::*;
use crate::models::bye::Bye;
use crate::models::game::{Game, GameState};
use crate::models::player::Player;
use crate::models::point::ByePoint;
use crate::text::{decimal, push_decimal, ascii_bytes, digit_char};
use crate::types::InvokeErrorBind;

verus! {

broadcast use vstd::seq_lib::group_seq_properties;

/// The ASCII whitespace bytes that `split_ascii_whitespace` splits at:
/// space, tab, line feed, form feed and carriage return.
pub open spec fn is_ascii_whitespace(b: u8) -> bool {
    b == 32 || b == 9 || b == 10 || b == 12 || b == 13
}

/// The pieces of `b` between line feeds, as `split('\n')` gives them
/// (there is always at least one piece).
pub open spec fn split_newlines(b: Seq<u8>) -> Seq<Seq<u8>>
    decreases b.len(),
{
    if b.len() == 0 {
        seq![Seq::empty()]
    } else {
        let prev = split_newlines(b.drop_last());
        if b.last() == 10 {
            prev.push(Seq::empty())
        } else {
            prev.update(prev.len() - 1, prev.last().push(b.last()))
        }
    }
}

/// `line` without one trailing carriage return.
pub open spec fn strip_cr(line: Seq<u8>) -> Seq<u8> {
    if line.len() > 0 && line.last() == 13 {
        line.drop_last()
    } else {
        line
    }
}

/// The lines of a text, as `str::lines` gives them: split at line feeds, a
/// final line feed ends the last line rather than starting an empty one, and a
/// carriage return just before a line feed belongs to the line ending.
pub open spec fn text_lines(b: Seq<u8>) -> Seq<Seq<u8>> {
    let pieces = split_newlines(b);
    if b.len() == 0 {
        Seq::empty()
    } else if b.last() == 10 {
        Seq::new((pieces.len() - 1) as nat, |k: int| strip_cr(pieces[k]))
    } else {
        Seq::new(
            pieces.len(),
            |k: int|
                if k < pieces.len() - 1 {
                    strip_cr(pieces[k])
                } else {
                    pieces[k]
                },
        )
    }
}

/// The words of a line, as `split_ascii_whitespace` gives them: the maximal
/// runs of bytes that are not ASCII whitespace.
pub open spec fn words(b: Seq<u8>) -> Seq<Seq<u8>>
    decreases b.len(),
{
    if b.len() == 0 {
        Seq::empty()
    } else {
        let prev = words(b.drop_last());
        let c = b.last();
        if is_ascii_whitespace(c) {
            prev
        } else if b.len() >= 2 && !is_ascii_whitespace(b[b.len() - 2]) {
            prev.update(prev.len() - 1, prev.last().push(c))
        } else {
            prev.push(seq![c])
        }
    }
}

/// Whether the byte is an ASCII decimal digit.
pub open spec fn is_digit(b: u8) -> bool {
    48 <= b <= 57
}

/// The number that a run of decimal digits spells.
pub open spec fn digits_value(d: Seq<u8>) -> nat
    decreases d.len(),
{
    if d.len() == 0 {
        0
    } else {
        (digits_value(d.drop_last()) * 10 + (d.last() - 48)) as nat
    }
}

/// The digits of a word after an optional leading `+`.
pub open spec fn unsigned_part(t: Seq<u8>) -> Seq<u8> {
    if t.len() > 0 && t[0] == 43 {
        t.drop_first()
    } else {
        t
    }
}

/// Whether every byte is a decimal digit.
pub open spec fn all_digits(d: Seq<u8>) -> bool {
    forall|k: int| 0 <= k < d.len() ==> is_digit(#[trigger] d[k])
}

/// The number that a word spells, as `str::parse::<u16>` reads it: an optional
/// `+`, then at least one decimal digit and nothing else, with a value that fits
/// in a `u16`.
pub open spec fn parse_u16(t: Seq<u8>) -> Option<u16> {
    let d = unsigned_part(t);
    if d.len() > 0 && all_digits(d) && digits_value(d) <= 65535 {
        Some(digits_value(d) as u16)
    } else {
        None
    }
}

/// The id in word `k` of a line's words, or 0 when there is no such word or it
/// is not a number.
pub open spec fn id_field(ws: Seq<Seq<u8>>, k: int) -> u16 {
    if 0 <= k < ws.len() {
        match parse_u16(ws[k]) {
            Some(n) => n,
            None => 0,
        }
    } else {
        0
    }
}

/// The pairings that the pairing engine's output text gives: for each line after
/// the first, the starting ranks in its first two words (0 where one is missing or
/// is not a number). A pairing whose second rank is 0 is a bye.
pub open spec fn bbp_pairs(text: Seq<u8>) -> Seq<(u16, u16)> {
    let ls = text_lines(text);
    Seq::new(
        if ls.len() > 0 {
            (ls.len() - 1) as nat
        } else {
            0
        },
        |k: int| (id_field(words(ls[k + 1]), 0), id_field(words(ls[k + 1]), 1)),
    )
}

/// The views of a sequence of byte vectors.
pub open spec fn byte_views(v: Seq<Vec<u8>>) -> Seq<Seq<u8>> {
    v.map_values(|x: Vec<u8>| x@)
}

proof fn lemma_split_newlines_nonempty(b: Seq<u8>)
    ensures
        split_newlines(b).len() >= 1,
    decreases b.len(),
{
    if b.len() > 0 {
        lemma_split_newlines_nonempty(b.drop_last());
    }
}

/// `line` without one trailing carriage return.
fn strip_cr_vec(line: &mut Vec<u8>)
    ensures
        final(line)@ == strip_cr(old(line)@),
{
    let n = line.len();
    if n > 0 && line[n - 1] == 13 {
        line.pop();
    }
}

/// Splits a text into its lines, as `str::lines` does.
fn split_lines(b: &[u8]) -> (ls: Vec<Vec<u8>>)
    ensures
        byte_views(ls@) == text_lines(b@),
{
    let n = b.len();
    let mut done: Vec<Vec<u8>> = Vec::new();
    let mut cur: Vec<u8> = Vec::new();
    let mut j: usize = 0;
    proof {
        assert(b@.take(0) =~= Seq::<u8>::empty());
        assert(byte_views(done@) =~= Seq::new(0, |k: int| strip_cr(split_newlines(b@.take(0))[k])));
    }
    while j < n
        invariant
            n == b@.len(),
            j <= n,
            split_newlines(b@.take(j as int)).len() >= 1,
            byte_views(done@) == Seq::new(
                (split_newlines(b@.take(j as int)).len() - 1) as nat,
                |k: int| strip_cr(split_newlines(b@.take(j as int))[k]),
            ),
            cur@ == split_newlines(b@.take(j as int)).last(),
        decreases n - j,
    {
        let ghost pieces = split_newlines(b@.take(j as int));
        assert(b@.take(j + 1).drop_last() =~= b@.take(j as int));
        let c = b[j];
        let ghost old_done = done@;
        if c == 10 {
            let mut line = cur;
            strip_cr_vec(&mut line);
            let ghost line_view = line@;
            done.push(line);
            cur = Vec::new();
            proof {
                let pieces2 = split_newlines(b@.take(j + 1));
                assert(pieces2 == pieces.push(Seq::empty()));
                assert(byte_views(done@) =~= byte_views(old_done).push(line_view));
                assert(line_view == strip_cr(pieces2[pieces.len() - 1]));
                assert(byte_views(done@) =~= Seq::new(
                    (pieces2.len() - 1) as nat,
                    |k: int| strip_cr(pieces2[k]),
                ));
                assert(cur@ =~= pieces2.last());
            }
        } else {
            cur.push(c);
            proof {
                let pieces2 = split_newlines(b@.take(j + 1));
                assert(pieces2 == pieces.update(pieces.len() - 1, pieces.last().push(c)));
                assert(byte_views(done@) =~= Seq::new(
                    (pieces2.len() - 1) as nat,
                    |k: int| strip_cr(pieces2[k]),
                ));
            }
        }
        j = j + 1;
    }
    proof {
        assert(b@.take(n as int) =~= b@);
    }
    let ghost pieces = split_newlines(b@);
    if n == 0 {
        let empty: Vec<Vec<u8>> = Vec::new();
        assert(byte_views(empty@) =~= text_lines(b@));
        empty
    } else if b[n - 1] == 10 {
        assert(b@.last() == 10);
        assert(byte_views(done@) =~= text_lines(b@));
        done
    } else {
        assert(b@.last() != 10);
        let ghost old_done = done@;
        let ghost cur_view = cur@;
        done.push(cur);
        assert(byte_views(done@) =~= byte_views(old_done).push(cur_view));
        assert(byte_views(done@) =~= text_lines(b@));
        done
    }
}

proof fn lemma_words_last_nonempty(b: Seq<u8>)
    requires
        b.len() > 0,
        !is_ascii_whitespace(b.last()),
    ensures
        words(b).len() >= 1,
    decreases b.len(),
{
    if b.len() >= 2 && !is_ascii_whitespace(b[b.len() - 2]) {
        lemma_words_last_nonempty(b.drop_last());
    }
}

/// Splits a line into its words, as `split_ascii_whitespace` does.
fn line_words(line: &Vec<u8>) -> (ws: Vec<Vec<u8>>)
    ensures
        byte_views(ws@) == words(line@),
{
    let n = line.len();
    let mut ws: Vec<Vec<u8>> = Vec::new();
    let mut j: usize = 0;
    proof {
        assert(line@.take(0) =~= Seq::<u8>::empty());
        assert(byte_views(ws@) =~= words(line@.take(0)));
    }
    while j < n
        invariant
            n == line@.len(),
            j <= n,
            byte_views(ws@) == words(line@.take(j as int)),
        decreases n - j,
    {
        let ghost prev = words(line@.take(j as int));
        assert(line@.take(j + 1).drop_last() =~= line@.take(j as int));
        let c = line[j];
        let ws_c = c == 32 || c == 9 || c == 10 || c == 12 || c == 13;
        if ws_c {
        } else if j >= 1 && !(line[j - 1] == 32 || line[j - 1] == 9 || line[j - 1] == 10
            || line[j - 1] == 12 || line[j - 1] == 13) {
            proof {
                lemma_words_last_nonempty(line@.take(j as int));
                assert(line@.take(j as int).last() == line@[j - 1]);
            }
            let mut last = ws.pop().unwrap();
            last.push(c);
            ws.push(last);
            proof {
                assert(line@.take(j + 1)[j - 1] == line@[j - 1]);
                assert(byte_views(ws@) =~= prev.update(prev.len() - 1, prev.last().push(c)));
            }
        } else {
            let mut w: Vec<u8> = Vec::new();
            w.push(c);
            ws.push(w);
            proof {
                if j >= 1 {
                    assert(line@.take(j + 1)[j - 1] == line@[j - 1]);
                }
                assert(byte_views(ws@) =~= prev.push(seq![c]));
            }
        }
        j = j + 1;
    }
    proof {
        assert(line@.take(n as int) =~= line@);
    }
    ws
}

/// The value of a run of digits does not shrink as digits are added.
proof fn lemma_digits_value_grows(d: Seq<u8>, k: int)
    requires
        0 <= k <= d.len(),
        forall|i: int| 0 <= i < d.len() ==> is_digit(#[trigger] d[i]),
    ensures
        digits_value(d.take(k)) <= digits_value(d),
    decreases d.len() - k,
{
    if k < d.len() {
        lemma_digits_value_grows(d, k + 1);
        assert(d.take(k + 1).drop_last() =~= d.take(k));
    } else {
        assert(d.take(k) =~= d);
    }
}

/// One more digit: the value of the first `m + 1` digits is ten times that of the
/// first `m`, plus the new digit.
proof fn lemma_digits_value_step(d: Seq<u8>, m: int)
    requires
        0 <= m < d.len(),
        is_digit(d[m]),
    ensures
        digits_value(d.take(m + 1)) == digits_value(d.take(m)) * 10 + (d[m] - 48),
{
    assert(d.take(m + 1).drop_last() =~= d.take(m));
    assert(d.take(m + 1).last() == d[m]);
}

/// Reads a word as a `u16`, as `str::parse::<u16>` does.
#[verifier::spinoff_prover]
#[verifier::rlimit(40)]
fn parse_u16_word(t: &Vec<u8>) -> (r: Option<u16>)
    ensures
        r == parse_u16(t@),
{
    let n = t.len();
    let start: usize = if n > 0 && t[0] == 43 {
        1
    } else {
        0
    };
    let ghost d = unsigned_part(t@);
    assert(d =~= t@.skip(start as int));
    if start == n {
        assert(d.len() == 0);
        return None;
    }
    let mut value: u32 = 0;
    let mut j: usize = start;
    proof {
        assert(d.take(0) =~= Seq::<u8>::empty());
    }
    while j < n
        invariant
            n == t@.len(),
            start <= j <= n,
            d =~= t@.skip(start as int),
            d == unsigned_part(t@),
            forall|i: int| 0 <= i < j - start ==> is_digit(#[trigger] d[i]),
            value as nat == digits_value(d.take(j - start)),
            value <= 65535,
        decreases n - j,
    {
        let c = t[j];
        if !(48 <= c && c <= 57) {
            assert(d[j - start] == c);
            assert(!is_digit(d[j - start]));
            assert(!all_digits(d));
            return None;
        }
        proof {
            lemma_digits_value_step(d, j - start);
        }
        let next = value * 10 + (c - 48) as u32;
        assert(digits_value(d.take(j - start + 1)) == next as nat);
        if next > 65535 {
            proof {
                if all_digits(d) {
                    lemma_digits_value_grows(d, j - start + 1);
                }
            }
            return None;
        }
        value = next;
        j = j + 1;
    }
    assert(d.take(n - start) =~= d);
    Some(value as u16)
}

/// The id in word `k` of a line's words, or 0.
fn id_field_of(ws: &Vec<Vec<u8>>, k: usize) -> (r: u16)
    ensures
        r == id_field(byte_views(ws@), k as int),
{
    if k < ws.len() {
        match parse_u16_word(&ws[k]) {
            Some(v) => v,
            None => 0,
        }
    } else {
        0
    }
}

/// The pairings in the pairing engine's output: for each line after the first,
/// the starting ranks of white and black, or of a player and 0 for a bye.
pub fn parse_bbp_output(text: &str) -> (ids: Vec<(u16, u16)>)
    ensures
        ids@ == bbp_pairs(text.spec_bytes()),
{
    let b = text.as_bytes();
    let ls = split_lines(b);
    let mut ids: Vec<(u16, u16)> = Vec::new();
    let mut k: usize = 1;
    let ghost lv = text_lines(b@);
    while k < ls.len()
        invariant
            byte_views(ls@) == lv,
            lv == text_lines(b@),
            1 <= k,
            k <= ls.len() || k == 1,
            ids@.len() == k - 1,
            forall|i: int| 0 <= i < k - 1 ==> #[trigger] ids@[i] == (
                id_field(words(lv[i + 1]), 0),
                id_field(words(lv[i + 1]), 1),
            ),
        decreases ls.len() - k,
    {
        let ws = line_words(&ls[k]);
        assert(ls@[k as int]@ == lv[k as int]);
        let white = id_field_of(&ws, 0);
        let black = id_field_of(&ws, 1);
        ids.push((white, black));
        k = k + 1;
    }
    assert(lv.len() == ls@.len());
    assert(ids@.len() == bbp_pairs(b@).len());
    assert forall|i: int| 0 <= i < ids@.len() implies ids@[i] == bbp_pairs(b@)[i] by {
        assert(ids@[i] == (id_field(words(lv[i + 1]), 0), id_field(words(lv[i + 1]), 1)));
    }
    assert(ids@ =~= bbp_pairs(b@));
    ids
}


/// The player id of the first entry at or after position `i` that has starting rank `rank`.
pub open spec fn id_with_rank_from(ranked: Seq<(u16, Player)>, rank: u16, i: int) -> Option<i64>
    decreases ranked.len() - i,
{
    if 0 <= i < ranked.len() {
        if ranked[i].0 == rank {
            Some(ranked[i].1.id)
        } else {
            id_with_rank_from(ranked, rank, i + 1)
        }
    } else {
        None
    }
}

/// The player id of the first entry with starting rank `rank`.
pub fn id_with_rank(ranked: &Vec<(u16, Player)>, rank: u16) -> (r: Option<i64>)
    ensures
        r == id_with_rank_from(ranked@, rank, 0),
{
    let mut i: usize = 0;
    while i < ranked.len()
        invariant
            i <= ranked.len(),
            id_with_rank_from(ranked@, rank, 0) == id_with_rank_from(ranked@, rank, i as int),
        decreases ranked.len() - i,
    {
        if ranked[i].0 == rank {
            return Some(ranked[i].1.id);
        }
        i = i + 1;
    }
    None
}

/// The game that a pairing of two starting ranks gives, or the message that refuses it.
pub open spec fn game_for_pair(ranked: Seq<(u16, Player)>, pair: (u16, u16)) -> Result<Game, Seq<char>> {
    match id_with_rank_from(ranked, pair.0, 0) {
        None => Err("Invalid white id "@ + decimal(pair.0 as nat)),
        Some(white) => match id_with_rank_from(ranked, pair.1, 0) {
            None => Err("Invalid black id "@ + decimal(pair.1 as nat)),
            Some(black) => if white == black {
                Err("Same players w:"@ + decimal(pair.0 as nat) + "\tb:"@ + decimal(pair.1 as nat))
            } else {
                Ok(Game::spec_new(white, black))
            },
        },
    }
}

/// The games that a list of pairings gives, or the message of the first pairing refused.
pub open spec fn games_for_pairs(ranked: Seq<(u16, Player)>, pairs: Seq<(u16, u16)>) -> Result<Seq<Game>, Seq<char>>
    decreases pairs.len(),
{
    if pairs.len() == 0 {
        Ok(Seq::empty())
    } else {
        match games_for_pairs(ranked, pairs.drop_last()) {
            Err(e) => Err(e),
            Ok(gs) => match game_for_pair(ranked, pairs.last()) {
                Err(e) => Err(e),
                Ok(g) => Ok(gs.push(g)),
            },
        }
    }
}

/// The bye that a bye line of the pairing engine gives, or the message that refuses it.
pub open spec fn bye_for_pair(ranked: Seq<(u16, Player)>, pair: (u16, u16)) -> Result<Bye, Seq<char>> {
    if pair.1 != 0 {
        Err("Invalid bye "@ + decimal(pair.1 as nat))
    } else {
        match id_with_rank_from(ranked, pair.0, 0) {
            None => Err("Invalid player id "@ + decimal(pair.0 as nat)),
            Some(id) => Ok(Bye::spec_new(id, ByePoint::U)),
        }
    }
}

/// The byes that a list of bye lines gives, or the message of the first line refused.
pub open spec fn byes_for_pairs(ranked: Seq<(u16, Player)>, pairs: Seq<(u16, u16)>) -> Result<Seq<Bye>, Seq<char>>
    decreases pairs.len(),
{
    if pairs.len() == 0 {
        Ok(Seq::empty())
    } else {
        match byes_for_pairs(ranked, pairs.drop_last()) {
            Err(e) => Err(e),
            Ok(bs) => match bye_for_pair(ranked, pairs.last()) {
                Err(e) => Err(e),
                Ok(b) => Ok(bs.push(b)),
            },
        }
    }
}

/// The position of the first pairing at or after `i` whose second rank is 0, or
/// the number of pairings when there is none.
pub open spec fn first_bye_from(pairs: Seq<(u16, u16)>, i: int) -> int
    decreases pairs.len() - i,
{
    if 0 <= i < pairs.len() {
        if pairs[i].1 == 0 {
            i
        } else {
            first_bye_from(pairs, i + 1)
        }
    } else {
        pairs.len() as int
    }
}

/// What a round's pairings give: the pairings before the first bye line are
/// games, the rest are byes; no pairing at all is refused.
pub open spec fn round_plan(ranked: Seq<(u16, Player)>, pairs: Seq<(u16, u16)>) -> Result<(Seq<Game>, Seq<Bye>), Seq<char>> {
    if pairs.len() == 0 {
        Err("No valid pairing"@)
    } else {
        let split = first_bye_from(pairs, 0);
        match games_for_pairs(ranked, pairs.take(split)) {
            Err(e) => Err(e),
            Ok(gs) => match byes_for_pairs(ranked, pairs.skip(split)) {
                Err(e) => Err(e),
                Ok(bs) => Ok((gs, bs)),
            },
        }
    }
}

proof fn lemma_first_bye_bounds(pairs: Seq<(u16, u16)>, i: int)
    requires
        0 <= i <= pairs.len(),
    ensures
        i <= first_bye_from(pairs, i) <= pairs.len(),
    decreases pairs.len() - i,
{
    if i < pairs.len() && pairs[i].1 != 0 {
        lemma_first_bye_bounds(pairs, i + 1);
    }
}

/// The first position of a pairing whose second rank is 0, or the number of pairings.
fn first_bye(pairs: &Vec<(u16, u16)>) -> (r: usize)
    ensures
        r == first_bye_from(pairs@, 0),
        r <= pairs.len(),
{
    let mut i: usize = 0;
    while i < pairs.len()
        invariant
            i <= pairs.len(),
            first_bye_from(pairs@, 0) == first_bye_from(pairs@, i as int),
        decreases pairs.len() - i,
    {
        if pairs[i].1 == 0 {
            return i;
        }
        i = i + 1;
    }
    i
}

/// The error `Other` with the message `message`.
fn message_error(message: String) -> (e: InvokeErrorBind)
    ensures
        e matches InvokeErrorBind::Other(m) && m@ == message@,
{
    InvokeErrorBind::Other(message)
}

/// Whether `r` is the result that a spec result stands for: the same values, or the
/// error `Other` with the same message.
pub open spec fn result_matches<A, B>(r: Result<A, InvokeErrorBind>, s: Result<B, Seq<char>>, same: spec_fn(A, B) -> bool) -> bool {
    match (r, s) {
        (Ok(a), Ok(b)) => same(a, b),
        (Err(InvokeErrorBind::Other(m)), Err(e)) => m@ == e,
        _ => false,
    }
}

/// The games and byes that the pairing engine's pairings give, for players with
/// the given starting ranks: the pairings before the first bye line become new
/// games (white first), the rest become full-point byes. Unknown ranks, a player
/// paired with himself, a bye line with a second rank, or no pairing at all are
/// refused with the error `Other` and the message that `round_plan` gives.
pub fn games_and_byes_from_pairs(ranked: &Vec<(u16, Player)>, id_pairs: &Vec<(u16, u16)>) -> (r: Result<(Vec<Game>, Vec<Bye>), InvokeErrorBind>)
    ensures
        result_matches(r, round_plan(ranked@, id_pairs@), |a: (Vec<Game>, Vec<Bye>), b: (Seq<Game>, Seq<Bye>)| a.0@ == b.0 && a.1@ == b.1),
{
    if id_pairs.len() == 0 {
        return Err(message_error(String::from_str("No valid pairing")));
    }
    let split = first_bye(id_pairs);
    proof {
        lemma_first_bye_bounds(id_pairs@, 0);
    }
    let ghost game_pairs = id_pairs@.take(split as int);
    let ghost bye_pairs = id_pairs@.skip(split as int);
    let mut games: Vec<Game> = Vec::new();
    let mut i: usize = 0;
    proof {
        assert(game_pairs.take(0) =~= Seq::<(u16, u16)>::empty());
    }
    while i < split
        invariant
            id_pairs.len() > 0,
            split == first_bye_from(id_pairs@, 0),
            split <= id_pairs.len(),
            i <= split,
            game_pairs == id_pairs@.take(split as int),
            games_for_pairs(ranked@, game_pairs.take(i as int)) == Ok::<Seq<Game>, Seq<char>>(games@),
        decreases split - i,
    {
        let (w, b) = id_pairs[i];
        assert(game_pairs.take(i + 1).drop_last() =~= game_pairs.take(i as int));
        assert(game_pairs.take(i + 1).last() == (w, b));
        let white = id_with_rank(ranked, w);
        let white_id = match white {
            Some(id) => id,
            None => {
                let mut m = String::from_str("Invalid white id ");
                push_decimal(&mut m, w as u64);
                proof {
                    lemma_games_error_persists(ranked@, game_pairs, i as int + 1);
                }
                return Err(message_error(m));
            },
        };
        let black = id_with_rank(ranked, b);
        let black_id = match black {
            Some(id) => id,
            None => {
                let mut m = String::from_str("Invalid black id ");
                push_decimal(&mut m, b as u64);
                proof {
                    lemma_games_error_persists(ranked@, game_pairs, i as int + 1);
                }
                return Err(message_error(m));
            },
        };
        if white_id == black_id {
            let mut m = String::from_str("Same players w:");
            push_decimal(&mut m, w as u64);
            m.append("\tb:");
            push_decimal(&mut m, b as u64);
            proof {
                assert(m@ =~= "Same players w:"@ + decimal(w as nat) + "\tb:"@ + decimal(b as nat));
                lemma_games_error_persists(ranked@, game_pairs, i as int + 1);
            }
            return Err(message_error(m));
        }
        games.push(Game::new(white_id, black_id));
        i = i + 1;
    }
    assert(game_pairs.take(split as int) =~= game_pairs);
    let mut byes: Vec<Bye> = Vec::new();
    let mut j: usize = split;
    proof {
        assert(bye_pairs.take(0) =~= Seq::<(u16, u16)>::empty());
    }
    while j < id_pairs.len()
        invariant
            id_pairs.len() > 0,
            split == first_bye_from(id_pairs@, 0),
            game_pairs == id_pairs@.take(split as int),
            split <= j <= id_pairs.len(),
            bye_pairs == id_pairs@.skip(split as int),
            games_for_pairs(ranked@, game_pairs) == Ok::<Seq<Game>, Seq<char>>(games@),
            byes_for_pairs(ranked@, bye_pairs.take(j - split)) == Ok::<Seq<Bye>, Seq<char>>(byes@),
        decreases id_pairs.len() - j,
    {
        let (p, b) = id_pairs[j];
        assert(bye_pairs.take(j - split + 1).drop_last() =~= bye_pairs.take(j - split));
        assert(bye_pairs.take(j - split + 1).last() == (p, b));
        if b != 0 {
            let mut m = String::from_str("Invalid bye ");
            push_decimal(&mut m, b as u64);
            proof {
                lemma_byes_error_persists(ranked@, bye_pairs, j - split + 1);
            }
            return Err(message_error(m));
        }
        let player = id_with_rank(ranked, p);
        let player_id = match player {
            Some(id) => id,
            None => {
                let mut m = String::from_str("Invalid player id ");
                push_decimal(&mut m, p as u64);
                proof {
                    lemma_byes_error_persists(ranked@, bye_pairs, j - split + 1);
                }
                return Err(message_error(m));
            },
        };
        byes.push(Bye::new(player_id, ByePoint::U));
        j = j + 1;
    }
    assert(bye_pairs.take(id_pairs.len() - split) =~= bye_pairs);
    Ok((games, byes))
}

/// Once a prefix of the pairings is refused, the whole list is refused with the same message.
proof fn lemma_games_error_persists(ranked: Seq<(u16, Player)>, pairs: Seq<(u16, u16)>, k: int)
    requires
        0 <= k <= pairs.len(),
        games_for_pairs(ranked, pairs.take(k)) is Err,
    ensures
        games_for_pairs(ranked, pairs) == games_for_pairs(ranked, pairs.take(k)),
    decreases pairs.len() - k,
{
    if k < pairs.len() {
        assert(pairs.take(k + 1).drop_last() =~= pairs.take(k));
        lemma_games_error_persists(ranked, pairs, k + 1);
    } else {
        assert(pairs.take(k) =~= pairs);
    }
}

/// Once a prefix of the bye lines is refused, the whole list is refused with the same message.
proof fn lemma_byes_error_persists(ranked: Seq<(u16, Player)>, pairs: Seq<(u16, u16)>, k: int)
    requires
        0 <= k <= pairs.len(),
        byes_for_pairs(ranked, pairs.take(k)) is Err,
    ensures
        byes_for_pairs(ranked, pairs) == byes_for_pairs(ranked, pairs.take(k)),
    decreases pairs.len() - k,
{
    if k < pairs.len() {
        assert(pairs.take(k + 1).drop_last() =~= pairs.take(k));
        lemma_byes_error_persists(ranked, pairs, k + 1);
    } else {
        assert(pairs.take(k) =~= pairs);
    }
}

/// The players paired with their starting ranks 1, 2, 3, ... in the order given.
pub fn assign_starting_ranks(players: Vec<Player>) -> (ranked: Vec<(u16, Player)>)
    requires
        players.len() <= u16::MAX,
    ensures
        ranked.len() == players.len(),
        forall|i: int| 0 <= i < ranked.len() ==> #[trigger] ranked@[i] == ((i + 1) as u16, players@[i]),
{
    let ghost input = players@;
    let n = players.len();
    let mut rest = players;
    let mut ranked: Vec<(u16, Player)> = Vec::new();
    let mut i: usize = 0;
    while i < n
        invariant
            n == input.len(),
            n <= u16::MAX,
            i <= n,
            rest@ == input.skip(i as int),
            ranked.len() == i,
            forall|k: int| 0 <= k < i ==> #[trigger] ranked@[k] == ((k + 1) as u16, input[k]),
        decreases n - i,
    {
        let p = rest.remove(0);
        assert(rest@ =~= input.skip(i + 1));
        ranked.push(((i + 1) as u16, p));
        i = i + 1;
    }
    ranked
}

/// Whether any of the games is still being played.
pub open spec fn has_ongoing_game(games: Seq<Game>) -> bool {
    exists|k: int| 0 <= k < games.len() && #[trigger] games[k].state == GameState::Ongoing
}

/// Whether there is a current round and one of its games is still being played.
pub open spec fn round_is_ongoing(current_round_games: Option<Vec<Game>>) -> bool {
    match current_round_games {
        Some(games) => has_ongoing_game(games@),
        None => false,
    }
}

/// Whether a new round may be paired: not while a game of the current round is
/// still being played (error `Other("Ongoing round")`), and not with fewer than two
/// players (error `Other("Not enough players")`).
pub fn check_pairing_allowed(current_round_games: &Option<Vec<Game>>, player_count: usize) -> (r: Result<(), InvokeErrorBind>)
    ensures
        round_is_ongoing(*current_round_games) ==> (r matches Err(InvokeErrorBind::Other(m))
            && m@ == "Ongoing round"@),
        !round_is_ongoing(*current_round_games) && player_count < 2 ==> (r matches Err(
            InvokeErrorBind::Other(m),
        ) && m@ == "Not enough players"@),
        !round_is_ongoing(*current_round_games) && player_count >= 2 ==> r is Ok,
{
    match current_round_games {
        Some(games) => {
            let mut k: usize = 0;
            while k < games.len()
                invariant
                    *current_round_games == Some(*games),
                    k <= games.len(),
                    forall|i: int| 0 <= i < k ==> #[trigger] games@[i].state != GameState::Ongoing,
                decreases games.len() - k,
            {
                if games[k].is_ongoing() {
                    assert(games@[k as int].state == GameState::Ongoing);
                    return Err(message_error(String::from_str("Ongoing round")));
                }
                k = k + 1;
            }
        },
        None => {},
    }
    if player_count < 2 {
        return Err(message_error(String::from_str("Not enough players")));
    }
    Ok(())
}

/// Whether some entry of the ranking is the player with id `id`.
pub open spec fn is_ranked(ranked: Seq<(u16, Player)>, id: i64) -> bool {
    exists|k: int| 0 <= k < ranked.len() && #[trigger] ranked[k].1.id == id
}

proof fn lemma_id_with_rank_is_ranked(ranked: Seq<(u16, Player)>, rank: u16, i: int)
    ensures
        id_with_rank_from(ranked, rank, i) matches Some(id) ==> is_ranked(ranked, id),
    decreases ranked.len() - i,
{
    if 0 <= i < ranked.len() {
        if ranked[i].0 == rank {
            assert(ranked[i].1.id == ranked[i].1.id);
        } else {
            lemma_id_with_rank_is_ranked(ranked, rank, i + 1);
        }
    }
}

/// The game is a new, unplayed game between two different ranked players.
pub open spec fn game_between_ranked(ranked: Seq<(u16, Player)>, g: Game) -> bool {
    &&& g.white_id != g.black_id
    &&& is_ranked(ranked, g.white_id)
    &&& is_ranked(ranked, g.black_id)
    &&& g.state == GameState::Ongoing
}

/// Each game is a new, unplayed game between two different ranked players.
pub open spec fn games_between_ranked(ranked: Seq<(u16, Player)>, gs: Seq<Game>) -> bool {
    forall|i: int| 0 <= i < gs.len() ==> game_between_ranked(ranked, #[trigger] gs[i])
}

/// The bye is a full-point bye of a ranked player.
pub open spec fn bye_of_ranked(ranked: Seq<(u16, Player)>, b: Bye) -> bool {
    &&& b.bye_point == ByePoint::U
    &&& is_ranked(ranked, b.player_id)
}

/// Each bye is a full-point bye of a ranked player, on a line whose second rank is 0.
pub open spec fn byes_of_ranked(ranked: Seq<(u16, Player)>, pairs: Seq<(u16, u16)>, bs: Seq<Bye>) -> bool {
    forall|i: int| 0 <= i < bs.len() ==> bye_of_ranked(ranked, #[trigger] bs[i]) && pairs[i].1 == 0
}

proof fn lemma_games_shape(ranked: Seq<(u16, Player)>, pairs: Seq<(u16, u16)>)
    requires
        games_for_pairs(ranked, pairs) is Ok,
    ensures
        games_for_pairs(ranked, pairs)->Ok_0.len() == pairs.len(),
        games_between_ranked(ranked, games_for_pairs(ranked, pairs)->Ok_0),
    decreases pairs.len(),
{
    if pairs.len() > 0 {
        let prev = games_for_pairs(ranked, pairs.drop_last())->Ok_0;
        lemma_games_shape(ranked, pairs.drop_last());
        lemma_id_with_rank_is_ranked(ranked, pairs.last().0, 0);
        lemma_id_with_rank_is_ranked(ranked, pairs.last().1, 0);
        let g = game_for_pair(ranked, pairs.last())->Ok_0;
        let gs = games_for_pairs(ranked, pairs)->Ok_0;
        assert(gs == prev.push(g));
        assert forall|i: int| 0 <= i < gs.len() implies game_between_ranked(ranked, #[trigger] gs[i]) by {
            if i < prev.len() {
                assert(gs[i] == prev[i]);
            } else {
                let w = id_with_rank_from(ranked, pairs.last().0, 0);
                let bl = id_with_rank_from(ranked, pairs.last().1, 0);
                assert(w is Some && bl is Some);
                assert(g.white_id == w->Some_0 && g.black_id == bl->Some_0);
                assert(gs[i] == g);
                assert(is_ranked(ranked, g.white_id));
                assert(is_ranked(ranked, g.black_id));
                assert(g.white_id != g.black_id);
                assert(g.state == GameState::Ongoing);
            }
        }
        assert(games_between_ranked(ranked, gs));
    }
}

proof fn lemma_byes_shape(ranked: Seq<(u16, Player)>, pairs: Seq<(u16, u16)>)
    requires
        byes_for_pairs(ranked, pairs) is Ok,
    ensures
        byes_for_pairs(ranked, pairs)->Ok_0.len() == pairs.len(),
        byes_of_ranked(ranked, pairs, byes_for_pairs(ranked, pairs)->Ok_0),
    decreases pairs.len(),
{
    if pairs.len() > 0 {
        let prev = byes_for_pairs(ranked, pairs.drop_last())->Ok_0;
        lemma_byes_shape(ranked, pairs.drop_last());
        lemma_id_with_rank_is_ranked(ranked, pairs.last().0, 0);
        let b = bye_for_pair(ranked, pairs.last())->Ok_0;
        let bs = byes_for_pairs(ranked, pairs)->Ok_0;
        assert(bs == prev.push(b));
        assert forall|i: int| 0 <= i < bs.len() implies bye_of_ranked(ranked, #[trigger] bs[i]) && pairs[i].1 == 0 by {
            if i < prev.len() {
                assert(bs[i] == prev[i]);
                assert(pairs.drop_last()[i] == pairs[i]);
            } else {
                assert(bs[i] == b);
            }
        }
    }
}

/// The games and byes of a round account for every pairing once: the games come
/// from the first pairings, the byes from the rest (see `games_between_ranked` and
/// `byes_of_ranked`).
pub open spec fn accounts_for_pairs(ranked: Seq<(u16, Player)>, pairs: Seq<(u16, u16)>, gs: Seq<Game>, bs: Seq<Bye>) -> bool {
    &&& gs.len() + bs.len() == pairs.len()
    &&& games_between_ranked(ranked, gs)
    &&& byes_of_ranked(ranked, pairs.skip(gs.len() as int), bs)
}

/// A round that the pairings give accounts for every pairing once (see `accounts_for_pairs`).
pub proof fn lemma_round_plan_shape(ranked: Seq<(u16, Player)>, pairs: Seq<(u16, u16)>)
    requires
        round_plan(ranked, pairs) is Ok,
    ensures
        accounts_for_pairs(
            ranked,
            pairs,
            round_plan(ranked, pairs)->Ok_0.0,
            round_plan(ranked, pairs)->Ok_0.1,
        ),
{
    let split = first_bye_from(pairs, 0);
    lemma_first_bye_bounds(pairs, 0);
    lemma_games_shape(ranked, pairs.take(split));
    lemma_byes_shape(ranked, pairs.skip(split));
    let gs = round_plan(ranked, pairs)->Ok_0.0;
    let bs = round_plan(ranked, pairs)->Ok_0.1;
    assert(gs == games_for_pairs(ranked, pairs.take(split))->Ok_0);
    assert(bs == byes_for_pairs(ranked, pairs.skip(split))->Ok_0);
    assert(accounts_for_pairs(ranked, pairs, gs, bs));
}

/// The lookup of a starting rank finds the first entry that has it, wherever it
/// stands in the ranking.
pub proof fn lemma_id_with_rank_finds_first(ranked: Seq<(u16, Player)>, rank: u16, k: int)
    requires
        0 <= k < ranked.len(),
        ranked[k].0 == rank,
        forall|j: int| 0 <= j < k ==> #[trigger] ranked[j].0 != rank,
    ensures
        id_with_rank_from(ranked, rank, 0) == Some(ranked[k].1.id),
{
    lemma_id_with_rank_from_finds(ranked, rank, k, 0);
}

proof fn lemma_id_with_rank_from_finds(ranked: Seq<(u16, Player)>, rank: u16, k: int, i: int)
    requires
        0 <= i <= k < ranked.len(),
        ranked[k].0 == rank,
        forall|j: int| 0 <= j < k ==> #[trigger] ranked[j].0 != rank,
    ensures
        id_with_rank_from(ranked, rank, i) == Some(ranked[k].1.id),
    decreases k - i,
{
    if i < k {
        assert(ranked[i].0 != rank);
        lemma_id_with_rank_from_finds(ranked, rank, k, i + 1);
    }
}

/// A rank that no entry has is not found.
pub proof fn lemma_id_with_rank_absent(ranked: Seq<(u16, Player)>, rank: u16, i: int)
    requires
        0 <= i,
        forall|j: int| 0 <= j < ranked.len() ==> #[trigger] ranked[j].0 != rank,
    ensures
        id_with_rank_from(ranked, rank, i) is None,
    decreases ranked.len() - i,
{
    if i < ranked.len() {
        assert(ranked[i].0 != rank);
        lemma_id_with_rank_absent(ranked, rank, i + 1);
    }
}

/// The entries carry the starting ranks 1, 2, 3, ... in order, as
/// `assign_starting_ranks` gives them.
pub open spec fn has_starting_ranks(ranked: Seq<(u16, Player)>) -> bool {
    forall|k: int| 0 <= k < ranked.len() ==> #[trigger] ranked[k].0 as int == k + 1
}

/// With starting ranks 1..n, rank `r` of 1..n is the player of entry `r - 1`,
/// however many players there are.
pub proof fn lemma_id_with_starting_rank(ranked: Seq<(u16, Player)>, r: u16)
    requires
        has_starting_ranks(ranked),
        1 <= r <= ranked.len(),
    ensures
        id_with_rank_from(ranked, r, 0) == Some(ranked[r - 1].1.id),
{
    assert forall|j: int| 0 <= j < r - 1 implies #[trigger] ranked[j].0 != r by {
        assert(ranked[j].0 as int == j + 1);
    }
    assert(ranked[r - 1].0 as int == r);
    lemma_id_with_rank_finds_first(ranked, r, r - 1);
}

/// The bytes of a number written in decimal are digits, do not start with `+`,
/// and spell the number.
proof fn lemma_decimal_bytes(n: nat)
    ensures
        ascii_bytes(decimal(n)).len() > 0,
        all_digits(ascii_bytes(decimal(n))),
        digits_value(ascii_bytes(decimal(n))) == n,
        ascii_bytes(decimal(n))[0] != 43,
    decreases n,
{
    let b = ascii_bytes(decimal(n));
    if n < 10 {
        assert(decimal(n) == seq![digit_char(n)]);
        assert(b =~= seq![(n + 48) as u8]);
        assert(b.drop_last() =~= Seq::<u8>::empty());
        assert(digits_value(b.drop_last()) == 0);
        assert(b.last() == (n + 48) as u8);
        assert(digits_value(b) == n);
    } else {
        lemma_decimal_bytes(n / 10);
        let prev = ascii_bytes(decimal(n / 10));
        assert(decimal(n) == decimal(n / 10).push(digit_char(n % 10)));
        assert(b =~= prev.push(((n % 10) + 48) as u8));
        assert(b.drop_last() =~= prev);
        assert(b.last() == ((n % 10) + 48) as u8);
        assert(digits_value(b) == n);
        assert(b[0] == prev[0]);
        assert forall|k: int| 0 <= k < b.len() implies is_digit(#[trigger] b[k]) by {
            if k < prev.len() {
                assert(b[k] == prev[k]);
            }
        }
    }
}

/// A rank written in decimal, as the pairing engine writes it, reads back as that
/// rank, also after a `+`: every digit counts at its face value.
pub proof fn lemma_parse_u16_reads_decimal(n: u16)
    ensures
        parse_u16(ascii_bytes(decimal(n as nat))) == Some(n),
        parse_u16(seq![43u8] + ascii_bytes(decimal(n as nat))) == Some(n),
{
    lemma_decimal_bytes(n as nat);
    let b = ascii_bytes(decimal(n as nat));
    assert(unsigned_part(b) == b);
    assert((seq![43u8] + b).drop_first() =~= b);
    assert(unsigned_part(seq![43u8] + b) == b);
}

/// A number written in decimal that does not fit in a `u16` is not read as a
/// rank: it is refused, not wrapped round.
pub proof fn lemma_parse_u16_refuses_overflow(n: nat)
    requires
        n > 65535,
    ensures
        parse_u16(ascii_bytes(decimal(n))) is None,
{
    lemma_decimal_bytes(n);
    let b = ascii_bytes(decimal(n));
    assert(unsigned_part(b) == b);
}

/// Entries 1..n carry different players.
pub open spec fn distinct_players(ranked: Seq<(u16, Player)>) -> bool {
    forall|k: int, l: int| 0 <= k < l < ranked.len() ==> #[trigger] ranked[k].1.id != #[trigger] ranked[l].1.id
}

/// The game of a pairing of starting ranks `w` and `b`.
pub open spec fn game_of_ranks(ranked: Seq<(u16, Player)>, pair: (u16, u16)) -> Game {
    Game::spec_new(ranked[pair.0 - 1].1.id, ranked[pair.1 - 1].1.id)
}

/// The full-point bye of the player with starting rank `pair.0`.
pub open spec fn bye_of_rank(ranked: Seq<(u16, Player)>, pair: (u16, u16)) -> Bye {
    Bye::spec_new(ranked[pair.0 - 1].1.id, ByePoint::U)
}

proof fn lemma_games_for_valid_pairs(ranked: Seq<(u16, Player)>, pairs: Seq<(u16, u16)>)
    requires
        has_starting_ranks(ranked),
        distinct_players(ranked),
        forall|i: int| 0 <= i < pairs.len() ==> {
            &&& 1 <= #[trigger] pairs[i].0 <= ranked.len()
            &&& 1 <= pairs[i].1 <= ranked.len()
            &&& pairs[i].0 != pairs[i].1
        },
    ensures
        games_for_pairs(ranked, pairs) == Ok::<Seq<Game>, Seq<char>>(
            Seq::new(pairs.len(), |i: int| game_of_ranks(ranked, pairs[i])),
        ),
    decreases pairs.len(),
{
    if pairs.len() > 0 {
        let prev = pairs.drop_last();
        assert forall|i: int| 0 <= i < prev.len() implies {
            &&& 1 <= #[trigger] prev[i].0 <= ranked.len()
            &&& 1 <= prev[i].1 <= ranked.len()
            &&& prev[i].0 != prev[i].1
        } by {
            assert(prev[i] == pairs[i]);
        }
        lemma_games_for_valid_pairs(ranked, prev);
        let last = pairs.last();
        assert(1 <= pairs[pairs.len() - 1].0 <= ranked.len());
        lemma_id_with_starting_rank(ranked, last.0);
        lemma_id_with_starting_rank(ranked, last.1);
        assert(ranked[last.0 - 1].1.id != ranked[last.1 - 1].1.id) by {
            if last.0 < last.1 {
                assert(ranked[last.0 - 1].1.id != ranked[last.1 - 1].1.id);
            } else {
                assert(ranked[last.1 - 1].1.id != ranked[last.0 - 1].1.id);
            }
        }
        assert(Seq::new(prev.len(), |i: int| game_of_ranks(ranked, prev[i])).push(
            game_of_ranks(ranked, last),
        ) =~= Seq::new(pairs.len(), |i: int| game_of_ranks(ranked, pairs[i])));
    } else {
        assert(Seq::new(0, |i: int| game_of_ranks(ranked, pairs[i])) =~= Seq::<Game>::empty());
    }
}

proof fn lemma_byes_for_valid_pairs(ranked: Seq<(u16, Player)>, pairs: Seq<(u16, u16)>)
    requires
        has_starting_ranks(ranked),
        forall|i: int| 0 <= i < pairs.len() ==> {
            &&& 1 <= #[trigger] pairs[i].0 <= ranked.len()
            &&& pairs[i].1 == 0
        },
    ensures
        byes_for_pairs(ranked, pairs) == Ok::<Seq<Bye>, Seq<char>>(
            Seq::new(pairs.len(), |i: int| bye_of_rank(ranked, pairs[i])),
        ),
    decreases pairs.len(),
{
    if pairs.len() > 0 {
        let prev = pairs.drop_last();
        assert forall|i: int| 0 <= i < prev.len() implies {
            &&& 1 <= #[trigger] prev[i].0 <= ranked.len()
            &&& prev[i].1 == 0
        } by {
            assert(prev[i] == pairs[i]);
        }
        lemma_byes_for_valid_pairs(ranked, prev);
        let last = pairs.last();
        assert(1 <= pairs[pairs.len() - 1].0 <= ranked.len());
        lemma_id_with_starting_rank(ranked, last.0);
        assert(Seq::new(prev.len(), |i: int| bye_of_rank(ranked, prev[i])).push(
            bye_of_rank(ranked, last),
        ) =~= Seq::new(pairs.len(), |i: int| bye_of_rank(ranked, pairs[i])));
    } else {
        assert(Seq::new(0, |i: int| bye_of_rank(ranked, pairs[i])) =~= Seq::<Bye>::empty());
    }
}

proof fn lemma_first_bye_is(pairs: Seq<(u16, u16)>, s: int, i: int)
    requires
        0 <= i <= s <= pairs.len(),
        forall|j: int| i <= j < s ==> #[trigger] pairs[j].1 != 0,
        s < pairs.len() ==> pairs[s].1 == 0,
    ensures
        first_bye_from(pairs, i) == s,
    decreases s - i,
{
    if i < s {
        assert(pairs[i].1 != 0);
        lemma_first_bye_is(pairs, s, i + 1);
    }
}

/// With starting ranks 1..n of different players, any list of pairings is
/// accepted when its games pair two different ranks of 1..n and are followed by
/// bye lines of ranks of 1..n: game `i` is white rank `w` against black rank `b`,
/// and each bye line gives its player a full-point bye, however many players there are.
pub proof fn lemma_round_plan_accepts_valid_pairs(ranked: Seq<(u16, Player)>, pairs: Seq<(u16, u16)>, s: int)
    requires
        has_starting_ranks(ranked),
        distinct_players(ranked),
        0 <= s <= pairs.len(),
        pairs.len() > 0,
        forall|i: int| 0 <= i < s ==> {
            &&& 1 <= #[trigger] pairs[i].0 <= ranked.len()
            &&& 1 <= pairs[i].1 <= ranked.len()
            &&& pairs[i].0 != pairs[i].1
        },
        forall|i: int| s <= i < pairs.len() ==> {
            &&& 1 <= #[trigger] pairs[i].0 <= ranked.len()
            &&& pairs[i].1 == 0
        },
    ensures
        round_plan(ranked, pairs) == Ok::<(Seq<Game>, Seq<Bye>), Seq<char>>(
            (
                Seq::new(s as nat, |i: int| game_of_ranks(ranked, pairs[i])),
                Seq::new((pairs.len() - s) as nat, |i: int| bye_of_rank(ranked, pairs[s + i])),
            ),
        ),
{
    assert forall|j: int| 0 <= j < s implies #[trigger] pairs[j].1 != 0 by {
        assert(1 <= pairs[j].0);
        assert(1 <= pairs[j].1);
    }
    if s < pairs.len() {
        assert(1 <= pairs[s].0);
    }
    lemma_first_bye_is(pairs, s, 0);
    let gp = pairs.take(s);
    let bp = pairs.skip(s);
    assert forall|i: int| 0 <= i < gp.len() implies {
        &&& 1 <= #[trigger] gp[i].0 <= ranked.len()
        &&& 1 <= gp[i].1 <= ranked.len()
        &&& gp[i].0 != gp[i].1
    } by {
        assert(gp[i] == pairs[i]);
    }
    assert forall|i: int| 0 <= i < bp.len() implies {
        &&& 1 <= #[trigger] bp[i].0 <= ranked.len()
        &&& bp[i].1 == 0
    } by {
        assert(bp[i] == pairs[s + i]);
    }
    lemma_games_for_valid_pairs(ranked, gp);
    lemma_byes_for_valid_pairs(ranked, bp);
    assert(Seq::new(gp.len(), |i: int| game_of_ranks(ranked, gp[i])) =~= Seq::new(
        s as nat,
        |i: int| game_of_ranks(ranked, pairs[i]),
    ));
    assert(Seq::new(bp.len(), |i: int| bye_of_rank(ranked, bp[i])) =~= Seq::new(
        (pairs.len() - s) as nat,
        |i: int| bye_of_rank(ranked, pairs[s + i]),
    ));
}

} // verus!
