//! Orders of players and the stable sort that puts players in them.
use vstd::prelude::*;
use crate::models::player::Player;
use crate::models::title::{title_order, title_order_of};
use crate::text::{chars_lt, str_less, lemma_chars_lt_irreflexive, lemma_chars_lt_total,
    lemma_chars_lt_transitive};

verus! {

/// A strict order in which players (or other items) are ranked: `before(a, b)`
/// when `a` is ranked strictly ahead of `b`. Items ranked neither way are tied.
pub trait RankOrder<T> {
    /// Whether `a` is ranked strictly ahead of `b`.
    spec fn before(a: T, b: T) -> bool;

    /// Whether `a` is ranked strictly ahead of `b`.
    fn less(a: &T, b: &T) -> (r: bool)
        ensures
            r == Self::before(*a, *b),
    ;

    /// No item is ranked ahead of an item that is ranked ahead of it.
    proof fn lemma_asymmetric(a: T, b: T)
        requires
            Self::before(a, b),
        ensures
            !Self::before(b, a),
    ;

    /// Not being ranked ahead carries over: the ranking is a strict weak order.
    proof fn lemma_not_before_transitive(a: T, b: T, c: T)
        requires
            !Self::before(a, b),
            !Self::before(b, c),
        ensures
            !Self::before(a, c),
    ;
}

/// `!chars_lt` is transitive: the lexicographic order is total.
proof fn lemma_chars_not_lt_transitive(a: Seq<char>, b: Seq<char>, c: Seq<char>)
    requires
        !chars_lt(a, b),
        !chars_lt(b, c),
    ensures
        !chars_lt(a, c),
{
    lemma_chars_lt_total(a, b);
    lemma_chars_lt_total(b, c);
    if a != b && b != c {
        lemma_chars_lt_transitive(c, b, a);
        if chars_lt(a, c) {
            lemma_chars_lt_transitive(a, c, a);
            lemma_chars_lt_irreflexive(a);
        }
    }
}

/// `chars_lt` is asymmetric.
proof fn lemma_chars_lt_asymmetric(a: Seq<char>, b: Seq<char>)
    requires
        chars_lt(a, b),
    ensures
        !chars_lt(b, a),
{
    if chars_lt(b, a) {
        lemma_chars_lt_transitive(a, b, a);
        lemma_chars_lt_irreflexive(a);
    }
}

/// The ranking that gives the starting ranks: higher rating first, then higher
/// title (no title lowest), then name in alphabetical order.
pub open spec fn initial_before(a: Player, b: Player) -> bool {
    ||| a.rating > b.rating
    ||| a.rating == b.rating && title_order(a.title) > title_order(b.title)
    ||| a.rating == b.rating && title_order(a.title) == title_order(b.title)
        && chars_lt(a.name@, b.name@)
}

/// The ranking of the standings: more points first, then name in alphabetical order.
pub open spec fn standings_before(a: Player, b: Player) -> bool {
    ||| a.half_points > b.half_points
    ||| a.half_points == b.half_points && chars_lt(a.name@, b.name@)
}

fn initial_less(a: &Player, b: &Player) -> (r: bool)
    ensures
        r == initial_before(*a, *b),
{
    if a.rating != b.rating {
        return a.rating > b.rating;
    }
    let ta = title_order_of(&a.title);
    let tb = title_order_of(&b.title);
    if ta != tb {
        return ta > tb;
    }
    str_less(a.name.as_str(), b.name.as_str())
}

/// The order of the starting ranking.
pub struct InitialOrder;

impl RankOrder<Player> for InitialOrder {
    open spec fn before(a: Player, b: Player) -> bool {
        initial_before(a, b)
    }

    fn less(a: &Player, b: &Player) -> (r: bool) {
        initial_less(a, b)
    }

    proof fn lemma_asymmetric(a: Player, b: Player) {
        if a.rating == b.rating && title_order(a.title) == title_order(b.title) && chars_lt(
            a.name@,
            b.name@,
        ) {
            lemma_chars_lt_asymmetric(a.name@, b.name@);
        }
    }

    proof fn lemma_not_before_transitive(a: Player, b: Player, c: Player) {
        if a.rating == c.rating && title_order(a.title) == title_order(c.title) {
            lemma_chars_not_lt_transitive(a.name@, b.name@, c.name@);
        }
    }
}

/// The order of the standings.
pub struct StandingsOrder;

impl RankOrder<Player> for StandingsOrder {
    open spec fn before(a: Player, b: Player) -> bool {
        standings_before(a, b)
    }

    fn less(a: &Player, b: &Player) -> (r: bool) {
        if a.half_points != b.half_points {
            return a.half_points > b.half_points;
        }
        str_less(a.name.as_str(), b.name.as_str())
    }

    proof fn lemma_asymmetric(a: Player, b: Player) {
        if a.half_points == b.half_points && chars_lt(a.name@, b.name@) {
            lemma_chars_lt_asymmetric(a.name@, b.name@);
        }
    }

    proof fn lemma_not_before_transitive(a: Player, b: Player, c: Player) {
        if a.half_points == c.half_points {
            lemma_chars_not_lt_transitive(a.name@, b.name@, c.name@);
        }
    }
}

/// The order of the starting ranking, on players that carry an index.
pub struct IndexedInitialOrder;

impl RankOrder<(usize, Player)> for IndexedInitialOrder {
    open spec fn before(a: (usize, Player), b: (usize, Player)) -> bool {
        initial_before(a.1, b.1)
    }

    fn less(a: &(usize, Player), b: &(usize, Player)) -> (r: bool) {
        initial_less(&a.1, &b.1)
    }

    proof fn lemma_asymmetric(a: (usize, Player), b: (usize, Player)) {
        InitialOrder::lemma_asymmetric(a.1, b.1);
    }

    proof fn lemma_not_before_transitive(a: (usize, Player), b: (usize, Player), c: (
        usize,
        Player,
    )) {
        InitialOrder::lemma_not_before_transitive(a.1, b.1, c.1);
    }
}

/// `p` lists each of the positions `0..n` exactly once.
pub open spec fn is_permutation(p: Seq<int>, n: nat) -> bool {
    &&& p.len() == n
    &&& forall|k: int| 0 <= k < n ==> 0 <= #[trigger] p[k] < n
    &&& forall|k: int, l: int| 0 <= k < l < n ==> #[trigger] p[k] != #[trigger] p[l]
}

/// No item of `s` is ranked strictly ahead of an item before it.
pub open spec fn sorted_by<T, O: RankOrder<T>>(s: Seq<T>) -> bool {
    forall|i: int, j: int| 0 <= i < j < s.len() ==> !O::before(#[trigger] s[j], #[trigger] s[i])
}

/// `output[k]` is `input[p[k]]` for every position, `output` is sorted, and tied
/// items keep the order they had in `input`.
pub open spec fn stably_sorted_as<T, O: RankOrder<T>>(input: Seq<T>, output: Seq<T>, p: Seq<int>) -> bool {
    &&& is_permutation(p, input.len())
    &&& output.len() == input.len()
    &&& forall|k: int| 0 <= k < output.len() ==> #[trigger] output[k] == input[p[k]]
    &&& sorted_by::<T, O>(output)
    &&& forall|k: int, l: int|
        0 <= k < l < output.len() && !O::before(#[trigger] output[k], #[trigger] output[l])
            && !O::before(output[l], output[k]) ==> p[k] < p[l]
}

/// `output` is `input` sorted by a stable sort: a rearrangement of `input` in
/// which no item is ranked ahead of an earlier one and tied items keep their order.
pub open spec fn stable_sort_of<T, O: RankOrder<T>>(input: Seq<T>, output: Seq<T>) -> bool {
    exists|p: Seq<int>| stably_sorted_as::<T, O>(input, output, p)
}

/// Inserting the next item of the input at the place that a backward scan finds
/// keeps the sorted prefix a stable sort of the input's prefix.
proof fn lemma_insert_step<T, O: RankOrder<T>>(
    input: Seq<T>,
    s: Seq<T>,
    p: Seq<int>,
    i: int,
    pos: int,
)
    requires
        0 <= i < input.len(),
        0 <= pos <= i,
        stably_sorted_as::<T, O>(input.take(i), s, p),
        forall|k: int| pos <= k < i ==> O::before(input[i], #[trigger] s[k]),
        pos > 0 ==> !O::before(input[i], s[pos - 1]),
    ensures
        stably_sorted_as::<T, O>(input.take(i + 1), s.insert(pos, input[i]), p.insert(pos, i)),
{
    let x = input[i];
    let s2 = s.insert(pos, x);
    let p2 = p.insert(pos, i);
    let n2 = i + 1;
    assert(s2.len() == n2);
    assert(p2.len() == n2);
    assert forall|k: int| 0 <= k < n2 implies 0 <= #[trigger] p2[k] < n2 by {
        if k < pos {
            assert(p2[k] == p[k]);
        } else if k > pos {
            assert(p2[k] == p[k - 1]);
        }
    }
    assert forall|k: int, l: int| 0 <= k < l < n2 implies #[trigger] p2[k] != #[trigger] p2[l] by {
        if k != pos && l != pos {
            let k1 = if k < pos { k } else { k - 1 };
            let l1 = if l < pos { l } else { l - 1 };
            assert(p2[k] == p[k1]);
            assert(p2[l] == p[l1]);
            assert(p[k1] != p[l1]);
        } else if k == pos {
            assert(p2[l] == p[l - 1]);
            assert(0 <= p[l - 1] < i);
        } else {
            assert(p2[k] == p[k]);
            assert(0 <= p[k] < i);
        }
    }
    assert forall|k: int| 0 <= k < s2.len() implies #[trigger] s2[k] == input.take(i + 1)[p2[k]] by {
        if k < pos {
            assert(s2[k] == s[k]);
            assert(p2[k] == p[k]);
            assert(s[k] == input.take(i)[p[k]]);
        } else if k > pos {
            assert(s2[k] == s[k - 1]);
            assert(p2[k] == p[k - 1]);
            assert(s[k - 1] == input.take(i)[p[k - 1]]);
        }
    }
    assert forall|a: int, b: int| 0 <= a < b < s2.len() implies !O::before(
        #[trigger] s2[b],
        #[trigger] s2[a],
    ) by {
        if a != pos && b != pos {
            let a1 = if a < pos { a } else { a - 1 };
            let b1 = if b < pos { b } else { b - 1 };
            assert(s2[a] == s[a1]);
            assert(s2[b] == s[b1]);
            assert(!O::before(s[b1], s[a1]));
        } else if a == pos {
            assert(s2[b] == s[b - 1]);
            assert(O::before(x, s[b - 1]));
            O::lemma_asymmetric(x, s[b - 1]);
        } else {
            assert(s2[a] == s[a]);
            assert(s2[b] == x);
            if a < pos - 1 {
                assert(!O::before(s[pos - 1], s[a]));
                O::lemma_not_before_transitive(x, s[pos - 1], s[a]);
            }
        }
    }
    assert forall|a: int, b: int|
        0 <= a < b < s2.len() && !O::before(#[trigger] s2[a], #[trigger] s2[b]) && !O::before(
            s2[b],
            s2[a],
        ) implies p2[a] < p2[b] by {
        if a != pos && b != pos {
            let a1 = if a < pos { a } else { a - 1 };
            let b1 = if b < pos { b } else { b - 1 };
            assert(s2[a] == s[a1]);
            assert(s2[b] == s[b1]);
            assert(p2[a] == p[a1]);
            assert(p2[b] == p[b1]);
            assert(!O::before(s[a1], s[b1]) && !O::before(s[b1], s[a1]));
        } else if a == pos {
            assert(s2[b] == s[b - 1]);
            assert(O::before(x, s[b - 1]));
        } else {
            assert(p2[a] == p[a]);
            assert(0 <= p[a] < i);
        }
    }
}

/// A strictly increasing sequence of positions in `0..n` of length `n` lists them in order.
proof fn lemma_increasing_permutation_is_identity(p: Seq<int>, n: nat)
    requires
        is_permutation(p, n),
        forall|k: int, l: int| 0 <= k < l < n ==> #[trigger] p[k] < #[trigger] p[l],
    ensures
        forall|k: int| 0 <= k < n ==> #[trigger] p[k] == k,
{
    assert forall|k: int| 0 <= k < n implies #[trigger] p[k] == k by {
        lemma_increasing_lower_bound(p, n, k);
        lemma_increasing_upper_bound(p, n, k);
    }
}

proof fn lemma_increasing_lower_bound(p: Seq<int>, n: nat, k: int)
    requires
        is_permutation(p, n),
        forall|a: int, b: int| 0 <= a < b < n ==> #[trigger] p[a] < #[trigger] p[b],
        0 <= k < n,
    ensures
        p[k] >= k,
    decreases k,
{
    if k > 0 {
        lemma_increasing_lower_bound(p, n, k - 1);
        assert(p[k - 1] < p[k]);
    }
}

proof fn lemma_increasing_upper_bound(p: Seq<int>, n: nat, k: int)
    requires
        is_permutation(p, n),
        forall|a: int, b: int| 0 <= a < b < n ==> #[trigger] p[a] < #[trigger] p[b],
        0 <= k < n,
    ensures
        p[k] <= k,
    decreases n - k,
{
    if k < n - 1 {
        lemma_increasing_upper_bound(p, n, k + 1);
        assert(p[k] < p[k + 1]);
        lemma_increasing_lower_bound(p, n, k + 1);
    }
    if k == n - 1 {
        assert(p[k] < n);
    }
}

/// Sorting is idempotent: a stable sort of a stably sorted sequence gives it back
/// unchanged, so ranking the players again changes nothing.
pub proof fn lemma_stable_sort_idempotent<T, O: RankOrder<T>>(x: Seq<T>, y: Seq<T>, z: Seq<T>)
    requires
        stable_sort_of::<T, O>(x, y),
        stable_sort_of::<T, O>(y, z),
    ensures
        z == y,
{
    let p = choose|p: Seq<int>| stably_sorted_as::<T, O>(y, z, p);
    let n = y.len();
    assert forall|k: int, l: int| 0 <= k < l < n implies #[trigger] p[k] < #[trigger] p[l] by {
        assert(z[k] == y[p[k]]);
        assert(z[l] == y[p[l]]);
        assert(!O::before(z[l], z[k]));
        if !O::before(z[k], z[l]) {
        } else if p[l] < p[k] {
            assert(!O::before(y[p[k]], y[p[l]]));
        } else {
            assert(p[k] != p[l]);
        }
    }
    lemma_increasing_permutation_is_identity(p, n);
    assert forall|k: int| 0 <= k < z.len() implies z[k] == y[k] by {
        assert(z[k] == y[p[k]]);
    }
    assert(z =~= y);
}

/// The starting ranking compares rating first (higher ahead), then title (higher
/// ahead, no title lowest), then name (alphabetical), and ties players equal in all three.
pub proof fn lemma_initial_order_keys(a: Player, b: Player)
    ensures
        a.rating > b.rating ==> initial_before(a, b),
        a.rating < b.rating ==> !initial_before(a, b),
        a.rating == b.rating && title_order(a.title) > title_order(b.title) ==> initial_before(a, b),
        a.rating == b.rating && title_order(a.title) < title_order(b.title) ==> !initial_before(a, b),
        a.rating == b.rating && a.title == b.title ==> (initial_before(a, b) <==> chars_lt(
            a.name@,
            b.name@,
        )),
        a.rating == b.rating && a.title == b.title && a.name@ == b.name@ ==> !initial_before(a, b),
{
    lemma_chars_lt_irreflexive(a.name@);
}

/// The standings compare points first (more ahead), then name (alphabetical), and
/// tie players equal in both.
pub proof fn lemma_standings_order_keys(a: Player, b: Player)
    ensures
        a.half_points > b.half_points ==> standings_before(a, b),
        a.half_points < b.half_points ==> !standings_before(a, b),
        a.half_points == b.half_points ==> (standings_before(a, b) <==> chars_lt(a.name@, b.name@)),
        a.half_points == b.half_points && a.name@ == b.name@ ==> !standings_before(a, b),
{
    lemma_chars_lt_irreflexive(a.name@);
}

/// After sorting into the starting ranking, ratings never rise down the list;
/// among equal ratings titles never rise; among equal ratings and titles names
/// are in alphabetical order.
pub proof fn lemma_initial_sort_result(x: Seq<Player>, y: Seq<Player>)
    requires
        stable_sort_of::<Player, InitialOrder>(x, y),
    ensures
        forall|i: int, j: int| 0 <= i < j < y.len() ==> #[trigger] y[i].rating >= #[trigger] y[j].rating,
        forall|i: int, j: int|
            0 <= i < j < y.len() && y[i].rating == y[j].rating ==> title_order(#[trigger] y[i].title)
                >= title_order(#[trigger] y[j].title),
        forall|i: int, j: int|
            0 <= i < j < y.len() && y[i].rating == y[j].rating && title_order(y[i].title)
                == title_order(y[j].title) ==> !chars_lt(#[trigger] y[j].name@, #[trigger] y[i].name@),
{
    let p = choose|p: Seq<int>| stably_sorted_as::<Player, InitialOrder>(x, y, p);
    assert forall|i: int, j: int| 0 <= i < j < y.len() implies #[trigger] y[i].rating
        >= #[trigger] y[j].rating by {
        assert(!InitialOrder::before(y[j], y[i]));
    }
    assert forall|i: int, j: int|
        0 <= i < j < y.len() && y[i].rating == y[j].rating implies title_order(#[trigger] y[i].title)
        >= title_order(#[trigger] y[j].title) by {
        assert(!InitialOrder::before(y[j], y[i]));
    }
    assert forall|i: int, j: int|
        0 <= i < j < y.len() && y[i].rating == y[j].rating && title_order(y[i].title) == title_order(
            y[j].title,
        ) implies !chars_lt(#[trigger] y[j].name@, #[trigger] y[i].name@) by {
        assert(!InitialOrder::before(y[j], y[i]));
    }
}

/// After sorting into the standings, points never rise down the list, and among
/// equal points names are in alphabetical order.
pub proof fn lemma_standings_sort_result(x: Seq<Player>, y: Seq<Player>)
    requires
        stable_sort_of::<Player, StandingsOrder>(x, y),
    ensures
        forall|i: int, j: int| 0 <= i < j < y.len() ==> #[trigger] y[i].half_points >= #[trigger] y[j].half_points,
        forall|i: int, j: int|
            0 <= i < j < y.len() && y[i].half_points == y[j].half_points ==> !chars_lt(
                #[trigger] y[j].name@,
                #[trigger] y[i].name@,
            ),
{
    let p = choose|p: Seq<int>| stably_sorted_as::<Player, StandingsOrder>(x, y, p);
    assert forall|i: int, j: int| 0 <= i < j < y.len() implies #[trigger] y[i].half_points
        >= #[trigger] y[j].half_points by {
        assert(!StandingsOrder::before(y[j], y[i]));
    }
    assert forall|i: int, j: int|
        0 <= i < j < y.len() && y[i].half_points == y[j].half_points implies !chars_lt(
        #[trigger] y[j].name@,
        #[trigger] y[i].name@,
    ) by {
        assert(!StandingsOrder::before(y[j], y[i]));
    }
}

/// Exchanges the elements at positions `a` and `b`, by `<[T]>::swap`, which its
/// documentation describes so and which panics when a position is out of bounds.
#[verifier::external_body]
fn slice_swap<T>(s: &mut [T], a: usize, b: usize)
    requires
        a < old(s)@.len(),
        b < old(s)@.len(),
    ensures
        final(s)@ == old(s)@.update(a as int, old(s)@[b as int]).update(b as int, old(s)@[a as int]),
{
    s.swap(a, b);
}

/// Sorts `v` stably in the order `O`, by insertion: each item moves left past the
/// items it is ranked strictly ahead of.
pub fn stable_sort<T, O: RankOrder<T>>(v: &mut [T])
    ensures
        stable_sort_of::<T, O>(old(v)@, final(v)@),
{
    let ghost input = v@;
    let n = v.len();
    let mut i: usize = 0;
    let ghost mut p: Seq<int> = Seq::empty();
    proof {
        assert(input.take(0) =~= Seq::<T>::empty());
        assert(v@.take(0) =~= Seq::<T>::empty());
        assert(stably_sorted_as::<T, O>(input.take(0), v@.take(0), p));
        assert(v@.skip(0) =~= input.skip(0));
    }
    while i < n
        invariant
            n == input.len(),
            v@.len() == n,
            i <= n,
            v@.skip(i as int) == input.skip(i as int),
            stably_sorted_as::<T, O>(input.take(i as int), v@.take(i as int), p),
        decreases n - i,
    {
        let ghost sorted = v@.take(i as int);
        let ghost x = input[i as int];
        assert(v@[i as int] == v@.skip(i as int)[0]);
        proof {
            assert(v@.take(i + 1) =~= sorted.insert(i as int, x));
            assert(v@.skip(i + 1) =~= input.skip(i + 1)) by {
                assert forall|k: int| 0 <= k < n - i - 1 implies #[trigger] v@.skip(i + 1)[k] == input.skip(i + 1)[k] by {
                    assert(v@.skip(i + 1)[k] == v@.skip(i as int)[k + 1]);
                    assert(input.skip(i + 1)[k] == input.skip(i as int)[k + 1]);
                }
            }
        }
        let mut pos: usize = i;
        while pos > 0
            invariant
                n == input.len(),
                v@.len() == n,
                i < n,
                pos <= i,
                sorted.len() == i,
                x == input[i as int],
                v@.take(i + 1) == sorted.insert(pos as int, x),
                v@.skip(i + 1) == input.skip(i + 1),
                forall|k: int| pos <= k < i ==> O::before(x, #[trigger] sorted[k]),
            ensures
                pos <= i,
                v@.take(i + 1) == sorted.insert(pos as int, x),
                v@.skip(i + 1) == input.skip(i + 1),
                forall|k: int| pos <= k < i ==> O::before(x, #[trigger] sorted[k]),
                pos > 0 ==> !O::before(x, sorted[pos - 1]),
            decreases pos,
        {
            assert(v@[pos as int] == v@.take(i + 1)[pos as int]);
            assert(v@[pos - 1] == v@.take(i + 1)[pos - 1]);
            assert(sorted.insert(pos as int, x)[pos as int] == x);
            assert(sorted.insert(pos as int, x)[pos - 1] == sorted[pos - 1]);
            if O::less(&v[pos], &v[pos - 1]) {
                let ghost before = v@;
                slice_swap(v, pos - 1, pos);
                proof {
                    assert forall|k: int| 0 <= k < i + 1 implies #[trigger] v@.take(i + 1)[k]
                        == sorted.insert(pos - 1, x)[k] by {
                        assert(before.take(i + 1)[k] == sorted.insert(pos as int, x)[k]);
                        if k == pos - 1 {
                            assert(before.take(i + 1)[pos as int] == before[pos as int]);
                        } else if k == pos {
                            assert(before.take(i + 1)[pos - 1] == before[pos - 1]);
                        } else {
                            assert(before.take(i + 1)[k] == before[k]);
                        }
                    }
                    assert(v@.take(i + 1) =~= sorted.insert(pos - 1, x));
                    assert(v@.skip(i + 1) =~= before.skip(i + 1));
                }
                pos = pos - 1;
            } else {
                break;
            }
        }
        proof {
            lemma_insert_step::<T, O>(input, sorted, p, i as int, pos as int);
            p = p.insert(pos as int, i as int);
            assert(v@.take(i + 1) == sorted.insert(pos as int, input[i as int]));
        }
        i = i + 1;
    }
    assert(input.take(n as int) =~= input);
    assert(v@.take(n as int) =~= v@);
}

/// Sorts players into the order of the starting ranking (see `initial_before`);
/// players that tie keep their order.
pub fn sort_players_initial(players: &mut [Player])
    ensures
        stable_sort_of::<Player, InitialOrder>(old(players)@, final(players)@),
{
    stable_sort::<Player, InitialOrder>(players);
}

/// Sorts players into the order of the standings (see `standings_before`);
/// players that tie keep their order.
pub fn sort_players_ranked(players: &mut [Player])
    ensures
        stable_sort_of::<Player, StandingsOrder>(old(players)@, final(players)@),
{
    stable_sort::<Player, StandingsOrder>(players);
}

/// Sorts indexed players into the order of the starting ranking by their player;
/// entries that tie keep their order.
pub fn helper(players: &mut [(usize, Player)])
    ensures
        stable_sort_of::<(usize, Player), IndexedInitialOrder>(old(players)@, final(players)@),
{
    stable_sort::<(usize, Player), IndexedInitialOrder>(players);
}

} // verus!
