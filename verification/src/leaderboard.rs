//! Ranked, paginated snapshots of a lobby's ratings, with a marker wherever
//! the ranking enters another tier.

use crate::config::Rank;
use crate::error::Error;
use crate::lobby::Lobby;
use crate::ranking::rank;
use crate::rating::{PlayerInfo, Rating};
use vstd::prelude::*;

verus! {

/// One line of a leaderboard page.
#[derive(Debug, Clone, Copy, PartialEq, Eq, Structural)]
pub enum Row {
    /// A player, at the place `place` of the whole leaderboard (from 1).
    Player { place: usize, user_id: u64, rating: Rating },
    /// The head of a tier: the players that follow are rated below `limit`.
    Rank { role_id: u64, limit: i64 },
}

impl Row {
    /// The value by which the row is ordered.
    pub fn value(&self) -> (r: i64)
        ensures
            r == match *self {
                Row::Player { rating, .. } => rating.mean,
                Row::Rank { limit, .. } => limit,
            },
    {
        match self {
            Row::Player { rating, .. } => rating.mean,
            Row::Rank { limit, .. } => *limit,
        }
    }

    pub fn is_rank(&self) -> (r: bool)
        ensures
            r == (*self is Rank),
    {
        match self {
            Row::Rank { .. } => true,
            Row::Player { .. } => false,
        }
    }
}

/// One page of a leaderboard.
#[derive(Debug, Clone)]
pub struct Page {
    /// The number of the page, from 1.
    pub number: usize,
    /// The number of pages of the leaderboard.
    pub pages: usize,
    pub rows: Vec<Row>,
}

/// The tier of a player rated `mean`, among the first `upto` tiers: the one
/// with the least limit above `mean`, the last such if several have that
/// limit. `None` if no limit is above `mean`.
pub open spec fn tier_among(ranks: Seq<Rank>, mean: i64, upto: nat) -> Option<int>
    decreases upto,
{
    if upto == 0 {
        None
    } else {
        let before = tier_among(ranks, mean, (upto - 1) as nat);
        let limit = ranks[upto - 1].limit;
        if limit > mean && (before is None || limit <= ranks[before->0].limit) {
            Some(upto - 1)
        } else {
            before
        }
    }
}

/// The tier of a player rated `mean`: see [`tier_among`].
pub open spec fn tier_of(ranks: Seq<Rank>, mean: i64) -> Option<int> {
    tier_among(ranks, mean, ranks.len())
}

/// What `tier_among` finds: a tier whose limit is above `mean`, and no other
/// such tier has a lower limit, or the same limit and a later position.
pub proof fn lemma_tier_among(ranks: Seq<Rank>, mean: i64, upto: nat)
    requires
        upto <= ranks.len(),
    ensures
        match tier_among(ranks, mean, upto) {
            None => forall|i: int| 0 <= i < upto ==> (#[trigger] ranks[i]).limit <= mean,
            Some(t) => {
                &&& 0 <= t < upto
                &&& ranks[t].limit > mean
                &&& forall|i: int|
                    0 <= i < upto && (#[trigger] ranks[i]).limit > mean ==> ranks[t].limit
                        < ranks[i].limit || (ranks[t].limit == ranks[i].limit && i <= t)
            },
        },
    decreases upto,
{
    if upto > 0 {
        lemma_tier_among(ranks, mean, (upto - 1) as nat);
    }
}

/// The position in `ranks` of the tier of a player rated `mean`.
pub fn get_rank(ranks: &[Rank], mean: i64) -> (r: Option<usize>)
    ensures
        match r {
            Some(t) => tier_of(ranks@, mean) == Some(t as int) && t < ranks@.len(),
            None => tier_of(ranks@, mean) is None,
        },
{
    let mut best: Option<usize> = None;
    let mut i: usize = 0;
    while i < ranks.len()
        invariant
            i <= ranks.len(),
            match best {
                Some(t) => tier_among(ranks@, mean, i as nat) == Some(t as int) && t < i,
                None => tier_among(ranks@, mean, i as nat) is None,
            },
        decreases ranks.len() - i,
    {
        let limit: i64 = ranks[i].limit;
        if limit > mean {
            match best {
                None => {
                    best = Some(i);
                },
                Some(t) => {
                    if limit <= ranks[t].limit {
                        best = Some(i);
                    }
                },
            }
        }
        i += 1;
    }
    best
}

/// The number of pages that `entries` entries fill, `page_len` to a page.
pub open spec fn page_count(entries: nat, page_len: nat) -> nat {
    if page_len == 0 {
        0
    } else {
        ((entries + page_len - 1) / page_len as int) as nat
    }
}

/// The rows that the first `upto` of `entries` make on a page whose first
/// entry is at the place `first` of the leaderboard. Each entry makes one
/// row; in front of it stands the head of its tier, if it has a tier and is
/// the first entry of the page or in another tier than the entry before it.
pub open spec fn rows_of(
    entries: Seq<(u64, Rating)>,
    first: nat,
    ranks: Seq<Rank>,
    upto: nat,
) -> Seq<Row>
    decreases upto,
{
    if upto == 0 {
        Seq::empty()
    } else {
        let before = rows_of(entries, first, ranks, (upto - 1) as nat);
        let entry = entries[upto - 1];
        let tier = tier_of(ranks, entry.1.mean);
        let row = Row::Player {
            place: (first + upto - 1) as usize,
            user_id: entry.0,
            rating: entry.1,
        };
        if tier is Some && (upto == 1 || tier_of(ranks, entries[upto - 2].1.mean) != tier) {
            before.push(Row::Rank { role_id: ranks[tier->0].id, limit: ranks[tier->0].limit }).push(
                row,
            )
        } else {
            before.push(row)
        }
    }
}

/// The entries of page `page` (from 0).
pub open spec fn page_entries(entries: Seq<(u64, Rating)>, page_len: nat, page: nat) -> Seq<
    (u64, Rating),
> {
    let from = (page * page_len) as int;
    let to = if from + page_len < entries.len() {
        from + page_len
    } else {
        entries.len() as int
    };
    entries.subrange(from, to)
}

/// Whether `page` is page `p` (from 0) of the `count` pages of the
/// leaderboard of `entries`: it holds `page_len` entries, the last page
/// what is left, and their rows.
pub open spec fn is_page(
    page: Page,
    p: int,
    count: nat,
    entries: Seq<(u64, Rating)>,
    page_len: nat,
    ranks: Seq<Rank>,
) -> bool {
    let held = page_entries(entries, page_len, p as nat);
    &&& page.number == p + 1
    &&& page.pages == count
    &&& held.len() == if p + 1 < count {
        page_len
    } else {
        (entries.len() - p * page_len) as nat
    }
    &&& page.rows@ == rows_of(held, (p * page_len + 1) as nat, ranks, held.len())
}

/// Whether `pages` is the leaderboard of `entries`, `page_len` to a page.
pub open spec fn is_leaderboard(
    pages: Seq<Page>,
    entries: Seq<(u64, Rating)>,
    page_len: nat,
    ranks: Seq<Rank>,
) -> bool {
    &&& pages.len() == page_count(entries.len(), page_len)
    &&& forall|p: int|
        0 <= p < pages.len() ==> is_page(
            #[trigger] pages[p],
            p,
            pages.len(),
            entries,
            page_len,
            ranks,
        )
}

/// The value by which a row is ordered: the mean of a player, the limit of
/// a tier.
pub open spec fn row_value(row: Row) -> i64 {
    match row {
        Row::Player { rating, .. } => rating.mean,
        Row::Rank { limit, .. } => limit,
    }
}

/// Whether the means of `entries` never rise from one entry to the next.
pub open spec fn by_falling_mean(entries: Seq<(u64, Rating)>) -> bool {
    forall|i: int, j: int| 0 <= i <= j < entries.len() ==> entries[i].1.mean >= entries[j].1.mean
}

/// Whether the row at `at`, if it is the head of a tier, is followed by a
/// player below its limit.
pub open spec fn head_leads(rows: Seq<Row>, at: int) -> bool {
    rows[at] is Rank ==> at + 1 < rows.len() && rows[at + 1] is Player && row_value(rows[at])
        > row_value(rows[at + 1])
}

/// Whether `rows` is a ranking with the heads of tiers merged in: the values
/// never rise from one row to the next, and every head is followed by a
/// player of its tier, so that no head stands last and no two heads stand
/// together.
pub open spec fn merged(rows: Seq<Row>) -> bool {
    &&& forall|a: int, b: int|
        0 <= a <= b < rows.len() ==> row_value(#[trigger] rows[a]) >= row_value(
            #[trigger] rows[b],
        )
    &&& forall|a: int| 0 <= a < rows.len() ==> #[trigger] head_leads(rows, a)
}

/// A player rated no higher than another is in the same tier, unless a
/// limit lies between the two: above the lower mean and not above the
/// higher.
pub proof fn lemma_tier_changes_at_a_limit(ranks: Seq<Rank>, higher: i64, lower: i64)
    requires
        higher >= lower,
        tier_of(ranks, lower) is Some,
        tier_of(ranks, higher) != tier_of(ranks, lower),
    ensures
        ranks[tier_of(ranks, lower)->0].limit <= higher,
{
    lemma_tier_among(ranks, lower, ranks.len());
    lemma_tier_among(ranks, higher, ranks.len());
    let t = tier_of(ranks, lower)->0;
    if ranks[t].limit > higher {
        assert(tier_of(ranks, higher) is Some);
        let u = tier_of(ranks, higher)->0;
        assert(ranks[u].limit > lower);
        assert(ranks[t].limit > higher);
    }
}

/// Where a limit lies between the means of two players, above the lower
/// and not above the higher, the lower one is in another tier: between
/// the two stands a head.
pub proof fn lemma_limit_between_changes_tier(ranks: Seq<Rank>, higher: i64, lower: i64, at: int)
    requires
        0 <= at < ranks.len(),
        lower < ranks[at].limit <= higher,
    ensures
        tier_of(ranks, lower) is Some,
        tier_of(ranks, higher) != tier_of(ranks, lower),
{
    lemma_tier_among(ranks, lower, ranks.len());
    lemma_tier_among(ranks, higher, ranks.len());
    assert(ranks[at].limit > lower);
}

/// The rows of entries that come by falling mean are such a ranking with
/// the heads of the tiers merged in, and they end with the last entry.
pub proof fn lemma_rows_are_merged(
    entries: Seq<(u64, Rating)>,
    first: nat,
    ranks: Seq<Rank>,
    upto: nat,
)
    requires
        upto <= entries.len(),
        by_falling_mean(entries),
    ensures
        merged(rows_of(entries, first, ranks, upto)),
        upto > 0 ==> rows_of(entries, first, ranks, upto).len() > 0 && rows_of(
            entries,
            first,
            ranks,
            upto,
        ).last() == (Row::Player {
            place: (first + upto - 1) as usize,
            user_id: entries[upto - 1].0,
            rating: entries[upto - 1].1,
        }),
    decreases upto,
{
    if upto > 0 {
        lemma_rows_are_merged(entries, first, ranks, (upto - 1) as nat);
        let before = rows_of(entries, first, ranks, (upto - 1) as nat);
        let rows = rows_of(entries, first, ranks, upto);
        let entry = entries[upto - 1];
        let mean = entry.1.mean;
        let tier = tier_of(ranks, mean);
        let row = Row::Player { place: (first + upto - 1) as usize, user_id: entry.0, rating: entry.1 };
        let headed = tier is Some && (upto == 1 || tier_of(ranks, entries[upto - 2].1.mean)
            != tier);
        lemma_tier_among(ranks, mean, ranks.len());
        // every row so far is worth at least the mean of the entry before
        let floor: int = if upto > 1 {
            entries[upto - 2].1.mean as int
        } else {
            mean as int
        };
        if upto > 1 {
            assert(entries[upto - 2].1.mean >= entry.1.mean);
            assert(row_value(before[before.len() - 1]) == floor);
            assert forall|a: int| 0 <= a < before.len() implies row_value(#[trigger] before[a])
                >= floor by {
                assert(row_value(before[a]) >= row_value(before[before.len() - 1]));
            }
            if headed {
                lemma_tier_changes_at_a_limit(ranks, entries[upto - 2].1.mean, mean);
            }
        }
        if headed {
            let head = Row::Rank { role_id: ranks[tier->0].id, limit: ranks[tier->0].limit };
            assert(rows == before.push(head).push(row));
            assert(rows.len() == before.len() + 2);
            assert(rows[before.len() as int] == head);
            assert(rows[before.len() as int + 1] == row);
            assert(row_value(head) > mean);
            assert(upto > 1 ==> row_value(head) <= floor);
            assert forall|a: int, b: int| 0 <= a <= b < rows.len() implies row_value(
                #[trigger] rows[a],
            ) >= row_value(#[trigger] rows[b]) by {
                if b < before.len() {
                    assert(rows[a] == before[a] && rows[b] == before[b]);
                } else if a < before.len() {
                    assert(rows[a] == before[a]);
                    assert(row_value(before[a]) >= floor);
                }
            }
            assert forall|a: int| 0 <= a < rows.len() implies #[trigger] head_leads(rows, a) by {
                if a < before.len() {
                    assert(head_leads(before, a));
                    assert(rows[a] == before[a]);
                    if a + 1 < before.len() {
                        assert(rows[a + 1] == before[a + 1]);
                    } else {
                        assert(before[a] is Player);
                    }
                }
            }
        } else {
            assert(rows == before.push(row));
            assert(rows[before.len() as int] == row);
            assert forall|a: int, b: int| 0 <= a <= b < rows.len() implies row_value(
                #[trigger] rows[a],
            ) >= row_value(#[trigger] rows[b]) by {
                if b < before.len() {
                    assert(rows[a] == before[a] && rows[b] == before[b]);
                } else if a < before.len() {
                    assert(rows[a] == before[a]);
                    assert(row_value(before[a]) >= floor);
                }
            }
            assert forall|a: int| 0 <= a < rows.len() implies #[trigger] head_leads(rows, a) by {
                if a < before.len() {
                    assert(head_leads(before, a));
                    assert(rows[a] == before[a]);
                    if a + 1 < before.len() {
                        assert(rows[a + 1] == before[a + 1]);
                    } else {
                        assert(before[a] is Player);
                    }
                }
            }
        }
    }
}

/// The rows of one page: see [`rows_of`].
fn page_rows(entries: &[(u64, Rating)], from: usize, to: usize, ranks: &[Rank]) -> (r: Vec<
    Row,
>)
    requires
        from <= to <= entries.len(),
    ensures
        r@ == rows_of(
            entries@.subrange(from as int, to as int),
            (from + 1) as nat,
            ranks@,
            (to - from) as nat,
        ),
{
    let ghost held = entries@.subrange(from as int, to as int);
    let mut rows: Vec<Row> = Vec::new();
    let mut previous: Option<usize> = None;
    let mut i: usize = from;
    while i < to
        invariant
            from <= i <= to <= entries.len(),
            held == entries@.subrange(from as int, to as int),
            rows@ == rows_of(held, (from + 1) as nat, ranks@, (i - from) as nat),
            i > from ==> match previous {
                Some(t) => tier_of(ranks@, held[i - from - 1].1.mean) == Some(t as int),
                None => tier_of(ranks@, held[i - from - 1].1.mean) is None,
            },
        decreases to - i,
    {
        let entry: (u64, Rating) = entries[i];
        assert(entry == held[i - from]);
        let tier = get_rank(ranks, entry.1.mean);
        match tier {
            Some(t) => {
                let fresh = i == from || match previous {
                    Some(b) => b != t,
                    None => true,
                };
                if fresh {
                    rows.push(Row::Rank { role_id: ranks[t].id, limit: ranks[t].limit });
                }
            },
            None => {},
        }
        rows.push(Row::Player { place: i + 1, user_id: entry.0, rating: entry.1 });
        previous = tier;
        i += 1;
    }
    rows
}

/// Lays `entries` out in pages of `page_len` entries, in the order given,
/// numbering the places from 1 through all pages.
pub fn paginate(entries: &[(u64, Rating)], page_len: usize, ranks: &[Rank]) -> (r: Vec<Page>)
    requires
        page_len > 0,
    ensures
        is_leaderboard(r@, entries@, page_len as nat, ranks@),
{
    let n = entries.len();
    proof {
        lemma_page_count(n as nat, page_len as nat);
    }
    let count: usize = n / page_len + if n % page_len != 0 {
        1usize
    } else {
        0usize
    };
    let mut pages: Vec<Page> = Vec::new();
    let mut p: usize = 0;
    while p < count
        invariant
            p <= count,
            page_len > 0,
            n == entries.len(),
            count == page_count(n as nat, page_len as nat),
            count > 0 ==> (count - 1) * page_len < n <= count * page_len,
            pages@.len() == p,
            forall|q: int|
                0 <= q < p ==> is_page(
                    #[trigger] pages@[q],
                    q,
                    count as nat,
                    entries@,
                    page_len as nat,
                    ranks@,
                ),
        decreases count - p,
    {
        proof {
            assert(p * page_len <= (count - 1) * page_len) by (nonlinear_arith)
                requires
                    p <= count - 1,
                    page_len > 0,
            ;
            assert((p + 1) * page_len == p * page_len + page_len) by (nonlinear_arith);
            if p + 1 < count {
                assert((p + 1) * page_len <= (count - 1) * page_len) by (nonlinear_arith)
                    requires
                        p + 1 <= count - 1,
                        page_len > 0,
                ;
            }
        }
        let from: usize = p * page_len;
        let to: usize = if n - from > page_len {
            from + page_len
        } else {
            n
        };
        let rows = page_rows(entries, from, to, ranks);
        let ghost filled = pages@;
        pages.push(Page { number: p + 1, pages: count, rows });
        proof {
            assert(page_entries(entries@, page_len as nat, p as nat) =~= entries@.subrange(
                from as int,
                to as int,
            ));
            let held = page_entries(entries@, page_len as nat, p as nat);
            assert(held.len() == to - from);
            assert(pages@[p as int].rows@ == rows_of(
                held,
                (p * page_len + 1) as nat,
                ranks@,
                held.len(),
            ));
            assert(is_page(
                pages@[p as int],
                p as int,
                count as nat,
                entries@,
                page_len as nat,
                ranks@,
            ));
            assert forall|q: int| 0 <= q < p implies #[trigger] pages@[q] == filled[q] by {}
        }
        p += 1;
    }
    pages
}

/// The number of pages, by quotient and remainder, and what the pages hold.
proof fn lemma_page_count(n: nat, page_len: nat)
    requires
        page_len > 0,
    ensures
        page_count(n, page_len) == n / page_len + if n % page_len != 0 {
            1nat
        } else {
            0nat
        },
        page_count(n, page_len) > 0 ==> (page_count(n, page_len) - 1) * page_len < n
            <= page_count(n, page_len) * page_len,
        n == 0 ==> page_count(n, page_len) == 0,
        page_count(n, page_len) <= n,
{
    let q = n / page_len;
    let r = n % page_len;
    assert(n == q * page_len + r && 0 <= r < page_len) by (nonlinear_arith)
        requires
            q == n / page_len,
            r == n % page_len,
            page_len > 0,
    ;
    if r == 0 {
        assert((q * page_len + page_len - 1) / (page_len as int) == q) by (nonlinear_arith)
            requires
                page_len > 0,
                q >= 0,
        ;
        assert((q - 1) * page_len < q * page_len) by (nonlinear_arith)
            requires
                page_len > 0,
        ;
    } else {
        assert((q * page_len + r + page_len - 1) / (page_len as int) == q + 1) by (nonlinear_arith)
            requires
                page_len > 0,
                q >= 0,
                0 < r < page_len,
        ;
        assert((q + 1) * page_len == q * page_len + page_len) by (nonlinear_arith);
    }
    assert(q <= q * page_len) by (nonlinear_arith)
        requires
            page_len > 0,
            q >= 0,
    ;
}

/// The page that a reader asks for by its number, from 1: that page, or the
/// last one for a number beyond it. `BadArgument` for the number 0 and for a
/// leaderboard without a page.
pub fn select_page(pages: &[Page], number: usize) -> (r: Result<&Page, Error>)
    ensures
        number == 0 || pages@.len() == 0 ==> r is Err && r->Err_0 == Error::BadArgument,
        number > 0 && pages@.len() > 0 ==> r is Ok && *r->Ok_0 == pages@[if number
            <= pages@.len() {
            number - 1
        } else {
            pages@.len() - 1
        }],
{
    if number == 0 || pages.len() == 0 {
        Err(Error::BadArgument)
    } else if number <= pages.len() {
        Ok(&pages[number - 1])
    } else {
        Ok(&pages[pages.len() - 1])
    }
}

/// Whether the executable test `eligible` decides `chosen`: what it
/// answers for a player is whether `chosen` holds of that player.
pub open spec fn decides<F: Fn(u64) -> bool>(eligible: F, chosen: spec_fn(u64) -> bool) -> bool {
    forall|p: u64, b: bool| #[trigger] call_ensures(eligible, (p,), b) ==> b == chosen(p)
}

/// Whether `entries` ranks the players of `table`: each player at most
/// once, each with the rating that the table records, highest mean first.
pub open spec fn ranks_table(entries: Seq<(u64, Rating)>, table: Map<u64, PlayerInfo>) -> bool {
    &&& forall|i: int, j: int| 0 <= i < j < entries.len() ==> entries[i].0 != entries[j].0
    &&& forall|i: int, j: int| 0 <= i <= j < entries.len() ==> entries[i].1.mean >= entries[j].1.mean
    &&& forall|i: int|
        0 <= i < entries.len() ==> table.contains_key((#[trigger] entries[i]).0) && entries[i].1
            == table[entries[i].0].rating
}

/// Whether the players of `entries` are exactly those of `table` of whom
/// `chosen` holds.
pub open spec fn selects(
    entries: Seq<(u64, Rating)>,
    table: Map<u64, PlayerInfo>,
    chosen: spec_fn(u64) -> bool,
) -> bool {
    &&& forall|i: int| 0 <= i < entries.len() ==> chosen((#[trigger] entries[i]).0)
    &&& forall|p: u64|
        table.contains_key(p) && chosen(p) ==> exists|i: int|
            0 <= i < entries.len() && (#[trigger] entries[i]).0 == p
}

/// The players of a lobby's table of ratings whom `eligible` accepts, with
/// their ratings, highest mean first.
pub fn ratings<F: Fn(u64) -> bool>(lobby: &Lobby, eligible: F) -> (r: Vec<(u64, Rating)>)
    requires
        forall|p: u64| #[trigger] call_requires(eligible, (p,)),
    ensures
        ranks_table(r@, lobby@.ratings),
        forall|chosen: spec_fn(u64) -> bool|
            decides(eligible, chosen) ==> #[trigger] selects(r@, lobby@.ratings, chosen),
{
    let table = lobby.ratings();
    let players = table.players();
    let mut found: Vec<((u64, Rating), i64)> = Vec::new();
    let mut i: usize = 0;
    while i < players.len()
        invariant
            i <= players.len(),
            players@.no_duplicates(),
            players@.to_set() == table@.dom(),
            forall|p: u64| #[trigger] call_requires(eligible, (p,)),
            forall|a: int, b: int| 0 <= a < b < found@.len() ==> found@[a].0.0 != found@[b].0.0,
            forall|a: int|
                0 <= a < found@.len() ==> {
                    let e = #[trigger] found@[a];
                    &&& players@.take(i as int).contains(e.0.0)
                    &&& table@.contains_key(e.0.0)
                    &&& e.0.1 == table@[e.0.0].rating
                    &&& e.1 == e.0.1.mean
                    &&& call_ensures(eligible, (e.0.0,), true)
                },
            forall|j: int|
                0 <= j < i ==> call_ensures(eligible, (#[trigger] players@[j],), false)
                    || exists|a: int| 0 <= a < found@.len() && (#[trigger] found@[a]).0.0 == players@[j],
        decreases players.len() - i,
    {
        let player: u64 = players[i];
        let ghost had = found@;
        proof {
            assert(players@.to_set().contains(player));
            assert(!players@.take(i as int).contains(player)) by {
                if players@.take(i as int).contains(player) {
                    let j = choose|j: int| 0 <= j < i && players@.take(i as int)[j] == player;
                    assert(players@[j] == players@[i as int]);
                }
            }
        }
        let accepted = eligible(player);
        if accepted {
            match table.get(player) {
                Some(info) => {
                    found.push(((player, info.rating), info.rating.mean));
                },
                None => {},
            }
        }
        proof {
            assert forall|a: int| 0 <= a < found@.len() implies players@.take(i + 1).contains(
                (#[trigger] found@[a]).0.0,
            ) by {
                if a < had.len() {
                    assert(found@[a] == had[a]);
                    let j = choose|j: int|
                        0 <= j < i && players@.take(i as int)[j] == had[a].0.0;
                    assert(players@.take(i + 1)[j] == had[a].0.0);
                } else {
                    assert(players@.take(i + 1)[i as int] == player);
                }
            }
            assert forall|j: int| 0 <= j < i + 1 implies call_ensures(
                eligible,
                (#[trigger] players@[j],),
                false,
            ) || exists|a: int| 0 <= a < found@.len() && (#[trigger] found@[a]).0.0 == players@[j] by {
                if j < i {
                    if !call_ensures(eligible, (players@[j],), false) {
                        let a = choose|a: int|
                            0 <= a < had.len() && (#[trigger] had[a]).0.0 == players@[j];
                        assert(found@[a].0.0 == players@[j]);
                    }
                } else if accepted {
                    assert(found@[found@.len() - 1].0.0 == player);
                }
            }
        }
        i += 1;
    }
    let order = rank(&found);
    proof {
        broadcast use vstd::seq_lib::group_to_multiset_ensures;

        assert(found@.no_duplicates());
        found@.lemma_multiset_has_no_duplicates();
        order@.lemma_multiset_has_no_duplicates_conv();
        assert forall|a: int| 0 <= a < order@.len() implies found@.contains(
            #[trigger] order@[a],
        ) by {
            assert(order@.to_multiset().count(order@[a]) > 0);
        }
        assert forall|a: int, b: int| 0 <= a < b < order@.len() implies order@[a].0.0
            != order@[b].0.0 by {
            let x = choose|x: int| 0 <= x < found@.len() && found@[x] == order@[a];
            let y = choose|y: int| 0 <= y < found@.len() && found@[y] == order@[b];
            assert(order@[a] != order@[b]);
        }
    }
    let mut out: Vec<(u64, Rating)> = Vec::new();
    let mut k: usize = 0;
    while k < order.len()
        invariant
            k <= order.len(),
            out@.len() == k,
            forall|a: int| 0 <= a < k ==> out@[a] == order@[a].0,
        decreases order.len() - k,
    {
        out.push(order[k].0);
        k += 1;
    }
    proof {
        broadcast use vstd::seq_lib::group_to_multiset_ensures;

        assert forall|a: int| 0 <= a < out@.len() implies {
            &&& found@.contains(order@[a])
            &&& table@.contains_key((#[trigger] out@[a]).0)
            &&& out@[a].1 == table@[out@[a].0].rating
            &&& order@[a].1 == out@[a].1.mean
            &&& call_ensures(eligible, (out@[a].0,), true)
        } by {
            let x = choose|x: int| 0 <= x < found@.len() && found@[x] == order@[a];
        }
        assert forall|chosen: spec_fn(u64) -> bool| decides(eligible, chosen) implies #[trigger] selects(
            out@,
            lobby@.ratings,
            chosen,
        ) by {
            assert forall|p: u64| table@.contains_key(p) && chosen(p) implies exists|a: int|
                0 <= a < out@.len() && (#[trigger] out@[a]).0 == p by {
                assert(players@.to_set().contains(p));
                let j = choose|j: int| 0 <= j < players@.len() && players@[j] == p;
                assert(!call_ensures(eligible, (players@[j],), false));
                let x = choose|x: int| 0 <= x < found@.len() && (#[trigger] found@[x]).0.0 == p;
                assert(order@.to_multiset().count(found@[x]) > 0);
                assert(order@.contains(found@[x]));
                let a = choose|a: int| 0 <= a < order@.len() && order@[a] == found@[x];
                assert(out@[a].0 == p);
            }
        }
    }
    out
}

/// The leaderboard of a lobby: the players whom `eligible` accepts, highest
/// mean first, `page_len` to a page, with the head of a tier wherever the
/// ranking enters one.
pub fn leaderboard<F: Fn(u64) -> bool>(
    lobby: &Lobby,
    page_len: usize,
    ranks: &[Rank],
    eligible: F,
) -> (r: Vec<Page>)
    requires
        page_len > 0,
        forall|p: u64| #[trigger] call_requires(eligible, (p,)),
    ensures
        exists|entries: Seq<(u64, Rating)>|
            {
                &&& ranks_table(entries, lobby@.ratings)
                &&& forall|chosen: spec_fn(u64) -> bool|
                    decides(eligible, chosen) ==> #[trigger] selects(
                        entries,
                        lobby@.ratings,
                        chosen,
                    )
                &&& #[trigger] is_leaderboard(r@, entries, page_len as nat, ranks@)
            },
{
    let entries = ratings(lobby, eligible);
    paginate(&entries, page_len, ranks)
}

} // verus!
