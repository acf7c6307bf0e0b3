//! Splitting players into two teams of equal strength.
//!
//! The players are ranked by their mean rating, highest first. The player
//! ranked last is the anchor: every way of giving the anchor as many
//! team-mates as half a split needs is tried, and the first one that leaves
//! the least difference between the two teams' sums is kept. A coin decides
//! which of the two groups is called team 1.

use crate::combinations::{
    ascending_within, choices_of, combinations_of, lemma_combinations_complete,
    lemma_combinations_sound, next_choice, pending,
};
use crate::error::Error;
use crate::ranking::{rank, ranked};
use crate::rating::Rating;
use vstd::multiset::Multiset;
use vstd::prelude::*;

verus! {

/// By how much the sum of the first `upto` means that are not marked exceeds
/// the sum of those that are.
pub open spec fn lead(means: Seq<i64>, mask: Seq<bool>, upto: nat) -> int
    decreases upto,
{
    if upto == 0 {
        0
    } else {
        lead(means, mask, (upto - 1) as nat) + if mask[upto - 1] {
            -(means[upto - 1] as int)
        } else {
            means[upto - 1] as int
        }
    }
}

/// The distance between the sum of the means that are marked and the sum of
/// those that are not.
pub open spec fn imbalance(means: Seq<i64>, mask: Seq<bool>) -> int {
    let d = lead(means, mask, means.len());
    if d < 0 {
        -d
    } else {
        d
    }
}

/// How many of the first `upto` entries are marked.
pub open spec fn marked(mask: Seq<bool>, upto: nat) -> nat
    decreases upto,
{
    if upto == 0 {
        0
    } else {
        marked(mask, (upto - 1) as nat) + if mask[upto - 1] {
            1nat
        } else {
            0nat
        }
    }
}

/// Whether `mask` marks a team that the balancer considers for `n` ranked
/// players: half of them, rounded down, the one ranked last among them.
pub open spec fn is_split(mask: Seq<bool>, n: nat) -> bool {
    &&& n >= 2
    &&& mask.len() == n
    &&& mask[n - 1]
    &&& marked(mask, n) == n / 2
}

/// Whether `mask` marks half of `n` players, rounded down, whichever they
/// are.
pub open spec fn is_half(mask: Seq<bool>, n: nat) -> bool {
    &&& mask.len() == n
    &&& marked(mask, n) == n / 2
}

/// The mask that marks, of `n` ranked players, the last one and those at
/// the positions `chosen`.
pub open spec fn team_mask(chosen: Seq<usize>, n: nat) -> Seq<bool> {
    Seq::new(n, |i: int| i == n - 1 || chosen.contains(i as usize))
}

/// The imbalance that each of `choices` leaves.
pub open spec fn scores(means: Seq<i64>, choices: Seq<Seq<usize>>) -> Seq<int> {
    Seq::new(choices.len(), |i: int| imbalance(means, team_mask(choices[i], means.len())))
}

/// The position of the least of `scores`, the first one if several are
/// least.
pub open spec fn first_least(scores: Seq<int>) -> int
    decreases scores.len(),
{
    if scores.len() <= 1 {
        0
    } else {
        let before = first_least(scores.drop_last());
        if scores.last() < scores[before] {
            scores.len() - 1
        } else {
            before
        }
    }
}

/// The team-mates that the anchor can be given: every choice of
/// `n / 2 - 1` of the `n - 1` players ranked above it.
pub open spec fn choices(n: nat) -> Seq<Seq<usize>> {
    combinations_of(0, (n - 1) as usize, (n / 2 - 1) as nat)
}

/// The mask of the team that the balancer forms around the anchor, for at
/// least two players with the means `means`, ranked.
pub open spec fn fairest(means: Seq<i64>) -> Seq<bool> {
    let all = choices(means.len());
    team_mask(all[first_least(scores(means, all))], means.len())
}

/// Of the first `upto` of `order`, those whose mark is `side`, in order.
pub open spec fn members<T>(order: Seq<(T, i64)>, mask: Seq<bool>, side: bool, upto: nat) -> Seq<T>
    decreases upto,
{
    if upto == 0 {
        Seq::empty()
    } else {
        let before = members(order, mask, side, (upto - 1) as nat);
        if mask[upto - 1] == side {
            before.push(order[upto - 1].0)
        } else {
            before
        }
    }
}

/// Each player together with the mean that it is ranked by.
pub open spec fn keyed<T>(players: Seq<(T, Rating)>) -> Seq<((T, Rating), i64)> {
    Seq::new(players.len(), |i: int| (players[i], players[i].1.mean))
}

/// The means of ranked players.
pub open spec fn means_of<T>(order: Seq<(T, i64)>) -> Seq<i64> {
    Seq::new(order.len(), |i: int| order[i].1)
}

/// The two teams that at least two players are split into. `flip` is the
/// coin: for an even number of players it decides whether the anchor's
/// group is team 1 (`false`) or team 2 (`true`). Of an odd number the
/// anchor's group is the smaller one and always team 1.
pub open spec fn split<T>(players: Seq<(T, Rating)>, flip: bool) -> (
    Seq<(T, Rating)>,
    Seq<(T, Rating)>,
) {
    let order = ranked(keyed(players));
    let mask = fairest(means_of(order));
    let with_anchor = members(order, mask, true, order.len());
    let others = members(order, mask, false, order.len());
    if flip && players.len() % 2 == 0 {
        (others, with_anchor)
    } else {
        (with_anchor, others)
    }
}


/// The marked positions below `upto`, in ascending order.
pub open spec fn positions(mask: Seq<bool>, upto: nat) -> Seq<usize>
    decreases upto,
{
    if upto == 0 {
        Seq::empty()
    } else {
        let before = positions(mask, (upto - 1) as nat);
        if mask[upto - 1] {
            before.push((upto - 1) as usize)
        } else {
            before
        }
    }
}

/// The positions of a mask are ascending, as many as are marked, and
/// exactly the marked ones.
proof fn lemma_positions(mask: Seq<bool>, upto: nat)
    requires
        upto <= mask.len(),
        upto <= usize::MAX,
    ensures
        positions(mask, upto).len() == marked(mask, upto),
        ascending_within(positions(mask, upto), 0, upto as usize),
        forall|i: int|
            0 <= i < upto ==> (mask[i] <==> #[trigger] positions(mask, upto).contains(i as usize)),
    decreases upto,
{
    if upto > 0 {
        let before = positions(mask, (upto - 1) as nat);
        let now = positions(mask, upto);
        lemma_positions(mask, (upto - 1) as nat);
        assert forall|i: int| 0 <= i < upto implies (mask[i] <==> #[trigger] now.contains(
            i as usize,
        )) by {
            if now.contains(i as usize) {
                let j = choose|j: int| 0 <= j < now.len() && now[j] == i as usize;
                if j < before.len() {
                    assert(before[j] == i as usize);
                    assert(before.contains(i as usize));
                }
            }
            if i < upto - 1 && mask[i] {
                assert(before.contains(i as usize));
                let j = choose|j: int| 0 <= j < before.len() && before[j] == i as usize;
                assert(now[j] == i as usize);
            }
            if i == upto - 1 && mask[i] {
                assert(now[now.len() - 1] == i as usize);
            }
        }
    }
}

/// Where nothing is marked, the number of marks is 0.
proof fn lemma_marked_none(mask: Seq<bool>, upto: nat)
    requires
        upto <= mask.len(),
        forall|i: int| 0 <= i < upto ==> !mask[i],
    ensures
        marked(mask, upto) == 0,
    decreases upto,
{
    if upto > 0 {
        lemma_marked_none(mask, (upto - 1) as nat);
    }
}

/// One more mark is counted once, from its position on.
proof fn lemma_marked_update(mask: Seq<bool>, at: int, upto: nat)
    requires
        0 <= at < mask.len(),
        upto <= mask.len(),
        !mask[at],
    ensures
        marked(mask.update(at, true), upto) == marked(mask, upto) + if at < upto {
            1nat
        } else {
            0nat
        },
    decreases upto,
{
    if upto > 0 {
        lemma_marked_update(mask, at, (upto - 1) as nat);
    }
}

/// A team formed of the anchor and `chosen` has one member more than were
/// chosen.
proof fn lemma_team_size(chosen: Seq<usize>, n: nat)
    requires
        1 <= n <= usize::MAX,
        ascending_within(chosen, 0, (n - 1) as usize),
    ensures
        marked(team_mask(chosen, n), n) == chosen.len() + 1,
    decreases chosen.len(),
{
    if chosen.len() == 0 {
        let mask = team_mask(chosen, n);
        lemma_marked_none(mask, (n - 1) as nat);
    } else {
        let rest = chosen.drop_last();
        let last = chosen.last();
        lemma_team_size(rest, n);
        let before = team_mask(rest, n);
        assert(!before[last as int]) by {
            if rest.contains(last) {
                let j = choose|j: int| 0 <= j < rest.len() && rest[j] == last;
                assert(chosen[j] < chosen[chosen.len() - 1]);
            }
        }
        lemma_marked_update(before, last as int, n);
        assert(before.update(last as int, true) =~= team_mask(chosen, n)) by {
            assert forall|i: int| 0 <= i < n implies before.update(last as int, true)[i]
                == team_mask(chosen, n)[i] by {
                if chosen.contains(i as usize) {
                    let j = choose|j: int| 0 <= j < chosen.len() && chosen[j] == i as usize;
                    if j < rest.len() {
                        assert(rest[j] == i as usize);
                    }
                }
                if rest.contains(i as usize) {
                    let j = choose|j: int| 0 <= j < rest.len() && rest[j] == i as usize;
                    assert(chosen[j] == i as usize);
                }
                assert(chosen[chosen.len() - 1] == last);
                assert(chosen.contains(last));
            }
        }
    }
}

/// The first least score is least, and the first that is.
proof fn lemma_first_least(scores: Seq<int>)
    requires
        scores.len() > 0,
    ensures
        0 <= first_least(scores) < scores.len(),
        forall|j: int|
            0 <= j < scores.len() ==> scores[first_least(scores)] <= #[trigger] scores[j],
        forall|j: int|
            0 <= j < first_least(scores) ==> scores[first_least(scores)] < #[trigger] scores[j],
    decreases scores.len(),
{
    if scores.len() > 1 {
        let rest = scores.drop_last();
        lemma_first_least(rest);
        let before = first_least(rest);
        let least = first_least(scores);
        assert forall|j: int| 0 <= j < scores.len() implies scores[least] <= #[trigger] scores[j] by {
            if j < rest.len() {
                assert(rest[before] <= rest[j]);
            }
        }
        assert forall|j: int| 0 <= j < least implies scores[least] < #[trigger] scores[j] by {
            assert(rest[j] == scores[j]);
            if least == before {
                assert(rest[before] < rest[j]);
            } else {
                assert(rest[before] <= rest[j]);
            }
        }
    }
}

/// There is at least one way to give the anchor its team-mates.
proof fn lemma_choices_exist(n: nat)
    requires
        2 <= n <= usize::MAX,
    ensures
        choices(n).len() > 0,
{
    let k = (n / 2 - 1) as nat;
    let c = Seq::new(k, |i: int| i as usize);
    let i = lemma_combinations_complete(0, (n - 1) as usize, k, c);
}

/// The team that the balancer forms is one of those it considers.
pub proof fn lemma_fairest_is_split(means: Seq<i64>)
    requires
        2 <= means.len() <= usize::MAX,
    ensures
        is_split(fairest(means), means.len()),
{
    let n = means.len();
    let all = choices(n);
    lemma_choices_exist(n);
    lemma_first_least(scores(means, all));
    let at = first_least(scores(means, all));
    lemma_combinations_sound(0, (n - 1) as usize, (n / 2 - 1) as nat, at);
    lemma_team_size(all[at], n);
}

/// No team that the balancer considers leaves less imbalance than the one
/// that it forms.
pub proof fn lemma_fairest_is_optimal(means: Seq<i64>, mask: Seq<bool>)
    requires
        means.len() <= usize::MAX,
        is_split(mask, means.len()),
    ensures
        imbalance(means, fairest(means)) <= imbalance(means, mask),
{
    let n = means.len();
    let k = (n / 2 - 1) as nat;
    let all = choices(n);
    let chosen = positions(mask, (n - 1) as nat);
    lemma_positions(mask, (n - 1) as nat);
    let at = lemma_combinations_complete(0, (n - 1) as usize, k, chosen);
    assert(team_mask(chosen, n) =~= mask);
    lemma_first_least(scores(means, all));
    assert(scores(means, all)[at] == imbalance(means, mask));
}

/// The marked make one team and the others the other.
proof fn lemma_members_len<T>(order: Seq<(T, i64)>, mask: Seq<bool>, upto: nat)
    ensures
        members(order, mask, true, upto).len() == marked(mask, upto),
        members(order, mask, false, upto).len() == upto - marked(mask, upto),
    decreases upto,
{
    if upto > 0 {
        lemma_members_len(order, mask, (upto - 1) as nat);
    }
}

/// A lead is no greater than as many means can make it.
proof fn lemma_lead_bound(means: Seq<i64>, mask: Seq<bool>, upto: nat)
    requires
        upto <= means.len(),
    ensures
        -(upto * 0x8000_0000_0000_0000) <= lead(means, mask, upto) <= upto * 0x8000_0000_0000_0000,
    decreases upto,
{
    if upto > 0 {
        lemma_lead_bound(means, mask, (upto - 1) as nat);
    }
}

/// Whether no way of dealing `players` into two teams of the same size
/// leaves a smaller distance between the strengths of the teams than
/// `team1` and `team2` do.
pub open spec fn fairest_of_all<T>(
    players: Seq<(T, Rating)>,
    team1: Seq<(T, Rating)>,
    team2: Seq<(T, Rating)>,
) -> bool {
    forall|one: Seq<(T, Rating)>, two: Seq<(T, Rating)>|
        one.len() == two.len() && one.to_multiset().add(two.to_multiset())
            == players.to_multiset() ==> gap(team1, team2) <= #[trigger] gap(one, two)
}

/// The mask that marks what `mask` does not.
pub open spec fn complement(mask: Seq<bool>) -> Seq<bool> {
    Seq::new(mask.len(), |i: int| !mask[i])
}

/// The complement marks the others, and turns the lead round.
proof fn lemma_complement(means: Seq<i64>, mask: Seq<bool>, upto: nat)
    requires
        upto <= mask.len(),
    ensures
        marked(complement(mask), upto) == upto - marked(mask, upto),
        lead(means, complement(mask), upto) == -lead(means, mask, upto),
    decreases upto,
{
    if upto > 0 {
        lemma_complement(means, mask, (upto - 1) as nat);
    }
}

/// Of an even number of players, no half at all leaves less imbalance than
/// the team that the balancer forms: the split is the best of all splits
/// into two teams of the same size.
pub proof fn lemma_fairest_is_optimal_among_halves(means: Seq<i64>, mask: Seq<bool>)
    requires
        2 <= means.len() <= usize::MAX,
        means.len() % 2 == 0,
        is_half(mask, means.len()),
    ensures
        imbalance(means, fairest(means)) <= imbalance(means, mask),
{
    let n = means.len();
    if mask[n - 1] {
        lemma_fairest_is_optimal(means, mask);
    } else {
        lemma_complement(means, mask, n);
        lemma_fairest_is_optimal(means, complement(mask));
    }
}

/// The sum of the mean ratings of a team.
pub open spec fn strength<T>(team: Seq<(T, Rating)>) -> int
    decreases team.len(),
{
    if team.len() == 0 {
        0
    } else {
        strength(team.drop_last()) + team.last().1.mean
    }
}

/// Whether each entry is ranked by the mean of its own rating.
pub open spec fn ranked_by_mean<T>(order: Seq<((T, Rating), i64)>) -> bool {
    forall|i: int| 0 <= i < order.len() ==> (#[trigger] order[i]).1 == order[i].0.1.mean
}

/// Ranking keeps each player with the mean that it is ranked by.
proof fn lemma_ranked_by_mean<T>(players: Seq<(T, Rating)>)
    ensures
        ranked_by_mean(ranked(keyed(players))),
{
    broadcast use vstd::seq_lib::group_to_multiset_ensures;

    let order = ranked(keyed(players));
    crate::ranking::lemma_ranked(keyed(players));
    assert forall|i: int| 0 <= i < order.len() implies (#[trigger] order[i]).1
        == order[i].0.1.mean by {
        assert(order.to_multiset().count(order[i]) > 0);
        assert(keyed(players).contains(order[i]));
    }
}

/// The lead is the strength of the others less that of the marked.
proof fn lemma_lead_is_gap<T>(order: Seq<((T, Rating), i64)>, mask: Seq<bool>, upto: nat)
    requires
        upto <= order.len(),
        ranked_by_mean(order),
    ensures
        lead(means_of(order), mask, upto) == strength(members(order, mask, false, upto))
            - strength(members(order, mask, true, upto)),
    decreases upto,
{
    if upto > 0 {
        lemma_lead_is_gap(order, mask, (upto - 1) as nat);
        let before_in = members(order, mask, true, (upto - 1) as nat);
        let before_out = members(order, mask, false, (upto - 1) as nat);
        let entry = order[upto - 1];
        assert(entry.1 == entry.0.1.mean);
        if mask[upto - 1] {
            assert(before_in.push(entry.0).drop_last() =~= before_in);
        } else {
            assert(before_out.push(entry.0).drop_last() =~= before_out);
        }
    }
}

/// The distance between the strengths of two teams.
pub open spec fn gap<T>(team1: Seq<(T, Rating)>, team2: Seq<(T, Rating)>) -> int {
    let d = strength(team1) - strength(team2);
    if d < 0 {
        -d
    } else {
        d
    }
}

/// The imbalance that the balancer minimises is the distance between the
/// strengths of the two teams that it returns.
pub proof fn lemma_split_gap<T>(players: Seq<(T, Rating)>, flip: bool)
    requires
        2 <= players.len() <= usize::MAX,
    ensures
        gap(split(players, flip).0, split(players, flip).1) == imbalance(
            means_of(ranked(keyed(players))),
            fairest(means_of(ranked(keyed(players)))),
        ),
{
    let order = ranked(keyed(players));
    crate::ranking::lemma_ranked(keyed(players));
    lemma_ranked_by_mean(players);
    lemma_lead_is_gap(order, fairest(means_of(order)), order.len());
}

/// The players of ranked entries.
pub open spec fn firsts<T>(order: Seq<(T, i64)>) -> Seq<T> {
    Seq::new(order.len(), |i: int| order[i].0)
}

/// Placing an entry adds its player to the players.
proof fn lemma_placed_firsts<T>(sorted: Seq<(T, i64)>, item: (T, i64))
    ensures
        firsts(crate::ranking::placed(sorted, item)).to_multiset() == firsts(
            sorted,
        ).to_multiset().insert(item.0),
    decreases sorted.len(),
{
    broadcast use vstd::seq_lib::group_to_multiset_ensures;

    if sorted.len() == 0 || sorted.last().1 >= item.1 {
        assert(firsts(sorted.push(item)) =~= firsts(sorted).push(item.0));
    } else {
        let rest = sorted.drop_last();
        lemma_placed_firsts(rest, item);
        let inner = crate::ranking::placed(rest, item);
        assert(firsts(inner.push(sorted.last())) =~= firsts(inner).push(sorted.last().0));
        assert(firsts(sorted) =~= firsts(rest).push(sorted.last().0));
        assert(firsts(inner).push(sorted.last().0).to_multiset() =~= firsts(
            sorted,
        ).to_multiset().insert(item.0));
    }
}

/// A ranking holds the players ranked, each as often as it came.
proof fn lemma_ranked_firsts<T>(items: Seq<(T, i64)>)
    ensures
        firsts(ranked(items)).to_multiset() == firsts(items).to_multiset(),
    decreases items.len(),
{
    broadcast use vstd::seq_lib::group_to_multiset_ensures;

    if items.len() == 0 {
        assert(firsts(items) =~= firsts(ranked(items)));
    } else {
        lemma_ranked_firsts(items.drop_last());
        lemma_placed_firsts(ranked(items.drop_last()), items.last());
        assert(firsts(items) =~= firsts(items.drop_last()).push(items.last().0));
    }
}

/// The two teams together are the players ranked.
proof fn lemma_members_partition<T>(order: Seq<(T, i64)>, mask: Seq<bool>, upto: nat)
    requires
        upto <= order.len(),
    ensures
        members(order, mask, true, upto).to_multiset().add(
            members(order, mask, false, upto).to_multiset(),
        ) == firsts(order).take(upto as int).to_multiset(),
    decreases upto,
{
    broadcast use vstd::seq_lib::group_to_multiset_ensures;

    if upto == 0 {
        assert(firsts(order).take(0) =~= Seq::<T>::empty());
        assert(members(order, mask, true, 0).to_multiset().add(
            members(order, mask, false, 0).to_multiset(),
        ) =~= Seq::<T>::empty().to_multiset());
    } else {
        lemma_members_partition(order, mask, (upto - 1) as nat);
        assert(firsts(order).take(upto as int) =~= firsts(order).take(upto - 1).push(
            order[upto - 1].0,
        ));
        assert(members(order, mask, true, upto).to_multiset().add(
            members(order, mask, false, upto).to_multiset(),
        ) =~= firsts(order).take(upto as int).to_multiset());
    }
}

/// The two teams together are the players that were to be split: nobody is
/// lost, added or on both teams.
pub proof fn lemma_split_partitions<T>(players: Seq<(T, Rating)>, flip: bool)
    ensures
        split(players, flip).0.to_multiset().add(split(players, flip).1.to_multiset())
            == players.to_multiset(),
{
    broadcast use vstd::seq_lib::group_to_multiset_ensures;

    let order = ranked(keyed(players));
    let mask = fairest(means_of(order));
    lemma_members_partition(order, mask, order.len());
    lemma_ranked_firsts(keyed(players));
    assert(firsts(order).take(order.len() as int) =~= firsts(order));
    assert(firsts(keyed(players)) =~= players);
    let a = members(order, mask, true, order.len()).to_multiset();
    let b = members(order, mask, false, order.len()).to_multiset();
    assert(a.add(b) =~= b.add(a));
}

/// The means of the ratings of ranked players.
pub open spec fn rating_means<T>(order: Seq<((T, Rating), i64)>) -> Seq<i64> {
    Seq::new(order.len(), |i: int| order[i].0.1.mean)
}

/// A lead over the first entries depends on nothing but those entries.
proof fn lemma_lead_prefix(a: Seq<i64>, ma: Seq<bool>, b: Seq<i64>, mb: Seq<bool>, upto: nat)
    requires
        upto <= a.len(),
        upto <= b.len(),
        upto <= ma.len(),
        upto <= mb.len(),
        forall|i: int| 0 <= i < upto ==> a[i] == b[i] && ma[i] == mb[i],
    ensures
        lead(a, ma, upto) == lead(b, mb, upto),
        marked(ma, upto) == marked(mb, upto),
    decreases upto,
{
    if upto > 0 {
        lemma_lead_prefix(a, ma, b, mb, (upto - 1) as nat);
    }
}

/// A team without one of its players is weaker by the mean of that player.
proof fn lemma_strength_remove<T>(team: Seq<(T, Rating)>, at: int)
    requires
        0 <= at < team.len(),
    ensures
        strength(team.remove(at)) == strength(team) - team[at].1.mean,
    decreases team.len(),
{
    let rest = team.drop_last();
    if at == team.len() - 1 {
        assert(team.remove(at) =~= rest);
    } else {
        lemma_strength_remove(rest, at);
        assert(team.remove(at).drop_last() =~= rest.remove(at));
        assert(team.remove(at).last() == team.last());
    }
}

/// Two multisets that together are a third with one more `item`: take the
/// item from one of them, and together they are the third.
proof fn lemma_take_one<A>(a: Multiset<A>, b: Multiset<A>, all: Multiset<A>, item: A)
    requires
        a.add(b) == all.insert(item),
        a.count(item) > 0,
    ensures
        a.remove(item).add(b) == all,
        b.add(a.remove(item)) == all,
{
    broadcast use vstd::multiset::group_multiset_axioms;

    assert forall|v: A| a.remove(item).add(b).count(v) == all.count(v) by {
        assert(a.add(b).count(v) == a.count(v) + b.count(v));
        assert(all.insert(item).count(v) == all.count(v) + if v == item {
            1nat
        } else {
            0nat
        });
    }
    assert(a.remove(item).add(b) =~= all);
    assert(b.add(a.remove(item)) =~= all);
}

/// However ranked players are dealt into two teams, some mask marks as many
/// as the first team has, and leaves a lead that is the strength of the
/// second team less that of the first.
proof fn lemma_teams_have_a_mask<T>(
    order: Seq<((T, Rating), i64)>,
    team1: Seq<(T, Rating)>,
    team2: Seq<(T, Rating)>,
) -> (mask: Seq<bool>)
    requires
        team1.to_multiset().add(team2.to_multiset()) == firsts(order).to_multiset(),
    ensures
        mask.len() == order.len(),
        marked(mask, order.len()) == team1.len(),
        lead(rating_means(order), mask, order.len()) == strength(team2) - strength(team1),
    decreases order.len(),
{
    broadcast use vstd::seq_lib::group_to_multiset_ensures;
    broadcast use vstd::multiset::group_multiset_axioms;

    let n = order.len();
    let one = team1.to_multiset();
    let two = team2.to_multiset();
    if n == 0 {
        assert(firsts(order) =~= Seq::<(T, Rating)>::empty());
        assert(firsts(order).to_multiset().len() == 0);
        assert(one.add(two).len() == one.len() + two.len());
        assert(team1.len() == 0 && team2.len() == 0);
        Seq::<bool>::empty()
    } else {
        let rest = order.drop_last();
        let player = order.last().0;
        assert(firsts(order) =~= firsts(rest).push(player));
        let all = firsts(rest).to_multiset();
        assert(firsts(order).to_multiset() =~= all.insert(player));
        assert(one.add(two).count(player) == one.count(player) + two.count(player));
        assert(all.insert(player).count(player) == all.count(player) + 1);
        if team1.contains(player) {
            let at = choose|at: int| 0 <= at < team1.len() && team1[at] == player;
            let fewer = team1.remove(at);
            assert(fewer.to_multiset() == one.remove(player));
            lemma_take_one(one, two, all, player);
            let before = lemma_teams_have_a_mask(rest, fewer, team2);
            let mask = before.push(true);
            lemma_lead_prefix(
                rating_means(order),
                mask,
                rating_means(rest),
                before,
                (n - 1) as nat,
            );
            lemma_strength_remove(team1, at);
            mask
        } else {
            assert(two.count(player) > 0);
            assert(team2.contains(player));
            let at = choose|at: int| 0 <= at < team2.len() && team2[at] == player;
            let fewer = team2.remove(at);
            assert(fewer.to_multiset() == two.remove(player));
            assert(two.add(one) =~= one.add(two));
            lemma_take_one(two, one, all, player);
            let before = lemma_teams_have_a_mask(rest, team1, fewer);
            let mask = before.push(false);
            lemma_lead_prefix(
                rating_means(order),
                mask,
                rating_means(rest),
                before,
                (n - 1) as nat,
            );
            lemma_strength_remove(team2, at);
            mask
        }
    }
}

/// No way of dealing an even number of players into two teams of the same
/// size leaves a smaller distance between the strengths of the teams than
/// the split does.
pub proof fn lemma_no_fairer_teams<T>(
    players: Seq<(T, Rating)>,
    flip: bool,
    team1: Seq<(T, Rating)>,
    team2: Seq<(T, Rating)>,
)
    requires
        2 <= players.len() <= usize::MAX,
        players.len() % 2 == 0,
        team1.len() == team2.len(),
        team1.to_multiset().add(team2.to_multiset()) == players.to_multiset(),
    ensures
        gap(split(players, flip).0, split(players, flip).1) <= gap(team1, team2),
{
    broadcast use vstd::seq_lib::group_to_multiset_ensures;
    broadcast use vstd::multiset::group_multiset_axioms;

    let order = ranked(keyed(players));
    let means = means_of(order);
    crate::ranking::lemma_ranked(keyed(players));
    lemma_ranked_by_mean(players);
    lemma_ranked_firsts(keyed(players));
    assert(firsts(keyed(players)) =~= players);
    assert(rating_means(order) =~= means);
    let mask = lemma_teams_have_a_mask(order, team1, team2);
    assert(team1.len() + team2.len() == players.len()) by {
        assert(team1.to_multiset().len() + team2.to_multiset().len()
            == players.to_multiset().len());
    }
    lemma_fairest_is_optimal_among_halves(means, mask);
    lemma_split_gap(players, flip);
}

/// The mask of the team formed of the anchor and `chosen`.
fn mark_team(chosen: &Vec<usize>, n: usize) -> (r: Vec<bool>)
    requires
        n >= 1,
        ascending_within(chosen@, 0, (n - 1) as usize),
    ensures
        r@ == team_mask(chosen@, n as nat),
{
    let mut mask: Vec<bool> = Vec::new();
    let mut i: usize = 0;
    while i < n
        invariant
            i <= n,
            mask@.len() == i,
            forall|j: int| 0 <= j < i ==> mask@[j] == (j == n - 1),
        decreases n - i,
    {
        mask.push(i == n - 1);
        i += 1;
    }
    let mut j: usize = 0;
    while j < chosen.len()
        invariant
            j <= chosen.len(),
            n >= 1,
            ascending_within(chosen@, 0, (n - 1) as usize),
            mask@.len() == n,
            forall|i: int|
                0 <= i < n ==> mask@[i] == (i == n - 1 || chosen@.take(j as int).contains(
                    i as usize,
                )),
        decreases chosen.len() - j,
    {
        let at: usize = chosen[j];
        let ghost done = chosen@.take(j as int);
        let ghost next = chosen@.take(j + 1);
        assert(0 <= chosen@[j as int] < n - 1);
        mask.set(at, true);
        proof {
            assert(next =~= done.push(at));
            assert forall|i: int| 0 <= i < n implies mask@[i] == (i == n - 1 || next.contains(
                i as usize,
            )) by {
                if next.contains(i as usize) {
                    let x = choose|x: int| 0 <= x < next.len() && next[x] == i as usize;
                    if x < done.len() {
                        assert(done[x] == i as usize);
                    }
                }
                if done.contains(i as usize) {
                    let x = choose|x: int| 0 <= x < done.len() && done[x] == i as usize;
                    assert(next[x] == i as usize);
                }
                assert(next[done.len() as int] == at);
            }
        }
        j += 1;
    }
    proof {
        assert(chosen@.take(chosen.len() as int) =~= chosen@);
        assert(mask@ =~= team_mask(chosen@, n as nat));
    }
    mask
}

/// The imbalance that the team marked by `mask` leaves.
fn imbalance_of<T>(order: &Vec<(T, i64)>, mask: &Vec<bool>) -> (r: i128)
    requires
        mask.len() == order.len(),
    ensures
        r == imbalance(means_of(order@), mask@),
{
    let ghost means = means_of(order@);
    let mut acc: i128 = 0;
    let mut i: usize = 0;
    while i < order.len()
        invariant
            i <= order.len(),
            mask.len() == order.len(),
            means == means_of(order@),
            acc == lead(means, mask@, i as nat),
            -(i * 0x8000_0000_0000_0000) <= acc <= i * 0x8000_0000_0000_0000,
        decreases order.len() - i,
    {
        let mean: i64 = order[i].1;
        proof {
            lemma_lead_bound(means, mask@, (i + 1) as nat);
            assert(i * 0x8000_0000_0000_0000 <= 0xffff_ffff_ffff_ffff * 0x8000_0000_0000_0000)
                by (nonlinear_arith)
                requires
                    i <= 0xffff_ffff_ffff_ffff,
            ;
        }
        if mask[i] {
            acc = acc - mean as i128;
        } else {
            acc = acc + mean as i128;
        }
        i += 1;
    }
    if acc < 0 {
        -acc
    } else {
        acc
    }
}

/// Those of `order` whose mark is `side`, in order.
fn pick<T: Copy>(order: &Vec<(T, i64)>, mask: &Vec<bool>, side: bool) -> (r: Vec<T>)
    requires
        mask.len() == order.len(),
    ensures
        r@ == members(order@, mask@, side, order@.len()),
{
    let mut out: Vec<T> = Vec::new();
    let mut i: usize = 0;
    while i < order.len()
        invariant
            i <= order.len(),
            mask.len() == order.len(),
            out@ == members(order@, mask@, side, i as nat),
        decreases order.len() - i,
    {
        if mask[i] == side {
            out.push(order[i].0);
        }
        i += 1;
    }
    out
}

/// Splits `players` into two teams, with the coin given: see [`split`].
///
/// Fewer than two players cannot be split. For two or more, the teams are
/// `split(players, flip)`: team 1 has half of the players, rounded down,
/// team 2 the rest, and of all the teams that could have been formed around
/// the anchor none leaves less imbalance. For an even number of players
/// that makes the split the best of all splits into equal teams.
///
/// The work grows with the number of ways to choose half of the players.
pub fn balance_with<T: Copy>(players: &[(T, Rating)], flip: bool) -> (r: Result<
    [Vec<(T, Rating)>; 2],
    Error,
>)
    ensures
        players@.len() < 2 ==> r is Err && r->Err_0 == Error::InsufficientPlayers,
        players@.len() >= 2 ==> {
            let means = means_of(ranked(keyed(players@)));
            &&& r is Ok
            &&& (r->Ok_0[0]@, r->Ok_0[1]@) == split(players@, flip)
            &&& r->Ok_0[0]@.len() == players@.len() / 2
            &&& r->Ok_0[1]@.len() == players@.len() - players@.len() / 2
            &&& r->Ok_0[0]@.to_multiset().add(r->Ok_0[1]@.to_multiset()) == players@.to_multiset()
            &&& gap(r->Ok_0[0]@, r->Ok_0[1]@) == imbalance(means, fairest(means))
            &&& forall|mask: Seq<bool>| #[trigger]
                is_split(mask, players@.len()) ==> imbalance(means, fairest(means)) <= imbalance(
                    means,
                    mask,
                )
            &&& players@.len() % 2 == 0 ==> forall|mask: Seq<bool>| #[trigger]
                is_half(mask, players@.len()) ==> imbalance(means, fairest(means)) <= imbalance(
                    means,
                    mask,
                )
            &&& players@.len() % 2 == 0 ==> fairest_of_all(players@, r->Ok_0[0]@, r->Ok_0[1]@)
        },
{
    let n = players.len();
    if n < 2 {
        return Err(Error::InsufficientPlayers);
    }
    let mut with_means: Vec<((T, Rating), i64)> = Vec::new();
    let mut i: usize = 0;
    while i < n
        invariant
            i <= n,
            n == players@.len(),
            with_means@.len() == i,
            forall|j: int| 0 <= j < i ==> with_means@[j] == keyed(players@)[j],
        decreases n - i,
    {
        let player: (T, Rating) = players[i];
        with_means.push((player, player.1.mean));
        i += 1;
    }
    assert(with_means@ =~= keyed(players@));
    let order = rank(&with_means);
    let ghost means = means_of(order@);
    let mut left = choices_of(n - 1, n / 2 - 1);
    let ghost all = choices(n as nat);
    let ghost listed = scores(means, all);
    proof {
        lemma_choices_exist(n as nat);
        assert(all.skip(0) =~= all);
    }
    let ghost mut at: int = 0;
    let ghost mut best: int = 0;
    let mut best_mask: Vec<bool> = Vec::new();
    let mut best_score: i128 = 0;
    let mut found = false;
    let mut done = false;
    while !done
        invariant
            0 <= at <= all.len(),
            n >= 2,
            n == order@.len(),
            means == means_of(order@),
            all == choices(n as nat),
            all.len() > 0,
            listed == scores(means, all),
            pending(left) == all.skip(at),
            done ==> at == all.len(),
            found == (at > 0),
            at > 0 ==> {
                &&& best == first_least(listed.take(at))
                &&& 0 <= best < at
                &&& best_score == listed[best]
                &&& best_mask@ == team_mask(all[best], n as nat)
            },
        decreases all.len() - at,
            if done {
                0int
            } else {
                1int
            },
    {
        match next_choice(&mut left) {
            None => {
                done = true;
            },
            Some(chosen) => {
                proof {
                    lemma_combinations_sound(0, (n - 1) as usize, (n / 2 - 1) as nat, at);
                    assert(all.skip(at)[0] == all[at]);
                    assert(all.skip(at).skip(1) =~= all.skip(at + 1));
                    assert(listed.take(at + 1).drop_last() =~= listed.take(at));
                    if at > 0 {
                        lemma_first_least(listed.take(at));
                    }
                }
                let mask = mark_team(&chosen, n);
                let score = imbalance_of(&order, &mask);
                if !found || score < best_score {
                    best_mask = mask;
                    best_score = score;
                    found = true;
                    proof {
                        best = at;
                    }
                }
                proof {
                    at = at + 1;
                }
            },
        }
    }
    proof {
        assert(listed.take(all.len() as int) =~= listed);
        assert(best_mask@ == fairest(means));
        lemma_fairest_is_split(means);
        lemma_members_len(order@, best_mask@, n as nat);
        lemma_split_partitions(players@, flip);
        lemma_split_gap(players@, flip);
        assert forall|mask: Seq<bool>| #[trigger] is_split(mask, n as nat) implies imbalance(
            means,
            fairest(means),
        ) <= imbalance(means, mask) by {
            lemma_fairest_is_optimal(means, mask);
        }
        if n % 2 == 0 {
            assert forall|mask: Seq<bool>| #[trigger] is_half(mask, n as nat) implies imbalance(
                means,
                fairest(means),
            ) <= imbalance(means, mask) by {
                lemma_fairest_is_optimal_among_halves(means, mask);
            }
            let teams = split(players@, flip);
            assert forall|one: Seq<(T, Rating)>, two: Seq<(T, Rating)>|
                one.len() == two.len() && one.to_multiset().add(two.to_multiset())
                    == players@.to_multiset() implies gap(teams.0, teams.1) <= #[trigger] gap(
                one,
                two,
            ) by {
                lemma_no_fairer_teams(players@, flip, one, two);
            }
        }
    }
    let with_anchor = pick(&order, &best_mask, true);
    let others = pick(&order, &best_mask, false);
    if flip && n % 2 == 0 {
        Ok([others, with_anchor])
    } else {
        Ok([with_anchor, others])
    }
}

/// A fair coin.
///
/// Calls `rand::random::<bool>`, which draws from the thread's generator.
/// Nothing is claimed of the result: either value may come out.
#[verifier::external_body]
pub(crate) fn flip_coin() -> (r: bool) {
    rand::random()
}

/// Splits `players` into two teams of equal strength, and lets a fair coin
/// decide which of them is team 1.
///
/// Fewer than two players cannot be split. For two or more, the result is
/// what [`balance_with`] returns for one of the two sides of the coin.
pub fn balance<T: Copy>(players: &[(T, Rating)]) -> (r: Result<[Vec<(T, Rating)>; 2], Error>)
    ensures
        players@.len() < 2 ==> r is Err && r->Err_0 == Error::InsufficientPlayers,
        players@.len() >= 2 ==> {
            &&& r is Ok
            &&& (r->Ok_0[0]@, r->Ok_0[1]@) == split(players@, false) || (r->Ok_0[0]@, r->Ok_0[1]@)
                == split(players@, true)
            &&& r->Ok_0[0]@.len() == players@.len() / 2
            &&& r->Ok_0[1]@.len() == players@.len() - players@.len() / 2
            &&& r->Ok_0[0]@.to_multiset().add(r->Ok_0[1]@.to_multiset()) == players@.to_multiset()
            &&& players@.len() % 2 == 0 ==> fairest_of_all(players@, r->Ok_0[0]@, r->Ok_0[1]@)
        },
{
    let flip = flip_coin();
    balance_with(players, flip)
}

} // verus!
