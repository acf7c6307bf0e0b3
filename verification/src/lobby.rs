//! The waiting queue of one matchmaking channel.

use crate::collections::keys_of;
use crate::config::Timeout;
use crate::rating::{PlayerInfo, Ratings};
use std::collections::HashMap;
use vstd::prelude::*;

verus! {

/// Seconds between two expiry sweeps.
pub const REFRESH_DELAY: u64 = 60;

/// A player's place in a queue: when it expires, and when, if at all, the
/// player is to be warned of that. Both are seconds since the Unix epoch.
#[derive(Debug, Clone, Copy, PartialEq, Eq)]
pub struct QueueUser {
    pub expire: i64,
    pub warn: Option<i64>,
}

impl QueueUser {
    pub fn new(expire: i64, warn: Option<i64>) -> (r: QueueUser)
        ensures
            r == (QueueUser { expire, warn }),
    {
        QueueUser { expire, warn }
    }

    pub fn expire(&self) -> (r: i64)
        ensures
            r == self.expire,
    {
        self.expire
    }

    pub fn warn(&self) -> (r: Option<i64>)
        ensures
            r == self.warn,
    {
        self.warn
    }

    /// The place of a player who joins at `now`: it lasts for the default
    /// time, and the warning comes the configured time before its end.
    pub fn starting(now: i64, timeout: Timeout) -> (r: QueueUser)
        requires
            on_clock(now + 60 * timeout.default),
            on_clock(now + 60 * timeout.default - 60 * timeout.warn),
        ensures
            r.expire == now + 60 * timeout.default,
            r.warn == Some((now + 60 * timeout.default - 60 * timeout.warn) as i64),
    {
        let expire: i128 = now as i128 + 60 * (timeout.default as i128);
        let warn: i128 = expire - 60 * (timeout.warn as i128);
        QueueUser { expire: expire as i64, warn: Some(warn as i64) }
    }

    /// The place of a player who, at `now`, asks to stay for `requested`
    /// minutes: it lasts for the minutes granted, and the warning comes the
    /// configured time before its end, if the place lasts longer than that.
    pub fn renewed(now: i64, requested: i64, timeout: Timeout) -> (r: QueueUser)
        requires
            on_clock(now + 60 * granted(requested, timeout.maximum)),
        ensures
            r == renewal(now, requested, timeout),
    {
        let minutes: i64 = grant(requested, timeout.maximum);
        let expire: i128 = now as i128 + 60 * (minutes as i128);
        let warn: Option<i64> = if minutes >= 0 && minutes as u64 > timeout.warn {
            Some((expire - 60 * (timeout.warn as i128)) as i64)
        } else {
            None
        };
        QueueUser { expire: expire as i64, warn }
    }

    /// Whether the place has run out at `now`.
    pub open spec fn expired_at(self, now: i64) -> bool {
        now >= self.expire
    }

    /// Whether, at `now`, the warning is due.
    pub open spec fn warning_due_at(self, now: i64) -> bool {
        self.warn is Some && now >= self.warn->0
    }
}

/// Whether `t` is a time that the clock can show.
pub open spec fn on_clock(t: int) -> bool {
    i64::MIN <= t <= i64::MAX
}

/// The minutes granted to a player who asks for `requested`: no more than
/// `maximum`, and otherwise at least one.
pub open spec fn granted(requested: i64, maximum: u64) -> int {
    if requested > maximum {
        maximum as int
    } else if requested < 1 {
        1
    } else {
        requested as int
    }
}

/// Executable form of [`granted`].
pub fn grant(requested: i64, maximum: u64) -> (r: i64)
    ensures
        r == granted(requested, maximum),
{
    if requested >= 0 && requested as u64 > maximum {
        maximum as i64
    } else if requested < 1 {
        1
    } else {
        requested
    }
}

/// The place of a player who, at `now`, asks to stay for `requested`
/// minutes.
pub open spec fn renewal(now: i64, requested: i64, timeout: Timeout) -> QueueUser {
    let minutes = granted(requested, timeout.maximum);
    let expire = now + 60 * minutes;
    QueueUser {
        expire: expire as i64,
        warn: if minutes > timeout.warn {
            Some((expire - 60 * timeout.warn) as i64)
        } else {
            None
        },
    }
}

/// Why a queue refused a request.
#[derive(Debug, Clone, Copy, PartialEq, Eq, Structural)]
pub enum LobbyError {
    NotInQueue(u64),
    AlreadyInQueue(u64),
    Frozen,
    /// A capacity must be even and at least 2.
    BadCapacity(usize),
}

/// Where the lobby's leaderboard is posted, and the messages that hold it.
#[derive(Debug, Clone)]
pub struct Webhook {
    pub id: u64,
    pub token: String,
    pub messages: Vec<u64>,
}

/// One matchmaking queue with its settings and its ratings.
#[derive(Debug, Clone)]
pub struct Lobby {
    queue: HashMap<u64, QueueUser>,
    name: String,
    ratings: Ratings,
    webhook: Option<Webhook>,
    capacity: usize,
    frozen: bool,
}

/// The mathematical value of a [`Lobby`].
pub struct LobbyView {
    pub queue: Map<u64, QueueUser>,
    pub name: Seq<char>,
    pub ratings: Map<u64, PlayerInfo>,
    pub webhook: Option<Webhook>,
    pub capacity: nat,
    pub frozen: bool,
}

impl View for Lobby {
    type V = LobbyView;

    closed spec fn view(&self) -> LobbyView {
        LobbyView {
            queue: self.queue@,
            name: self.name@,
            ratings: self.ratings@,
            webhook: self.webhook,
            capacity: self.capacity as nat,
            frozen: self.frozen,
        }
    }
}

/// Whether `n` can be the capacity of a lobby: even and at least 2.
pub open spec fn valid_capacity(n: nat) -> bool {
    n >= 2 && n % 2 == 0
}

/// Whether `players` lists exactly the players of `queue`, each once.
pub open spec fn lists_queue(players: Seq<u64>, queue: Map<u64, QueueUser>) -> bool {
    &&& players.no_duplicates()
    &&& players.to_set() == queue.dom()
    &&& players.len() == queue.len()
}

/// Executable form of [`valid_capacity`].
pub fn is_valid_capacity(n: usize) -> (r: bool)
    ensures
        r == valid_capacity(n as nat),
{
    n >= 2 && n % 2 == 0
}

impl LobbyView {
    /// Whether the lobby is one that [`Lobby::new`] and the methods of
    /// [`Lobby`] can produce: its capacity is even and at least 2.
    pub open spec fn well_formed(self) -> bool {
        valid_capacity(self.capacity)
    }

    /// Whether fewer players wait than make a match. A lobby is in this
    /// state between requests, as long as its capacity is not lowered to
    /// less than wait.
    pub open spec fn below_capacity(self) -> bool {
        self.queue.dom().finite() && self.queue.len() < self.capacity
    }

    /// The error with which `player` is refused a place, if any: a frozen
    /// queue takes only forced requests, and nobody waits twice.
    pub open spec fn join_error(self, player: u64, force: bool) -> Option<LobbyError> {
        if self.frozen && !force {
            Some(LobbyError::Frozen)
        } else if self.queue.contains_key(player) {
            Some(LobbyError::AlreadyInQueue(player))
        } else {
            None
        }
    }

    /// The error with which `player` is refused to leave, if any: a frozen
    /// queue takes only forced requests, and only who waits can leave.
    pub open spec fn leave_error(self, player: u64, force: bool) -> Option<LobbyError> {
        if self.frozen && !force {
            Some(LobbyError::Frozen)
        } else if !self.queue.contains_key(player) {
            Some(LobbyError::NotInQueue(player))
        } else {
            None
        }
    }

    /// The lobby with `player` waiting at the place `entry`.
    pub open spec fn with_player(self, player: u64, entry: QueueUser) -> LobbyView {
        LobbyView { queue: self.queue.insert(player, entry), ..self }
    }

    /// The lobby with `player` no longer waiting.
    pub open spec fn without_player(self, player: u64) -> LobbyView {
        LobbyView { queue: self.queue.remove(player), ..self }
    }

    /// Whether as many players wait as make a match.
    pub open spec fn is_full(self) -> bool {
        self.queue.len() == self.capacity
    }

    /// The lobby with an empty queue.
    pub open spec fn emptied(self) -> LobbyView {
        LobbyView { queue: Map::empty(), ..self }
    }

    /// What is left after a check for a full queue: a full queue is handed
    /// out whole and leaves an empty one, any other stays as it is.
    pub open spec fn settled(self) -> LobbyView {
        if self.is_full() {
            self.emptied()
        } else {
            self
        }
    }

    /// Whether `drained` is what a check for a full queue hands out: the
    /// players of a full queue, each once, and nothing for any other.
    pub open spec fn hands_out(self, drained: Option<Vec<u64>>) -> bool {
        if self.is_full() {
            drained is Some && lists_queue(drained->0@, self.queue)
        } else {
            drained is None
        }
    }
}

impl Lobby {
    /// An open lobby with an empty queue.
    pub fn new(name: String, capacity: usize, ratings: Ratings) -> (r: Lobby)
        requires
            valid_capacity(capacity as nat),
        ensures
            r@ == (LobbyView {
                queue: Map::empty(),
                name: name@,
                ratings: ratings@,
                webhook: None,
                capacity: capacity as nat,
                frozen: false,
            }),
            r@.well_formed(),
    {
        Lobby { queue: HashMap::new(), name, ratings, webhook: None, capacity, frozen: false }
    }

    pub fn ratings(&self) -> (r: &Ratings)
        ensures
            r@ == self@.ratings,
    {
        &self.ratings
    }

    pub fn name(&self) -> (r: &str)
        ensures
            r@ == self@.name,
    {
        self.name.as_str()
    }

    /// The number of players waiting.
    pub fn len(&self) -> (r: usize)
        ensures
            r == self@.queue.len(),
            self@.queue.dom().finite(),
    {
        broadcast use vstd::std_specs::hash::group_hash_axioms;

        self.queue.len()
    }

    /// The number of players that make a match.
    pub fn capacity(&self) -> (r: usize)
        ensures
            r == self@.capacity,
    {
        self.capacity
    }

    pub fn is_frozen(&self) -> (r: bool)
        ensures
            r == self@.frozen,
    {
        self.frozen
    }

    /// The queue itself.
    pub fn queue(&self) -> (r: &HashMap<u64, QueueUser>)
        ensures
            r@ == self@.queue,
    {
        &self.queue
    }

    /// The queue itself, to be changed in place.
    pub fn queue_mut(&mut self) -> (r: &mut HashMap<u64, QueueUser>)
        ensures
            r@ == old(self)@.queue,
            final(self)@ == (LobbyView { queue: final(r)@, ..old(self)@ }),
    {
        &mut self.queue
    }

    /// Where the leaderboard is posted, to be changed in place.
    pub fn webhook_mut(&mut self) -> (r: &mut Option<Webhook>)
        ensures
            *r == old(self)@.webhook,
            final(self)@ == (LobbyView { webhook: *final(r), ..old(self)@ }),
    {
        &mut self.webhook
    }

    /// The place of `player` in the queue, if the player is waiting.
    pub fn entry(&self, player: u64) -> (r: Option<QueueUser>)
        ensures
            r == if self@.queue.contains_key(player) {
                Some(self@.queue[player])
            } else {
                None
            },
    {
        broadcast use vstd::std_specs::hash::group_hash_axioms;

        match self.queue.get(&player) {
            Some(e) => Some(*e),
            None => None,
        }
    }

    /// The players waiting, each once, in no particular order.
    pub fn players(&self) -> (r: Vec<u64>)
        ensures
            lists_queue(r@, self@.queue),
    {
        keys_of(&self.queue)
    }

    /// Stops the queue from taking requests that are not forced. Freezing a
    /// frozen lobby changes nothing.
    pub fn freeze(&mut self)
        ensures
            final(self)@ == (LobbyView { frozen: true, ..old(self)@ }),
    {
        self.frozen = true;
    }

    /// Opens the queue again. Unfreezing an open lobby changes nothing.
    pub fn unfreeze(&mut self)
        ensures
            final(self)@ == (LobbyView { frozen: false, ..old(self)@ }),
    {
        self.frozen = false;
    }

    pub fn set_webhook(&mut self, webhook_id: u64, webhook_token: String)
        ensures
            final(self)@.webhook is Some,
            final(self)@.webhook->0.id == webhook_id,
            final(self)@.webhook->0.token@ == webhook_token@,
            final(self)@.webhook->0.messages@ == Seq::<u64>::empty(),
            final(self)@ == (LobbyView { webhook: final(self)@.webhook, ..old(self)@ }),
    {
        self.webhook = Some(Webhook { id: webhook_id, token: webhook_token, messages: Vec::new() });
    }

    pub fn webhook(&self) -> (r: &Option<Webhook>)
        ensures
            *r == self@.webhook,
    {
        &self.webhook
    }

    /// Replaces the whole table of ratings.
    pub fn set_ratings(&mut self, ratings: Ratings)
        ensures
            final(self)@ == (LobbyView { ratings: ratings@, ..old(self)@ }),
    {
        self.ratings = ratings;
    }

    /// Empties the queue and hands out what it held.
    pub fn clear(&mut self) -> (r: HashMap<u64, QueueUser>)
        ensures
            r@ == old(self)@.queue,
            final(self)@ == (LobbyView { queue: Map::empty(), ..old(self)@ }),
    {
        let mut taken: HashMap<u64, QueueUser> = HashMap::new();
        std::mem::swap(&mut self.queue, &mut taken);
        taken
    }
}


impl Lobby {
    /// Hands out the queue if it is full: if as many players wait as make a
    /// match, all of them leave the queue at once and are returned; if not,
    /// nothing changes.
    pub fn drain_if_full(&mut self) -> (r: Option<Vec<u64>>)
        ensures
            old(self)@.hands_out(r),
            final(self)@ == old(self)@.settled(),
            r is Some ==> r->0@.len() == old(self)@.capacity,
    {
        if self.len() == self.capacity {
            let taken = self.clear();
            let players = keys_of(&taken);
            Some(players)
        } else {
            None
        }
    }

    /// Puts `user_id` into the queue, with a place that expires at `expire`
    /// and a warning at `warn`.
    ///
    /// A frozen lobby refuses unless `force` is set; a player who waits
    /// already is refused. A refusal changes nothing. If the player was the
    /// last one missing for a match, the queue is emptied in the same step
    /// and its players are returned.
    pub fn join(&mut self, user_id: u64, expire: i64, warn: Option<i64>, force: bool) -> (r: Result<
        Option<Vec<u64>>,
        LobbyError,
    >)
        ensures
            match old(self)@.join_error(user_id, force) {
                Some(e) => r == Err::<Option<Vec<u64>>, LobbyError>(e) && final(self)@ == old(
                    self,
                )@,
                None => {
                    let joined = old(self)@.with_player(user_id, QueueUser { expire, warn });
                    &&& r is Ok
                    &&& joined.hands_out(r->Ok_0)
                    &&& final(self)@ == joined.settled()
                },
            },
    {
        broadcast use vstd::std_specs::hash::group_hash_axioms;

        if self.frozen && !force {
            return Err(LobbyError::Frozen);
        }
        if self.queue.contains_key(&user_id) {
            return Err(LobbyError::AlreadyInQueue(user_id));
        }
        self.queue.insert(user_id, QueueUser { expire, warn });
        Ok(self.drain_if_full())
    }

    /// Takes `user_id` out of the queue.
    ///
    /// A frozen lobby refuses unless `force` is set; a player who does not
    /// wait is refused. A refusal changes nothing.
    pub fn leave(&mut self, user_id: u64, force: bool) -> (r: Result<(), LobbyError>)
        ensures
            match old(self)@.leave_error(user_id, force) {
                Some(e) => r == Err::<(), LobbyError>(e) && final(self)@ == old(self)@,
                None => r is Ok && final(self)@ == old(self)@.without_player(user_id),
            },
    {
        broadcast use vstd::std_specs::hash::group_hash_axioms;

        if self.frozen && !force {
            return Err(LobbyError::Frozen);
        }
        if !self.queue.contains_key(&user_id) {
            return Err(LobbyError::NotInQueue(user_id));
        }
        self.queue.remove(&user_id);
        Ok(())
    }

    /// Sets the number of players that make a match.
    ///
    /// A capacity that is odd or below 2 is refused and changes nothing. If
    /// exactly `capacity` players wait already, the queue is emptied in the
    /// same step and its players are returned.
    pub fn set_capacity(&mut self, capacity: usize) -> (r: Result<Option<Vec<u64>>, LobbyError>)
        ensures
            !valid_capacity(capacity as nat) ==> r == Err::<Option<Vec<u64>>, LobbyError>(
                LobbyError::BadCapacity(capacity),
            ) && final(self)@ == old(self)@,
            valid_capacity(capacity as nat) ==> {
                let resized = LobbyView { capacity: capacity as nat, ..old(self)@ };
                &&& r is Ok
                &&& resized.hands_out(r->Ok_0)
                &&& final(self)@ == resized.settled()
            },
            old(self)@.well_formed() ==> final(self)@.well_formed(),
    {
        if !is_valid_capacity(capacity) {
            return Err(LobbyError::BadCapacity(capacity));
        }
        self.capacity = capacity;
        Ok(self.drain_if_full())
    }
}


/// What an expiry sweep did to one player.
#[derive(Debug, Clone, Copy, PartialEq, Eq, Structural)]
pub enum SweepEvent {
    /// The player's place ran out and the player left the queue; `waiting`
    /// players were left in it at that moment.
    TimedOut { user_id: u64, waiting: usize },
    /// The player was warned that the place runs out in `minutes` minutes.
    ExpiringSoon { user_id: u64, minutes: u64 },
}

impl SweepEvent {
    /// The player that the event is about.
    pub open spec fn player(self) -> u64 {
        match self {
            SweepEvent::TimedOut { user_id, .. } => user_id,
            SweepEvent::ExpiringSoon { user_id, .. } => user_id,
        }
    }

    /// Executable form of [`SweepEvent::player`].
    pub fn user_id(&self) -> (r: u64)
        ensures
            r == self.player(),
    {
        match self {
            SweepEvent::TimedOut { user_id, .. } => *user_id,
            SweepEvent::ExpiringSoon { user_id, .. } => *user_id,
        }
    }
}

/// The number of players that the events say have timed out.
pub open spec fn timeouts(events: Seq<SweepEvent>) -> nat
    decreases events.len(),
{
    if events.len() == 0 {
        0
    } else {
        timeouts(events.drop_last()) + if events.last() is TimedOut {
            1nat
        } else {
            0nat
        }
    }
}

/// The minutes from `now` until `expire`, rounded up to whole sweep
/// intervals.
pub open spec fn minutes_left(expire: i64, now: i64) -> int {
    (expire - now + REFRESH_DELAY - 1) / (REFRESH_DELAY as int) * REFRESH_DELAY / 60
}

/// Executable form of [`minutes_left`], for a place that has not run out.
pub fn minutes_until(expire: i64, now: i64) -> (r: u64)
    requires
        now < expire,
    ensures
        r == minutes_left(expire, now),
{
    let seconds: u128 = (expire as i128 - now as i128) as u128;
    let delay: u128 = REFRESH_DELAY as u128;
    let intervals: u128 = (seconds + delay - 1) / delay;
    (intervals * delay / 60) as u64
}

/// The queue after a sweep at `now`: every place that has run out is gone,
/// and every warning that was due is cleared, so that it is given once.
pub open spec fn swept(queue: Map<u64, QueueUser>, now: i64) -> Map<u64, QueueUser> {
    Map::new(
        |p: u64| queue.contains_key(p) && !queue[p].expired_at(now),
        |p: u64|
            if queue[p].warning_due_at(now) {
                QueueUser { warn: None, ..queue[p] }
            } else {
                queue[p]
            },
    )
}

/// The queue in the middle of a sweep, when the players of `done` have been
/// looked at.
pub open spec fn swept_among(queue: Map<u64, QueueUser>, now: i64, done: Seq<u64>) -> Map<
    u64,
    QueueUser,
> {
    Map::new(
        |p: u64| queue.contains_key(p) && !(done.contains(p) && queue[p].expired_at(now)),
        |p: u64|
            if done.contains(p) && queue[p].warning_due_at(now) {
                QueueUser { warn: None, ..queue[p] }
            } else {
                queue[p]
            },
    )
}

/// Whether the event `event` is what a sweep at `now` reports of a player
/// with the place `entry`, apart from the count of those left waiting.
pub open spec fn reports(event: SweepEvent, entry: QueueUser, now: i64) -> bool {
    match event {
        SweepEvent::TimedOut { .. } => entry.expired_at(now),
        SweepEvent::ExpiringSoon { minutes, .. } => !entry.expired_at(now) && entry.warning_due_at(
            now,
        ) && minutes == minutes_left(entry.expire, now),
    }
}

/// Whether `events` is a report of a sweep of `queue` at `now`: one event
/// for each player whose place ran out or whose warning was due, none for
/// any other, and with each player that timed out the number of players left
/// after that one and those reported before.
pub open spec fn reports_sweep(events: Seq<SweepEvent>, queue: Map<u64, QueueUser>, now: i64) -> bool {
    &&& forall|i: int, j: int|
        0 <= i < j < events.len() ==> events[i].player() != events[j].player()
    &&& forall|i: int|
        0 <= i < events.len() ==> {
            &&& queue.contains_key(#[trigger] events[i].player())
            &&& reports(events[i], queue[events[i].player()], now)
            &&& events[i] is TimedOut ==> events[i]->waiting == queue.len() - timeouts(
                events.take(i + 1),
            )
        }
    &&& forall|p: u64|
        queue.contains_key(p) && (queue[p].expired_at(now) || queue[p].warning_due_at(now))
            ==> exists|i: int| 0 <= i < events.len() && #[trigger] events[i].player() == p
}

impl Lobby {
    /// The periodic expiry sweep at the time `now`.
    ///
    /// Every player whose place has run out leaves the queue, frozen or not.
    /// Every other player whose warning is due is warned, and the warning is
    /// cleared. The events say what was done, in the order in which it was
    /// done. No place that has run out at `now` is left in the queue.
    pub fn sweep(&mut self, now: i64) -> (events: Vec<SweepEvent>)
        ensures
            final(self)@ == (LobbyView { queue: swept(old(self)@.queue, now), ..old(self)@ }),
            reports_sweep(events@, old(self)@.queue, now),
            forall|p: u64| #[trigger]
                final(self)@.queue.contains_key(p) ==> !final(self)@.queue[p].expired_at(now),
    {
        broadcast use vstd::std_specs::hash::group_hash_axioms;

        let players = keys_of(&self.queue);
        let ghost before = self.queue@;
        let mut events: Vec<SweepEvent> = Vec::new();
        let mut i: usize = 0;
        while i < players.len()
            invariant
                i <= players.len(),
                players@.no_duplicates(),
                players@.to_set() == before.dom(),
                before.dom().finite(),
                self.queue@ == swept_among(before, now, players@.take(i as int)),
                self@ == (LobbyView { queue: self.queue@, ..old(self)@ }),
                self.queue@.len() == before.len() - timeouts(events@),
                forall|a: int, b: int|
                    0 <= a < b < events@.len() ==> events@[a].player() != events@[b].player(),
                forall|k: int|
                    0 <= k < events@.len() ==> {
                        &&& players@.take(i as int).contains(#[trigger] events@[k].player())
                        &&& before.contains_key(events@[k].player())
                        &&& reports(events@[k], before[events@[k].player()], now)
                        &&& events@[k] is TimedOut ==> events@[k]->waiting == before.len()
                            - timeouts(events@.take(k + 1))
                    },
                forall|j: int|
                    0 <= j < i && (before[players@[j]].expired_at(now)
                        || before[players@[j]].warning_due_at(now)) ==> exists|k: int|
                        0 <= k < events@.len() && #[trigger] events@[k].player() == players@[j],
            decreases players.len() - i,
        {
            let player: u64 = players[i];
            let ghost done = players@.take(i as int);
            let ghost next = players@.take(i + 1);
            let ghost reported = events@;
            proof {
                assert(next =~= done.push(player));
                assert(players@.to_set().contains(player));
                assert(!done.contains(player)) by {
                    if done.contains(player) {
                        let j = choose|j: int| 0 <= j < done.len() && done[j] == player;
                        assert(players@[j] == players@[i as int]);
                    }
                }
                assert forall|p: u64| next.contains(p) <==> (done.contains(p) || p == player) by {
                    if next.contains(p) {
                        let j = choose|j: int| 0 <= j < next.len() && next[j] == p;
                        if j < done.len() {
                            assert(done[j] == p);
                        }
                    }
                    if done.contains(p) {
                        let j = choose|j: int| 0 <= j < done.len() && done[j] == p;
                        assert(next[j] == p);
                    }
                    assert(next[done.len() as int] == player);
                }
            }
            let entry: QueueUser = match self.queue.get(&player) {
                Some(e) => *e,
                None => QueueUser { expire: now, warn: None },
            };
            assert(entry == before[player]);
            if now >= entry.expire {
                proof {
                    self.queue@.lemma_remove_key_len(player);
                }
                self.queue.remove(&player);
                let waiting = self.queue.len();
                events.push(SweepEvent::TimedOut { user_id: player, waiting });
                proof {
                    assert(events@.drop_last() =~= reported);
                    assert(events@.take(events@.len() as int) =~= events@);
                }
            } else if entry.warn.is_some() && now >= entry.warn.unwrap() {
                self.queue.insert(player, QueueUser { expire: entry.expire, warn: None });
                let minutes = minutes_until(entry.expire, now);
                events.push(SweepEvent::ExpiringSoon { user_id: player, minutes });
                proof {
                    assert(events@.drop_last() =~= reported);
                    assert(swept_among(before, now, done).insert(
                        player,
                        QueueUser { expire: entry.expire, warn: None },
                    ).dom() =~= swept_among(before, now, done).dom());
                }
            }
            proof {
                assert(self.queue@ =~= swept_among(before, now, next));
                assert forall|k: int| 0 <= k < events@.len() implies {
                    &&& next.contains(#[trigger] events@[k].player())
                    &&& before.contains_key(events@[k].player())
                    &&& reports(events@[k], before[events@[k].player()], now)
                    &&& events@[k] is TimedOut ==> events@[k]->waiting == before.len() - timeouts(
                        events@.take(k + 1),
                    )
                } by {
                    if k < reported.len() {
                        assert(events@[k] == reported[k]);
                        assert(events@.take(k + 1) =~= reported.take(k + 1));
                    }
                }
                assert forall|j: int|
                    0 <= j < i + 1 && (before[players@[j]].expired_at(now)
                        || before[players@[j]].warning_due_at(now)) implies exists|k: int|
                    0 <= k < events@.len() && #[trigger] events@[k].player() == players@[j] by {
                    if j < i {
                        let k = choose|k: int|
                            0 <= k < reported.len() && #[trigger] reported[k].player()
                                == players@[j];
                        assert(events@[k].player() == players@[j]);
                    } else {
                        assert(events@[events@.len() - 1].player() == player);
                    }
                }
            }
            i += 1;
        }
        proof {
            assert(players@.take(players.len() as int) =~= players@);
            assert forall|p: u64| before.contains_key(p) implies players@.contains(p) by {
                assert(players@.to_set().contains(p));
            }
            assert(self.queue@ =~= swept(before, now));
            assert forall|p: u64|
                before.contains_key(p) && (before[p].expired_at(now) || before[p].warning_due_at(
                    now,
                )) implies exists|k: int|
                0 <= k < events@.len() && #[trigger] events@[k].player() == p by {
                let j = choose|j: int| 0 <= j < players@.len() && players@[j] == p;
                assert(before[players@[j]].expired_at(now) || before[players@[j]].warning_due_at(
                    now,
                ));
            }
        }
        events
    }
}

/// The queue without the players listed.
pub open spec fn without(queue: Map<u64, QueueUser>, players: Seq<u64>) -> Map<u64, QueueUser> {
    Map::new(|p: u64| queue.contains_key(p) && !players.contains(p), |p: u64| queue[p])
}

/// Whether `left` reports how the players listed left `queue`: one entry
/// for each of them who was waiting, with the number of players that were
/// left after that one and those reported before.
pub open spec fn reports_leaving(left: Seq<(u64, usize)>, queue: Map<u64, QueueUser>, players: Seq<u64>) -> bool {
    &&& forall|i: int, j: int| 0 <= i < j < left.len() ==> left[i].0 != left[j].0
    &&& forall|i: int|
        0 <= i < left.len() ==> {
            &&& queue.contains_key((#[trigger] left[i]).0)
            &&& players.contains(left[i].0)
            &&& left[i].1 == queue.len() - (i + 1)
        }
    &&& forall|p: u64|
        queue.contains_key(p) && players.contains(p) ==> exists|i: int|
            0 <= i < left.len() && (#[trigger] left[i]).0 == p
}

impl Lobby {
    /// Gives the player `user_id`, who must be waiting, a new place in the
    /// queue, for the minutes asked for as far as they are granted, counted
    /// from `now`. Returns the minutes granted.
    pub fn renew(&mut self, user_id: u64, now: i64, requested: i64, timeout: Timeout) -> (r: Result<
        i64,
        LobbyError,
    >)
        requires
            on_clock(now + 60 * granted(requested, timeout.maximum)),
        ensures
            !old(self)@.queue.contains_key(user_id) ==> r == Err::<i64, LobbyError>(
                LobbyError::NotInQueue(user_id),
            ) && final(self)@ == old(self)@,
            old(self)@.queue.contains_key(user_id) ==> r == Ok::<i64, LobbyError>(
                granted(requested, timeout.maximum) as i64,
            ) && final(self)@ == (LobbyView {
                queue: old(self)@.queue.insert(user_id, renewal(now, requested, timeout)),
                ..old(self)@
            }),
    {
        broadcast use vstd::std_specs::hash::group_hash_axioms;

        if !self.queue.contains_key(&user_id) {
            return Err(LobbyError::NotInQueue(user_id));
        }
        self.queue.insert(user_id, QueueUser::renewed(now, requested, timeout));
        Ok(grant(requested, timeout.maximum))
    }

    /// Takes each of `players` who is waiting out of the queue, frozen or
    /// not; who is not waiting is passed over. Returns who left, in the
    /// order in which they left, each with the number of players left
    /// waiting at that moment.
    pub fn leave_all(&mut self, players: &[u64]) -> (left: Vec<(u64, usize)>)
        ensures
            final(self)@ == (LobbyView {
                queue: without(old(self)@.queue, players@),
                ..old(self)@
            }),
            reports_leaving(left@, old(self)@.queue, players@),
    {
        broadcast use vstd::std_specs::hash::group_hash_axioms;

        let ghost before = self.queue@;
        let mut left: Vec<(u64, usize)> = Vec::new();
        let mut i: usize = 0;
        while i < players.len()
            invariant
                i <= players.len(),
                before.dom().finite(),
                self.queue@ == without(before, players@.take(i as int)),
                self@ == (LobbyView { queue: self.queue@, ..old(self)@ }),
                self.queue@.len() == before.len() - left@.len(),
                forall|a: int, b: int| 0 <= a < b < left@.len() ==> left@[a].0 != left@[b].0,
                forall|a: int|
                    0 <= a < left@.len() ==> {
                        &&& before.contains_key((#[trigger] left@[a]).0)
                        &&& players@.take(i as int).contains(left@[a].0)
                        &&& left@[a].1 == before.len() - (a + 1)
                    },
                forall|j: int|
                    0 <= j < i && before.contains_key(players@[j]) ==> exists|a: int|
                        0 <= a < left@.len() && (#[trigger] left@[a]).0 == players@[j],
            decreases players.len() - i,
        {
            let player: u64 = players[i];
            let ghost done = players@.take(i as int);
            let ghost next = players@.take(i + 1);
            let ghost reported = left@;
            proof {
                assert(next =~= done.push(player));
                assert forall|p: u64| next.contains(p) <==> (done.contains(p) || p == player) by {
                    if next.contains(p) {
                        let j = choose|j: int| 0 <= j < next.len() && next[j] == p;
                        if j < done.len() {
                            assert(done[j] == p);
                        }
                    }
                    if done.contains(p) {
                        let j = choose|j: int| 0 <= j < done.len() && done[j] == p;
                        assert(next[j] == p);
                    }
                    assert(next[done.len() as int] == player);
                }
            }
            let ghost waits = self.queue@.contains_key(player);
            if self.queue.contains_key(&player) {
                proof {
                    self.queue@.lemma_remove_key_len(player);
                    assert(!done.contains(player));
                }
                self.queue.remove(&player);
                let waiting = self.queue.len();
                left.push((player, waiting));
            }
            proof {
                assert(self.queue@ =~= without(before, next));
                assert forall|j: int| 0 <= j < i + 1 && before.contains_key(players@[j]) implies exists|
                    a: int,
                | 0 <= a < left@.len() && (#[trigger] left@[a]).0 == players@[j] by {
                    if j < i {
                        let a = choose|a: int|
                            0 <= a < reported.len() && (#[trigger] reported[a]).0 == players@[j];
                        assert(left@[a].0 == players@[j]);
                    } else if waits {
                        assert(left@[left@.len() - 1].0 == player);
                    } else {
                        assert(done.contains(player));
                        let x = choose|x: int| 0 <= x < done.len() && done[x] == player;
                        assert(players@[x] == player);
                        let a = choose|a: int|
                            0 <= a < reported.len() && (#[trigger] reported[a]).0 == players@[x];
                        assert(left@[a].0 == players@[j]);
                    }
                }
            }
            i += 1;
        }
        proof {
            assert(players@.take(players.len() as int) =~= players@);
            assert forall|p: u64| before.contains_key(p) && players@.contains(p) implies exists|
                a: int,
            | 0 <= a < left@.len() && (#[trigger] left@[a]).0 == p by {
                let j = choose|j: int| 0 <= j < players@.len() && players@[j] == p;
            }
        }
        left
    }
}

/// A player who joins and then leaves again leaves the lobby as it was,
/// unless the player was the last one missing for a match: then the queue
/// was handed out, and there is nothing to leave.
pub proof fn lemma_join_then_leave(
    lobby: LobbyView,
    player: u64,
    entry: QueueUser,
    force_join: bool,
    force_leave: bool,
)
    requires
        lobby.join_error(player, force_join) is None,
        !lobby.with_player(player, entry).is_full(),
        lobby.with_player(player, entry).settled().leave_error(player, force_leave) is None,
    ensures
        lobby.with_player(player, entry).settled().without_player(player) == lobby,
{
    assert(lobby.queue.insert(player, entry).remove(player) =~= lobby.queue);
}

/// A lobby below its capacity is below its capacity after a player joined:
/// where the player filled the queue, the queue was handed out. It stays
/// so when a player leaves, and through every sweep.
pub proof fn lemma_lobby_stays_below_capacity(
    lobby: LobbyView,
    player: u64,
    entry: QueueUser,
    now: i64,
)
    requires
        lobby.below_capacity(),
    ensures
        !lobby.queue.contains_key(player) ==> lobby.with_player(
            player,
            entry,
        ).settled().below_capacity(),
        lobby.queue.contains_key(player) ==> lobby.without_player(player).below_capacity(),
        (LobbyView { queue: swept(lobby.queue, now), ..lobby }).below_capacity(),
{
    broadcast use vstd::set::axiom_set_insert_len, vstd::set::axiom_set_remove_len;

    if !lobby.queue.contains_key(player) {
        assert(lobby.queue.insert(player, entry).dom() =~= lobby.queue.dom().insert(player));
        assert(Map::<u64, QueueUser>::empty().dom() =~= Set::<u64>::empty());
    } else {
        assert(lobby.queue.remove(player).dom() =~= lobby.queue.dom().remove(player));
    }
    assert(swept(lobby.queue, now).dom().subset_of(lobby.queue.dom()));
    vstd::set_lib::lemma_len_subset(swept(lobby.queue, now).dom(), lobby.queue.dom());
}

/// A queue that is full is handed out whole: exactly as many players as
/// make a match, each once, and the queue is empty right after.
pub proof fn lemma_full_queue_is_handed_out(lobby: LobbyView, drained: Option<Vec<u64>>)
    requires
        lobby.is_full(),
        lobby.hands_out(drained),
    ensures
        drained is Some,
        drained->0@.len() == lobby.capacity,
        drained->0@.no_duplicates(),
        forall|p: u64| drained->0@.contains(p) <==> lobby.queue.contains_key(p),
        lobby.settled().queue == Map::<u64, QueueUser>::empty(),
        lobby.settled().queue.len() == 0,
{
    let players = drained->0@;
    assert forall|p: u64| players.contains(p) <==> lobby.queue.contains_key(p) by {
        assert(players.to_set().contains(p) <==> players.contains(p));
    }
}

/// A place that has run out at one sweep is gone after it, and stays gone
/// through any sweep that follows.
pub proof fn lemma_expired_stays_out(queue: Map<u64, QueueUser>, player: u64, now: i64, later: i64)
    requires
        queue.contains_key(player),
        queue[player].expired_at(now),
    ensures
        !swept(queue, now).contains_key(player),
        !swept(swept(queue, now), later).contains_key(player),
{
}

} // verus!
