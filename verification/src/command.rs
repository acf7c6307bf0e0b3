//! The commands that players and administrators give, and their arguments.

use crate::error::Error;
use crate::game::Score;
use crate::text::{
    parse_i64, parse_usize, same_text, signed_number, split_words, texts, unsigned_number, words,
};
use vstd::prelude::*;
use vstd::string::StrSliceExecFns;

verus! {

/// A command, by what it asks for.
#[derive(Debug, Clone, Copy, PartialEq, Eq, Structural)]
pub enum Command {
    Ping,
    Join,
    ForceJoin,
    Leave,
    ForceLeave,
    Players,
    Freeze,
    Unfreeze,
    Queue,
    Score,
    Cancel,
    Undo,
    GameList,
    LastGame,
    GameInfo,
    Clear,
    Rebalance,
    Swap,
    SetRating,
    Info,
    ForceInfo,
    History,
    ForceHistory,
    Leaderboard,
    LeaderboardAll,
    Expire,
}

/// The command that goes by `name`, a name in lower case.
pub open spec fn command_named(name: Seq<char>) -> Option<Command> {
    if name == "ping"@ {
        Some(Command::Ping)
    } else if name == "join"@ || name == "j"@ {
        Some(Command::Join)
    } else if name == "forcejoin"@ || name == "forcej"@ || name == "forceadd"@ {
        Some(Command::ForceJoin)
    } else if name == "leave"@ || name == "l"@ {
        Some(Command::Leave)
    } else if name == "forceleave"@ || name == "forcel"@ || name == "forceremove"@ {
        Some(Command::ForceLeave)
    } else if name == "players"@ {
        Some(Command::Players)
    } else if name == "freeze"@ {
        Some(Command::Freeze)
    } else if name == "unfreeze"@ {
        Some(Command::Unfreeze)
    } else if name == "queue"@ || name == "q"@ {
        Some(Command::Queue)
    } else if name == "score"@ || name == "g"@ {
        Some(Command::Score)
    } else if name == "cancel"@ {
        Some(Command::Cancel)
    } else if name == "undo"@ || name == "unset"@ {
        Some(Command::Undo)
    } else if name == "gamelist"@ || name == "gl"@ {
        Some(Command::GameList)
    } else if name == "lastgame"@ {
        Some(Command::LastGame)
    } else if name == "gameinfo"@ || name == "gi"@ {
        Some(Command::GameInfo)
    } else if name == "clear"@ {
        Some(Command::Clear)
    } else if name == "rebalance"@ || name == "rb"@ {
        Some(Command::Rebalance)
    } else if name == "swap"@ {
        Some(Command::Swap)
    } else if name == "rating"@ || name == "setrating"@ {
        Some(Command::SetRating)
    } else if name == "info"@ {
        Some(Command::Info)
    } else if name == "forceinfo"@ {
        Some(Command::ForceInfo)
    } else if name == "history"@ {
        Some(Command::History)
    } else if name == "forcehistory"@ {
        Some(Command::ForceHistory)
    } else if name == "leaderboard"@ || name == "lb"@ {
        Some(Command::Leaderboard)
    } else if name == "lball"@ {
        Some(Command::LeaderboardAll)
    } else if name == "expire"@ {
        Some(Command::Expire)
    } else {
        None
    }
}

/// The outcome that the second argument of `score` stands for, an
/// argument in lower case.
pub open spec fn score_named(name: Seq<char>) -> Option<Score> {
    if name == "1"@ {
        Some(Score::Team1)
    } else if name == "2"@ {
        Some(Score::Team2)
    } else if name == "draw"@ || name == "d"@ {
        Some(Score::Draw)
    } else {
        None
    }
}

/// What `str::to_lowercase` makes of a text.
pub uninterp spec fn lowercase_of(text: Seq<char>) -> Seq<char>;

/// `text` in lower case.
///
/// Calls `str::to_lowercase`. Its result is a function of the text alone,
/// which Unicode's tables define; the contract gives that function a name
/// and says no more of it.
#[verifier::external_body]
fn lowercase(text: &str) -> (r: String)
    ensures
        r@ == lowercase_of(text@),
{
    text.to_lowercase()
}

impl Command {
    /// The command that goes by `name`, a name in lower case: see
    /// [`command_named`].
    pub fn from_name(name: &str) -> (r: Option<Command>)
        ensures
            r == command_named(name@),
    {
        if same_text(name, "ping") {
            Some(Command::Ping)
        } else if same_text(name, "join") || same_text(name, "j") {
            Some(Command::Join)
        } else if same_text(name, "forcejoin") || same_text(name, "forcej") || same_text(
            name,
            "forceadd",
        ) {
            Some(Command::ForceJoin)
        } else if same_text(name, "leave") || same_text(name, "l") {
            Some(Command::Leave)
        } else if same_text(name, "forceleave") || same_text(name, "forcel") || same_text(
            name,
            "forceremove",
        ) {
            Some(Command::ForceLeave)
        } else if same_text(name, "players") {
            Some(Command::Players)
        } else if same_text(name, "freeze") {
            Some(Command::Freeze)
        } else if same_text(name, "unfreeze") {
            Some(Command::Unfreeze)
        } else if same_text(name, "queue") || same_text(name, "q") {
            Some(Command::Queue)
        } else if same_text(name, "score") || same_text(name, "g") {
            Some(Command::Score)
        } else if same_text(name, "cancel") {
            Some(Command::Cancel)
        } else if same_text(name, "undo") || same_text(name, "unset") {
            Some(Command::Undo)
        } else if same_text(name, "gamelist") || same_text(name, "gl") {
            Some(Command::GameList)
        } else if same_text(name, "lastgame") {
            Some(Command::LastGame)
        } else if same_text(name, "gameinfo") || same_text(name, "gi") {
            Some(Command::GameInfo)
        } else if same_text(name, "clear") {
            Some(Command::Clear)
        } else if same_text(name, "rebalance") || same_text(name, "rb") {
            Some(Command::Rebalance)
        } else if same_text(name, "swap") {
            Some(Command::Swap)
        } else if same_text(name, "rating") || same_text(name, "setrating") {
            Some(Command::SetRating)
        } else if same_text(name, "info") {
            Some(Command::Info)
        } else if same_text(name, "forceinfo") {
            Some(Command::ForceInfo)
        } else if same_text(name, "history") {
            Some(Command::History)
        } else if same_text(name, "forcehistory") {
            Some(Command::ForceHistory)
        } else if same_text(name, "leaderboard") || same_text(name, "lb") {
            Some(Command::Leaderboard)
        } else if same_text(name, "lball") {
            Some(Command::LeaderboardAll)
        } else if same_text(name, "expire") {
            Some(Command::Expire)
        } else {
            None
        }
    }

    /// The command that goes by `name`, whatever the case of its letters.
    pub fn parse(name: &str) -> (r: Option<Command>)
        ensures
            r == command_named(lowercase_of(name@)),
    {
        let lowered = lowercase(name);
        Command::from_name(lowered.as_str())
    }
}

/// The outcome that `name` stands for, an argument in lower case;
/// `BadArgument` if it stands for none.
pub fn score_from_name(name: &str) -> (r: Result<Score, Error>)
    ensures
        match score_named(name@) {
            Some(s) => r is Ok && r->Ok_0 == s,
            None => r is Err && r->Err_0 == Error::BadArgument,
        },
{
    if same_text(name, "1") {
        Ok(Score::Team1)
    } else if same_text(name, "2") {
        Ok(Score::Team2)
    } else if same_text(name, "draw") || same_text(name, "d") {
        Ok(Score::Draw)
    } else {
        Err(Error::BadArgument)
    }
}

/// The outcome that an argument of `score` stands for, whatever the case
/// of its letters.
pub fn parse_score(arg: &str) -> (r: Result<Score, Error>)
    ensures
        match score_named(lowercase_of(arg@)) {
            Some(s) => r is Ok && r->Ok_0 == s,
            None => r is Err && r->Err_0 == Error::BadArgument,
        },
{
    let lowered = lowercase(arg);
    score_from_name(lowered.as_str())
}

/// Splits the text of a command into its name, the first word, and its
/// arguments, the other words. `None` for a text without a word.
pub fn parse_command(msg: &str) -> (r: Option<(String, Vec<String>)>)
    ensures
        match r {
            None => words(msg@).len() == 0,
            Some(parts) => words(msg@).len() > 0 && parts.0@ == words(msg@)[0] && texts(parts.1@)
                == words(msg@).skip(1),
        },
{
    let mut all = split_words(msg);
    if all.len() == 0 {
        return None;
    }
    let ghost found = all@;
    let command = all.remove(0);
    proof {
        assert(texts(found)[0] == found[0]@);
        assert(texts(all@) =~= texts(found).skip(1));
    }
    Some((command, all))
}

/// The text of a command given in `content`: what follows `prefix`, if the
/// content starts with it.
pub fn strip_prefix<'a>(content: &'a str, prefix: &str) -> (r: Option<&'a str>)
    ensures
        match r {
            Some(rest) => content@ == prefix@ + rest@,
            None => !(prefix@.len() <= content@.len() && content@.take(prefix@.len() as int)
                == prefix@),
        },
{
    let n = content.unicode_len();
    let k = prefix.unicode_len();
    if k > n {
        return None;
    }
    let head = content.substring_char(0, k);
    if !same_text(head, prefix) {
        assert(content@.take(k as int) =~= content@.subrange(0, k as int));
        return None;
    }
    let rest = content.substring_char(k, n);
    assert(content@ =~= prefix@ + rest@);
    Some(rest)
}

/// Asks for `count` arguments at least: `NotEnoughArguments` if there are
/// fewer.
pub fn need(args: &[String], count: usize) -> (r: Result<(), Error>)
    ensures
        args@.len() >= count ==> r is Ok,
        args@.len() < count ==> r is Err && r->Err_0 == Error::NotEnoughArguments,
{
    if args.len() < count {
        Err(Error::NotEnoughArguments)
    } else {
        Ok(())
    }
}

/// Reads an argument that is a natural number, such as the id of a match:
/// see [`unsigned_number`]. `ParseInt` if it is none.
pub fn natural_arg(arg: &str) -> (r: Result<usize, Error>)
    ensures
        match unsigned_number(arg@) {
            Some(n) => r is Ok && r->Ok_0 == n,
            None => r is Err && r->Err_0 == Error::ParseInt,
        },
{
    match parse_usize(arg) {
        Some(n) => Ok(n),
        None => Err(Error::ParseInt),
    }
}

/// Reads an argument that is an integer, such as a seed rating: see
/// [`signed_number`]. `ParseInt` if it is none.
pub fn integer_arg(arg: &str) -> (r: Result<i64, Error>)
    ensures
        match signed_number(arg@) {
            Some(n) => r is Ok && r->Ok_0 == n,
            None => r is Err && r->Err_0 == Error::ParseInt,
        },
{
    match parse_i64(arg) {
        Some(n) => Ok(n),
        None => Err(Error::ParseInt),
    }
}

/// Reads the natural number at the position `at` of the arguments, where
/// it may be left out: `None` if there are no more than `at` arguments,
/// `ParseInt` if the one at `at` is no natural number.
pub fn optional_natural_arg(args: &[String], at: usize) -> (r: Result<Option<usize>, Error>)
    ensures
        args@.len() <= at ==> r is Ok && r->Ok_0 is None,
        args@.len() > at ==> match unsigned_number(args@[at as int]@) {
            Some(n) => r is Ok && r->Ok_0 == Some(n as usize),
            None => r is Err && r->Err_0 == Error::ParseInt,
        },
{
    if args.len() <= at {
        Ok(None)
    } else {
        match parse_usize(args[at].as_str()) {
            Some(n) => Ok(Some(n)),
            None => Err(Error::ParseInt),
        }
    }
}

/// The member that the argument `arg` was found to name; `MemberNotFound`,
/// with the argument, if none was found.
pub fn member_named<T>(arg: &str, found: Option<T>) -> (r: Result<T, Error>)
    ensures
        match found {
            Some(member) => r is Ok && r->Ok_0 == member,
            None => r is Err && r->Err_0 is MemberNotFound && r->Err_0->MemberNotFound_0@ == arg@,
        },
{
    match found {
        Some(member) => Ok(member),
        None => Err(Error::MemberNotFound(arg.to_owned())),
    }
}

/// The channel that the argument `arg` was found to name; `ChannelNotFound`,
/// with the argument, if none was found.
pub fn channel_named<T>(arg: &str, found: Option<T>) -> (r: Result<T, Error>)
    ensures
        match found {
            Some(channel) => r is Ok && r->Ok_0 == channel,
            None => r is Err && r->Err_0 is ChannelNotFound && r->Err_0->ChannelNotFound_0@
                == arg@,
        },
{
    match found {
        Some(channel) => Ok(channel),
        None => Err(Error::ChannelNotFound(arg.to_owned())),
    }
}

/// The position of the first `h` or `:` among the first `upto` characters.
pub open spec fn first_mark(text: Seq<char>, upto: nat) -> Option<int>
    decreases upto,
{
    if upto == 0 {
        None
    } else {
        match first_mark(text, (upto - 1) as nat) {
            Some(i) => Some(i),
            None => if text[upto - 1] == 'h' || text[upto - 1] == ':' {
                Some(upto - 1)
            } else {
                None
            },
        }
    }
}

/// The minutes that an argument of `expire` asks for. It is a number of
/// minutes, or hours and minutes with `h` or `:` between them, where either
/// may be left out: `90`, `1h30`, `1:30`, `2h`, `:45`. `None` if a part is
/// no integer or the minutes do not fit into an `i64`.
pub open spec fn minutes_asked(arg: Seq<char>) -> Option<int> {
    match first_mark(arg, arg.len()) {
        None => signed_number(arg),
        Some(at) => {
            let hours = if at == 0 {
                Some(0int)
            } else {
                signed_number(arg.take(at))
            };
            let minutes = if at + 1 == arg.len() {
                Some(0int)
            } else {
                signed_number(arg.skip(at + 1))
            };
            if hours is Some && minutes is Some && i64::MIN <= 60 * hours->0 + minutes->0
                <= i64::MAX {
                Some(60 * hours->0 + minutes->0)
            } else {
                None
            }
        },
    }
}

/// The position of the first `h` or `:` of `text`.
fn find_mark(text: &str) -> (r: Option<usize>)
    ensures
        match r {
            Some(i) => first_mark(text@, text@.len()) == Some(i as int) && i < text@.len(),
            None => first_mark(text@, text@.len()) is None,
        },
{
    let n = text.unicode_len();
    let mut i: usize = 0;
    while i < n
        invariant
            i <= n,
            n == text@.len(),
            first_mark(text@, i as nat) is None,
        decreases n - i,
    {
        let c = text.get_char(i);
        if c == 'h' || c == ':' {
            proof {
                lemma_mark_stays(text@, (i + 1) as nat, n as nat);
            }
            return Some(i);
        }
        i += 1;
    }
    None
}

/// The first mark among some characters is the first among more.
proof fn lemma_mark_stays(text: Seq<char>, found: nat, upto: nat)
    requires
        found <= upto,
        first_mark(text, found) is Some,
    ensures
        first_mark(text, upto) == first_mark(text, found),
    decreases upto,
{
    if found < upto {
        lemma_mark_stays(text, found, (upto - 1) as nat);
    }
}

/// Reads an argument of `expire`: see [`minutes_asked`]. `ParseInt` where
/// that gives nothing.
pub fn parse_minutes(arg: &str) -> (r: Result<i64, Error>)
    ensures
        match minutes_asked(arg@) {
            Some(m) => r is Ok && r->Ok_0 == m,
            None => r is Err && r->Err_0 == Error::ParseInt,
        },
{
    let n = arg.unicode_len();
    match find_mark(arg) {
        None => match parse_i64(arg) {
            Some(m) => Ok(m),
            None => Err(Error::ParseInt),
        },
        Some(at) => {
            let hours: Option<i64> = if at == 0 {
                Some(0)
            } else {
                let head = arg.substring_char(0, at);
                assert(head@ =~= arg@.take(at as int));
                parse_i64(head)
            };
            let minutes: Option<i64> = if at + 1 == n {
                Some(0)
            } else {
                let tail = arg.substring_char(at + 1, n);
                assert(tail@ =~= arg@.skip(at + 1));
                parse_i64(tail)
            };
            match (hours, minutes) {
                (Some(h), Some(m)) => {
                    let total: i128 = 60 * (h as i128) + m as i128;
                    if total < i64::MIN as i128 || total > i64::MAX as i128 {
                        Err(Error::ParseInt)
                    } else {
                        Ok(total as i64)
                    }
                },
                _ => Err(Error::ParseInt),
            }
        },
    }
}

} // verus!
