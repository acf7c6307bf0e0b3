use matchmaker::command::{
    channel_named, integer_arg, member_named, natural_arg, need, optional_natural_arg,
    parse_command, parse_minutes, parse_score, score_from_name, strip_prefix, Command,
};
use matchmaker::error::Error;
use matchmaker::game::Score;
use matchmaker::text::{parse_i64, parse_usize, same_text, separates, split_words};

#[test]
fn a_command_is_its_first_word() {
    assert_eq!(
        parse_command("score 12 draw"),
        Some(("score".to_string(), vec!["12".to_string(), "draw".to_string()]))
    );
    assert_eq!(parse_command("  join\t"), Some(("join".to_string(), vec![])));
    assert_eq!(parse_command(""), None);
    assert_eq!(parse_command(" \n\t "), None);
    assert_eq!(
        parse_command("swap\u{a0}<@1>\u{3000}<@2>"),
        Some(("swap".to_string(), vec!["<@1>".to_string(), "<@2>".to_string()]))
    );
}

#[test]
fn words_are_split_as_by_the_standard_library() {
    for text in ["", "a", " a", "a ", "a  b", "\tone two\nthree ", "h\u{e9}llo w\u{f6}rld", "\u{2003}x\u{2028}y"] {
        let expected: Vec<String> = text.split_whitespace().map(|w| w.to_string()).collect();
        assert_eq!(split_words(text), expected);
    }
    for n in 0u32..0x3100 {
        if let Some(c) = char::from_u32(n) {
            assert_eq!(separates(c), c.is_whitespace());
        }
    }
}

#[test]
fn commands_go_by_their_names() {
    assert_eq!(Command::from_name("ping"), Some(Command::Ping));
    assert_eq!(Command::from_name("join"), Some(Command::Join));
    assert_eq!(Command::from_name("j"), Some(Command::Join));
    assert_eq!(Command::from_name("forcejoin"), Some(Command::ForceJoin));
    assert_eq!(Command::from_name("forcej"), Some(Command::ForceJoin));
    assert_eq!(Command::from_name("forceadd"), Some(Command::ForceJoin));
    assert_eq!(Command::from_name("leave"), Some(Command::Leave));
    assert_eq!(Command::from_name("l"), Some(Command::Leave));
    assert_eq!(Command::from_name("forceleave"), Some(Command::ForceLeave));
    assert_eq!(Command::from_name("forcel"), Some(Command::ForceLeave));
    assert_eq!(Command::from_name("forceremove"), Some(Command::ForceLeave));
    assert_eq!(Command::from_name("players"), Some(Command::Players));
    assert_eq!(Command::from_name("freeze"), Some(Command::Freeze));
    assert_eq!(Command::from_name("unfreeze"), Some(Command::Unfreeze));
    assert_eq!(Command::from_name("queue"), Some(Command::Queue));
    assert_eq!(Command::from_name("q"), Some(Command::Queue));
    assert_eq!(Command::from_name("score"), Some(Command::Score));
    assert_eq!(Command::from_name("g"), Some(Command::Score));
    assert_eq!(Command::from_name("cancel"), Some(Command::Cancel));
    assert_eq!(Command::from_name("undo"), Some(Command::Undo));
    assert_eq!(Command::from_name("unset"), Some(Command::Undo));
    assert_eq!(Command::from_name("gamelist"), Some(Command::GameList));
    assert_eq!(Command::from_name("gl"), Some(Command::GameList));
    assert_eq!(Command::from_name("lastgame"), Some(Command::LastGame));
    assert_eq!(Command::from_name("gameinfo"), Some(Command::GameInfo));
    assert_eq!(Command::from_name("gi"), Some(Command::GameInfo));
    assert_eq!(Command::from_name("clear"), Some(Command::Clear));
    assert_eq!(Command::from_name("rebalance"), Some(Command::Rebalance));
    assert_eq!(Command::from_name("rb"), Some(Command::Rebalance));
    assert_eq!(Command::from_name("swap"), Some(Command::Swap));
    assert_eq!(Command::from_name("rating"), Some(Command::SetRating));
    assert_eq!(Command::from_name("setrating"), Some(Command::SetRating));
    assert_eq!(Command::from_name("info"), Some(Command::Info));
    assert_eq!(Command::from_name("forceinfo"), Some(Command::ForceInfo));
    assert_eq!(Command::from_name("history"), Some(Command::History));
    assert_eq!(Command::from_name("forcehistory"), Some(Command::ForceHistory));
    assert_eq!(Command::from_name("leaderboard"), Some(Command::Leaderboard));
    assert_eq!(Command::from_name("lb"), Some(Command::LeaderboardAll).map(|_| Command::Leaderboard));
    assert_eq!(Command::from_name("lball"), Some(Command::LeaderboardAll));
    assert_eq!(Command::from_name("expire"), Some(Command::Expire));
    assert_eq!(Command::from_name(""), None);
    assert_eq!(Command::from_name("joinn"), None);
    assert_eq!(Command::from_name("JOIN"), None);
}

#[test]
fn the_case_of_a_command_does_not_matter() {
    assert_eq!(Command::parse("JOIN"), Some(Command::Join));
    assert_eq!(Command::parse("LeaderBoard"), Some(Command::Leaderboard));
    assert_eq!(Command::parse("Q"), Some(Command::Queue));
    assert_eq!(Command::parse("quit"), None);
}

#[test]
fn outcomes_go_by_their_names() {
    assert!(matches!(score_from_name("1"), Ok(Score::Team1)));
    assert!(matches!(score_from_name("2"), Ok(Score::Team2)));
    assert!(matches!(score_from_name("draw"), Ok(Score::Draw)));
    assert!(matches!(score_from_name("d"), Ok(Score::Draw)));
    assert!(matches!(score_from_name("3"), Err(Error::BadArgument)));
    assert!(matches!(score_from_name("D"), Err(Error::BadArgument)));
    assert!(matches!(score_from_name("cancelled"), Err(Error::BadArgument)));
    assert!(matches!(parse_score("DRAW"), Ok(Score::Draw)));
    assert!(matches!(parse_score("D"), Ok(Score::Draw)));
    assert!(matches!(parse_score("win"), Err(Error::BadArgument)));
}

#[test]
fn prefixes_are_stripped() {
    assert_eq!(strip_prefix("!join", "!"), Some("join"));
    assert_eq!(strip_prefix("??q now", "??"), Some("q now"));
    assert_eq!(strip_prefix("join", "!"), None);
    assert_eq!(strip_prefix("!", "!!"), None);
    assert_eq!(strip_prefix("abc", ""), Some("abc"));
    assert_eq!(strip_prefix("\u{e9}t\u{e9}", "\u{e9}"), Some("t\u{e9}"));
}

#[test]
fn texts_are_compared() {
    assert!(same_text("", ""));
    assert!(same_text("abc", "abc"));
    assert!(!same_text("abc", "abd"));
    assert!(!same_text("abc", "ab"));
    assert!(!same_text("ab", "abc"));
}

#[test]
fn integers_are_read_as_by_the_standard_library() {
    let texts = [
        "0", "7", "42", "-42", "+42", "007", "-0", "+0", "", "-", "+", "--1", "+-1", "1 ", " 1", "1a", "a1",
        "9223372036854775807", "9223372036854775808", "-9223372036854775808", "-9223372036854775809",
        "18446744073709551615", "18446744073709551616", "99999999999999999999999999", "1_000", "\u{661}",
        "12h", "1.5",
    ];
    for text in texts {
        assert_eq!(parse_i64(text), text.parse::<i64>().ok(), "{:?}", text);
        assert_eq!(parse_usize(text), text.parse::<usize>().ok(), "{:?}", text);
    }
}

#[test]
fn minutes_can_be_given_in_hours_and_minutes() {
    assert!(matches!(parse_minutes("90"), Ok(90)));
    assert!(matches!(parse_minutes("1h30"), Ok(90)));
    assert!(matches!(parse_minutes("1:30"), Ok(90)));
    assert!(matches!(parse_minutes("2h"), Ok(120)));
    assert!(matches!(parse_minutes("2:"), Ok(120)));
    assert!(matches!(parse_minutes("h45"), Ok(45)));
    assert!(matches!(parse_minutes(":45"), Ok(45)));
    assert!(matches!(parse_minutes("h"), Ok(0)));
    assert!(matches!(parse_minutes("-5"), Ok(-5)));
    assert!(matches!(parse_minutes("-1h30"), Ok(-30)));
    assert!(matches!(parse_minutes("1h-30"), Ok(30)));
    assert!(matches!(parse_minutes("+2:+5"), Ok(125)));
    assert!(matches!(parse_minutes(""), Err(Error::ParseInt)));
    assert!(matches!(parse_minutes("soon"), Err(Error::ParseInt)));
    assert!(matches!(parse_minutes("1h30m"), Err(Error::ParseInt)));
    assert!(matches!(parse_minutes("1:2:3"), Err(Error::ParseInt)));
    assert!(matches!(parse_minutes("1hh"), Err(Error::ParseInt)));
    assert!(matches!(parse_minutes("x:5"), Err(Error::ParseInt)));
    assert!(matches!(parse_minutes("9223372036854775807"), Ok(i64::MAX)));
    assert!(matches!(parse_minutes("9223372036854775807h"), Err(Error::ParseInt)));
    assert!(matches!(parse_minutes("153722867280912930h7"), Ok(i64::MAX)));
    assert!(matches!(parse_minutes("153722867280912930h8"), Err(Error::ParseInt)));
}

#[test]
fn arguments_are_counted_and_read() {
    let args = vec!["12".to_string(), "draw".to_string(), "-3".to_string()];
    assert!(need(&args, 0).is_ok());
    assert!(need(&args, 3).is_ok());
    assert!(matches!(need(&args, 4), Err(Error::NotEnoughArguments)));
    assert!(matches!(need(&[], 1), Err(Error::NotEnoughArguments)));
    assert!(matches!(natural_arg("12"), Ok(12)));
    assert!(matches!(natural_arg("-3"), Err(Error::ParseInt)));
    assert!(matches!(natural_arg("draw"), Err(Error::ParseInt)));
    assert!(matches!(integer_arg("-3"), Ok(-3)));
    assert!(matches!(integer_arg("1500"), Ok(1500)));
    assert!(matches!(integer_arg("1500.5"), Err(Error::ParseInt)));
    assert!(matches!(optional_natural_arg(&args, 0), Ok(Some(12))));
    assert!(matches!(optional_natural_arg(&args, 1), Err(Error::ParseInt)));
    assert!(matches!(optional_natural_arg(&args, 2), Err(Error::ParseInt)));
    assert!(matches!(optional_natural_arg(&args, 3), Ok(None)));
    assert!(matches!(optional_natural_arg(&args, usize::MAX), Ok(None)));
}

#[test]
fn names_that_name_nothing_are_reported() {
    assert!(matches!(member_named("<@5>", Some(5u64)), Ok(5)));
    assert!(matches!(channel_named("#ranked", Some('c')), Ok('c')));
    match member_named::<u64>("nobody", None) {
        Err(Error::MemberNotFound(arg)) => assert_eq!(arg, "nobody"),
        _ => unreachable!(),
    }
    match channel_named::<u64>("#nowhere", None) {
        Err(Error::ChannelNotFound(arg)) => assert_eq!(arg, "#nowhere"),
        _ => unreachable!(),
    }
}
