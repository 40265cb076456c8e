use fsview::commands::{
    database_name, dups_command, folder_name, list_command, log_level, report_type, DupsCommand, ListCommand, LogLevel,
    ReportType,
};
use fsview::args::{
    check_filename, into_dir_parser, limit_parser, outer_white_space, parse_db_name, parse_dir_name, parse_filename,
    parse_weather_dir, thread_count_parse, PathFacts,
};
use fsview::decimal::{parse_usize, unsigned_text};

#[test]
fn outer_white_space_is_what_trim_removes() {
    assert!(outer_white_space(" log"));
    assert!(outer_white_space("log\t"));
    assert!(outer_white_space("\u{3000}log"));
    assert!(!outer_white_space("my log"));
    assert!(!outer_white_space(""));
    for text in [" a", "a ", "a b", "", "\n", "x\u{2028}"] {
        assert_eq!(outer_white_space(text), text.trim().len() != text.len());
    }
}

#[test]
fn log_filename_checks() {
    assert_eq!(
        parse_filename(" fsview.log", false),
        Err("The log filename cannot have leading/trailing white space...".to_string())
    );
    assert_eq!(parse_filename("logs", true), Err("The log filename cannot be a directory...".to_string()));
    assert_eq!(parse_filename("fsview.log", false), Ok("fsview.log".to_string()));
}

#[test]
fn db_name_checks() {
    assert_eq!(
        parse_db_name("fsview.db ", false),
        Err("The DB name cannot have leading/trailing white space...".to_string())
    );
    assert_eq!(parse_db_name("data", true), Err("The DB name cannot be a directory...".to_string()));
    assert_eq!(parse_db_name("fsview.db", false), Ok("fsview.db".to_string()));
}

#[test]
fn dir_name_checks() {
    assert_eq!(
        parse_dir_name("\tdir", true, true),
        Err("The directory cannot have leading/trailing white space...".to_string())
    );
    assert_eq!(parse_dir_name("dir", true, true), Ok("dir".to_string()));
    assert_eq!(parse_dir_name("file.txt", false, true), Err("file.txt must be a directory name...".to_string()));
    assert_eq!(parse_dir_name("nowhere", false, false), Err("The directory does not exist...".to_string()));
}

fn facts(is_dir: bool, is_symlink: bool, parent_is_empty: bool, parent_exists: bool) -> PathFacts {
    PathFacts { is_dir, is_symlink, parent_is_empty, parent_exists }
}

#[test]
fn weather_filename_checks() {
    let ok = facts(false, false, true, true);
    assert_eq!(check_filename("", &ok), Err("The filename cannot be empty.".to_string()));
    assert_eq!(check_filename("tmp", &facts(true, false, true, true)), Err("tmp is a directory...".to_string()));
    assert_eq!(check_filename("link", &facts(false, true, true, true)), Err("link is a symlink...".to_string()));
    assert_eq!(
        check_filename("/no/such/file", &facts(false, false, false, false)),
        Err("The parent directory does not exist...".to_string())
    );
    assert_eq!(
        check_filename("no/file", &facts(false, false, false, false)),
        Err("The relative path to file does not exist...".to_string())
    );
    assert_eq!(check_filename("report.txt", &ok), Ok("report.txt".to_string()));
    assert_eq!(check_filename("dir/report.txt", &facts(false, false, false, true)), Ok("dir/report.txt".to_string()));
}

#[test]
fn usize_parsing() {
    assert_eq!(parse_usize("0"), Some(0));
    assert_eq!(parse_usize("+42"), Some(42));
    assert_eq!(parse_usize("007"), Some(7));
    assert_eq!(parse_usize(""), None);
    assert_eq!(parse_usize("+"), None);
    assert_eq!(parse_usize("-1"), None);
    assert_eq!(parse_usize("4 2"), None);
    assert_eq!(parse_usize("18446744073709551615"), Some(usize::MAX));
    assert_eq!(parse_usize("18446744073709551616"), None);
    assert_eq!(parse_usize("99999999999999999999x"), None);
    for text in ["12", "+3", "-3", "x", "", "00", "1e3"] {
        assert_eq!(parse_usize(text), text.parse::<usize>().ok());
    }
    assert_eq!(parse_usize(unsigned_text(987654321).as_str()), Some(987654321));
}

#[test]
fn thread_count_checks() {
    assert_eq!(thread_count_parse("4"), Ok(4));
    assert_eq!(thread_count_parse("16"), Ok(16));
    assert_eq!(thread_count_parse("17"), Err("thread count is limited to 16.".to_string()));
    assert_eq!(thread_count_parse("four"), Err("four is not a number.".to_string()));
}

#[test]
fn limit_checks() {
    assert_eq!(limit_parser("25"), Ok(25));
    assert_eq!(limit_parser("0"), Err("limit must be greater than 0".to_string()));
    assert_eq!(limit_parser("-5"), Err("limit needs to be an unsigned integer.".to_string()));
}

#[test]
fn command_decisions() {
    assert_eq!(report_type(false, false), ReportType::Information);
    assert_eq!(report_type(true, false), ReportType::Detail);
    assert_eq!(report_type(false, true), ReportType::Summary);
    assert_eq!(list_command(true, true, true, true), ListCommand::ByName);
    assert_eq!(list_command(false, true, true, false), ListCommand::ByPathname);
    assert_eq!(list_command(false, false, true, true), ListCommand::Root);
    assert_eq!(list_command(false, false, false, true), ListCommand::Problems);
    assert_eq!(list_command(false, false, false, false), ListCommand::Summary);
    assert_eq!(dups_command(false, false, true, true), DupsCommand::Matches);
    assert_eq!(dups_command(true, true, false, false), DupsCommand::Init);
    assert_eq!(dups_command(false, false, false, true), DupsCommand::NoMatches);
    assert_eq!(dups_command(false, false, false, false), DupsCommand::Summary);
    assert_eq!(dups_command(false, true, false, false), DupsCommand::List);
    assert_eq!(database_name(None), "fsview.db");
    assert_eq!(database_name(Some("other.db".to_string())), "other.db");
    assert_eq!(folder_name(&None), "");
    assert_eq!(folder_name(&Some("src".to_string())), "src");
    assert_eq!(log_level(0), LogLevel::Warn);
    assert_eq!(log_level(1), LogLevel::Info);
    assert_eq!(log_level(2), LogLevel::Debug);
    assert_eq!(log_level(9), LogLevel::Trace);
}

#[test]
fn weather_dir_checks() {
    assert_eq!(parse_weather_dir("/w", true, true), Ok("/w".to_string()));
    assert_eq!(parse_weather_dir("/w", false, true), Err("/w is not a directory.".to_string()));
    assert_eq!(parse_weather_dir("/w", false, false), Err("/w does not exist.".to_string()));
    assert_eq!(into_dir_parser("", false, false), Err("The directory name cannot be empty.".to_string()));
    assert_eq!(into_dir_parser("/m", true, true), Ok("/m".to_string()));
    assert_eq!(into_dir_parser("/m", false, false), Ok("/m".to_string()));
    assert_eq!(into_dir_parser("/m", false, true), Err("/m must be a directory name.".to_string()));
}

#[test]
fn white_space_is_what_char_is_whitespace_says() {
    for c in (0u32..=0x10FFFF).filter_map(char::from_u32) {
        let mut text = String::new();
        text.push(c);
        assert_eq!(outer_white_space(&text), c.is_whitespace(), "{:?}", c);
    }
}
