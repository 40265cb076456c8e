//! The decisions of the command line interface: which command the arguments select, which
//! report, which database and which level of logging.
use vstd::prelude::*;

verus! {

/// The report a folder listing produces.
#[derive(Debug, Clone, Copy, PartialEq, Eq, Structural)]
pub enum ReportType {
    /// The details of each folder with its files.
    Detail,
    /// An `ls -l` style listing.
    Information,
    /// A summary of each folder.
    Summary,
}

/// The report of a folder listing: the details, the summary, or by default the `ls -l` style
/// information; details and summary cannot both be asked for.
pub fn report_type(details: bool, summary: bool) -> (r: ReportType)
    requires
        !(details && summary),
    ensures
        r == if details {
            ReportType::Detail
        } else if summary {
            ReportType::Summary
        } else {
            ReportType::Information
        },
{
    if details {
        ReportType::Detail
    } else if summary {
        ReportType::Summary
    } else {
        ReportType::Information
    }
}

/// What the folder listing command lists.
#[derive(Debug, Clone, Copy, PartialEq, Eq, Structural)]
pub enum ListCommand {
    /// The folders of a name.
    ByName,
    /// The folder of a pathname.
    ByPathname,
    /// The top-level folders that were loaded.
    Root,
    /// The problems met loading folders.
    Problems,
    /// A summary of the database.
    Summary,
}

/// The listing the flags select, the first of name, pathname, root and problems that is set;
/// by default the summary of the database.
pub fn list_command(name: bool, pathname: bool, root: bool, problems: bool) -> (r: ListCommand)
    ensures
        r == if name {
            ListCommand::ByName
        } else if pathname {
            ListCommand::ByPathname
        } else if root {
            ListCommand::Root
        } else if problems {
            ListCommand::Problems
        } else {
            ListCommand::Summary
        },
{
    if name {
        ListCommand::ByName
    } else if pathname {
        ListCommand::ByPathname
    } else if root {
        ListCommand::Root
    } else if problems {
        ListCommand::Problems
    } else {
        ListCommand::Summary
    }
}

/// What the duplicate files command does.
#[derive(Debug, Clone, Copy, PartialEq, Eq, Structural)]
pub enum DupsCommand {
    /// Reload the duplicate files metadata.
    Init,
    /// Report every folder group with common filenames.
    List,
    /// Report the folder groups with matching files.
    Matches,
    /// Report the folders without matching files.
    NoMatches,
    /// Summarise the duplicate files metadata.
    Summary,
}

/// The duplicate files command the flags select, the first of init, list, matching and none
/// that is set; by default the summary.
pub fn dups_command(init: bool, list: bool, matching: bool, none: bool) -> (r: DupsCommand)
    ensures
        r == if init {
            DupsCommand::Init
        } else if list {
            DupsCommand::List
        } else if matching {
            DupsCommand::Matches
        } else if none {
            DupsCommand::NoMatches
        } else {
            DupsCommand::Summary
        },
{
    if init {
        DupsCommand::Init
    } else if list {
        DupsCommand::List
    } else if matching {
        DupsCommand::Matches
    } else if none {
        DupsCommand::NoMatches
    } else {
        DupsCommand::Summary
    }
}

/// The database the commands use: the one named, or `fsview.db`.
pub fn database_name(db_path: Option<String>) -> (r: String)
    ensures
        r@ == match db_path {
            Some(name) => name@,
            None => "fsview.db"@,
        },
{
    match db_path {
        Some(name) => name,
        None => String::from_str("fsview.db"),
    }
}

/// The name a folder argument gives, empty when there is none.
pub fn folder_name(folder: &Option<String>) -> (r: &str)
    ensures
        r@ == match folder {
            Some(name) => name@,
            None => ""@,
        },
{
    match folder {
        Some(name) => name.as_str(),
        None => "",
    }
}

/// The level of logging.
#[derive(Debug, Clone, Copy, PartialEq, Eq, Structural)]
pub enum LogLevel {
    /// Warnings and errors.
    Warn,
    /// Information too.
    Info,
    /// Debugging messages too.
    Debug,
    /// Everything.
    Trace,
}

/// The level of logging for a verbosity count: warnings when not verbose, then information,
/// debugging, and everything from three on.
pub fn log_level(verbosity: u8) -> (r: LogLevel)
    ensures
        r == if verbosity == 0 {
            LogLevel::Warn
        } else if verbosity == 1 {
            LogLevel::Info
        } else if verbosity == 2 {
            LogLevel::Debug
        } else {
            LogLevel::Trace
        },
{
    if verbosity == 0 {
        LogLevel::Warn
    } else if verbosity == 1 {
        LogLevel::Info
    } else if verbosity == 2 {
        LogLevel::Debug
    } else {
        LogLevel::Trace
    }
}

} // verus!
