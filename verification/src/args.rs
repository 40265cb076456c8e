//! Checks of command line arguments: filenames, directory names and counts. What the checks
//! need to know of the filesystem is handed to them.
use crate::decimal::{parse_usize, usize_value};
use vstd::prelude::*;

verus! {

/// The character has the Unicode `White_Space` property: tab, line feed, line tabulation,
/// form feed, carriage return, space, next line, no-break space, ogham space mark, the
/// spaces from en quad to hair space, line and paragraph separators, narrow no-break space,
/// medium mathematical space and ideographic space.
pub open spec fn white_space(c: char) -> bool {
    let u = c as u32;
    ||| 0x9 <= u <= 0xd
    ||| u == 0x20
    ||| u == 0x85
    ||| u == 0xa0
    ||| u == 0x1680
    ||| 0x2000 <= u <= 0x200a
    ||| u == 0x2028
    ||| u == 0x2029
    ||| u == 0x202f
    ||| u == 0x205f
    ||| u == 0x3000
}

/// Whether the character is white space, as `char::is_whitespace` says.
fn is_white_space(c: char) -> (r: bool)
    ensures
        r == white_space(c),
{
    let u = c as u32;
    (0x9 <= u && u <= 0xd) || u == 0x20 || u == 0x85 || u == 0xa0 || u == 0x1680 || (0x2000 <= u && u <= 0x200a)
        || u == 0x2028 || u == 0x2029 || u == 0x202f || u == 0x205f || u == 0x3000
}

/// Trimming the text changes it: it starts or ends with white space.
pub open spec fn has_outer_white_space(text: Seq<char>) -> bool {
    text.len() > 0 && (white_space(text[0]) || white_space(text.last()))
}

/// Whether `str::trim` would remove characters from the text: its first or last character
/// is white space.
pub fn outer_white_space(text: &str) -> (r: bool)
    ensures
        r == has_outer_white_space(text@),
{
    let n = text.unicode_len();
    if n == 0 {
        false
    } else {
        is_white_space(text.get_char(0)) || is_white_space(text.get_char(n - 1))
    }
}

/// Checks the log filename argument: it cannot start or end with white space, and cannot
/// name a directory (`is_dir`); the filename is given back when it passes.
pub fn parse_filename(log_filename: &str, is_dir: bool) -> (r: Result<String, String>)
    ensures
        has_outer_white_space(log_filename@) ==> (r matches Err(e) && e@
            == "The log filename cannot have leading/trailing white space..."@),
        !has_outer_white_space(log_filename@) && is_dir ==> (r matches Err(e) && e@
            == "The log filename cannot be a directory..."@),
        !has_outer_white_space(log_filename@) && !is_dir ==> (r matches Ok(name) && name@ == log_filename@),
{
    if outer_white_space(log_filename) {
        Err(String::from_str("The log filename cannot have leading/trailing white space..."))
    } else if is_dir {
        Err(String::from_str("The log filename cannot be a directory..."))
    } else {
        Ok(String::from_str(log_filename))
    }
}

/// Checks the database name argument: it cannot start or end with white space, and cannot
/// name a directory (`is_dir`); the name is given back when it passes.
pub fn parse_db_name(db_name: &str, is_dir: bool) -> (r: Result<String, String>)
    ensures
        has_outer_white_space(db_name@) ==> (r matches Err(e) && e@
            == "The DB name cannot have leading/trailing white space..."@),
        !has_outer_white_space(db_name@) && is_dir ==> (r matches Err(e) && e@ == "The DB name cannot be a directory..."@),
        !has_outer_white_space(db_name@) && !is_dir ==> (r matches Ok(name) && name@ == db_name@),
{
    if outer_white_space(db_name) {
        Err(String::from_str("The DB name cannot have leading/trailing white space..."))
    } else if is_dir {
        Err(String::from_str("The DB name cannot be a directory..."))
    } else {
        Ok(String::from_str(db_name))
    }
}

/// Checks the directory name argument: it cannot start or end with white space, and must
/// name a directory (`is_dir`); a name that exists (`exists`) but is not a directory, or
/// does not exist, fails; the name is given back when it passes.
pub fn parse_dir_name(dir_name: &str, is_dir: bool, exists: bool) -> (r: Result<String, String>)
    ensures
        has_outer_white_space(dir_name@) ==> (r matches Err(e) && e@
            == "The directory cannot have leading/trailing white space..."@),
        !has_outer_white_space(dir_name@) && is_dir ==> (r matches Ok(name) && name@ == dir_name@),
        !has_outer_white_space(dir_name@) && !is_dir && exists ==> (r matches Err(e) && e@ == dir_name@
            + " must be a directory name..."@),
        !has_outer_white_space(dir_name@) && !is_dir && !exists ==> (r matches Err(e) && e@
            == "The directory does not exist..."@),
{
    if outer_white_space(dir_name) {
        Err(String::from_str("The directory cannot have leading/trailing white space..."))
    } else if is_dir {
        Ok(String::from_str(dir_name))
    } else if exists {
        Err(String::from_str(dir_name).concat(" must be a directory name..."))
    } else {
        Err(String::from_str("The directory does not exist..."))
    }
}

/// Checks the weather directory argument: it must name a directory (`is_dir`); a name that
/// exists (`exists`) but is not a directory, or does not exist, fails; the name is given back
/// when it passes.
pub fn parse_weather_dir(dirname: &str, is_dir: bool, exists: bool) -> (r: Result<String, String>)
    ensures
        is_dir ==> (r matches Ok(name) && name@ == dirname@),
        !is_dir && exists ==> (r matches Err(e) && e@ == dirname@ + " is not a directory."@),
        !is_dir && !exists ==> (r matches Err(e) && e@ == dirname@ + " does not exist."@),
{
    if is_dir {
        Ok(String::from_str(dirname))
    } else if exists {
        Err(String::from_str(dirname).concat(" is not a directory."))
    } else {
        Err(String::from_str(dirname).concat(" does not exist."))
    }
}

/// Checks the directory that archives are migrated into: it cannot be empty, and when it
/// exists (`exists`) it must be a directory (`is_dir`); a name that does not exist yet passes
/// and is given back.
pub fn into_dir_parser(dirname: &str, is_dir: bool, exists: bool) -> (r: Result<String, String>)
    ensures
        dirname@.len() == 0 ==> (r matches Err(e) && e@ == "The directory name cannot be empty."@),
        dirname@.len() > 0 && (is_dir || !exists) ==> (r matches Ok(name) && name@ == dirname@),
        dirname@.len() > 0 && !is_dir && exists ==> (r matches Err(e) && e@ == dirname@
            + " must be a directory name."@),
{
    if dirname.unicode_len() == 0 {
        Err(String::from_str("The directory name cannot be empty."))
    } else if is_dir {
        Ok(String::from_str(dirname))
    } else if exists {
        Err(String::from_str(dirname).concat(" must be a directory name."))
    } else {
        Ok(String::from_str(dirname))
    }
}

/// What the filename check of the weather commands learns of the filesystem.
pub struct PathFacts {
    /// The filename names a directory.
    pub is_dir: bool,
    /// The filename names a symbolic link.
    pub is_symlink: bool,
    /// The parent path of the filename is empty (a bare filename).
    pub parent_is_empty: bool,
    /// The parent path of the filename exists.
    pub parent_exists: bool,
}

/// The pathname is absolute: it starts at the root.
pub open spec fn is_absolute(pathname: Seq<char>) -> bool {
    pathname.len() > 0 && pathname[0] == '/'
}

/// The message of the weather commands' filename check, if the filename fails it: it
/// cannot be empty, a directory or a symbolic link, and the directory it is in must exist.
pub open spec fn filename_problem(filename: Seq<char>, facts: PathFacts) -> Option<Seq<char>> {
    if filename.len() == 0 {
        Some("The filename cannot be empty."@)
    } else if facts.is_dir {
        Some(filename + " is a directory..."@)
    } else if facts.is_symlink {
        Some(filename + " is a symlink..."@)
    } else if is_absolute(filename) && !facts.parent_exists {
        Some("The parent directory does not exist..."@)
    } else if !facts.parent_is_empty && !facts.parent_exists {
        Some("The relative path to file does not exist..."@)
    } else {
        None
    }
}

/// Checks a filename argument of the weather commands, as `filename_problem` says; the
/// filename is given back when it passes.
pub fn check_filename(filename: &str, facts: &PathFacts) -> (r: Result<String, String>)
    ensures
        match filename_problem(filename@, *facts) {
            Some(message) => r matches Err(e) && e@ == message,
            None => r matches Ok(name) && name@ == filename@,
        },
{
    let n = filename.unicode_len();
    if n == 0 {
        Err(String::from_str("The filename cannot be empty."))
    } else if facts.is_dir {
        Err(String::from_str(filename).concat(" is a directory..."))
    } else if facts.is_symlink {
        Err(String::from_str(filename).concat(" is a symlink..."))
    } else if filename.get_char(0) == '/' && !facts.parent_exists {
        Err(String::from_str("The parent directory does not exist..."))
    } else if !facts.parent_is_empty && !facts.parent_exists {
        Err(String::from_str("The relative path to file does not exist..."))
    } else {
        Ok(String::from_str(filename))
    }
}

/// Checks a thread count argument: a `usize` of at most 16.
pub fn thread_count_parse(count_arg: &str) -> (r: Result<usize, String>)
    ensures
        match usize_value(count_arg@) {
            Some(count) => if count <= 16 {
                r == Ok::<usize, String>(count as usize)
            } else {
                r matches Err(e) && e@ == "thread count is limited to 16."@
            },
            None => r matches Err(e) && e@ == count_arg@ + " is not a number."@,
        },
{
    match parse_usize(count_arg) {
        Some(count) => {
            if count <= 16 {
                Ok(count)
            } else {
                Err(String::from_str("thread count is limited to 16."))
            }
        },
        None => Err(String::from_str(count_arg).concat(" is not a number.")),
    }
}

/// Checks a result limit argument: a `usize` greater than 0.
pub fn limit_parser(limit_arg: &str) -> (r: Result<usize, String>)
    ensures
        match usize_value(limit_arg@) {
            Some(limit) => if limit > 0 {
                r == Ok::<usize, String>(limit as usize)
            } else {
                r matches Err(e) && e@ == "limit must be greater than 0"@
            },
            None => r matches Err(e) && e@ == "limit needs to be an unsigned integer."@,
        },
{
    match parse_usize(limit_arg) {
        Some(limit) => {
            if limit > 0 {
                Ok(limit)
            } else {
                Err(String::from_str("limit must be greater than 0"))
            }
        },
        None => Err(String::from_str("limit needs to be an unsigned integer.")),
    }
}

} // verus!
