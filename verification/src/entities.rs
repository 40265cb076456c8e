//! The weather data classes handed to front ends: the configuration, a location, and the
//! criteria of location and history queries, with their defaults.
use vstd::prelude::*;

verus! {

/// The weather data configuration.
#[derive(Clone, Debug, Default)]
pub struct PyWeatherConfig {
    /// The configuration file pathname.
    pub config_file: Option<String>,
    /// The weather data directory.
    pub dirname: Option<String>,
    /// The log file pathname.
    pub logfile: Option<String>,
    /// Append to the log file rather than overwrite it.
    pub log_append: bool,
    /// The logging verbosity.
    pub log_level: usize,
    /// Use the filesystem data only, not a database.
    pub fs_only: bool,
}

impl PyWeatherConfig {
    /// A configuration of the given settings.
    pub fn new(
        config_file: Option<String>,
        dirname: Option<String>,
        logfile: Option<String>,
        log_append: bool,
        log_level: usize,
        fs_only: bool,
    ) -> (r: Self)
        ensures
            r.config_file == config_file,
            r.dirname == dirname,
            r.logfile == logfile,
            r.log_append == log_append,
            r.log_level == log_level,
            r.fs_only == fs_only,
    {
        PyWeatherConfig { config_file, dirname, logfile, log_append, log_level, fs_only }
    }
}

/// The text of an optional setting, empty when it is not given.
pub open spec fn text_or_empty(text: Option<String>) -> Seq<char> {
    match text {
        Some(t) => t@,
        None => Seq::empty(),
    }
}

/// The text given, or an empty one.
fn unwrap_text(text: Option<String>) -> (r: String)
    ensures
        r@ == text_or_empty(text),
{
    match text {
        Some(t) => t,
        None => String::new(),
    }
}

/// A weather location.
#[derive(Clone, Debug, Default)]
pub struct PyLocation {
    /// The name of the location.
    pub name: String,
    /// A unique nickname of the location.
    pub alias: String,
    /// The location longitude.
    pub longitude: String,
    /// The location latitude.
    pub latitude: String,
    /// The location timezone.
    pub tz: String,
}

impl PyLocation {
    /// A location of the given properties, each empty when it is not given.
    pub fn new(
        name: Option<String>,
        alias: Option<String>,
        latitude: Option<String>,
        longitude: Option<String>,
        tz: Option<String>,
    ) -> (r: Self)
        ensures
            r.name@ == text_or_empty(name),
            r.alias@ == text_or_empty(alias),
            r.latitude@ == text_or_empty(latitude),
            r.longitude@ == text_or_empty(longitude),
            r.tz@ == text_or_empty(tz),
    {
        PyLocation {
            name: unwrap_text(name),
            alias: unwrap_text(alias),
            latitude: unwrap_text(latitude),
            longitude: unwrap_text(longitude),
            tz: unwrap_text(tz),
        }
    }

    /// A copy of the location.
    pub fn __copy__(&self) -> (r: PyLocation)
        ensures
            r.name@ == self.name@,
            r.alias@ == self.alias@,
            r.latitude@ == self.latitude@,
            r.longitude@ == self.longitude@,
            r.tz@ == self.tz@,
    {
        PyLocation::new(
            Some(self.name.clone()),
            Some(self.alias.clone()),
            Some(self.latitude.clone()),
            Some(self.longitude.clone()),
            Some(self.tz.clone()),
        )
    }
}

/// The criteria of a location query.
#[derive(Clone, Debug)]
pub struct PyDataCriteria {
    /// The locations of interest.
    pub filters: Vec<String>,
    /// The location filters ignore case.
    pub icase: bool,
    /// The locations are sorted by name.
    pub sort: bool,
}

impl Default for PyDataCriteria {
    /// No filters, ignoring case, sorted.
    fn default() -> (r: Self)
        ensures
            r.filters@.len() == 0,
            r.icase,
            r.sort,
    {
        PyDataCriteria { filters: Vec::new(), icase: true, sort: true }
    }
}

impl PyDataCriteria {
    /// The criteria of the given settings; without filters none, and by default ignoring
    /// case and sorted.
    pub fn new(filters: Option<Vec<String>>, icase: Option<bool>, sort: Option<bool>) -> (r: Self)
        ensures
            r.filters@ == match filters {
                Some(f) => f@,
                None => Seq::empty(),
            },
            r.icase == match icase {
                Some(b) => b,
                None => true,
            },
            r.sort == match sort {
                Some(b) => b,
                None => true,
            },
    {
        PyDataCriteria {
            filters: match filters {
                Some(f) => f,
                None => Vec::new(),
            },
            icase: match icase {
                Some(b) => b,
                None => true,
            },
            sort: match sort {
                Some(b) => b,
                None => true,
            },
        }
    }
}

/// The summary of a location's weather history.
#[derive(Debug, Default)]
pub struct PyHistorySummaries {
    /// The location.
    pub location: PyLocation,
    /// The number of weather data histories available.
    pub count: usize,
    /// The overall size of the weather data in bytes, when known.
    pub overall_size: Option<usize>,
    /// The size in bytes of the weather data, when known.
    pub raw_size: Option<usize>,
    /// The size in bytes of the weather data in the backing store, when known.
    pub store_size: Option<usize>,
}

impl PyHistorySummaries {
    /// An empty summary: an empty location, no histories, no sizes.
    pub fn new() -> (r: Self)
        ensures
            r.location.name@.len() == 0,
            r.location.alias@.len() == 0,
            r.location.latitude@.len() == 0,
            r.location.longitude@.len() == 0,
            r.location.tz@.len() == 0,
            r.count == 0,
            r.overall_size is None,
            r.raw_size is None,
            r.store_size is None,
    {
        PyHistorySummaries {
            location: PyLocation::new(None, None, None, None, None),
            count: 0,
            overall_size: None,
            raw_size: None,
            store_size: None,
        }
    }
}

/// The criteria of a city search.
#[derive(Clone, Debug, Default)]
pub struct PyLocationCriteria {
    /// The city name, if any.
    pub name: Option<String>,
    /// The state name, if any.
    pub state: Option<String>,
    /// The most results the search gives.
    pub limit: usize,
}

impl PyLocationCriteria {
    /// The criteria of a city search; the limit is 25 unless given.
    pub fn new(name: Option<String>, state: Option<String>, limit: Option<usize>) -> (r: Self)
        ensures
            r.name == name,
            r.state == state,
            r.limit == match limit {
                Some(l) => l,
                None => 25,
            },
    {
        PyLocationCriteria {
            name,
            state,
            limit: match limit {
                Some(l) => l,
                None => 25,
            },
        }
    }
}

} // verus!
