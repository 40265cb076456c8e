use fsview::entities::{PyDataCriteria, PyHistorySummaries, PyLocation, PyLocationCriteria, PyWeatherConfig};

#[test]
fn weather_config_keeps_its_settings() {
    let config = PyWeatherConfig::new(Some("weather.toml".to_string()), None, Some("w.log".to_string()), true, 2, false);
    assert_eq!(config.config_file.as_deref(), Some("weather.toml"));
    assert!(config.dirname.is_none());
    assert_eq!(config.logfile.as_deref(), Some("w.log"));
    assert!(config.log_append);
    assert_eq!(config.log_level, 2);
    assert!(!config.fs_only);
}

#[test]
fn location_defaults_and_copy() {
    let location = PyLocation::new(Some("Boise".to_string()), Some("boise".to_string()), None, Some("-116.2".to_string()), None);
    assert_eq!(location.name, "Boise");
    assert_eq!(location.alias, "boise");
    assert_eq!(location.latitude, "");
    assert_eq!(location.longitude, "-116.2");
    assert_eq!(location.tz, "");
    let copy = location.__copy__();
    assert_eq!((copy.name, copy.alias, copy.longitude), (location.name.clone(), location.alias.clone(), location.longitude.clone()));
}

#[test]
fn criteria_defaults() {
    let criteria = PyDataCriteria::default();
    assert!(criteria.filters.is_empty() && criteria.icase && criteria.sort);
    let criteria = PyDataCriteria::new(Some(vec!["a".to_string()]), None, Some(false));
    assert_eq!(criteria.filters, vec!["a".to_string()]);
    assert!(criteria.icase);
    assert!(!criteria.sort);
    assert_eq!(PyLocationCriteria::new(None, None, None).limit, 25);
    let criteria = PyLocationCriteria::new(Some("Boise".to_string()), Some("ID".to_string()), Some(5));
    assert_eq!(criteria.limit, 5);
    assert_eq!(criteria.state.as_deref(), Some("ID"));
    let summaries = PyHistorySummaries::new();
    assert_eq!(summaries.count, 0);
    assert!(summaries.overall_size.is_none() && summaries.raw_size.is_none() && summaries.store_size.is_none());
    assert_eq!(summaries.location.name, "");
}
