use casier::api::RevealedSecret;
use casier::cache::{cache_file_name, civil_from_days, format_utc, now_utc, to_map, utc_from_clock};

#[test]
fn formats_epoch_as_utc() {
    assert_eq!(format_utc(1_700_000_000), "2023-11-14 22:13:20 UTC");
    assert_eq!(format_utc(0), "1970-01-01 00:00:00 UTC");
}

#[test]
fn leap_days_and_year_ends() {
    assert_eq!(format_utc(951_782_400), "2000-02-29 00:00:00 UTC");
    assert_eq!(format_utc(4_107_542_399), "2100-02-28 23:59:59 UTC");
    assert_eq!(format_utc(4_107_542_400), "2100-03-01 00:00:00 UTC");
    assert_eq!(format_utc(253_402_300_799), "9999-12-31 23:59:59 UTC");
    assert_eq!(format_utc(253_402_300_800), "10000-01-01 00:00:00 UTC");
}

#[test]
fn days_before_the_epoch() {
    assert_eq!(civil_from_days(-1), (1969, 12, 31));
    assert_eq!(civil_from_days(-719_468), (0, 3, 1));
    assert_eq!(civil_from_days(-719_469), (0, 2, 29));
    assert_eq!(civil_from_days(19_675), (2023, 11, 14));
}

#[test]
fn now_is_well_formed() {
    let now = now_utc();
    assert!(now.ends_with(" UTC"));
    assert_eq!(now.len(), 23);
}

#[test]
fn cache_map_takes_the_last_of_a_key() {
    let secrets = vec![
        RevealedSecret { key: "B".into(), value: "1".into(), version: 1 },
        RevealedSecret { key: "A".into(), value: "x".into(), version: 1 },
        RevealedSecret { key: "B".into(), value: "2".into(), version: 2 },
    ];
    let map = to_map(&secrets);
    assert_eq!(map.len(), 2);
    assert_eq!(map.get("B").unwrap(), "2");
    assert_eq!(map.keys(), vec!["A".to_string(), "B".to_string()]);
}

#[test]
fn cache_file_names() {
    assert_eq!(cache_file_name("myproject", "dev"), "myproject-dev.json");
}

#[test]
fn a_clock_before_the_epoch_reads_as_the_epoch() {
    assert_eq!(utc_from_clock(None), "1970-01-01 00:00:00 UTC");
    assert_eq!(utc_from_clock(Some(1_700_000_000)), "2023-11-14 22:13:20 UTC");
}
