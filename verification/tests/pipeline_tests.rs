use butterfly_scraper::get_failed_ids;
use butterfly_scraper::protocol::{
    backoff_delay_ms, classify_status, initial_delay_ms, run_protocol, sighting_url,
    AttemptOutcome, StatusClass,
};
use butterfly_scraper::record::SightingRecord;
use butterfly_scraper::scraper::{
    count_unique_nonempty, lex_bounds, parse_u64, sighting_id_range, str_lex_le, tally_nonempty,
    ButterflyMothScraper, LedgerParseError,
};

fn named_record(name: &str) -> SightingRecord {
    let mut r = SightingRecord::default();
    r.common_name = name.to_string();
    r
}

#[test]
fn test_get_failed_ids() {
    let original_ids = vec![1, 2, 3, 4, 5];
    let mut record1 = SightingRecord::default();
    record1.sighting_id = Some(1);
    let mut record3 = SightingRecord::default();
    record3.sighting_id = Some(3);

    let scraped_records = vec![record1, record3];
    let failed_ids = get_failed_ids(&original_ids, &scraped_records);

    assert_eq!(failed_ids, vec![2, 4, 5]);
}

#[test]
fn test_scraper_creation() {
    let scraper = ButterflyMothScraper::new();
    assert_eq!(scraper.base_delay, 1000);
    assert_eq!(scraper.max_retries, 3);
}

#[test]
fn test_scraper_configuration() {
    let scraper = ButterflyMothScraper::new().with_delay(2000).with_max_retries(5);

    assert_eq!(scraper.base_delay, 2000);
    assert_eq!(scraper.max_retries, 5);
}

#[test]
fn test_default_record_is_blank() {
    let r = SightingRecord::default();
    assert_eq!(r.sighting_id, None);
    assert_eq!(r.url, None);
    assert!(r.common_name.is_empty());
    assert!(r.checklist_regions.is_empty());
}

#[test]
fn test_stamp_keeps_attributes() {
    let r = named_record("Monarch");
    let stamped = r.stamp(7, "https://example.invalid/7".to_string());
    assert_eq!(stamped.sighting_id, Some(7));
    assert_eq!(stamped.url, Some("https://example.invalid/7".to_string()));
    assert_eq!(stamped.common_name, "Monarch");
}

#[test]
fn test_classify_status() {
    assert_eq!(classify_status(200), StatusClass::Success);
    assert_eq!(classify_status(299), StatusClass::Success);
    assert_eq!(classify_status(429), StatusClass::RateLimited);
    assert_eq!(classify_status(404), StatusClass::OtherError);
    assert_eq!(classify_status(500), StatusClass::OtherError);
    assert_eq!(classify_status(199), StatusClass::OtherError);
    assert_eq!(classify_status(300), StatusClass::OtherError);
}

#[test]
fn test_parse_u64_valid() {
    assert_eq!(parse_u64("0"), Some(0));
    assert_eq!(parse_u64("123"), Some(123));
    assert_eq!(parse_u64("18446744073709551615"), Some(u64::MAX));
}

#[test]
fn test_parse_u64_invalid() {
    assert_eq!(parse_u64(""), None);
    assert_eq!(parse_u64("12a"), None);
    assert_eq!(parse_u64("-3"), None);
    assert_eq!(parse_u64(" 7"), None);
    assert_eq!(parse_u64("döve"), None);
}

#[test]
fn test_parse_u64_overflow() {
    assert_eq!(parse_u64("18446744073709551616"), None);
    assert_eq!(parse_u64("99999999999999999999999"), None);
}

#[test]
fn test_load_missing_sightings_dedups() {
    let mut scraper = ButterflyMothScraper::new();
    let lines = vec!["5".to_string(), "7".to_string(), "5".to_string()];
    assert!(scraper.load_missing_sightings(&lines).is_ok());
    assert_eq!(scraper.get_missing_sightings(), vec![5, 7]);
}

#[test]
fn test_load_missing_sightings_malformed_line_fails() {
    let mut scraper = ButterflyMothScraper::new();
    let lines = vec!["5".to_string(), "x7".to_string()];
    let r = scraper.load_missing_sightings(&lines);
    assert_eq!(r, Err(LedgerParseError { line_index: 1 }));
    assert_eq!(scraper.get_missing_sightings(), Vec::<u64>::new());
}

#[test]
fn test_add_missing_sighting_is_idempotent() {
    let mut scraper = ButterflyMothScraper::new();
    assert!(scraper.add_missing_sighting(5));
    assert!(!scraper.add_missing_sighting(5));
    assert!(scraper.add_missing_sighting(9));
    assert_eq!(scraper.get_missing_sightings(), vec![5, 9]);
    assert!(scraper.contains_missing_sighting(5));
    assert!(!scraper.contains_missing_sighting(6));
}

#[test]
fn test_clear_missing_sightings() {
    let mut scraper = ButterflyMothScraper::new();
    scraper.add_missing_sighting(5);
    scraper.clear_missing_sightings();
    assert_eq!(scraper.get_missing_sightings(), Vec::<u64>::new());
}

#[test]
fn test_filter_missing_sightings() {
    let mut scraper = ButterflyMothScraper::new();
    scraper.add_missing_sighting(2);
    let kept = scraper.filter_missing_sightings(&vec![1, 2, 3, 2]);
    assert_eq!(kept, vec![1, 3]);
}

#[test]
fn test_with_missing_sightings_file_records_name() {
    let scraper = ButterflyMothScraper::new().with_missing_sightings_file("missing.txt");
    assert_eq!(scraper.missing_sightings_file, Some("missing.txt".to_string()));
}

#[test]
fn test_run_protocol_transient_exhausts_budget() {
    let script = vec![
        AttemptOutcome::TransportError,
        AttemptOutcome::TransportError,
        AttemptOutcome::TransportError,
    ];
    let (attempts, record) = run_protocol(script, 2);
    assert_eq!(attempts, 3);
    assert!(record.is_none());

    let script = vec![
        AttemptOutcome::RateLimited,
        AttemptOutcome::RateLimited,
        AttemptOutcome::HttpError(503),
    ];
    let (attempts, record) = run_protocol(script, 2);
    assert_eq!(attempts, 3);
    assert!(record.is_none());
}

#[test]
fn test_run_protocol_unparsable_success_is_terminal() {
    let script = vec![
        AttemptOutcome::SuccessNoRecord,
        AttemptOutcome::TransportError,
        AttemptOutcome::TransportError,
    ];
    let (attempts, record) = run_protocol(script, 2);
    assert_eq!(attempts, 1);
    assert!(record.is_none());

    let script = vec![
        AttemptOutcome::SuccessBodyUnreadable,
        AttemptOutcome::TransportError,
        AttemptOutcome::TransportError,
    ];
    let (attempts, record) = run_protocol(script, 2);
    assert_eq!(attempts, 1);
    assert!(record.is_none());
}

#[test]
fn test_run_protocol_success_after_retry() {
    let script = vec![
        AttemptOutcome::HttpError(500),
        AttemptOutcome::SuccessRecord(named_record("Viceroy")),
    ];
    let (attempts, record) = run_protocol(script, 1);
    assert_eq!(attempts, 2);
    assert_eq!(record.unwrap().common_name, "Viceroy");
}

#[test]
fn test_sighting_url_format() {
    let url = sighting_url(42);
    assert_eq!(url, "https://www.butterfliesandmoths.org/sighting_details/42");
    let url = sighting_url(0);
    assert_eq!(url, "https://www.butterfliesandmoths.org/sighting_details/0");
}

#[test]
fn test_sighting_id_range() {
    assert_eq!(sighting_id_range(3, 7), vec![3, 4, 5, 6, 7]);
    assert_eq!(sighting_id_range(9, 9), vec![9]);
}

#[test]
fn test_initial_delay_in_range() {
    for _ in 0..32 {
        let d = initial_delay_ms(1000);
        assert!((1000..1500).contains(&d));
    }
}

#[test]
fn test_backoff_delay_in_range() {
    for _ in 0..32 {
        let d = backoff_delay_ms(1, 1000);
        assert!((2000..3000).contains(&d));
        let d = backoff_delay_ms(2, 1000);
        assert!((4000..5000).contains(&d));
        let d = backoff_delay_ms(3, 500);
        assert!((4000..4500).contains(&d));
    }
}

#[test]
fn test_process_batch_scenario() {
    let mut scraper = ButterflyMothScraper::new().with_max_retries(2);
    let ids = vec![1, 2, 3, 4, 5];
    let scripts = vec![
        vec![
            AttemptOutcome::SuccessRecord(named_record("one")),
            AttemptOutcome::TransportError,
            AttemptOutcome::TransportError,
        ],
        vec![
            AttemptOutcome::HttpError(404),
            AttemptOutcome::HttpError(404),
            AttemptOutcome::HttpError(404),
        ],
        vec![
            AttemptOutcome::SuccessRecord(named_record("three")),
            AttemptOutcome::TransportError,
            AttemptOutcome::TransportError,
        ],
        vec![
            AttemptOutcome::TransportError,
            AttemptOutcome::TransportError,
            AttemptOutcome::TransportError,
        ],
        vec![
            AttemptOutcome::SuccessRecord(named_record("five")),
            AttemptOutcome::TransportError,
            AttemptOutcome::TransportError,
        ],
    ];
    let records = scraper.process_batch(&ids, scripts);

    assert_eq!(records.len(), 3);
    assert_eq!(records[0].sighting_id, Some(1));
    assert_eq!(records[0].common_name, "one");
    assert_eq!(
        records[0].url,
        Some("https://www.butterfliesandmoths.org/sighting_details/1".to_string())
    );
    assert_eq!(records[1].sighting_id, Some(3));
    assert_eq!(records[1].common_name, "three");
    assert_eq!(records[2].sighting_id, Some(5));
    assert_eq!(records[2].common_name, "five");

    assert_eq!(scraper.get_missing_sightings(), vec![2, 4]);
    assert_eq!(get_failed_ids(&ids, &records), vec![2, 4]);
}

#[test]
fn test_process_batch_skips_known_missing() {
    let mut scraper = ButterflyMothScraper::new().with_max_retries(0);
    scraper.add_missing_sighting(2);
    let ids = vec![1, 2];
    let scripts = vec![
        vec![AttemptOutcome::SuccessRecord(named_record("one"))],
        vec![AttemptOutcome::SuccessRecord(named_record("two"))],
    ];
    let records = scraper.process_batch(&ids, scripts);
    assert_eq!(records.len(), 1);
    assert_eq!(records[0].sighting_id, Some(1));
    assert_eq!(scraper.get_missing_sightings(), vec![2]);
}

#[test]
fn test_count_unique_nonempty() {
    let values = vec![
        "Danaus plexippus".to_string(),
        "".to_string(),
        "Limenitis archippus".to_string(),
        "Danaus plexippus".to_string(),
    ];
    assert_eq!(count_unique_nonempty(&values), 2);
    assert_eq!(count_unique_nonempty(&Vec::new()), 0);
}

#[test]
fn test_str_lex_le() {
    assert!(str_lex_le("2020-01-02", "2021-05-01"));
    assert!(!str_lex_le("2021-05-01", "2020-01-02"));
    assert!(str_lex_le("abc", "abc"));
    assert!(str_lex_le("ab", "abc"));
    assert!(!str_lex_le("abc", "ab"));
}

#[test]
fn test_lex_bounds() {
    let dates = vec![
        "2021-05-01".to_string(),
        "2020-01-02".to_string(),
        "2023-09-09".to_string(),
    ];
    let (lo, hi) = lex_bounds(&dates).unwrap();
    assert_eq!(lo, "2020-01-02");
    assert_eq!(hi, "2023-09-09");
    assert_eq!(lex_bounds(&Vec::new()), None);
}

#[test]
fn test_tally_nonempty() {
    let values = vec![
        "Ontario".to_string(),
        "".to_string(),
        "Quebec".to_string(),
        "Ontario".to_string(),
        "Ontario".to_string(),
    ];
    let tally = tally_nonempty(&values);
    assert_eq!(tally.len(), 2);
    assert_eq!(tally[0], ("Ontario".to_string(), 3));
    assert_eq!(tally[1], ("Quebec".to_string(), 1));
}
