use mass_incarceration_analysis::records::{
    clean_record, compare_states, filter_by_state, parse_float_to_u32, CleanRecord, DirtyRecord,
};

fn dirty(
    jurisdiction: &str,
    year: &str,
    prisoner_count: &str,
    state_population: &str,
    violent_crime_total: &str,
) -> DirtyRecord {
    DirtyRecord {
        jurisdiction: jurisdiction.to_string(),
        year: year.to_string(),
        prisoner_count: prisoner_count.to_string(),
        state_population: state_population.to_string(),
        violent_crime_total: violent_crime_total.to_string(),
    }
}

fn clean(name: &str, year: u32, inc_milli: u64, crime_milli: u64) -> CleanRecord {
    CleanRecord {
        jurisdiction: name.to_string(),
        year,
        prisoner_count: 0,
        state_population: 1,
        violent_crime_total: 0,
        incarceration_rate_milli: inc_milli,
        crime_rate_milli: crime_milli,
    }
}

#[test]
fn parse_float_plain_and_fractional() {
    assert_eq!(parse_float_to_u32("123"), 123);
    assert_eq!(parse_float_to_u32("123.45"), 123);
    assert_eq!(parse_float_to_u32("123.5"), 124);
    assert_eq!(parse_float_to_u32("0.5"), 1);
    assert_eq!(parse_float_to_u32("0.49"), 0);
    assert_eq!(parse_float_to_u32(".75"), 1);
    assert_eq!(parse_float_to_u32("7."), 7);
    assert_eq!(parse_float_to_u32("+12.2"), 12);
}

#[test]
fn parse_float_trims_whitespace() {
    assert_eq!(parse_float_to_u32("  42 "), 42);
    assert_eq!(parse_float_to_u32("\t5306966.0\n"), 5_306_966);
}

#[test]
fn parse_float_rejects_malformed_fields() {
    assert_eq!(parse_float_to_u32(""), 0);
    assert_eq!(parse_float_to_u32("   "), 0);
    assert_eq!(parse_float_to_u32("abc"), 0);
    assert_eq!(parse_float_to_u32("12a"), 0);
    assert_eq!(parse_float_to_u32("1.2.3"), 0);
    assert_eq!(parse_float_to_u32("."), 0);
    assert_eq!(parse_float_to_u32("1,234"), 0);
}

#[test]
fn parse_float_negative_reads_as_zero() {
    assert_eq!(parse_float_to_u32("-5"), 0);
    assert_eq!(parse_float_to_u32("-0.2"), 0);
}

#[test]
fn parse_float_saturates_at_u32_max() {
    assert_eq!(parse_float_to_u32("4294967295"), u32::MAX);
    assert_eq!(parse_float_to_u32("4294967296"), u32::MAX);
    assert_eq!(parse_float_to_u32("99999999999999999999"), u32::MAX);
}

#[test]
fn clean_record_parses_a_valid_row() {
    let row = dirty("ARIZONA", "\"2001\"", "27,710", "5306966", "28675");
    let c = clean_record(row).expect("row should be accepted");
    assert_eq!(c.jurisdiction, "ARIZONA");
    assert_eq!(c.year, 2001);
    assert_eq!(c.prisoner_count, 27_710);
    assert_eq!(c.state_population, 5_306_966);
    assert_eq!(c.violent_crime_total, 28_675);
    // 27710 / 5306966 * 100000, in thousandths, rounded to nearest
    assert_eq!(c.incarceration_rate_milli, 522_144);
    assert_eq!(c.crime_rate_milli, 540_328);
}

#[test]
fn clean_record_rejects_missing_fields() {
    assert!(clean_record(dirty("X", "2001", "10", "  ", "5")).is_none());
    assert!(clean_record(dirty("X", "2001", "10", "100", "")).is_none());
}

#[test]
fn clean_record_rejects_zero_population_or_crime() {
    assert!(clean_record(dirty("X", "2001", "10", "0", "5")).is_none());
    assert!(clean_record(dirty("X", "2001", "10", "100", "0")).is_none());
    assert!(clean_record(dirty("X", "2001", "10", "abc", "5")).is_none());
}

#[test]
fn clean_record_defaults_unreadable_optional_fields() {
    let c = clean_record(dirty("X", "bad-year", "not-a-number", "100", "5"))
        .expect("row should be accepted");
    assert_eq!(c.year, 0);
    assert_eq!(c.prisoner_count, 0);
    assert_eq!(c.incarceration_rate_milli, 0);
    // 5 / 100 * 100000 = 5000.0 rate units
    assert_eq!(c.crime_rate_milli, 5_000_000);
}

#[test]
fn filter_by_state_ignores_case() {
    let records = vec![
        clean("Arizona", 2001, 1, 1),
        clean("MASSACHUSETTS", 2001, 2, 2),
        clean("arizona", 2002, 3, 3),
    ];
    let hits = filter_by_state(&records, "ARIZONA");
    assert_eq!(hits.len(), 2);
    assert_eq!(hits[0].year, 2001);
    assert_eq!(hits[1].year, 2002);
    assert!(filter_by_state(&records, "texas").is_empty());
}

#[test]
fn compare_states_pairs_two_filters() {
    let records = vec![
        clean("Arizona", 2001, 1, 1),
        clean("Massachusetts", 2001, 2, 2),
        clean("Arizona", 2002, 3, 3),
    ];
    let (az, ma) = compare_states(&records, "Arizona", "Massachusetts");
    assert_eq!(az.len(), 2);
    assert_eq!(ma.len(), 1);
    assert_eq!(ma[0].jurisdiction, "Massachusetts");
}

#[test]
fn clean_record_rounds_decimal_fields() {
    let c = clean_record(dirty("X", "2005", "+10", "1000.6", "2.4")).expect("row is valid");
    assert_eq!(c.year, 2005);
    assert_eq!(c.prisoner_count, 10);
    assert_eq!(c.state_population, 1_001);
    assert_eq!(c.violent_crime_total, 2);
    // 10 / 1001 * 100000 = 999.0009...; stored in thousandths
    assert_eq!(c.incarceration_rate_milli, 999_001);
}
