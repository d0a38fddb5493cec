use punch::block::Block;
use punch::date::Date;
use punch::month::Month;
use punch::parse;
use punch::PunchError;

#[test]
fn test_parse_block() {
    let today = Date::from_ymd(2022, 2, 12).unwrap();
    let expected = Block { from: 8 * 60 + 15, to: 12 * 60 };

    assert_eq!(expected, parse::parse_block(&today, "08:15-12:00").unwrap());
    assert_eq!(expected, parse::parse_block(&today, "8:15-12:00").unwrap());
}

#[test]
fn test_parse_no_comment() {
    let line = "  28.11.14    18:00-19:00   Total:   01:00";
    assert_eq!(None, parse::parse_day(line).unwrap().comment)
}

#[test]
fn test_parse_comment() {
    let line = "  28.11.14    18:00-19:00   Total:   01:00 hi There ";
    assert_eq!(
        Some("hi There".to_string()),
        parse::parse_day(line).unwrap().comment
    )
}

#[test]
fn test_parse_empty_month() {
    let contents = r#"
            February 2022



            Total: 00:00
        "#;

    let month = parse::parse_month(&contents, 2022, 2).unwrap();
    assert_eq!(0, month.days.len());
}

#[test]
fn test_parse_day_fields() {
    let day = parse::parse_day("12.02.20  08:00-10:00  11:00-12:00  Total: 03:00").unwrap();
    assert_eq!(day.date, Date::from_ymd(2020, 2, 12).unwrap());
    assert_eq!(day.blocks, vec![
        Block { from: 8 * 60, to: 10 * 60 },
        Block { from: 11 * 60, to: 12 * 60 },
    ]);
    assert_eq!(day.comment, None);
}

#[test]
fn test_parse_date_values() {
    assert_eq!(Ok(Date::from_ymd(2020, 2, 12).unwrap()), parse::parse_date("12.02.20"));
    assert_eq!(Ok(Date::from_ymd(1999, 1, 4).unwrap()), parse::parse_date("4.1.99"));
    assert_eq!(Err(PunchError::UnparseableToken), parse::parse_date("12.02"));
    assert_eq!(Err(PunchError::UnparseableToken), parse::parse_date("aa.02.20"));
    assert_eq!(Err(PunchError::InvalidCalendarValue), parse::parse_date("31.02.22"));
}

#[test]
fn test_parse_block_errors() {
    let today = Date::from_ymd(2022, 2, 12).unwrap();
    assert_eq!(
        Err(PunchError::UnparseableToken),
        parse::parse_block(&today, "08:00")
    );
    assert_eq!(
        Err(PunchError::UnparseableToken),
        parse::parse_block(&today, "junk-text")
    );
    assert_eq!(
        Err(PunchError::InvalidCalendarValue),
        parse::parse_block(&today, "25:00-26:00")
    );
    assert_eq!(
        Err(PunchError::InvalidRange),
        parse::parse_block(&today, "10:00-08:00")
    );
}

#[test]
fn test_parse_hm_values() {
    assert_eq!(Ok((8, 30)), parse::parse_hm("8:30"));
    assert_eq!(Ok((80000, 0)), parse::parse_hm("80000:00"));
    assert_eq!(Err(PunchError::UnparseableToken), parse::parse_hm("asdf"));
}

#[test]
fn test_parse_month_keys_days_by_date() {
    let contents = "February 2022\n\
        12.02.22   08:00-10:00   Total: 02:00\n\
        13.02.22   09:00-10:00   Total: 01:00\n\
        12.02.22   14:00-15:00   Total: 01:00\n";
    let month = parse::parse_month(contents, 2022, 2).unwrap();
    assert_eq!(2, month.days.len());
    let i = month.find_day_by_date(&Date::from_ymd(2022, 2, 12).unwrap()).unwrap();
    assert_eq!(month.days[i].blocks, vec![Block { from: 14 * 60, to: 15 * 60 }]);
}

#[test]
fn test_month_collection() {
    let contents = "February 2022\n\
        12.02.22   08:00-10:00   Total: 02:00\n\
        10.02.22   09:00-10:00   Total: 01:00  note here\n";
    let mut month = parse::parse_month(contents, 2022, 2).unwrap();
    assert_eq!(month.duration(), 3 * 3600);
    assert_eq!(month.max_num_blocks_in_day(), 1);

    let extra = Date::from_ymd(2022, 2, 20).unwrap();
    month.add_day(&extra);
    assert_eq!(3, month.days.len());
    month.add_day(&extra);
    assert_eq!(3, month.days.len());

    let sorted = month.sorted_days();
    assert_eq!(sorted[0].date, Date::from_ymd(2022, 2, 10).unwrap());
    assert_eq!(sorted[1].date, Date::from_ymd(2022, 2, 12).unwrap());
    assert_eq!(sorted[2].date, extra);

    // The fresh day is empty, so cleanup drops it again.
    month.cleanup();
    assert_eq!(2, month.days.len());

    let full = month.full_sorted_days();
    assert_eq!(28, full.len());
    assert_eq!(full[0].date, Date::from_ymd(2022, 2, 1).unwrap());
    assert_eq!(full[27].date, Date::from_ymd(2022, 2, 28).unwrap());

    let leap = Month::new(2, 2020, Vec::new());
    assert_eq!(29, leap.full_sorted_days().len());
}

#[test]
fn test_is_normalized_guards_stored_days() {
    let good = parse::parse_day("12.02.22  08:00-09:00  10:00-11:00  Total: 02:00").unwrap();
    assert!(good.is_normalized());
    let overlapping =
        parse::parse_day("12.02.22  08:00-10:00  09:00-11:00  Total: 03:00").unwrap();
    assert!(!overlapping.is_normalized());
    let touching = parse::parse_day("12.02.22  08:00-09:00  09:00-10:00  Total: 02:00").unwrap();
    assert!(!touching.is_normalized());
}
