use punch::date::Date;
use punch::infer;
use punch::PunchError;

#[test]
fn test_normalize_blocks() {
    assert_eq!("08:30", infer::normalize_half_block("08:30"));
    assert_eq!("08:30", infer::normalize_half_block("0830"));
    assert_eq!("08:30", infer::normalize_half_block("830"));
    assert_eq!("08:00", infer::normalize_half_block("08"));
    assert_eq!("8:00", infer::normalize_half_block("8"));

    // The stored-format parser reports the errors; normalization stays simple.
    assert_eq!("80000", infer::normalize_half_block("80000"));
    assert_eq!("asdfasdf:00", infer::normalize_half_block("asdfasdf"));

    assert_eq!("12:30-18:00", infer::normalize_block("1230-18"));
    assert_eq!("8:00-09:33", infer::normalize_block("8-933"));
}

#[test]
fn test_prev_month() {
    assert_eq!((12, 2022), infer::prev_month((1, 2023)));
    assert_eq!((1, 2022), infer::prev_month((2, 2022)));
}

#[test]
fn test_next_month() {
    assert_eq!((1, 2024), infer::next_month((12, 2023)));
    assert_eq!((2, 2022), infer::next_month((1, 2022)));
}

#[test]
fn test_normalize_now_shape() {
    let t = infer::normalize_half_block("now");
    assert_eq!(t.len(), 5);
    let cs: Vec<char> = t.chars().collect();
    assert_eq!(cs[2], ':');
    assert!(cs[0].is_ascii_digit() && cs[1].is_ascii_digit());
    assert!(cs[3].is_ascii_digit() && cs[4].is_ascii_digit());
}

#[test]
fn test_infer_month() {
    assert_eq!(Ok((3, 2022)), infer::infer_month("3", (7, 2022)));
    assert_eq!(Ok((3, 2021)), infer::infer_month("3.21", (7, 2022)));
    assert_eq!(Ok((3, 1999)), infer::infer_month("3.1999", (7, 2022)));
    assert_eq!(
        Err(PunchError::UnparseableToken),
        infer::infer_month("x", (7, 2022))
    );
}

#[test]
fn test_infer_date() {
    let base = Date::from_ymd(2022, 7, 15).unwrap();
    assert_eq!(Ok(Date::from_ymd(2022, 7, 3).unwrap()), infer::infer_date("3", &base));
    assert_eq!(Ok(Date::from_ymd(2022, 2, 3).unwrap()), infer::infer_date("3.2", &base));
    assert_eq!(
        Ok(Date::from_ymd(2020, 2, 3).unwrap()),
        infer::infer_date("3.2.2020", &base)
    );
    assert_eq!(
        Err(PunchError::InvalidCalendarValue),
        infer::infer_date("31.2", &base)
    );
    assert_eq!(Err(PunchError::UnparseableToken), infer::infer_date("a", &base));
}

#[test]
fn test_date_pred() {
    let d = Date::from_ymd(2022, 3, 1).unwrap();
    assert_eq!(Ok(Date::from_ymd(2022, 2, 28).unwrap()), d.pred());
    let leap = Date::from_ymd(2020, 3, 1).unwrap();
    assert_eq!(Ok(Date::from_ymd(2020, 2, 29).unwrap()), leap.pred());
    let new_year = Date::from_ymd(2022, 1, 1).unwrap();
    assert_eq!(Ok(Date::from_ymd(2021, 12, 31).unwrap()), new_year.pred());
}

#[test]
fn test_resolve_target() {
    let today = Date::from_ymd(2022, 7, 15).unwrap();
    let plain = infer::resolve_target(&today, false, &None, false, false, &None).unwrap();
    assert_eq!(plain, (today, (7, 2022)));

    let yesterday = infer::resolve_target(&today, true, &None, false, false, &None).unwrap();
    assert_eq!(yesterday.0, Date::from_ymd(2022, 7, 14).unwrap());

    let prev = infer::resolve_target(&today, false, &None, true, false, &None).unwrap();
    assert_eq!(prev.1, (6, 2022));

    let picked = infer::resolve_target(
        &today,
        false,
        &Some("3.2".to_string()),
        false,
        true,
        &Some("11.21".to_string()),
    )
    .unwrap();
    assert_eq!(picked.0, Date::from_ymd(2022, 2, 3).unwrap());
    assert_eq!(picked.1, (11, 2021));
}
