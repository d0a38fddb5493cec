use punch::block::Block;
use punch::date::Date;
use punch::day::Day;
use punch::fmt;
use punch::parse;

#[test]
fn test_add_block() {
    let today = Date::from_ymd(2022, 2, 12).unwrap();
    let block1 = parse::parse_block(&today, "08:00-10:00").unwrap();
    let block2 = parse::parse_block(&today, "11:00-14:00").unwrap();

    let mut day = Day::from_date(&today);
    day.add_block(&block1);
    day.add_block(&block2);

    assert_eq!(day.blocks.len(), 2);
    assert_eq!(fmt::format_duration(day.duration()), "05:00");
}

#[test]
fn test_add_blocks_with_overlaps() {
    let today = Date::from_ymd(2022, 2, 12).unwrap();
    let block1 = parse::parse_block(&today, "08:00-10:00").unwrap();
    let block2 = parse::parse_block(&today, "09:00-12:00").unwrap();

    let mut day = Day::from_date(&today);
    day.add_block(&block1);
    day.add_block(&block2);

    assert_eq!(day.blocks.len(), 1);
    assert_eq!(fmt::format_duration(day.duration()), "04:00");
}

#[test]
fn test_add_contained_blocks() {
    let today = Date::from_ymd(2022, 2, 12).unwrap();
    let block1 = parse::parse_block(&today, "08:00-10:00").unwrap();
    let block2 = parse::parse_block(&today, "09:00-10:00").unwrap();

    let mut day = Day::from_date(&today);
    day.add_block(&block1);
    day.add_block(&block2);

    assert_eq!(day.blocks.len(), 1);
    assert_eq!(fmt::format_duration(day.duration()), "02:00");
}

#[test]
fn test_add_blocks_containing_existing_blocks() {
    let today = Date::from_ymd(2022, 2, 12).unwrap();
    let block1 = parse::parse_block(&today, "09:00-10:00").unwrap();
    let block2 = parse::parse_block(&today, "08:00-10:00").unwrap();

    let mut day = Day::from_date(&today);
    day.add_block(&block1);
    day.add_block(&block2);

    assert_eq!(day.blocks.len(), 1);
    assert_eq!(fmt::format_duration(day.duration()), "02:00");
}

#[test]
fn test_merging_blocks() {
    let today = Date::from_ymd(2022, 2, 12).unwrap();
    let block1 = parse::parse_block(&today, "09:00-10:00").unwrap();
    let block2 = parse::parse_block(&today, "11:00-14:00").unwrap();
    let block3 = parse::parse_block(&today, "09:30-11:30").unwrap();

    let mut day = Day::from_date(&today);
    day.add_block(&block1);
    day.add_block(&block2);
    day.add_block(&block3);

    assert_eq!(day.blocks.len(), 1);
    assert_eq!(fmt::format_duration(day.duration()), "05:00");
}

#[test]
fn test_removing_block_by_shadowing() {
    let mut day = parse::parse_day("12.02.20  12:00-14:00  Total: 02:00").unwrap();
    let block = parse::parse_block(&day.date, "12:00-14:00").unwrap();
    day.remove_block(&block);
    assert_eq!(true, day.is_empty());
}

#[test]
fn test_removing_block_by_splitting() {
    let mut day = parse::parse_day("12.02.20  08:00-17:00  Total: 09:00").unwrap();
    let block = parse::parse_block(&day.date, "12:00-13:00").unwrap();
    day.remove_block(&block);

    assert_eq!(2, day.blocks.len());
    assert_eq!("08:00", fmt::format_duration(day.duration()));
}

#[test]
fn test_removing_block_at_end() {
    let mut day = parse::parse_day("12.02.20  08:00-17:00  Total: 09:00").unwrap();
    let block = parse::parse_block(&day.date, "15:00-17:00").unwrap();
    day.remove_block(&block);

    assert_eq!(1, day.blocks.len());
    assert_eq!("07:00", fmt::format_duration(day.duration()));
}

#[test]
fn test_removing_block_at_start() {
    let mut day = parse::parse_day("12.02.20  08:00-17:00  Total: 09:00").unwrap();
    let block = parse::parse_block(&day.date, "07:00-09:00").unwrap();
    day.remove_block(&block);

    assert_eq!(1, day.blocks.len());
    assert_eq!("08:00", fmt::format_duration(day.duration()));
}

#[test]
fn test_split_bounds() {
    let today = Date::from_ymd(2022, 2, 12).unwrap();
    let mut day = Day::from_date(&today);
    day.add_block(&Block { from: 8 * 60, to: 17 * 60 });
    day.remove_block(&Block { from: 12 * 60, to: 13 * 60 });
    assert_eq!(day.blocks, vec![
        Block { from: 8 * 60, to: 12 * 60 },
        Block { from: 13 * 60, to: 17 * 60 },
    ]);
}

#[test]
fn test_add_is_idempotent() {
    let today = Date::from_ymd(2022, 2, 12).unwrap();
    let x = Block { from: 9 * 60, to: 11 * 60 };
    let mut once = Day::from_date(&today);
    once.add_block(&Block { from: 8 * 60, to: 9 * 60 + 30 });
    once.add_block(&Block { from: 12 * 60, to: 13 * 60 });
    let mut twice = once.clone();
    once.add_block(&x);
    twice.add_block(&x);
    twice.add_block(&x);
    assert_eq!(once.blocks, twice.blocks);
}

#[test]
fn test_operations_keep_sorted_disjoint() {
    let today = Date::from_ymd(2022, 2, 12).unwrap();
    let mut day = Day::from_date(&today);
    day.add_block(&Block { from: 10 * 60, to: 11 * 60 });
    day.add_block(&Block { from: 8 * 60, to: 9 * 60 });
    day.add_block(&Block { from: 9 * 60, to: 10 * 60 + 30 });
    day.remove_block(&Block { from: 9 * 60 + 15, to: 9 * 60 + 45 });
    day.add_block(&Block { from: 13 * 60, to: 13 * 60 });
    assert!(day.is_normalized());
    for w in day.blocks.windows(2) {
        assert!(w[0].to < w[1].from);
    }
}

#[test]
fn test_union_of_covered_time() {
    let today = Date::from_ymd(2022, 2, 12).unwrap();
    let mut day = Day::from_date(&today);
    day.add_block(&Block { from: 8 * 60, to: 10 * 60 });
    day.add_block(&Block { from: 10 * 60, to: 11 * 60 });
    assert_eq!(day.blocks, vec![Block { from: 8 * 60, to: 11 * 60 }]);
    assert_eq!(day.duration(), 3 * 3600);
}

#[test]
fn test_subtraction_of_covered_time() {
    let today = Date::from_ymd(2022, 2, 12).unwrap();
    let mut day = Day::from_date(&today);
    day.add_block(&Block { from: 8 * 60, to: 12 * 60 });
    day.remove_block(&Block { from: 9 * 60, to: 10 * 60 });
    assert_eq!(day.blocks, vec![
        Block { from: 8 * 60, to: 9 * 60 },
        Block { from: 10 * 60, to: 12 * 60 },
    ]);
    assert_eq!(day.duration(), 3 * 3600);
}

#[test]
fn test_removal_spanning_three_blocks() {
    let today = Date::from_ymd(2022, 2, 12).unwrap();
    let mut day = Day::from_date(&today);
    day.add_block(&Block { from: 8 * 60, to: 9 * 60 });
    day.add_block(&Block { from: 10 * 60, to: 11 * 60 });
    day.add_block(&Block { from: 12 * 60, to: 13 * 60 });
    day.remove_block(&Block { from: 8 * 60 + 30, to: 12 * 60 + 30 });
    assert_eq!(day.blocks, vec![
        Block { from: 8 * 60, to: 8 * 60 + 30 },
        Block { from: 12 * 60 + 30, to: 13 * 60 },
    ]);
}

#[test]
fn test_find_ongoing_block() {
    let today = Date::from_ymd(2022, 2, 12).unwrap();
    let mut day = Day::from_date(&today);
    day.add_block(&Block { from: 8 * 60, to: 9 * 60 });
    assert!(day.find_ongoing_block().is_none());
    day.add_block(&Block { from: 10 * 60, to: 10 * 60 });
    let found = day.find_ongoing_block().unwrap();
    assert_eq!(*found, Block { from: 10 * 60, to: 10 * 60 });
}

#[test]
fn test_comments() {
    let today = Date::from_ymd(2022, 2, 12).unwrap();
    let mut day = Day::from_date(&today);
    assert!(day.is_empty());
    day.add_comment("on site");
    assert!(!day.is_empty());
    assert_eq!(day.comment, Some("on site".to_string()));
    day.clear_comment();
    assert!(day.is_empty());
}
