use punch::block::Block;
use punch::date::Date;
use punch::day::Day;

#[test]
fn test_not_ongoing() {
    let from = 8 * 60;
    let to = 9 * 60;
    let block = Block { from, to };

    assert_eq!(block.is_ongoing(), false);
}

#[test]
fn test_ongoing() {
    let date = 8 * 60;
    let block = Block { from: date, to: date };

    assert_eq!(block.is_ongoing(), true);
}

#[test]
fn test_contains() {
    let inner_from = 8 * 60;
    let inner_to = 9 * 60;
    let inner_block = Block { from: inner_from, to: inner_to };

    let outer_from = 8 * 60;
    let outer_to = 10 * 60;
    let outer_block = Block { from: outer_from, to: outer_to };

    assert_eq!(true, outer_block.contains(&inner_block));
    assert_eq!(false, inner_block.contains(&outer_block));
}

#[test]
fn test_block_inferrence() {
    let today = Date::from_ymd(2022, 2, 12).unwrap();
    let day = Day::from_date(&today);
    let block = Block::parse("08:00", &day).unwrap();
    assert_eq!(true, block.is_ongoing());
}

#[test]
fn test_duration_seconds() {
    let block = Block { from: 8 * 60, to: 9 * 60 + 30 };
    assert_eq!(block.duration(), 90 * 60);
}

#[test]
fn test_strictly_contains() {
    let outer = Block { from: 8 * 60, to: 17 * 60 };
    let inner = Block { from: 12 * 60, to: 13 * 60 };
    assert!(outer.strictly_contains(&inner));
    assert!(!outer.strictly_contains(&outer));
    assert!(outer.contains_dt(8 * 60));
    assert!(outer.contains_dt(17 * 60));
    assert!(!outer.contains_dt(17 * 60 + 1));
}
