use punch::block::Block;
use punch::day::Day;
use punch::fmt;
use punch::fmt::OutputMode;
use punch::month::Month;
use punch::parse;

#[test]
fn test_format_block() {
    let from = 8 * 60 + 15;
    let to = 14 * 60 + 45;
    let block = Block { from, to };
    assert_eq!("08:15-14:45", fmt::format_block(&block, OutputMode::File));
}

#[test]
fn test_format_ongoing_block() {
    let from = 8 * 60 + 15;
    let to = 8 * 60 + 15;
    let block = Block { from, to };
    assert_eq!("08:15-08:15", fmt::format_block(&block, OutputMode::File));
    assert_eq!("08:15-     ", fmt::format_block(&block, OutputMode::Term));
}

#[test]
fn test_format_day() {
    let day = Day::from_brf("  04.05.20    08:30-12:00    12:30-17:30             Total: 08:30")
        .unwrap();

    assert_eq!(
        "04.05.20   08:30-12:00   12:30-17:30   Total: 08:30",
        fmt::format_day(&day, 0, 0, OutputMode::File)
    );
}

#[test]
fn test_format_day_with_padding() {
    let day = Day::from_brf("  04.05.20    08:30-12:00    12:30-17:30             Total: 08:30")
        .unwrap();

    assert_eq!(
        "04.05.20   08:30-12:00   12:30-17:30                                             Total: 08:30",
        fmt::format_day(&day, 0, 5, OutputMode::File)
    );
}

#[test]
fn test_format_duration() {
    let duration = 30600;
    let actual = fmt::format_duration(duration);
    assert_eq!("08:30", actual);
}

#[test]
fn test_format_duration_long_months() {
    assert_eq!("00:00", fmt::format_duration(0));
    assert_eq!("173:20", fmt::format_duration(624000));
}

#[test]
fn test_format_day_term_weekday() {
    let day = Day::from_brf("12.02.22  08:00-09:00  Total: 01:00").unwrap();
    let line = fmt::format_day(&day, 0, 0, OutputMode::Term);
    assert_eq!("Sat   12.02.22   08:00-09:00   Total: 01:00", line);
}

#[test]
fn test_format_month_file() {
    let contents = "February 2022\n\n12.02.22   08:00-10:00   Total: 02:00\n";
    let month = parse::parse_month(contents, 2022, 2).unwrap();
    let text = fmt::format_month(&month, OutputMode::File);
    assert_eq!(
        "February 2022\n\n12.02.22   08:00-10:00   Total: 02:00\n\nTotal: 02:00",
        text
    );
}

#[test]
fn test_format_month_term_lists_every_day() {
    let contents = "February 2022\n\n12.02.22   08:00-10:00   Total: 02:00\n";
    let month = parse::parse_month(contents, 2022, 2).unwrap();
    let text = fmt::format_month(&month, OutputMode::Term);
    assert_eq!(text.lines().filter(|l| !l.is_empty()).count(), 30);
}

#[test]
fn test_month_title() {
    let month = Month::new(2, 2022, Vec::new());
    assert_eq!("February 2022", month.title().unwrap());
    let bad = Month::new(13, 2022, Vec::new());
    assert!(bad.name().is_err());
    assert!(bad.title().is_err());
}
