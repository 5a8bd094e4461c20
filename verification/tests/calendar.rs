use goo::calendar::{
    datetime_of_clock, days_to_ymd, now_datetime_string, unix_secs_to_datetime_string, LAST_SECOND,
};
use goo::stamp::END_OF_FOUR_DIGITS;

#[test]
fn dates_of_known_days() {
    assert_eq!(days_to_ymd(0), (1970, 1, 1));
    assert_eq!(days_to_ymd(58), (1970, 2, 28));
    assert_eq!(days_to_ymd(59), (1970, 3, 1));
    assert_eq!(days_to_ymd(789), (1972, 2, 29));
    assert_eq!(days_to_ymd(11016), (2000, 2, 29));
    assert_eq!(days_to_ymd(19723), (2024, 1, 1));
    assert_eq!(days_to_ymd(47540), (2100, 2, 28));
    assert_eq!(days_to_ymd(47541), (2100, 3, 1));
}

#[test]
fn dates_follow_each_other() {
    let leap = |y: u32| y % 4 == 0 && (y % 100 != 0 || y % 400 == 0);
    let mut date = (1970u32, 1u32, 1u32);
    for day in 0..400_000u32 {
        assert_eq!(days_to_ymd(day), date);
        let (y, m, d) = date;
        let len = match m {
            2 => {
                if leap(y) {
                    29
                } else {
                    28
                }
            }
            4 | 6 | 9 | 11 => 30,
            _ => 31,
        };
        date = if d < len {
            (y, m, d + 1)
        } else if m < 12 {
            (y, m + 1, 1)
        } else {
            (y + 1, 1, 1)
        };
    }
}

#[test]
fn seconds_as_text() {
    assert_eq!(unix_secs_to_datetime_string(0), "1970-01-01 00:00:00");
    assert_eq!(unix_secs_to_datetime_string(951_827_696), "2000-02-29 12:34:56");
    assert_eq!(unix_secs_to_datetime_string(1_700_000_000), "2023-11-14 22:13:20");
    // The last second that can be counted.
    assert_eq!(&unix_secs_to_datetime_string(LAST_SECOND)[..4], "1175");
}

#[test]
fn the_present_is_later_than_the_past() {
    let now = now_datetime_string();
    assert_eq!(now.len(), 19);
    assert!(now.as_str() > "2024-01-01 00:00:00");
}

#[test]
fn readings_of_the_clock() {
    assert_eq!(datetime_of_clock(None), "1970-01-01 00:00:00");
    assert_eq!(datetime_of_clock(Some(951_827_696)), "2000-02-29 12:34:56");
    let last = unix_secs_to_datetime_string(LAST_SECOND);
    assert_eq!(datetime_of_clock(Some(LAST_SECOND)), last);
    assert_eq!(datetime_of_clock(Some(LAST_SECOND + 1)), last);
    // The days are counted in 32 bits and start again.
    let round = 86400u64 << 32;
    assert_eq!(datetime_of_clock(Some(round - 1)), last);
    assert_eq!(datetime_of_clock(Some(round + 61)), "1970-01-01 00:01:01");
}

#[test]
fn later_seconds_have_greater_texts() {
    let mut secs = 0u64;
    let mut text = unix_secs_to_datetime_string(secs);
    while secs < END_OF_FOUR_DIGITS - 50_000_000 {
        for step in [1, 59, 3600, 86_399, 31_536_000] {
            secs += step;
            let next = unix_secs_to_datetime_string(secs);
            assert_eq!(next.len(), 19);
            assert!(text < next, "{text} {next}");
            text = next;
        }
    }
    assert_eq!(unix_secs_to_datetime_string(END_OF_FOUR_DIGITS - 1), "9999-12-31 23:59:59");
    assert_eq!(unix_secs_to_datetime_string(END_OF_FOUR_DIGITS), "10000-01-01 00:00:00");
}
