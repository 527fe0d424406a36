use openqbw::date::iso_date_from_unix_days;

#[test]
fn known_days_have_their_dates() {
    assert_eq!(iso_date_from_unix_days(0), "1970-01-01");
    assert_eq!(iso_date_from_unix_days(-1), "1969-12-31");
    assert_eq!(iso_date_from_unix_days(31), "1970-02-01");
    assert_eq!(iso_date_from_unix_days(59), "1970-03-01");
    assert_eq!(iso_date_from_unix_days(11_016), "2000-02-29");
    assert_eq!(iso_date_from_unix_days(11_017), "2000-03-01");
    assert_eq!(iso_date_from_unix_days(19_723), "2024-01-01");
    assert_eq!(iso_date_from_unix_days(19_782), "2024-02-29");
    assert_eq!(iso_date_from_unix_days(47_540), "2100-02-28");
    assert_eq!(iso_date_from_unix_days(47_541), "2100-03-01");
    assert_eq!(iso_date_from_unix_days(-719_162), "0001-01-01");
    assert_eq!(iso_date_from_unix_days(-719_163), "0000-12-31");
    assert_eq!(iso_date_from_unix_days(-719_528), "0000-01-01");
    assert_eq!(iso_date_from_unix_days(-719_529), "-001-12-31");
    assert_eq!(iso_date_from_unix_days(2_932_897), "10000-01-01");
}

fn leap(y: i64) -> bool {
    y % 4 == 0 && (y % 100 != 0 || y % 400 == 0)
}

#[test]
fn every_day_of_a_thousand_years_follows_the_one_before_it() {
    let (mut y, mut m, mut d) = (1601i64, 1i64, 1i64);
    let start = -134_774i64;
    for k in 0..366_000i64 {
        assert_eq!(iso_date_from_unix_days(start + k), format!("{y:04}-{m:02}-{d:02}"));
        let len = match m {
            2 => 28 + leap(y) as i64,
            4 | 6 | 9 | 11 => 30,
            _ => 31,
        };
        d += 1;
        if d > len {
            d = 1;
            m += 1;
        }
        if m > 12 {
            m = 1;
            y += 1;
        }
    }
}

#[test]
fn far_days_have_long_years() {
    assert_eq!(iso_date_from_unix_days(i64::MAX - 719_468).len(), 23);
    assert!(iso_date_from_unix_days(i64::MIN).starts_with('-'));
}
