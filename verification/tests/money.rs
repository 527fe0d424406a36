use openqbw::money::{dollars_of, EXACT_CENTS_LIMIT};

fn as_double(cents: i64) -> String {
    format!("{:.2}", cents as f64 / 100.0)
}

#[test]
fn dollars_have_two_decimals() {
    assert_eq!(dollars_of(0), "0.00");
    assert_eq!(dollars_of(5), "0.05");
    assert_eq!(dollars_of(99), "0.99");
    assert_eq!(dollars_of(100), "1.00");
    assert_eq!(dollars_of(-1), "-0.01");
    assert_eq!(dollars_of(-12345), "-123.45");
    assert_eq!(dollars_of(39_991_479_278), "399914792.78");
    assert_eq!(dollars_of(u32::MAX as i64), "42949672.95");
}

#[test]
fn small_amounts_are_shown_as_doubles_are() {
    for c in 0..200_000i64 {
        assert_eq!(dollars_of(c), as_double(c));
        assert_eq!(dollars_of(-c), as_double(-c));
    }
}

#[test]
fn amounts_of_every_size_are_shown_as_doubles_are() {
    let mut c: i64 = 1;
    let mut step: i64 = 0x9E37_79B9;
    while c < i64::MAX / 3 {
        for k in 0..500i64 {
            let x = c + (k * step) % c.max(1);
            assert_eq!(dollars_of(x), as_double(x), "{x}");
            assert_eq!(dollars_of(-x), as_double(-x), "{x}");
        }
        step = step % 0x7FFF_FFFF + 12345;
        c += c / 2 + 1;
    }
}

#[test]
fn amounts_around_the_limit_are_shown_as_doubles_are() {
    let limit = EXACT_CENTS_LIMIT as i64;
    for k in -2000..2000i64 {
        assert_eq!(dollars_of(limit + k), as_double(limit + k));
    }
    for e in 46..63 {
        let p = 1i64 << e;
        for k in -300..300i64 {
            assert_eq!(dollars_of(p + k), as_double(p + k));
            let h = p.saturating_add(k * 100).saturating_add(p / 100 * 25);
            assert_eq!(dollars_of(h), as_double(h));
        }
    }
}

#[test]
fn the_largest_amounts_are_shown_as_doubles_are() {
    for k in 0..3000i64 {
        assert_eq!(dollars_of(i64::MAX - k), as_double(i64::MAX - k));
        assert_eq!(dollars_of(i64::MIN + k), as_double(i64::MIN + k));
    }
    assert_eq!(dollars_of(i64::MIN), "-92233720368547760.00");
}

#[test]
fn halves_round_to_the_even_cent() {
    // One eighth of a dollar and three eighths, at a size where eighths are all
    // that a double can tell apart.
    let dollars = 1i64 << 49;
    for eighth in 0..16i64 {
        let c = dollars * 100 + eighth * 100 / 8;
        assert_eq!(dollars_of(c), as_double(c));
    }
}
