use openqbw::syscolumn::{find_name_before, parse_rows_in_body, SYSCOLUMN_TAG};

#[allow(clippy::too_many_arguments)]
fn synth_row(
    name: &str,
    default: Option<&str>,
    row_id: u32,
    owner: u32,
    col_id: u32,
    nulls: u8,
    domain: u8,
    width: u8,
) -> Vec<u8> {
    let mut v = Vec::new();
    v.push(name.len() as u8);
    v.extend_from_slice(name.as_bytes());
    if let Some(d) = default {
        v.push(d.len() as u8);
        v.extend_from_slice(d.as_bytes());
    }
    v.extend_from_slice(&SYSCOLUMN_TAG);
    v.extend_from_slice(&row_id.to_le_bytes());
    v.extend_from_slice(&owner.to_le_bytes());
    v.extend_from_slice(&col_id.to_le_bytes());
    v.push(nulls);
    v.push(0x00);
    v.push(0x01);
    v.push(domain);
    v.push(width);
    v
}

#[test]
fn parses_single_row_without_default() {
    let body = synth_row("account_id", None, 0x80000001, 3680, 1, 2, b'N', 4);
    let mut out = Vec::new();
    parse_rows_in_body(&body, 42, &mut out);
    assert_eq!(out.len(), 1);
    let c = &out[0];
    assert_eq!(c.name, "account_id");
    assert_eq!(c.owner_object_id, 3680);
    assert_eq!(c.column_id, 1);
    assert_eq!(c.nulls_flag, 2);
    assert_eq!(c.domain_char, b'N');
    assert_eq!(c.width, 4);
    assert_eq!(c.page_number, 42);
}

#[test]
fn parses_multiple_rows_concatenated() {
    let mut body = synth_row("amount_amt", None, 1, 100, 7, 2, b'Y', 8);
    body.extend(synth_row("memo", None, 2, 100, 8, 1, b'Y', 64));
    let mut out = Vec::new();
    parse_rows_in_body(&body, 0, &mut out);
    assert_eq!(out.len(), 2);
    assert_eq!(out[0].name, "amount_amt");
    assert_eq!(out[1].name, "memo");
    assert_eq!(out[1].width, 64);
}

#[test]
fn handles_underscore_and_digits_in_name() {
    let body = synth_row("col_42_xy", None, 0, 5, 1, 0, b'N', 1);
    let mut out = Vec::new();
    parse_rows_in_body(&body, 0, &mut out);
    assert_eq!(out.len(), 1);
    assert_eq!(out[0].name, "col_42_xy");
}

#[test]
fn rejects_bad_marker() {
    let mut body = synth_row("good", None, 0, 1, 1, 0, b'N', 4);
    // Corrupt the 0x01 marker before domain.
    let mark = body.len() - 3;
    body[mark] = 0x00;
    let mut out = Vec::new();
    parse_rows_in_body(&body, 0, &mut out);
    assert!(out.is_empty());
}

#[test]
fn rejects_non_alpha_domain() {
    let body = synth_row("col", None, 0, 1, 1, 0, 0xFF, 4);
    let mut out = Vec::new();
    parse_rows_in_body(&body, 0, &mut out);
    assert!(out.is_empty());
}

#[test]
fn name_back_walk_skips_into_garbage_prefix() {
    // Garbage prefix followed by a valid row.
    let mut body = vec![0xAA, 0xBB, 0xCC, 0xDD];
    body.extend(synth_row("real_name", None, 0, 1, 1, 0, b'N', 4));
    let mut out = Vec::new();
    parse_rows_in_body(&body, 0, &mut out);
    assert_eq!(out.len(), 1);
    assert_eq!(out[0].name, "real_name");
}

#[test]
fn names_have_three_to_forty_characters() {
    for (len, found) in [(1usize, false), (2, false), (3, true), (40, true), (41, false)] {
        let body = synth_row(&"n".repeat(len), None, 0, 1, 1, 0, b'N', 4);
        let mut out = Vec::new();
        parse_rows_in_body(&body, 0, &mut out);
        assert_eq!(out.len(), found as usize, "{len}");
    }
}

#[test]
fn a_default_value_between_name_and_tag_is_skipped() {
    for default in ["", "0", "12", "a b", "1234567", "123456789012345"] {
        let body = synth_row("column", Some(default), 0, 1, 1, 0, b'N', 4);
        assert_eq!(find_name_before(&body, 8 + default.len()).as_deref(), Some("column"));
    }
    // No gap of six bytes is tried.
    let body = synth_row("column", Some("12345"), 0, 1, 1, 0, b'N', 4);
    assert_eq!(find_name_before(&body, 13), None);
}

#[test]
fn names_start_with_a_letter_or_an_underscore() {
    for (name, ok) in [("_ab", true), ("1ab", false), ("a1b", true), ("a-b", false), ("aéb", false)] {
        let body = synth_row(name, None, 0, 1, 1, 0, b'N', 4);
        let found = find_name_before(&body, 1 + name.len());
        assert_eq!(found.is_some(), ok, "{name}");
    }
    assert_eq!(find_name_before(&[3, b'a', b'b', b'c'], 0), None);
}

#[test]
fn the_shortest_name_at_the_smallest_gap_wins() {
    // `abcde` with length 5 holds a length byte of 3 for its tail.
    let body = [5, b'a', 3, b'c', b'd', b'e'];
    assert_eq!(find_name_before(&body, 6).as_deref(), Some("cde"));
}

#[test]
fn rows_are_appended_to_what_is_there() {
    let mut out = Vec::new();
    parse_rows_in_body(&synth_row("first", None, 0, 1, 1, 0, b'N', 4), 1, &mut out);
    parse_rows_in_body(&synth_row("second", None, 0, 1, 2, 0, b'N', 4), 2, &mut out);
    assert_eq!(out.len(), 2);
    assert_eq!((out[1].name.as_str(), out[1].page_number, out[1].tag_offset), ("second", 2, 7));
}

#[test]
fn a_row_that_is_cut_short_is_none() {
    let body = synth_row("cut_row", None, 0, 1, 1, 0, b'N', 4);
    for n in 0..body.len() {
        let mut out = Vec::new();
        parse_rows_in_body(&body[..n], 0, &mut out);
        assert!(out.is_empty());
    }
}
