use lnchannels::dashboard::{abbreviate, chart, checked_abbreviate, BlockGroup};

#[test]
fn abbreviates_a_public_key() {
    let key = String::from("02a1b2c3d4e5f60718293a4b5c6d7e8f9a0b1c2d3e4f5061728394a5b6c7d8e9f0");
    assert_eq!(abbreviate(key), "02a1\u{2026}e9f0");
}

#[test]
fn abbreviates_four_characters_to_themselves_twice() {
    assert_eq!(abbreviate(String::from("abcd")), "abcd\u{2026}abcd");
}

#[test]
fn abbreviates_overlapping_ends() {
    assert_eq!(abbreviate(String::from("abcdef")), "abcd\u{2026}cdef");
}

#[test]
fn what_cannot_be_cut_is_not_abbreviated() {
    assert_eq!(checked_abbreviate(String::from("abc")), None);
    assert_eq!(checked_abbreviate(String::new()), None);
    assert_eq!(checked_abbreviate(String::from("abcd")), Some(String::from("abcd\u{2026}abcd")));
    assert_eq!(checked_abbreviate(String::from("ab\u{e9}def")), None);
    assert_eq!(checked_abbreviate(String::from("abc\u{e9}de\u{e9}f")), None);
    assert_eq!(
        checked_abbreviate(String::from("ab\u{e9}0123\u{e9}fg")),
        Some(String::from("ab\u{e9}\u{2026}\u{e9}fg"))
    );
}

fn group(block: i64, opened: i64, closed: i64, capacity_change: i64) -> BlockGroup {
    BlockGroup { block, opened, closed, capacity_change, fees: block + 1, htlcs: block + 2 }
}

#[test]
fn the_chart_starts_after_the_first_group() {
    let groups = vec![
        group(578500, 1000, 0, 70_000_000_000),
        group(578600, 30, 10, 250_000_000),
        group(578700, 5, 25, -199_999_999),
        group(578800, 0, 0, -200_000_000),
    ];
    let c = chart(&groups).unwrap();
    assert_eq!(c.blocks, vec![578600, 578700, 578800]);
    assert_eq!(c.openings, vec![30, 5, 0]);
    assert_eq!(c.closings, vec![10, 25, 0]);
    assert_eq!(c.total, vec![1020, 1000, 1000]);
    assert_eq!(c.capacity, vec![702, 701, 699]);
    assert_eq!(c.fee_total, vec![578601, 578701, 578801]);
    assert_eq!(c.outstanding_htlcs, vec![578602, 578702, 578802]);
}

#[test]
fn one_group_gives_an_empty_chart_and_none_gives_none() {
    let c = chart(&vec![group(578500, 1000, 0, 0)]).unwrap();
    assert!(c.blocks.is_empty());
    assert!(c.total.is_empty());
    assert!(chart(&vec![]).is_none());
}

#[test]
fn a_total_beyond_64_bits_gives_no_chart() {
    assert!(chart(&vec![group(1, i64::MAX, 0, 0), group(2, 1, 0, 0)]).is_none());
    assert!(chart(&vec![group(1, 0, i64::MAX, 0), group(2, 0, 2, 0)]).is_none());
    assert!(chart(&vec![group(1, i64::MAX, 0, 0), group(2, 1, 1, 0)]).is_some());
    assert!(chart(&vec![group(1, i64::MIN, 1, 0)]).is_none());
    let c = chart(&vec![group(1, 0, 0, i64::MIN), group(2, 0, 0, i64::MAX)]).unwrap();
    assert_eq!(c.capacity, vec![0]);
}
