use lnchannels::error::IntegrityError;
use lnchannels::locator::{parse_locator, Locator};

#[test]
fn reads_three_numbers() {
    assert_eq!(
        parse_locator("600000x1x0"),
        Ok(Locator { block_height: 600000, tx_index: 1, output_index: 0 })
    );
    assert_eq!(
        parse_locator("578600x1234x17"),
        Ok(Locator { block_height: 578600, tx_index: 1234, output_index: 17 })
    );
}

#[test]
fn reads_leading_zeros() {
    assert_eq!(
        parse_locator("007x00x0"),
        Ok(Locator { block_height: 7, tx_index: 0, output_index: 0 })
    );
}

#[test]
fn reads_the_largest_block_height() {
    assert_eq!(
        parse_locator("9223372036854775807x0x0"),
        Ok(Locator { block_height: i64::MAX, tx_index: 0, output_index: 0 })
    );
}

#[test]
fn reads_the_largest_index() {
    let text = format!("1x{}x{}", usize::MAX, usize::MAX);
    assert_eq!(
        parse_locator(&text),
        Ok(Locator { block_height: 1, tx_index: usize::MAX, output_index: usize::MAX })
    );
}

#[test]
fn refuses_numbers_that_do_not_fit() {
    assert_eq!(parse_locator("9223372036854775808x0x0"), Err(IntegrityError::MalformedLocator));
    assert_eq!(
        parse_locator("1x340282366920938463463374607431768211456x0"),
        Err(IntegrityError::MalformedLocator)
    );
    assert_eq!(
        parse_locator("1x0x99999999999999999999999999999999999999999"),
        Err(IntegrityError::MalformedLocator)
    );
}

#[test]
fn refuses_missing_parts() {
    for text in ["", "x", "xx", "600000", "600000x1", "600000x1x", "x1x0", "600000xx0"] {
        assert_eq!(parse_locator(text), Err(IntegrityError::MalformedLocator), "{}", text);
    }
}

#[test]
fn refuses_what_is_no_plain_number() {
    for text in [
        "600000x1x0x7",
        "600000x1x0 ",
        " 600000x1x0",
        "+600000x1x0",
        "-600000x1x0",
        "600000X1X0",
        "600000x1x0x",
        "6e5x1x0",
        "600000:1:0",
        "\u{663}x1x0",
    ] {
        assert_eq!(parse_locator(text), Err(IntegrityError::MalformedLocator), "{}", text);
    }
}
