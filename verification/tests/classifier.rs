use lnchannels::classifier::{aggregate, CloseSummary, CloseType, LabeledOutput, OutputLabel};

fn out(label: OutputLabel, value: i64) -> LabeledOutput {
    LabeledOutput { label, value }
}

#[test]
fn single_key_payment_is_an_unused_channel() {
    let outs = vec![out(OutputLabel::Pubkey, 123456)];
    let s = aggregate(&outs);
    assert_eq!(
        s,
        CloseSummary { close_type: CloseType::Unused, balance_a: 123456, balance_b: 0, htlc_count: 0 }
    );
}

#[test]
fn two_key_payments_are_a_mutual_close() {
    let outs = vec![out(OutputLabel::Pubkey, 300000), out(OutputLabel::Pubkey, 200000)];
    let s = aggregate(&outs);
    assert_eq!(s.close_type, CloseType::Mutual);
    assert_eq!(s.balance_a, 300000);
    assert_eq!(s.balance_b, 200000);
    assert_eq!(s.htlc_count, 0);
}

#[test]
fn last_output_has_the_last_word_on_the_type() {
    let outs = vec![
        out(OutputLabel::Htlc, 1000),
        out(OutputLabel::Penalty, 2000),
        out(OutputLabel::Balance, 3000),
    ];
    let s = aggregate(&outs);
    assert_eq!(s.htlc_count, 1);
    assert_eq!(s.close_type, CloseType::Force);
    assert_eq!(s.balance_a, 2000);
    assert_eq!(s.balance_b, 3000);
}

#[test]
fn a_third_penalty_leaves_the_close_unknown() {
    let outs = vec![
        out(OutputLabel::Penalty, 1),
        out(OutputLabel::Penalty, 2),
        out(OutputLabel::Penalty, 3),
    ];
    assert_eq!(
        aggregate(&outs),
        CloseSummary { close_type: CloseType::Unknown, balance_a: 1, balance_b: 2, htlc_count: 0 }
    );
}

#[test]
fn no_more_htlcs_are_counted_than_there_are_outputs() {
    let outs = vec![
        out(OutputLabel::Htlc, 1),
        out(OutputLabel::Htlc, 2),
        out(OutputLabel::Htlc, 3),
    ];
    let s = aggregate(&outs);
    assert_eq!(s.htlc_count, 3);
    assert_eq!(s.close_type, CloseType::Unknown);
    assert_eq!((s.balance_a, s.balance_b), (0, 0));
}
