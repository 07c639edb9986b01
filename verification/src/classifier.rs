//! How a channel closed: labels for the outputs of the closing
//! transaction, and the close type and balance split they add up to.

use crate::bitcoin::{DecodedTransaction, Input, Output, ScriptPubKey};
use crate::text::{has_infix, str_contains};
use vstd::prelude::*;

verus! {

/// What one output of a closing transaction turned out to be.
#[derive(Clone, Copy, Debug, PartialEq, Eq, Structural)]
pub enum OutputLabel {
    /// Paid straight to a single key.
    Pubkey,
    /// An in-flight payment, locked by a hash.
    Htlc,
    /// A delayed output that the other side swept with the revocation key.
    Penalty,
    /// A delayed output claimed by its owner.
    Balance,
    /// Nothing could be told.
    Unknown,
}

/// How a channel closed.
#[derive(Clone, Copy, Debug, PartialEq, Eq, Structural)]
pub enum CloseType {
    Unknown,
    Unused,
    Mutual,
    Force,
    Penalty,
}

impl CloseType {
    /// The word under which the close type is stored.
    pub open spec fn spec_name(self) -> Seq<char> {
        match self {
            CloseType::Unknown => "unknown"@,
            CloseType::Unused => "unused"@,
            CloseType::Mutual => "mutual"@,
            CloseType::Force => "force"@,
            CloseType::Penalty => "penalty"@,
        }
    }

    /// The word under which the close type is stored.
    pub fn name(self) -> (word: &'static str)
        ensures
            word@ == self.spec_name(),
    {
        match self {
            CloseType::Unknown => "unknown",
            CloseType::Unused => "unused",
            CloseType::Mutual => "mutual",
            CloseType::Force => "force",
            CloseType::Penalty => "penalty",
        }
    }

    /// The close type stored under `word`, if there is one.
    pub fn from_name(word: &str) -> (t: Option<CloseType>)
        ensures
            t matches Some(x) ==> x.spec_name() == word@,
            t is None ==> forall|x: CloseType| x.spec_name() != word@,
    {
        let w = word.to_owned();
        if w == "unknown".to_owned() {
            Some(CloseType::Unknown)
        } else if w == "unused".to_owned() {
            Some(CloseType::Unused)
        } else if w == "mutual".to_owned() {
            Some(CloseType::Mutual)
        } else if w == "force".to_owned() {
            Some(CloseType::Force)
        } else if w == "penalty".to_owned() {
            Some(CloseType::Penalty)
        } else {
            None
        }
    }
}

/// An output that received a label, with its value in satoshis.
#[derive(Clone, Copy, Debug, PartialEq, Eq, Structural)]
pub struct LabeledOutput {
    pub label: OutputLabel,
    pub value: i64,
}

/// The verdict on a closing transaction.
#[derive(Clone, Copy, Debug, PartialEq, Eq, Structural)]
pub struct CloseSummary {
    pub close_type: CloseType,
    pub balance_a: i64,
    pub balance_b: i64,
    pub htlc_count: u64,
}

/// The verdict in numbers without bounds.
pub struct Verdict {
    pub close_type: CloseType,
    pub balance_a: int,
    pub balance_b: int,
    pub htlcs: nat,
}

impl View for CloseSummary {
    type V = Verdict;

    open spec fn view(&self) -> Verdict {
        Verdict {
            close_type: self.close_type,
            balance_a: self.balance_a as int,
            balance_b: self.balance_b as int,
            htlcs: self.htlc_count as nat,
        }
    }
}

/// What the outputs looked at so far add up to. A channel has two sides, so
/// there are two slots for balances; `slots` tells how many are taken. A slot
/// is taken by the output that was assigned to it, whatever its value.
pub struct Tally {
    pub close_type: CloseType,
    pub balance_a: int,
    pub balance_b: int,
    pub slots: nat,
    pub htlcs: nat,
}

/// Before any output is looked at: type unknown, both balance slots free.
pub open spec fn empty_tally() -> Tally {
    Tally { close_type: CloseType::Unknown, balance_a: 0, balance_b: 0, slots: 0, htlcs: 0 }
}

/// Both balance slots are taken.
pub open spec fn slots_full(t: Tally) -> bool {
    t.slots >= 2
}

/// Assigns `value` to the first free balance slot; with both taken, nothing
/// changes.
pub open spec fn fill(t: Tally, value: int) -> Tally {
    if t.slots == 0 {
        Tally { balance_a: value, slots: 1, ..t }
    } else if t.slots == 1 {
        Tally { balance_b: value, slots: 2, ..t }
    } else {
        t
    }
}

/// The tally after one more labeled output.
///
/// An in-flight payment is counted. A penalty takes a balance slot and sets
/// the type to penalty; a balance or a key payment takes a balance slot and
/// sets the type to force. Either of them, where both slots are taken, is a
/// third balance that a channel has no place for: the type becomes unknown
/// and the balances stay. An output of which nothing could be told changes
/// nothing. Whichever output comes last has the last word on the type.
pub open spec fn absorb(t: Tally, o: LabeledOutput) -> Tally {
    match o.label {
        OutputLabel::Htlc => Tally { htlcs: t.htlcs + 1, ..t },
        OutputLabel::Penalty => {
            if slots_full(t) {
                Tally { close_type: CloseType::Unknown, ..t }
            } else {
                Tally { close_type: CloseType::Penalty, ..fill(t, o.value as int) }
            }
        },
        OutputLabel::Balance | OutputLabel::Pubkey => {
            if slots_full(t) {
                Tally { close_type: CloseType::Unknown, ..t }
            } else {
                Tally { close_type: CloseType::Force, ..fill(t, o.value as int) }
            }
        },
        OutputLabel::Unknown => t,
    }
}

/// The tally of a run of labeled outputs, taken in order.
pub open spec fn tally_of(outs: Seq<LabeledOutput>) -> Tally
    decreases outs.len(),
{
    if outs.len() == 0 {
        empty_tally()
    } else {
        absorb(tally_of(outs.drop_last()), outs.last())
    }
}

/// The outputs are one key payment and nothing else: the channel was never used.
pub open spec fn is_unused(outs: Seq<LabeledOutput>) -> bool {
    outs.len() == 1 && outs[0].label == OutputLabel::Pubkey
}

/// The outputs are two key payments and nothing else: both sides agreed to close.
pub open spec fn is_mutual(outs: Seq<LabeledOutput>) -> bool {
    outs.len() == 2 && outs[0].label == OutputLabel::Pubkey && outs[1].label
        == OutputLabel::Pubkey
}

/// The verdict that a tally comes to.
pub open spec fn verdict_of(t: Tally) -> Verdict {
    Verdict {
        close_type: t.close_type,
        balance_a: t.balance_a,
        balance_b: t.balance_b,
        htlcs: t.htlcs,
    }
}

/// The verdict on the labeled outputs of a closing transaction. There is one
/// for every run of outputs.
pub open spec fn summary_of(outs: Seq<LabeledOutput>) -> Verdict {
    if is_unused(outs) {
        Verdict {
            close_type: CloseType::Unused,
            balance_a: outs[0].value as int,
            balance_b: 0,
            htlcs: 0,
        }
    } else if is_mutual(outs) {
        Verdict {
            close_type: CloseType::Mutual,
            balance_a: outs[0].value as int,
            balance_b: outs[1].value as int,
            htlcs: 0,
        }
    } else {
        verdict_of(tally_of(outs))
    }
}

/// No more in-flight payments are counted than there are outputs.
pub proof fn lemma_htlcs_bounded(outs: Seq<LabeledOutput>)
    ensures
        tally_of(outs).htlcs <= outs.len(),
        summary_of(outs).htlcs <= outs.len(),
    decreases outs.len(),
{
    if outs.len() > 0 {
        lemma_htlcs_bounded(outs.drop_last());
    }
}

/// Sums up the labeled outputs of a closing transaction, whatever they are.
pub fn aggregate(outs: &Vec<LabeledOutput>) -> (s: CloseSummary)
    ensures
        s@ == summary_of(outs@),
        s.htlc_count <= outs.len(),
{
    if outs.len() == 1 && outs[0].label == OutputLabel::Pubkey {
        return CloseSummary {
            close_type: CloseType::Unused,
            balance_a: outs[0].value,
            balance_b: 0,
            htlc_count: 0,
        };
    }
    if outs.len() == 2 && outs[0].label == OutputLabel::Pubkey && outs[1].label
        == OutputLabel::Pubkey {
        return CloseSummary {
            close_type: CloseType::Mutual,
            balance_a: outs[0].value,
            balance_b: outs[1].value,
            htlc_count: 0,
        };
    }
    let mut acc = CloseSummary {
        close_type: CloseType::Unknown,
        balance_a: 0,
        balance_b: 0,
        htlc_count: 0,
    };
    let mut slots: u8 = 0;
    let mut k: usize = 0;
    assert(outs@.take(0) =~= Seq::<LabeledOutput>::empty());
    while k < outs.len()
        invariant
            k <= outs.len(),
            acc@ == verdict_of(tally_of(outs@.take(k as int))),
            slots == tally_of(outs@.take(k as int)).slots,
            slots <= 2,
            acc.htlc_count <= k,
        decreases outs.len() - k,
    {
        let o = outs[k];
        proof {
            let next = outs@.take(k + 1);
            assert(next.drop_last() =~= outs@.take(k as int));
            assert(next.last() == o);
        }
        match o.label {
            OutputLabel::Htlc => {
                acc.htlc_count = acc.htlc_count + 1;
            },
            OutputLabel::Penalty | OutputLabel::Balance | OutputLabel::Pubkey => {
                if slots >= 2 {
                    acc.close_type = CloseType::Unknown;
                } else {
                    if slots == 0 {
                        acc.balance_a = o.value;
                    } else {
                        acc.balance_b = o.value;
                    }
                    slots = slots + 1;
                    acc.close_type = match o.label {
                        OutputLabel::Penalty => CloseType::Penalty,
                        _ => CloseType::Force,
                    };
                }
            },
            OutputLabel::Unknown => {},
        }
        k += 1;
    }
    assert(outs@.take(outs@.len() as int) =~= outs@);
    acc
}

/// A single output, paid to a key: the channel was never used, and the
/// whole of it went back to one side.
pub proof fn lemma_lone_key_payment(value: i64)
    ensures
        summary_of(seq![LabeledOutput { label: OutputLabel::Pubkey, value }]) == (Verdict {
            close_type: CloseType::Unused,
            balance_a: value as int,
            balance_b: 0,
            htlcs: 0,
        }),
{
}

/// Two outputs, both paid to keys: a mutual close, with the two values as
/// the balances, in the order of the outputs.
pub proof fn lemma_two_key_payments(first: i64, second: i64)
    ensures
        summary_of(
            seq![
                LabeledOutput { label: OutputLabel::Pubkey, value: first },
                LabeledOutput { label: OutputLabel::Pubkey, value: second },
            ],
        ) == (Verdict {
            close_type: CloseType::Mutual,
            balance_a: first as int,
            balance_b: second as int,
            htlcs: 0,
        }),
{
}

/// An in-flight payment, a penalty and a balance, in this order: one
/// in-flight payment is counted, and the balance, coming last, makes it a
/// force close though there was a penalty. Both take a balance slot.
pub proof fn lemma_last_output_decides(htlc: i64, penalty: i64, balance: i64)
    ensures
        summary_of(
            seq![
                LabeledOutput { label: OutputLabel::Htlc, value: htlc },
                LabeledOutput { label: OutputLabel::Penalty, value: penalty },
                LabeledOutput { label: OutputLabel::Balance, value: balance },
            ],
        ) == (Verdict {
            close_type: CloseType::Force,
            balance_a: penalty as int,
            balance_b: balance as int,
            htlcs: 1,
        }),
{
    let h = LabeledOutput { label: OutputLabel::Htlc, value: htlc };
    let p = LabeledOutput { label: OutputLabel::Penalty, value: penalty };
    let b = LabeledOutput { label: OutputLabel::Balance, value: balance };
    let outs = seq![h, p, b];
    assert(outs.drop_last() =~= seq![h, p]);
    assert(seq![h, p].drop_last() =~= seq![h]);
    assert(seq![h].drop_last() =~= Seq::<LabeledOutput>::empty());
    assert(tally_of(Seq::<LabeledOutput>::empty()) == empty_tally());
    assert(tally_of(seq![h]) == absorb(empty_tally(), h));
    assert(tally_of(seq![h, p]) == absorb(tally_of(seq![h]), p));
    assert(tally_of(outs) == absorb(tally_of(seq![h, p]), b));
}

/// An output that would be a third balance leaves the close unknown, and
/// the two balances as they were.
pub proof fn lemma_third_balance_is_unknown(outs: Seq<LabeledOutput>, o: LabeledOutput)
    requires
        slots_full(tally_of(outs)),
        o.label == OutputLabel::Penalty || o.label == OutputLabel::Balance || o.label
            == OutputLabel::Pubkey,
    ensures
        tally_of(outs.push(o)) == (Tally { close_type: CloseType::Unknown, ..tally_of(outs) }),
{
    assert(outs.push(o).drop_last() =~= outs);
}

/// The script type of a payment to a single key.
pub open spec fn key_hash_type() -> Seq<char> {
    "witness_v0_keyhash"@
}

/// The opcode that locks an output by a hash.
pub open spec fn hash_lock_opcode() -> Seq<char> {
    "OP_HASH160"@
}

/// The opcode that locks an output for a relative time.
pub open spec fn relative_timelock_opcode() -> Seq<char> {
    "OP_CHECKSEQUENCEVERIFY"@
}

/// The witness item that takes the revocation path of a delayed output.
pub open spec fn revocation_flag() -> Seq<char> {
    "01"@
}

/// Whether the script pays to a single key.
pub fn is_key_hash(script: &ScriptPubKey) -> (r: bool)
    ensures
        r == (script.typ@ == key_hash_type()),
{
    let key_hash = "witness_v0_keyhash".to_owned();
    script.typ == key_hash
}

/// The label of an output that is no key payment and that no transaction
/// was found to spend: with more than two outputs it is taken for an
/// in-flight payment.
pub open spec fn unspent_label(n_outputs: int) -> OutputLabel {
    if n_outputs > 2 {
        OutputLabel::Htlc
    } else {
        OutputLabel::Unknown
    }
}

/// The input spends output `n` of transaction `txid`.
pub open spec fn spends(input: Input, txid: Seq<char>, n: int) -> bool {
    input.txid@ == txid && input.vout as int == n
}

/// None of the inputs spends output `n` of transaction `txid`.
pub open spec fn no_spender(vin: Seq<Input>, txid: Seq<char>, n: int) -> bool {
    forall|j: int| 0 <= j < vin.len() ==> !spends(#[trigger] vin[j], txid, n)
}

/// Input `i` is the first that spends output `n` of transaction `txid`.
pub open spec fn first_spender(vin: Seq<Input>, txid: Seq<char>, n: int, i: int) -> bool {
    &&& 0 <= i < vin.len()
    &&& spends(vin[i], txid, n)
    &&& no_spender(vin.take(i), txid, n)
}

/// The first input of `tx` that spends output `n` of transaction `txid`.
pub fn spending_input(tx: &DecodedTransaction, txid: &String, n: i64) -> (r: Option<usize>)
    ensures
        r is None <==> no_spender(tx.vin@, txid@, n as int),
        r matches Some(i) ==> first_spender(tx.vin@, txid@, n as int, i as int),
{
    let mut i: usize = 0;
    while i < tx.vin.len()
        invariant
            i <= tx.vin.len(),
            no_spender(tx.vin@.take(i as int), txid@, n as int),
        decreases tx.vin.len() - i,
    {
        if tx.vin[i].txid == *txid && tx.vin[i].vout == n {
            return Some(i);
        }
        assert forall|j: int| 0 <= j < i + 1 implies !spends(
            #[trigger] tx.vin@.take(i + 1)[j],
            txid@,
            n as int,
        ) by {
            if j < i {
                assert(tx.vin@.take(i + 1)[j] == tx.vin@.take(i as int)[j]);
            }
        }
        i += 1;
    }
    assert(tx.vin@.take(tx.vin@.len() as int) =~= tx.vin@);
    None
}

/// What labelling one output needs next.
#[derive(Clone, Debug)]
pub enum Probe {
    /// Nothing: the label is settled, or the output contributes none.
    Labeled(Option<OutputLabel>),
    /// The transaction history of this address.
    History { address: String },
    /// The decoded transaction at this position of the history, appended
    /// to those already fetched.
    Followup { index: usize },
    /// The disassembly of this script; `revoked` tells whether the witness
    /// that carried it took the revocation path.
    Script { hex: String, revoked: bool },
}

/// The first step for an output of a closing transaction with `n_outputs`
/// outputs.
///
/// A payment to a single key is labeled at once. For any other output the
/// history of its first address is asked for; one without an address can
/// have no spender found and is labeled as unspent.
pub fn begin(output: &Output, n_outputs: usize) -> (p: Probe)
    ensures
        output.script_pub_key.typ@ == key_hash_type() ==> p == Probe::Labeled(
            Some(OutputLabel::Pubkey),
        ),
        output.script_pub_key.typ@ != key_hash_type() && output.script_pub_key.addresses.len() == 0
            ==> p == Probe::Labeled(Some(unspent_label(n_outputs as int))),
        output.script_pub_key.typ@ != key_hash_type() && output.script_pub_key.addresses.len() > 0
            ==> (p matches Probe::History { address } && address@
            == output.script_pub_key.addresses[0]@),
{
    if is_key_hash(&output.script_pub_key) {
        Probe::Labeled(Some(OutputLabel::Pubkey))
    } else if output.script_pub_key.addresses.len() == 0 {
        Probe::Labeled(Some(label_unspent(n_outputs)))
    } else {
        Probe::History { address: output.script_pub_key.addresses[0].clone() }
    }
}

/// The label of an unspent output that is no key payment.
pub fn label_unspent(n_outputs: usize) -> (l: OutputLabel)
    ensures
        l == unspent_label(n_outputs as int),
{
    if n_outputs > 2 {
        OutputLabel::Htlc
    } else {
        OutputLabel::Unknown
    }
}

/// Transaction `c` of `fetched` is the first with an input that spends
/// output `n` of transaction `txid`, and input `i` is its first such input.
pub open spec fn spent_by(
    fetched: Seq<DecodedTransaction>,
    txid: Seq<char>,
    n: int,
    c: int,
    i: int,
) -> bool {
    &&& 0 <= c < fetched.len()
    &&& first_spender(fetched[c].vin@, txid, n, i)
    &&& forall|d: int| 0 <= d < c ==> no_spender(#[trigger] fetched[d].vin@, txid, n)
}

/// None of the fetched transactions spends output `n` of transaction `txid`.
pub open spec fn unspent_in(fetched: Seq<DecodedTransaction>, txid: Seq<char>, n: int) -> bool {
    forall|d: int| 0 <= d < fetched.len() ==> no_spender(#[trigger] fetched[d].vin@, txid, n)
}

/// The witness ends in a script and the item before it is the revocation flag.
pub open spec fn takes_revocation_path(witness: Seq<String>) -> bool {
    witness.len() >= 2 && witness[witness.len() - 2]@ == revocation_flag()
}

/// The first of the fetched transactions that spends output `n` of
/// transaction `txid`, and its first input that does.
pub fn find_spender(fetched: &Vec<DecodedTransaction>, txid: &String, n: i64) -> (r: Option<
    (usize, usize),
>)
    ensures
        r is None <==> unspent_in(fetched@, txid@, n as int),
        r matches Some((c, i)) ==> spent_by(fetched@, txid@, n as int, c as int, i as int),
{
    let mut c: usize = 0;
    while c < fetched.len()
        invariant
            c <= fetched.len(),
            forall|d: int| 0 <= d < c ==> no_spender(#[trigger] fetched@[d].vin@, txid@, n as int),
        decreases fetched.len() - c,
    {
        match spending_input(&fetched[c], txid, n) {
            Some(i) => {
                assert(!no_spender(fetched@[c as int].vin@, txid@, n as int)) by {
                    assert(spends(fetched@[c as int].vin@[i as int], txid@, n as int));
                }
                return Some((c, i));
            },
            None => {},
        }
        c += 1;
    }
    None
}

/// The next step for an output that is no key payment, once the history of
/// its address is known to hold `history_len` transactions, of which the
/// first `fetched.len()` have been decoded.
///
/// The history is searched in order for an input that spends the output.
/// Until one is found the next transaction of the history is asked for. With
/// the history exhausted, or a spender that carries no witness, the output is
/// labeled as unspent. Otherwise the last item of the spender's witness is
/// the script to disassemble.
pub fn follow(
    txid: &String,
    output: &Output,
    n_outputs: usize,
    history_len: usize,
    fetched: &Vec<DecodedTransaction>,
) -> (p: Probe)
    ensures
        unspent_in(fetched@, txid@, output.n as int) && fetched.len() < history_len ==> p
            == (Probe::Followup { index: fetched.len() }),
        unspent_in(fetched@, txid@, output.n as int) && fetched.len() >= history_len ==> p
            == Probe::Labeled(Some(unspent_label(n_outputs as int))),
        forall|c: int, i: int| #[trigger]
            spent_by(fetched@, txid@, output.n as int, c, i) ==> {
                let witness = fetched[c].vin[i].txinwitness@;
                if witness.len() == 0 {
                    p == Probe::Labeled(Some(unspent_label(n_outputs as int)))
                } else {
                    (p matches Probe::Script { hex, revoked } && hex@ == witness.last()@
                        && revoked == takes_revocation_path(witness))
                }
            },
{
    match find_spender(fetched, txid, output.n) {
        None => {
            if fetched.len() < history_len {
                Probe::Followup { index: fetched.len() }
            } else {
                Probe::Labeled(Some(label_unspent(n_outputs)))
            }
        },
        Some((c, i)) => {
            proof {
                lemma_spent_by_unique(fetched@, txid@, output.n as int, c as int, i as int);
            }
            let witness = &fetched[c].vin[i].txinwitness;
            let len = witness.len();
            if len == 0 {
                Probe::Labeled(Some(label_unspent(n_outputs)))
            } else {
                let flag = "01".to_owned();
                let revoked = len >= 2 && witness[len - 2] == flag;
                Probe::Script { hex: witness[len - 1].clone(), revoked }
            }
        },
    }
}

/// An output has one first spender among the fetched transactions, if any.
pub proof fn lemma_spent_by_unique(
    fetched: Seq<DecodedTransaction>,
    txid: Seq<char>,
    n: int,
    c: int,
    i: int,
)
    requires
        spent_by(fetched, txid, n, c, i),
    ensures
        !unspent_in(fetched, txid, n),
        forall|d: int, j: int| #[trigger] spent_by(fetched, txid, n, d, j) ==> d == c && j == i,
{
    assert(spends(fetched[c].vin@[i], txid, n));
    assert(!no_spender(fetched[c].vin@, txid, n));
    assert forall|d: int, j: int| #[trigger] spent_by(fetched, txid, n, d, j) implies d == c && j
        == i by {
        assert(spends(fetched[d].vin@[j], txid, n));
        if d < c {
            assert(no_spender(fetched[d].vin@, txid, n));
        } else if c < d {
            assert(no_spender(fetched[c].vin@, txid, n));
        } else if i < j {
            assert(fetched[c].vin@.take(j)[i] == fetched[c].vin@[i]);
        } else if j < i {
            assert(fetched[c].vin@.take(i)[j] == fetched[c].vin@[j]);
        }
    }
}

/// What the disassembly of a spending script says of the output it unlocked.
///
/// A hash lock marks an in-flight payment. A relative timelock marks a
/// delayed output: a penalty where the revocation path was taken, a balance
/// otherwise. A script with neither gives no label.
pub open spec fn script_label(listing: Seq<char>, revoked: bool) -> Option<OutputLabel> {
    if has_infix(listing, hash_lock_opcode()) {
        Some(OutputLabel::Htlc)
    } else if has_infix(listing, relative_timelock_opcode()) {
        if revoked {
            Some(OutputLabel::Penalty)
        } else {
            Some(OutputLabel::Balance)
        }
    } else {
        None
    }
}

/// Labels an output from the disassembly of the script that spent it.
pub fn label_script(listing: &str, revoked: bool) -> (l: Option<OutputLabel>)
    ensures
        l == script_label(listing@, revoked),
{
    if str_contains(listing, "OP_HASH160") {
        Some(OutputLabel::Htlc)
    } else if str_contains(listing, "OP_CHECKSEQUENCEVERIFY") {
        if revoked {
            Some(OutputLabel::Penalty)
        } else {
            Some(OutputLabel::Balance)
        }
    } else {
        None
    }
}

/// Adds an output to the labeled ones, if it has a label.
pub fn record_label(labeled: &mut Vec<LabeledOutput>, output: &Output, label: Option<OutputLabel>)
    ensures
        final(labeled)@ == match label {
            Some(l) => old(labeled)@.push(LabeledOutput { label: l, value: output.sat }),
            None => old(labeled)@,
        },
{
    match label {
        Some(l) => labeled.push(LabeledOutput { label: l, value: output.sat }),
        None => {},
    }
}

} // verus!
