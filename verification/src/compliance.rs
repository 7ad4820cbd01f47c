//! What the transactions built from data leaves keep: the rules, the value, the commitment; and
//! which rule each deliberate violation breaks.
use crate::bip110;
use crate::bip110::Finding;
use crate::bytes;
use crate::scripts;
use crate::scripts::Ins;
use crate::taproot;
use crate::taproot_spend;
use crate::tapscript;
use crate::tapscript::Auth;
use crate::tapscript::Violate;
use crate::tx;
use crate::tx::OutPointView;
use crate::tx::TxOutView;
use vstd::prelude::*;

verus! {

/// The value of the first `n` outputs together.
pub open spec fn total_value(output: Seq<TxOutView>, n: int) -> int
    decreases n,
{
    if n <= 0 {
        0
    } else {
        total_value(output, n - 1) + output[n - 1].value
    }
}

proof fn lemma_paired_compliant(c: Seq<Seq<u8>>, k: int)
    requires
        0 <= k <= c.len() / 2,
        forall|i: int| 0 <= i < c.len() ==> (#[trigger] c[i]).len() <= tapscript::CHUNK_SIZE,
    ensures
        bip110::compliant_list(tapscript::paired(c, k)),
    decreases k,
{
    if k > 0 {
        lemma_paired_compliant(c, k - 1);
        assert(c[2 * k - 2].len() <= tapscript::CHUNK_SIZE);
        assert(c[2 * k - 1].len() <= tapscript::CHUNK_SIZE);
    }
}

/// The plain leaf of any data is a compliant tapscript.
pub proof fn law_plain_leaf_compliant(data: Seq<u8>)
    ensures
        bip110::compliant_script(scripts::encode(tapscript::plain_leaf(data))),
{
    let c = tapscript::data_chunks(data);
    bytes::law_chunk_sizes(data, tapscript::CHUNK_SIZE as int);
    lemma_paired_compliant(c, c.len() as int / 2);
    if c.len() % 2 == 1 {
        assert(c[c.len() - 1].len() <= tapscript::CHUNK_SIZE);
    }
    tapscript::law_plain_leaf_roundtrip(data);
}

proof fn lemma_envelope_compliant(data: Seq<u8>)
    ensures
        bip110::compliant_list(tapscript::envelope(data)),
{
    let c = tapscript::data_chunks(data);
    bytes::law_chunk_sizes(data, tapscript::CHUNK_SIZE as int);
    lemma_paired_compliant(c, c.len() as int / 2);
    assert(tapscript::PROTOCOL_ID@.len() == 3);
    if c.len() % 2 == 1 {
        assert(c[c.len() - 1].len() <= tapscript::CHUNK_SIZE);
    }
}

/// The envelope leaf of any data is a compliant tapscript under either authorization.
pub proof fn law_auth_leaf_compliant(data: Seq<u8>, auth: Auth)
    ensures
        bip110::compliant_script(scripts::encode(tapscript::auth_leaf(data, auth))),
{
    lemma_envelope_compliant(data);
    tapscript::law_auth_leaf_roundtrip(data, auth);
    assert(taproot_spend::reveal_key().len() == 32);
}

/// The control block of a single leaf is 33 bytes, within the cap, has the shape of a control block
/// and is no annex.
pub proof fn law_leaf_control_block(script: Seq<u8>)
    ensures
        taproot_spend::leaf_control_block(script).len() == 33,
        bip110::control_block(taproot_spend::leaf_control_block(script)),
        taproot_spend::leaf_control_block(script)[0] != 0x50,
{
    assert(taproot_spend::internal_xonly().len() == 32);
}

/// The scriptPubKey of a leaf is exactly 34 bytes, a witness program of version one, and within the
/// output cap.
pub proof fn law_leaf_spk(script: Seq<u8>)
    ensures
        taproot_spend::leaf_spk(script).len() == 34,
        scripts::p2tr_script(taproot_spend::leaf_spk(script)),
        bip110::compliant_output(taproot_spend::leaf_spk(script)),
{
    assert(taproot_spend::leaf_output_key(script).0@.len() == 32);
}

/// The control block of a leaf commits to it under the output key that its scriptPubKey pays to.
pub proof fn law_leaf_commitment(script: Seq<u8>)
    ensures
        ({
            let block = taproot_spend::leaf_control_block(script);
            let root = taproot::folded(
                taproot::leaf_hash_of(script)@,
                bytes::chunks(block.skip(33), 32),
            );
            &&& taproot::tap_tweak_of(block.subrange(1, 33), root)
                == taproot_spend::leaf_output_key(script)
            &&& taproot_spend::leaf_output_key(script).1 == (block[0] == 0xc1)
            &&& taproot_spend::leaf_spk(script) == scripts::p2tr_of(
                taproot_spend::leaf_output_key(script).0@,
            )
        }),
{
    let block = taproot_spend::leaf_control_block(script);
    assert(taproot_spend::internal_xonly().len() == 32);
    assert(block.subrange(1, 33) =~= taproot_spend::internal_xonly());
    assert(block.skip(33) =~= Seq::<u8>::empty());
    assert(bytes::chunks(block.skip(33), 32) =~= Seq::<Seq<u8>>::empty());
}

/// A witness of items within the cap, a compliant leaf and its control block is compliant.
pub proof fn lemma_leaf_witness_compliant(items: Seq<Seq<u8>>, script: Seq<u8>)
    requires
        bip110::compliant_script(script),
        items.len() >= 2,
        items[items.len() - 2] == script,
        items.last() == taproot_spend::leaf_control_block(script),
        bip110::items_within_cap(items, items.len() - 2),
    ensures
        bip110::compliant_witness(items),
{
    law_leaf_control_block(script);
}

/// The transaction that carries data in plain chunks keeps every rule, whatever the data.
pub proof fn law_data_tx_compliant(data: Seq<u8>, prevout: OutPointView)
    ensures
        bip110::compliant(taproot_spend::data_tx(data, prevout)),
{
    let script = scripts::encode(tapscript::plain_leaf(data));
    let t = taproot_spend::data_tx(data, prevout);
    law_plain_leaf_compliant(data);
    law_leaf_spk(script);
    lemma_leaf_witness_compliant(t.input[0].witness, script);
}

/// Reading the leaf back from the transaction that carries data in plain chunks gives the data.
pub proof fn law_data_tx_roundtrip(data: Seq<u8>, prevout: OutPointView)
    ensures
        ({
            let items = taproot_spend::data_tx(data, prevout).input[0].witness;
            &&& items.len() == 2
            &&& scripts::script_pushes(items[0]) == data
        }),
{
    tapscript::law_plain_leaf_roundtrip(data);
}

/// A signed spend keeps every rule, whatever the data, where the destination is within the output
/// cap.
pub proof fn law_signed_spend_compliant(
    data: Seq<u8>,
    auth: Auth,
    prevout: OutPointView,
    prevout_value: u64,
    to: Seq<u8>,
    fee: u64,
)
    requires
        bip110::compliant_output(to),
    ensures
        bip110::compliant(
            taproot_spend::signed_spend(data, auth, prevout, prevout_value, to, fee),
        ),
{
    let script = scripts::encode(tapscript::auth_leaf(data, auth));
    let t = taproot_spend::signed_spend(data, auth, prevout, prevout_value, to, fee);
    law_auth_leaf_compliant(data, auth);
    assert(taproot_spend::reveal_signature(script, prevout, prevout_value, t.output).len() == 64);
    lemma_leaf_witness_compliant(t.input[0].witness, script);
}

/// A signed spend pays out what it spends less the fee.
pub proof fn law_signed_spend_value(
    data: Seq<u8>,
    auth: Auth,
    prevout: OutPointView,
    prevout_value: u64,
    to: Seq<u8>,
    fee: u64,
)
    requires
        fee <= prevout_value,
    ensures
        ({
            let t = taproot_spend::signed_spend(data, auth, prevout, prevout_value, to, fee);
            total_value(t.output, t.output.len() as int) + fee == prevout_value
        }),
{
    reveal_with_fuel(total_value, 2);
}

/// A violating spend pays out what it spends less the fee.
pub proof fn law_violating_spend_value(
    data: Seq<u8>,
    violate: Violate,
    prevout: OutPointView,
    prevout_value: u64,
    to: Seq<u8>,
    fee: u64,
    oversize_output: bool,
)
    requires
        fee <= prevout_value,
    ensures
        ({
            let t = taproot_spend::violating_spend(
                data,
                violate,
                prevout,
                prevout_value,
                to,
                fee,
                oversize_output,
            );
            total_value(t.output, t.output.len() as int) + fee == prevout_value
        }),
{
    reveal_with_fuel(total_value, 3);
}

/// Without a violation, the violating spend is the spend that anyone can make.
pub proof fn law_no_violation_is_signed_spend(
    data: Seq<u8>,
    prevout: OutPointView,
    prevout_value: u64,
    to: Seq<u8>,
    fee: u64,
)
    ensures
        taproot_spend::violating_spend(
            data,
            Violate::Nothing,
            prevout,
            prevout_value,
            to,
            fee,
            false,
        ) == taproot_spend::signed_spend(data, Auth::Anyone, prevout, prevout_value, to, fee),
{
    tapscript::law_no_violation_is_open(data);
}

proof fn lemma_names_add(a: Seq<Finding>, b: Seq<Finding>, rule: Seq<char>)
    requires
        bip110::names_rule(a, rule) || bip110::names_rule(b, rule),
    ensures
        bip110::names_rule(a + b, rule),
{
    if bip110::names_rule(a, rule) {
        let k = choose|k: int| 0 <= k < a.len() && (#[trigger] a[k]).rule == rule;
        assert((a + b)[k] == a[k]);
    } else {
        let k = choose|k: int| 0 <= k < b.len() && (#[trigger] b[k]).rule == rule;
        assert((a + b)[a.len() + k] == b[k]);
    }
}

/// The rule that each violating leaf breaks.
pub open spec fn broken_rule(violate: Violate) -> Option<Seq<char>> {
    match violate {
        Violate::Nothing => None,
        Violate::PushTooBig => Some("C3"@),
        Violate::OpIf => Some("C8"@),
        Violate::OpSuccess => Some("C7"@),
    }
}

/// Where one instruction of a list is the only one that may not be there, what is found on the list is
/// what is found on it.
proof fn lemma_only_one_found(list: Seq<Ins>, k: int)
    requires
        0 <= k < list.len(),
        forall|i: int|
            0 <= i < list.len() && i != k ==> bip110::compliant_instruction(#[trigger] list[i]),
    ensures
        bip110::list_findings(list) == bip110::ins_finding(list[k]),
    decreases list.len(),
{
    let front = list.drop_last();
    assert forall|i: int| 0 <= i < front.len() && i != k implies bip110::compliant_instruction(
        #[trigger] front[i],
    ) by {
        assert(front[i] == list[i]);
    }
    if k == list.len() - 1 {
        bip110::lemma_list_findings_empty(front);
        assert(bip110::list_findings(list) =~= bip110::ins_finding(list[k]));
    } else {
        lemma_only_one_found(front, k);
        assert(front[k] == list[k]);
        assert(bip110::compliant_instruction(list[list.len() - 1]));
        assert(bip110::list_findings(list) =~= bip110::ins_finding(list[k]));
    }
}

/// A violating leaf breaks exactly one rule, once: the one that it was made to break.
pub proof fn law_violating_leaf_breaks_one_rule(data: Seq<u8>, violate: Violate)
    ensures
        ({
            let found = bip110::script_findings(
                scripts::encode(tapscript::violation_leaf(data, violate)),
            );
            match broken_rule(violate) {
                Some(rule) => found.len() == 1 && found[0].rule == rule,
                None => found.len() == 0,
            }
        }),
{
    let list = tapscript::violation_leaf(data, violate);
    let e = tapscript::envelope(data);
    let pre = tapscript::violation_prefix(violate);
    let n: int = pre.len() + e.len() as int;
    tapscript::law_violation_leaf_roundtrip(data, violate);
    lemma_envelope_compliant(data);
    assert forall|i: int| pre.len() <= i < n implies bip110::compliant_instruction(
        #[trigger] list[i],
    ) by {
        assert(list[i] == e[i - pre.len()]);
    }
    match violate {
        Violate::Nothing => {
            assert(list[n] == Ins::Op(scripts::OP_PUSHNUM_1));
            bip110::lemma_list_findings_empty(list);
        },
        Violate::PushTooBig => {
            assert(tapscript::big_push().len() == 300);
            assert(list[0] == Ins::Push(tapscript::big_push()));
            assert(list[1] == Ins::Op(scripts::OP_DROP));
            assert(list[n] == Ins::Op(scripts::OP_PUSHNUM_1));
            lemma_only_one_found(list, 0);
        },
        Violate::OpIf => {
            assert(list[n] == Ins::Op(scripts::OP_PUSHNUM_1));
            assert(list[n + 1] == Ins::Op(scripts::OP_IF));
            assert(list[n + 2] == Ins::Op(scripts::OP_PUSHNUM_1));
            assert(list[n + 3] == Ins::Op(scripts::OP_ENDIF));
            lemma_only_one_found(list, n + 1);
        },
        Violate::OpSuccess => {
            assert(list[n] == Ins::Op(scripts::OP_PUSHNUM_1));
            assert(list[n + 1] == Ins::Op(scripts::OP_VER));
            lemma_only_one_found(list, n + 1);
        },
    }
}

/// On the inputs of a transaction whose only input reveals a leaf, what is found is what is found on
/// the leaf.
proof fn lemma_input_findings_are_the_leafs(t: tx::TxView, script: Seq<u8>)
    requires
        t.input.len() == 1,
        t.input[0].witness == seq![script, taproot_spend::leaf_control_block(script)],
    ensures
        bip110::input_findings(t, 1) == bip110::script_findings(script),
{
    let items = t.input[0].witness;
    law_leaf_control_block(script);
    assert(items[items.len() - 2] == script);
    assert(bip110::witness_findings(0, items) =~= bip110::script_findings(script));
    reveal_with_fuel(bip110::input_findings, 2);
    assert(bip110::input_findings(t, 1) =~= bip110::script_findings(script));
}

/// What is found on a violating spend to a destination within the output cap: the rule that its leaf
/// was made to break, once, and C1, once, where the oversize output was asked for; nothing else.
pub proof fn law_violation_breaks_nothing_else(
    data: Seq<u8>,
    violate: Violate,
    prevout: OutPointView,
    prevout_value: u64,
    to: Seq<u8>,
    fee: u64,
    oversize_output: bool,
)
    requires
        bip110::compliant_output(to),
    ensures
        ({
            let found = bip110::tx_findings(
                taproot_spend::violating_spend(
                    data,
                    violate,
                    prevout,
                    prevout_value,
                    to,
                    fee,
                    oversize_output,
                ),
            );
            match (oversize_output, broken_rule(violate)) {
                (false, None) => found.len() == 0,
                (false, Some(rule)) => found.len() == 1 && found[0].rule == rule,
                (true, None) => found.len() == 1 && found[0].rule == "C1"@,
                (true, Some(rule)) => found.len() == 2 && found[0].rule == "C1"@ && found[1].rule
                    == rule,
            }
        }),
{
    let t = taproot_spend::violating_spend(
        data,
        violate,
        prevout,
        prevout_value,
        to,
        fee,
        oversize_output,
    );
    let script = scripts::encode(tapscript::violation_leaf(data, violate));
    law_violating_leaf_breaks_one_rule(data, violate);
    lemma_input_findings_are_the_leafs(t, script);
    bip110::lemma_output_findings_empty(t.output, 1);
    if oversize_output {
        assert(bip110::output_findings(t.output, 2) =~= bip110::output_finding(
            1,
            t.output[1].script_pubkey,
        ));
    }
}

/// Every violating spend is rejected, with the rule that it was made to break among the findings. The
/// leaf is found to break that rule, once, and no other; where the destination is within the output cap
/// and no oversize output was asked for, that is all that is found on the transaction.
pub proof fn law_violation_is_rejected(
    data: Seq<u8>,
    violate: Violate,
    prevout: OutPointView,
    prevout_value: u64,
    to: Seq<u8>,
    fee: u64,
    oversize_output: bool,
)
    ensures
        ({
            let t = taproot_spend::violating_spend(
                data,
                violate,
                prevout,
                prevout_value,
                to,
                fee,
                oversize_output,
            );
            let leaf = bip110::script_findings(
                scripts::encode(tapscript::violation_leaf(data, violate)),
            );
            &&& broken_rule(violate) matches Some(rule) ==> {
                &&& bip110::names_rule(bip110::tx_findings(t), rule)
                &&& !bip110::compliant(t)
                &&& leaf.len() == 1
                &&& bip110::names_rule(leaf, rule)
                &&& bip110::compliant_output(to) && !oversize_output ==> bip110::tx_findings(
                    t,
                ).len() == 1
            }
            &&& oversize_output ==> bip110::names_rule(bip110::tx_findings(t), "C1"@)
                && !bip110::compliant(t)
        }),
{
    let t = taproot_spend::violating_spend(
        data,
        violate,
        prevout,
        prevout_value,
        to,
        fee,
        oversize_output,
    );
    let script = scripts::encode(tapscript::violation_leaf(data, violate));
    let leaf = bip110::script_findings(script);
    bip110::law_no_findings_means_compliant(t);
    law_violating_leaf_breaks_one_rule(data, violate);
    lemma_input_findings_are_the_leafs(t, script);
    match broken_rule(violate) {
        Some(rule) => {
            assert(leaf[0].rule == rule);
            lemma_names_add(
                bip110::output_findings(t.output, t.output.len() as int),
                bip110::input_findings(t, 1),
                rule,
            );
        },
        None => {},
    }
    if bip110::compliant_output(to) {
        law_violation_breaks_nothing_else(
            data,
            violate,
            prevout,
            prevout_value,
            to,
            fee,
            oversize_output,
        );
    }
    if oversize_output {
        let found = bip110::output_finding(1, t.output[1].script_pubkey);
        assert(found[0].rule == "C1"@);
        lemma_names_add(bip110::output_findings(t.output, 1), found, "C1"@);
        assert(bip110::output_findings(t.output, 2) == bip110::output_findings(t.output, 1)
            + found);
        lemma_names_add(
            bip110::output_findings(t.output, 2),
            bip110::input_findings(t, t.input.len() as int),
            "C1"@,
        );
    }
}

} // verus!
