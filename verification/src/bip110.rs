//! An independent check of a transaction against the BIP-110 rules.
//!
//! Everything is derived from the transaction itself: its outputs, its witness stacks, the opcode
//! stream of its tapscript and its control block. What depends on the outputs that it spends (the
//! witness version of C9, the grandfathering of C10) cannot be seen from the transaction alone; the
//! leaf version half of C9 is part of what makes a last witness item a control block here.
use crate::bytes;
use crate::scripts;
use crate::scripts::Ins;
use crate::scripts::Instruction;
use crate::text;
use crate::tx::Transaction;
use crate::tx::TxOutView;
use crate::tx::TxView;
use vstd::prelude::*;
use vstd::string::StringExecFns;

verus! {

/// The largest scriptPubKey of an output that is no `OP_RETURN`.
pub const MAX_SPK: usize = 34;

/// The largest `OP_RETURN` scriptPubKey.
pub const MAX_OP_RETURN_SPK: usize = 83;

/// The largest push payload, and the largest witness item that is not exempt.
pub const MAX_PUSH: usize = 256;

/// The largest control block.
pub const MAX_CONTROL_BLOCK: usize = 257;

/// The first byte of an annex.
const ANNEX_TAG: u8 = 0x50;

/// One broken rule.
#[derive(Debug, Clone, PartialEq, Eq)]
pub struct Violation {
    /// The rule, such as `C1` or `C7`.
    pub rule: &'static str,
    /// What broke it.
    pub detail: String,
}

/// A broken rule as a mathematical value.
#[verifier::ext_equal]
pub struct Finding {
    pub rule: Seq<char>,
    pub detail: Seq<char>,
}

impl View for Violation {
    type V = Finding;

    open spec fn view(&self) -> Finding {
        Finding { rule: self.rule@, detail: self.detail@ }
    }
}

impl Violation {
    /// The violation as one line of text: `[rule] detail`.
    pub fn to_text(&self) -> (r: String)
        ensures
            r@ == "["@ + self.rule@ + "] "@ + self.detail@,
    {
        let mut r = String::from_str("[");
        r.append(self.rule);
        r.append("] ");
        r.append(self.detail.as_str());
        r
    }
}

/// The findings held by a sequence of violations.
pub open spec fn findings(v: Seq<Violation>) -> Seq<Finding> {
    Seq::new(v.len(), |i: int| v[i]@)
}

/// Whether `item` has the shape of a control block: a defined leaf version with either parity, an
/// internal key, and whole sibling hashes.
pub open spec fn control_block(item: Seq<u8>) -> bool {
    item.len() >= 33 && (item.len() - 33) % 32 == 0 && (item[0] == 0xc0 || item[0] == 0xc1)
}

/// The opcodes that BIP342 makes unconditionally successful.
pub open spec fn op_success(b: u8) -> bool {
    b == 80 || b == 98 || 126 <= b <= 129 || 131 <= b <= 134 || 137 <= b <= 138 || 141 <= b <= 142
        || 149 <= b <= 153 || 187 <= b <= 254
}

/// A text with two numbers in it.
pub open spec fn sized_text(
    head: Seq<char>,
    index: nat,
    mid: Seq<char>,
    size: nat,
    tail: Seq<char>,
) -> Seq<char> {
    head + text::decimal(index) + mid + text::decimal(size) + tail
}

/// What is found on output `i` with this scriptPubKey (C1, C2).
pub open spec fn output_finding(i: nat, spk: Seq<u8>) -> Seq<Finding> {
    if scripts::op_return_script(spk) {
        if spk.len() > MAX_OP_RETURN_SPK {
            seq![
                Finding {
                    rule: "C2"@,
                    detail: sized_text(
                        "output "@,
                        i,
                        ": OP_RETURN scriptPubKey "@,
                        spk.len(),
                        " bytes > 83"@,
                    ),
                },
            ]
        } else {
            seq![]
        }
    } else if spk.len() > MAX_SPK {
        seq![
            Finding {
                rule: "C1"@,
                detail: sized_text("output "@, i, ": scriptPubKey "@, spk.len(), " bytes > 34"@),
            },
        ]
    } else {
        seq![]
    }
}

/// What is found on the first `n` outputs.
pub open spec fn output_findings(output: Seq<TxOutView>, n: int) -> Seq<Finding>
    decreases n,
{
    if n <= 0 {
        seq![]
    } else {
        output_findings(output, n - 1) + output_finding(
            (n - 1) as nat,
            output[n - 1].script_pubkey,
        )
    }
}

/// What is found on one instruction of a tapscript (C3, C7, C8).
pub open spec fn ins_finding(i: Ins) -> Seq<Finding> {
    match i {
        Ins::Push(d) => if d.len() > MAX_PUSH {
            seq![
                Finding {
                    rule: "C3"@,
                    detail: "tapscript push payload "@ + text::decimal(d.len()) + " bytes > 256"@,
                },
            ]
        } else {
            seq![]
        },
        Ins::Op(b) => if b == scripts::OP_IF || b == scripts::OP_NOTIF {
            seq![
                Finding {
                    rule: "C8"@,
                    detail: "tapscript contains OP_IF/OP_NOTIF (0x"@ + text::hex_byte(b) + ")"@,
                },
            ]
        } else if op_success(b) {
            seq![
                Finding {
                    rule: "C7"@,
                    detail: "tapscript contains OP_SUCCESS opcode 0x"@ + text::hex_byte(b),
                },
            ]
        } else {
            seq![]
        },
    }
}

/// What is found on a list of instructions.
pub open spec fn list_findings(list: Seq<Ins>) -> Seq<Finding>
    decreases list.len(),
{
    if list.len() == 0 {
        seq![]
    } else {
        list_findings(list.drop_last()) + ins_finding(list.last())
    }
}

/// What is found on a tapscript: its instructions, and whether it is cut short.
pub open spec fn script_findings(s: Seq<u8>) -> Seq<Finding> {
    list_findings(scripts::parse(s).0) + if scripts::parse(s).1 {
        seq![]
    } else {
        seq![
            Finding { rule: "C7"@, detail: "malformed tapscript: unexpected end of script"@ },
        ]
    }
}

/// Whether the stack carries an annex.
pub open spec fn has_annex(items: Seq<Seq<u8>>) -> bool {
    items.len() >= 2 && items.last().len() > 0 && items.last()[0] == 0x50
}

/// Whether the stack spends a taproot output by script path.
pub open spec fn script_path(items: Seq<Seq<u8>>) -> bool {
    items.len() >= 2 && control_block(items.last())
}

/// What is found on an annex (C5).
pub open spec fn annex_finding(index: nat, items: Seq<Seq<u8>>) -> Seq<Finding> {
    if has_annex(items) {
        seq![
            Finding {
                rule: "C5"@,
                detail: "input "@ + text::decimal(index) + ": witness carries an annex (0x50)"@,
            },
        ]
    } else {
        seq![]
    }
}

/// What is found on the size of a control block (C6).
pub open spec fn control_block_finding(index: nat, cb: Seq<u8>) -> Seq<Finding> {
    if cb.len() > MAX_CONTROL_BLOCK {
        seq![
            Finding {
                rule: "C6"@,
                detail: sized_text("input "@, index, ": control block "@, cb.len(), " bytes > 257"@),
            },
        ]
    } else {
        seq![]
    }
}

/// What is found on the sizes of the first `n` items (C4).
pub open spec fn item_findings(index: nat, items: Seq<Seq<u8>>, n: int) -> Seq<Finding>
    decreases n,
{
    if n <= 0 {
        seq![]
    } else {
        item_findings(index, items, n - 1) + if items[n - 1].len() > MAX_PUSH {
            seq![
                Finding {
                    rule: "C4"@,
                    detail: sized_text(
                        "input "@,
                        index,
                        ": non-exempt witness item "@,
                        items[n - 1].len(),
                        " bytes > 256"@,
                    ),
                },
            ]
        } else {
            seq![]
        }
    }
}

/// What is found on a witness stack. On a script-path spend the leaf script and the control block
/// are exempt from the item cap and have checks of their own.
pub open spec fn witness_findings(index: nat, items: Seq<Seq<u8>>) -> Seq<Finding> {
    if items.len() == 0 {
        seq![]
    } else if script_path(items) {
        annex_finding(index, items) + control_block_finding(index, items.last()) + item_findings(
            index,
            items,
            items.len() - 2,
        ) + script_findings(items[items.len() - 2])
    } else {
        annex_finding(index, items) + item_findings(index, items, items.len() as int)
    }
}

/// What is found on the witnesses of the first `n` inputs.
pub open spec fn input_findings(tx: TxView, n: int) -> Seq<Finding>
    decreases n,
{
    if n <= 0 {
        seq![]
    } else {
        input_findings(tx, n - 1) + witness_findings((n - 1) as nat, tx.input[n - 1].witness)
    }
}

/// Everything that is found on a transaction, outputs first.
pub open spec fn tx_findings(tx: TxView) -> Seq<Finding> {
    output_findings(tx.output, tx.output.len() as int) + input_findings(tx, tx.input.len() as int)
}

/// Outputs within the size caps.
pub open spec fn compliant_output(spk: Seq<u8>) -> bool {
    if scripts::op_return_script(spk) {
        spk.len() <= MAX_OP_RETURN_SPK
    } else {
        spk.len() <= MAX_SPK
    }
}

/// Instructions that a tapscript may hold.
pub open spec fn compliant_instruction(i: Ins) -> bool {
    match i {
        Ins::Push(d) => d.len() <= MAX_PUSH,
        Ins::Op(b) => b != scripts::OP_IF && b != scripts::OP_NOTIF && !op_success(b),
    }
}

/// Tapscripts that are well formed and hold only such instructions.
pub open spec fn compliant_script(s: Seq<u8>) -> bool {
    scripts::parse(s).1 && compliant_list(scripts::parse(s).0)
}

/// Lists of such instructions.
pub open spec fn compliant_list(list: Seq<Ins>) -> bool {
    forall|i: int| 0 <= i < list.len() ==> compliant_instruction(#[trigger] list[i])
}

/// Whether the first `n` items are within the item cap.
pub open spec fn items_within_cap(items: Seq<Seq<u8>>, n: int) -> bool {
    forall|i: int| 0 <= i < n ==> (#[trigger] items[i]).len() <= MAX_PUSH
}

/// Witness stacks that keep every rule.
pub open spec fn compliant_witness(items: Seq<Seq<u8>>) -> bool {
    &&& !has_annex(items)
    &&& if script_path(items) {
        &&& items.last().len() <= MAX_CONTROL_BLOCK
        &&& items_within_cap(items, items.len() - 2)
        &&& compliant_script(items[items.len() - 2])
    } else {
        items_within_cap(items, items.len() as int)
    }
}

/// Transactions that keep every rule.
pub open spec fn compliant(tx: TxView) -> bool {
    &&& forall|i: int|
        0 <= i < tx.output.len() ==> compliant_output((#[trigger] tx.output[i]).script_pubkey)
    &&& forall|i: int| 0 <= i < tx.input.len() ==> compliant_witness((#[trigger] tx.input[i]).witness)
}

/// Whether a list of findings names a rule.
pub open spec fn names_rule(list: Seq<Finding>, rule: Seq<char>) -> bool {
    exists|i: int| 0 <= i < list.len() && (#[trigger] list[i]).rule == rule
}

/// Nothing is found on the first `n` outputs exactly where they are all within the caps.
pub proof fn lemma_output_findings_empty(output: Seq<TxOutView>, n: int)
    requires
        0 <= n <= output.len(),
    ensures
        output_findings(output, n).len() == 0 <==> (forall|i: int|
            0 <= i < n ==> compliant_output((#[trigger] output[i]).script_pubkey)),
    decreases n,
{
    if n > 0 {
        lemma_output_findings_empty(output, n - 1);
        assert(output_finding((n - 1) as nat, output[n - 1].script_pubkey).len() == 0
            <==> compliant_output(output[n - 1].script_pubkey));
    }
}

/// Nothing is found on a list of instructions exactly where they are all allowed.
pub proof fn lemma_list_findings_empty(list: Seq<Ins>)
    ensures
        list_findings(list).len() == 0 <==> compliant_list(list),
    decreases list.len(),
{
    if list.len() > 0 {
        lemma_list_findings_empty(list.drop_last());
        assert(ins_finding(list.last()).len() == 0 <==> compliant_instruction(list.last()));
        if list_findings(list).len() == 0 {
            assert forall|i: int| 0 <= i < list.len() implies compliant_instruction(
                #[trigger] list[i],
            ) by {
                if i < list.len() - 1 {
                    assert(list.drop_last()[i] == list[i]);
                }
            }
        } else if compliant_list(list) {
            assert(compliant_instruction(list[list.len() - 1]));
            assert forall|i: int| 0 <= i < list.drop_last().len() implies compliant_instruction(
                #[trigger] list.drop_last()[i],
            ) by {
                assert(list.drop_last()[i] == list[i]);
            }
        }
    }
}

proof fn lemma_item_findings_empty(index: nat, items: Seq<Seq<u8>>, n: int)
    requires
        0 <= n <= items.len(),
    ensures
        item_findings(index, items, n).len() == 0 <==> items_within_cap(items, n),
    decreases n,
{
    if n > 0 {
        lemma_item_findings_empty(index, items, n - 1);
        if items_within_cap(items, n) {
            assert(items[n - 1].len() <= MAX_PUSH);
        }
    }
}

proof fn lemma_witness_findings_empty(index: nat, items: Seq<Seq<u8>>)
    ensures
        witness_findings(index, items).len() == 0 <==> compliant_witness(items),
{
    if items.len() > 0 {
        lemma_item_findings_empty(index, items, items.len() as int);
        if script_path(items) {
            lemma_item_findings_empty(index, items, items.len() - 2);
            lemma_list_findings_empty(scripts::parse(items[items.len() - 2]).0);
        }
    }
}

proof fn lemma_input_findings_empty(tx: TxView, n: int)
    requires
        0 <= n <= tx.input.len(),
    ensures
        input_findings(tx, n).len() == 0 <==> (forall|i: int|
            0 <= i < n ==> compliant_witness((#[trigger] tx.input[i]).witness)),
    decreases n,
{
    if n > 0 {
        lemma_input_findings_empty(tx, n - 1);
        lemma_witness_findings_empty((n - 1) as nat, tx.input[n - 1].witness);
    }
}

/// Nothing is found on a transaction exactly where it keeps every rule.
pub proof fn law_no_findings_means_compliant(tx: TxView)
    ensures
        tx_findings(tx).len() == 0 <==> compliant(tx),
{
    lemma_output_findings_empty(tx.output, tx.output.len() as int);
    lemma_input_findings_empty(tx, tx.input.len() as int);
}

/// Whether `item` has the shape of a control block.
pub fn is_control_block(item: &[u8]) -> (r: bool)
    ensures
        r == control_block(item@),
        r == (item@.len() >= 33 && (item@.len() - 33) % 32 == 0 && (item@[0] == 0xc0 || item@[0]
            == 0xc1)),
{
    if item.len() < 33 || (item.len() - 33) % 32 != 0 {
        return false;
    }
    let first: u8 = item[0];
    assert((first & 0xfe) == 0xc0 <==> (first == 0xc0 || first == 0xc1)) by (bit_vector);
    (first & 0xfe) == 0xc0
}

/// Whether `b` is an `OP_SUCCESSx` opcode.
pub fn is_op_success(b: u8) -> (r: bool)
    ensures
        r == op_success(b),
        r == (b == 80 || b == 98 || 126 <= b <= 129 || 131 <= b <= 134 || 137 <= b <= 138 || 141 <= b
            <= 142 || 149 <= b <= 153 || 187 <= b <= 254),
{
    b == 80 || b == 98 || (126 <= b && b <= 129) || (131 <= b && b <= 134) || (137 <= b && b <= 138)
        || (141 <= b && b <= 142) || (149 <= b && b <= 153) || (187 <= b && b <= 254)
}

/// A text with two numbers in it.
fn sized(head: &str, index: usize, mid: &str, size: usize, tail: &str) -> (r: String)
    ensures
        r@ == sized_text(head@, index as nat, mid@, size as nat, tail@),
{
    let mut r = String::from_str(head);
    text::push_decimal(&mut r, index);
    r.append(mid);
    text::push_decimal(&mut r, size);
    r.append(tail);
    r
}

/// Adds a violation.
fn report(out: &mut Vec<Violation>, rule: &'static str, detail: String)
    ensures
        findings(final(out)@) == findings(old(out)@) + seq![
            Finding { rule: rule@, detail: detail@ },
        ],
{
    let ghost before = findings(out@);
    let ghost added = Finding { rule: rule@, detail: detail@ };
    out.push(Violation { rule, detail });
    proof {
        assert(findings(out@) =~= before + seq![added]);
    }
}

/// Adds what is found on a tapscript.
fn check_tapscript(script: &[u8], out: &mut Vec<Violation>)
    ensures
        findings(final(out)@) == findings(old(out)@) + script_findings(script@),
{
    let (list, complete) = scripts::instructions(script);
    let ghost l = scripts::ins_views(list@);
    let ghost before = findings(out@);
    let mut i: usize = 0;
    proof {
        assert(l.take(0) =~= Seq::<Ins>::empty());
        assert(before + list_findings(l.take(0)) =~= before);
    }
    while i < list.len()
        invariant
            l == scripts::ins_views(list@),
            i <= list@.len(),
            findings(out@) == before + list_findings(l.take(i as int)),
        decreases list@.len() - i,
    {
        let ghost now = findings(out@);
        proof {
            assert(l.take(i + 1).drop_last() =~= l.take(i as int));
            assert(l.take(i + 1).last() == list@[i as int]@);
            assert(before + list_findings(l.take(i + 1)) =~= now + ins_finding(list@[i as int]@));
            assert(now + Seq::<Finding>::empty() =~= now);
        }
        match &list[i] {
            Instruction::PushBytes(d) => {
                let n: usize = d.len();
                if n > MAX_PUSH {
                    let mut detail = String::from_str("tapscript push payload ");
                    text::push_decimal(&mut detail, n);
                    detail.append(" bytes > 256");
                    report(out, "C3", detail);
                }
            },
            Instruction::Op(op) => {
                let b: u8 = *op;
                if b == scripts::OP_IF || b == scripts::OP_NOTIF {
                    // Presence is an over-approximation of execution: a script whose `OP_IF` is
                    // never reached is rejected too, but none that executes it is accepted.
                    let mut detail = String::from_str("tapscript contains OP_IF/OP_NOTIF (0x");
                    text::push_hex_byte(&mut detail, b);
                    detail.append(")");
                    report(out, "C8", detail);
                }
                if is_op_success(b) {
                    let mut detail = String::from_str("tapscript contains OP_SUCCESS opcode 0x");
                    text::push_hex_byte(&mut detail, b);
                    report(out, "C7", detail);
                }
            },
        }
        i = i + 1;
    }
    proof {
        assert(l.take(i as int) =~= l);
        assert(before + script_findings(script@) =~= findings(out@) + if complete {
            seq![]
        } else {
            seq![
                Finding { rule: "C7"@, detail: "malformed tapscript: unexpected end of script"@ },
            ]
        });
        assert(findings(out@) + Seq::<Finding>::empty() =~= findings(out@));
    }
    if !complete {
        report(out, "C7", String::from_str("malformed tapscript: unexpected end of script"));
    }
}

/// Adds what is found on the sizes of the first `n` witness items.
fn check_items(index: usize, items: &Vec<Vec<u8>>, n: usize, out: &mut Vec<Violation>)
    requires
        n <= items@.len(),
    ensures
        findings(final(out)@) == findings(old(out)@) + item_findings(
            index as nat,
            bytes::views(items@),
            n as int,
        ),
{
    let ghost views = bytes::views(items@);
    let ghost before = findings(out@);
    let mut i: usize = 0;
    proof {
        assert(before + item_findings(index as nat, views, 0) =~= before);
    }
    while i < n
        invariant
            i <= n <= items@.len(),
            views == bytes::views(items@),
            findings(out@) == before + item_findings(index as nat, views, i as int),
        decreases n - i,
    {
        let ghost now = findings(out@);
        let len: usize = items[i].len();
        if len > MAX_PUSH {
            report(
                out,
                "C4",
                sized("input ", index, ": non-exempt witness item ", len, " bytes > 256"),
            );
        }
        proof {
            assert(views[i as int] == items@[i as int]@);
            assert(findings(out@) =~= before + item_findings(index as nat, views, i + 1));
        }
        i = i + 1;
    }
}

/// Adds what is found on a witness stack.
fn check_witness(index: usize, items: &Vec<Vec<u8>>, out: &mut Vec<Violation>)
    ensures
        findings(final(out)@) == findings(old(out)@) + witness_findings(
            index as nat,
            bytes::views(items@),
        ),
{
    let ghost views = bytes::views(items@);
    let ghost before = findings(out@);
    if items.len() == 0 {
        proof {
            assert(before + witness_findings(index as nat, views) =~= before);
        }
        return;
    }
    let last_at: usize = items.len() - 1;
    proof {
        assert(views.last() == items@[last_at as int]@);
    }
    if items.len() >= 2 && items[last_at].len() > 0 && items[last_at][0] == ANNEX_TAG {
        let mut detail = String::from_str("input ");
        text::push_decimal(&mut detail, index);
        detail.append(": witness carries an annex (0x50)");
        report(out, "C5", detail);
    }
    proof {
        assert(findings(out@) =~= before + annex_finding(index as nat, views));
    }
    if items.len() < 2 || !is_control_block(items[last_at].as_slice()) {
        check_items(index, items, items.len(), out);
        proof {
            assert(findings(out@) =~= before + witness_findings(index as nat, views));
        }
        return;
    }
    let size: usize = items[last_at].len();
    if size > MAX_CONTROL_BLOCK {
        report(out, "C6", sized("input ", index, ": control block ", size, " bytes > 257"));
    }
    check_items(index, items, last_at - 1, out);
    proof {
        assert(views[last_at - 1] == items@[last_at - 1]@);
    }
    check_tapscript(items[last_at - 1].as_slice(), out);
    proof {
        assert(findings(out@) =~= before + witness_findings(index as nat, views));
    }
}

/// Adds what is found on the outputs.
fn check_outputs(tx: &Transaction, out: &mut Vec<Violation>)
    ensures
        findings(final(out)@) == findings(old(out)@) + output_findings(
            tx@.output,
            tx@.output.len() as int,
        ),
{
    let ghost before = findings(out@);
    let mut i: usize = 0;
    proof {
        assert(before + output_findings(tx@.output, 0) =~= before);
    }
    while i < tx.output.len()
        invariant
            i <= tx.output@.len(),
            findings(out@) == before + output_findings(tx@.output, i as int),
        decreases tx.output@.len() - i,
    {
        let spk = tx.output[i].script_pubkey.as_slice();
        let len: usize = spk.len();
        proof {
            assert(tx@.output[i as int].script_pubkey == spk@);
        }
        if scripts::is_op_return(spk) {
            if len > MAX_OP_RETURN_SPK {
                report(
                    out,
                    "C2",
                    sized("output ", i, ": OP_RETURN scriptPubKey ", len, " bytes > 83"),
                );
            }
        } else if len > MAX_SPK {
            report(out, "C1", sized("output ", i, ": scriptPubKey ", len, " bytes > 34"));
        }
        proof {
            assert(findings(out@) =~= before + output_findings(tx@.output, i + 1));
        }
        i = i + 1;
    }
}

/// All violations found in `tx`, outputs first. None means that it keeps every rule that can be
/// checked here.
pub fn check(tx: &Transaction) -> (r: Vec<Violation>)
    ensures
        findings(r@) == tx_findings(tx@),
        r@.len() == 0 <==> compliant(tx@),
{
    let mut out: Vec<Violation> = Vec::new();
    check_outputs(tx, &mut out);
    let ghost before = findings(out@);
    let mut i: usize = 0;
    proof {
        assert(before =~= output_findings(tx@.output, tx@.output.len() as int));
        assert(before + input_findings(tx@, 0) =~= before);
    }
    while i < tx.input.len()
        invariant
            i <= tx.input@.len(),
            findings(out@) == before + input_findings(tx@, i as int),
        decreases tx.input@.len() - i,
    {
        let ghost now = findings(out@);
        check_witness(i, &tx.input[i].witness, &mut out);
        proof {
            assert(tx@.input[i as int].witness == bytes::views(tx.input@[i as int].witness@));
            assert(findings(out@) =~= before + input_findings(tx@, i + 1));
        }
        i = i + 1;
    }
    proof {
        law_no_findings_means_compliant(tx@);
        assert(findings(out@).len() == out@.len());
    }
    out
}

/// Whether `tx` keeps every rule; all its violations where it does not.
pub fn validate(tx: &Transaction) -> (r: Result<(), Vec<Violation>>)
    ensures
        match r {
            Ok(()) => compliant(tx@),
            Err(v) => !compliant(tx@) && findings(v@) == tx_findings(tx@),
        },
        r is Ok <==> tx_findings(tx@).len() == 0,
        r matches Err(v) ==> v@.len() == tx_findings(tx@).len() && v@.len() > 0,
{
    let v = check(tx);
    proof {
        assert(findings(v@).len() == v@.len());
    }
    if v.len() == 0 {
        Ok(())
    } else {
        Err(v)
    }
}

} // verus!
