//! The rules of BIP-110, each stated on the bytes of a transaction: what makes the check report it,
//! and that nothing else does.
use crate::bip110;
use crate::bip110::Finding;
use crate::scripts;
use crate::scripts::Ins;
use crate::text;
use crate::tx::TxInView;
use crate::tx::TxOutView;
use crate::tx::TxView;
use vstd::prelude::*;

verus! {

/// What is in a joined list is in one of its parts.
proof fn lemma_contains_add(a: Seq<Finding>, b: Seq<Finding>, f: Finding)
    ensures
        (a + b).contains(f) <==> a.contains(f) || b.contains(f),
{
    if a.contains(f) {
        let k = choose|k: int| 0 <= k < a.len() && a[k] == f;
        assert((a + b)[k] == f);
    }
    if b.contains(f) {
        let k = choose|k: int| 0 <= k < b.len() && b[k] == f;
        assert((a + b)[a.len() + k] == f);
    }
    if (a + b).contains(f) {
        let k = choose|k: int| 0 <= k < (a + b).len() && (a + b)[k] == f;
        if k < a.len() {
            assert(a[k] == f);
        } else {
            assert(b[k - a.len()] == f);
        }
    }
}

proof fn lemma_contains_one(f: Finding, g: Finding)
    ensures
        seq![f].contains(g) <==> f == g,
        !Seq::<Finding>::empty().contains(g),
{
    assert(seq![f][0] == f);
}

proof fn lemma_outputs_contain(output: Seq<TxOutView>, n: int, f: Finding)
    requires
        0 <= n <= output.len(),
    ensures
        bip110::output_findings(output, n).contains(f) <==> exists|i: int|
            0 <= i < n && bip110::output_finding(
                i as nat,
                (#[trigger] output[i]).script_pubkey,
            ).contains(f),
    decreases n,
{
    if n <= 0 {
        assert(!Seq::<Finding>::empty().contains(f));
    } else {
        lemma_outputs_contain(output, n - 1, f);
        lemma_contains_add(
            bip110::output_findings(output, n - 1),
            bip110::output_finding((n - 1) as nat, output[n - 1].script_pubkey),
            f,
        );
        if bip110::output_findings(output, n - 1).contains(f) {
            let i = choose|i: int|
                0 <= i < n - 1 && bip110::output_finding(
                    i as nat,
                    (#[trigger] output[i]).script_pubkey,
                ).contains(f);
            assert(bip110::output_finding(i as nat, output[i].script_pubkey).contains(f));
        }
    }
}

proof fn lemma_list_contains(list: Seq<Ins>, f: Finding)
    ensures
        bip110::list_findings(list).contains(f) <==> exists|i: int|
            0 <= i < list.len() && bip110::ins_finding(#[trigger] list[i]).contains(f),
    decreases list.len(),
{
    if list.len() == 0 {
        assert(!Seq::<Finding>::empty().contains(f));
    } else {
        let front = list.drop_last();
        lemma_list_contains(front, f);
        lemma_contains_add(bip110::list_findings(front), bip110::ins_finding(list.last()), f);
        if bip110::list_findings(front).contains(f) {
            let i = choose|i: int|
                0 <= i < front.len() && bip110::ins_finding(#[trigger] front[i]).contains(f);
            assert(list[i] == front[i]);
        }
        if exists|i: int| 0 <= i < list.len() && bip110::ins_finding(#[trigger] list[i]).contains(f) {
            let i = choose|i: int|
                0 <= i < list.len() && bip110::ins_finding(#[trigger] list[i]).contains(f);
            if i < front.len() {
                assert(front[i] == list[i]);
            }
        }
        assert(list[list.len() - 1] == list.last());
    }
}

proof fn lemma_items_contain(index: nat, items: Seq<Seq<u8>>, n: int, f: Finding)
    requires
        0 <= n <= items.len(),
    ensures
        bip110::item_findings(index, items, n).contains(f) <==> exists|i: int|
            0 <= i < n && (#[trigger] items[i]).len() > 256 && f == (Finding {
                rule: "C4"@,
                detail: "input "@ + text::decimal(index) + ": non-exempt witness item "@
                    + text::decimal(items[i].len()) + " bytes > 256"@,
            }),
    decreases n,
{
    if n <= 0 {
        assert(!Seq::<Finding>::empty().contains(f));
    } else {
        lemma_items_contain(index, items, n - 1, f);
        let g = Finding {
            rule: "C4"@,
            detail: "input "@ + text::decimal(index) + ": non-exempt witness item "@
                + text::decimal(items[n - 1].len()) + " bytes > 256"@,
        };
        lemma_contains_one(g, f);
        let added: Seq<Finding> = if items[n - 1].len() > 256 {
            seq![g]
        } else {
            seq![]
        };
        assert(bip110::item_findings(index, items, n) =~= bip110::item_findings(
            index,
            items,
            n - 1,
        ) + added);
        lemma_contains_add(bip110::item_findings(index, items, n - 1), added, f);
        if bip110::item_findings(index, items, n - 1).contains(f) {
            let i = choose|i: int|
                0 <= i < n - 1 && (#[trigger] items[i]).len() > 256 && f == (Finding {
                    rule: "C4"@,
                    detail: "input "@ + text::decimal(index) + ": non-exempt witness item "@
                        + text::decimal(items[i].len()) + " bytes > 256"@,
                });
            assert(items[i].len() > 256);
        }
    }
}

proof fn lemma_inputs_contain(t: TxView, n: int, f: Finding)
    requires
        0 <= n <= t.input.len(),
    ensures
        bip110::input_findings(t, n).contains(f) <==> exists|j: int|
            0 <= j < n && bip110::witness_findings(
                j as nat,
                (#[trigger] t.input[j]).witness,
            ).contains(f),
    decreases n,
{
    if n <= 0 {
        assert(!Seq::<Finding>::empty().contains(f));
    } else {
        lemma_inputs_contain(t, n - 1, f);
        lemma_contains_add(
            bip110::input_findings(t, n - 1),
            bip110::witness_findings((n - 1) as nat, t.input[n - 1].witness),
            f,
        );
        if bip110::input_findings(t, n - 1).contains(f) {
            let j = choose|j: int|
                0 <= j < n - 1 && bip110::witness_findings(
                    j as nat,
                    (#[trigger] t.input[j]).witness,
                ).contains(f);
            assert(bip110::witness_findings(j as nat, t.input[j].witness).contains(f));
        }
    }
}

proof fn lemma_tx_contains(t: TxView, f: Finding)
    ensures
        bip110::tx_findings(t).contains(f) <==> ({
            ||| exists|i: int|
                0 <= i < t.output.len() && bip110::output_finding(
                    i as nat,
                    (#[trigger] t.output[i]).script_pubkey,
                ).contains(f)
            ||| exists|j: int|
                0 <= j < t.input.len() && bip110::witness_findings(
                    j as nat,
                    (#[trigger] t.input[j]).witness,
                ).contains(f)
        }),
{
    lemma_outputs_contain(t.output, t.output.len() as int, f);
    lemma_inputs_contain(t, t.input.len() as int, f);
    lemma_contains_add(
        bip110::output_findings(t.output, t.output.len() as int),
        bip110::input_findings(t, t.input.len() as int),
        f,
    );
}

/// C1 and C2: an output of more than 34 bytes that does not begin with `OP_RETURN`, and one of more
/// than 83 that does, is reported wherever it stands, with its index and its size.
pub proof fn law_large_output_is_reported(t: TxView, i: int)
    requires
        0 <= i < t.output.len(),
    ensures
        ({
            let spk = t.output[i].script_pubkey;
            &&& spk.len() > 34 && spk[0] != 0x6a ==> !bip110::compliant(t) && bip110::tx_findings(
                t,
            ).contains(
                (Finding {
                    rule: "C1"@,
                    detail: "output "@ + text::decimal(i as nat) + ": scriptPubKey "@
                        + text::decimal(spk.len()) + " bytes > 34"@,
                }),
            )
            &&& spk.len() > 83 && spk[0] == 0x6a ==> !bip110::compliant(t) && bip110::tx_findings(
                t,
            ).contains(
                (Finding {
                    rule: "C2"@,
                    detail: "output "@ + text::decimal(i as nat) + ": OP_RETURN scriptPubKey "@
                        + text::decimal(spk.len()) + " bytes > 83"@,
                }),
            )
        }),
{
    let spk = t.output[i].script_pubkey;
    let c1 = Finding {
        rule: "C1"@,
        detail: "output "@ + text::decimal(i as nat) + ": scriptPubKey "@ + text::decimal(spk.len())
            + " bytes > 34"@,
    };
    let c2 = Finding {
        rule: "C2"@,
        detail: "output "@ + text::decimal(i as nat) + ": OP_RETURN scriptPubKey "@ + text::decimal(
            spk.len(),
        ) + " bytes > 83"@,
    };
    lemma_contains_one(c1, c1);
    lemma_contains_one(c2, c2);
    lemma_tx_contains(t, c1);
    lemma_tx_contains(t, c2);
    if spk.len() > 34 && spk[0] != 0x6a {
        assert(bip110::output_finding(i as nat, spk) =~= seq![c1]);
    }
    if spk.len() > 83 && spk[0] == 0x6a {
        assert(bip110::output_finding(i as nat, spk) =~= seq![c2]);
    }
}

/// C3, C7 and C8: of the leaf of a script-path spend every instruction counts, wherever it stands and
/// whatever stands in front of it. A push of more than 256 bytes, an opcode that BIP342 makes
/// unconditionally successful and an `OP_IF` or `OP_NOTIF` are each reported, and so is a leaf that
/// ends in the middle of an instruction.
pub proof fn law_every_instruction_of_a_leaf_counts(t: TxView, j: int, k: int)
    requires
        0 <= j < t.input.len(),
        t.input[j].witness.len() >= 2,
        t.input[j].witness.last().len() >= 33,
        (t.input[j].witness.last().len() - 33) % 32 == 0,
        t.input[j].witness.last()[0] == 0xc0 || t.input[j].witness.last()[0] == 0xc1,
    ensures
        ({
            let w = t.input[j].witness;
            let leaf = scripts::parse(w[w.len() - 2]);
            let found = bip110::tx_findings(t);
            &&& 0 <= k < leaf.0.len() ==> match leaf.0[k] {
                Ins::Push(d) => d.len() > 256 ==> !bip110::compliant(t) && found.contains(
                    (Finding {
                        rule: "C3"@,
                        detail: "tapscript push payload "@ + text::decimal(d.len())
                            + " bytes > 256"@,
                    }),
                ),
                Ins::Op(b) => {
                    &&& b == 0x63 || b == 0x64 ==> !bip110::compliant(t) && found.contains(
                        (Finding {
                            rule: "C8"@,
                            detail: "tapscript contains OP_IF/OP_NOTIF (0x"@ + text::hex_byte(b)
                                + ")"@,
                        }),
                    )
                    &&& (b == 80 || b == 98 || 126 <= b <= 129 || 131 <= b <= 134 || 137 <= b <= 138
                        || 141 <= b <= 142 || 149 <= b <= 153 || 187 <= b <= 254)
                        ==> !bip110::compliant(t) && found.contains(
                        (Finding {
                            rule: "C7"@,
                            detail: "tapscript contains OP_SUCCESS opcode 0x"@ + text::hex_byte(b),
                        }),
                    )
                },
            }
            &&& !leaf.1 ==> !bip110::compliant(t) && found.contains(
                (Finding {
                    rule: "C7"@,
                    detail: "malformed tapscript: unexpected end of script"@,
                }),
            )
        }),
{
    let w = t.input[j].witness;
    let s = w[w.len() - 2];
    let leaf = scripts::parse(s);
    assert(bip110::script_path(w));
    if 0 <= k < leaf.0.len() && bip110::ins_finding(leaf.0[k]).len() > 0 {
        let f = bip110::ins_finding(leaf.0[k])[0];
        assert(bip110::ins_finding(leaf.0[k]).contains(f));
        lemma_list_contains(leaf.0, f);
        lemma_leaf_reaches_tx(t, j, f);
        assert(!bip110::compliant_instruction(leaf.0[k]));
        assert(!bip110::compliant_witness(w));
    }
    if !leaf.1 {
        let f = Finding {
            rule: "C7"@,
            detail: "malformed tapscript: unexpected end of script"@,
        };
        lemma_contains_one(f, f);
        lemma_leaf_reaches_tx(t, j, f);
        assert(!bip110::compliant_witness(w));
    }
}

/// What is found on the leaf of an input is found on the transaction.
proof fn lemma_leaf_reaches_tx(t: TxView, j: int, f: Finding)
    requires
        0 <= j < t.input.len(),
        bip110::script_path(t.input[j].witness),
        ({
            let w = t.input[j].witness;
            let leaf = scripts::parse(w[w.len() - 2]);
            ||| bip110::list_findings(leaf.0).contains(f)
            ||| !leaf.1 && f == (Finding {
                rule: "C7"@,
                detail: "malformed tapscript: unexpected end of script"@,
            })
        }),
    ensures
        bip110::tx_findings(t).contains(f),
{
    let w = t.input[j].witness;
    lemma_witness_contains(j as nat, w, f);
    lemma_tx_contains(t, f);
    assert(bip110::witness_findings(j as nat, t.input[j].witness).contains(f));
}

proof fn lemma_witness_contains(index: nat, w: Seq<Seq<u8>>, f: Finding)
    ensures
        bip110::script_path(w) ==> (bip110::witness_findings(index, w).contains(f) <==> ({
            let leaf = scripts::parse(w[w.len() - 2]);
            ||| bip110::annex_finding(index, w).contains(f)
            ||| bip110::control_block_finding(index, w.last()).contains(f)
            ||| bip110::item_findings(index, w, w.len() - 2).contains(f)
            ||| bip110::list_findings(leaf.0).contains(f)
            ||| !leaf.1 && f == (Finding {
                rule: "C7"@,
                detail: "malformed tapscript: unexpected end of script"@,
            })
        })),
        !bip110::script_path(w) && w.len() > 0 ==> (bip110::witness_findings(index, w).contains(f)
            <==> bip110::annex_finding(index, w).contains(f) || bip110::item_findings(
            index,
            w,
            w.len() as int,
        ).contains(f)),
        w.len() == 0 ==> !bip110::witness_findings(index, w).contains(f),
{
    let a = bip110::annex_finding(index, w);
    if bip110::script_path(w) {
        let c = bip110::control_block_finding(index, w.last());
        let i = bip110::item_findings(index, w, w.len() - 2);
        let s = w[w.len() - 2];
        let cut = Finding {
            rule: "C7"@,
            detail: "malformed tapscript: unexpected end of script"@,
        };
        let tail: Seq<Finding> = if scripts::parse(s).1 {
            seq![]
        } else {
            seq![cut]
        };
        lemma_contains_one(cut, f);
        lemma_contains_add(bip110::list_findings(scripts::parse(s).0), tail, f);
        assert(bip110::script_findings(s) =~= bip110::list_findings(scripts::parse(s).0) + tail);
        lemma_contains_add(a, c, f);
        lemma_contains_add(a + c, i, f);
        lemma_contains_add(a + c + i, bip110::script_findings(s), f);
    } else if w.len() > 0 {
        lemma_contains_add(a, bip110::item_findings(index, w, w.len() as int), f);
    } else {
        assert(!Seq::<Finding>::empty().contains(f));
    }
}

/// C4, C5 and C6: on every input, a last item of two or more that begins with 0x50 is reported as an
/// annex, a control block of more than 257 bytes as such, and every other item of more than 256 bytes
/// as an item. Only the leaf and the control block of a script-path spend are no such items.
pub proof fn law_large_witness_items_are_reported(t: TxView, j: int, k: int)
    requires
        0 <= j < t.input.len(),
    ensures
        ({
            let w = t.input[j].witness;
            let path = w.len() >= 2 && w.last().len() >= 33 && (w.last().len() - 33) % 32 == 0 && (
            w.last()[0] == 0xc0 || w.last()[0] == 0xc1);
            let found = bip110::tx_findings(t);
            &&& w.len() >= 2 && w.last().len() > 0 && w.last()[0] == 0x50 ==> !bip110::compliant(t)
                && found.contains(
                (Finding {
                    rule: "C5"@,
                    detail: "input "@ + text::decimal(j as nat)
                        + ": witness carries an annex (0x50)"@,
                }),
            )
            &&& path && w.last().len() > 257 ==> !bip110::compliant(t) && found.contains(
                (Finding {
                    rule: "C6"@,
                    detail: "input "@ + text::decimal(j as nat) + ": control block "@
                        + text::decimal(w.last().len()) + " bytes > 257"@,
                }),
            )
            &&& 0 <= k < w.len() && !(path && k >= w.len() - 2) && w[k].len() > 256
                ==> !bip110::compliant(t) && found.contains(
                (Finding {
                    rule: "C4"@,
                    detail: "input "@ + text::decimal(j as nat) + ": non-exempt witness item "@
                        + text::decimal(w[k].len()) + " bytes > 256"@,
                }),
            )
        }),
{
    let w = t.input[j].witness;
    let path = bip110::script_path(w);
    let c5 = Finding {
        rule: "C5"@,
        detail: "input "@ + text::decimal(j as nat) + ": witness carries an annex (0x50)"@,
    };
    let c6 = Finding {
        rule: "C6"@,
        detail: "input "@ + text::decimal(j as nat) + ": control block "@ + text::decimal(
            w.last().len(),
        ) + " bytes > 257"@,
    };
    if bip110::has_annex(w) {
        assert(bip110::annex_finding(j as nat, w) =~= seq![c5]);
        lemma_contains_one(c5, c5);
        lemma_witness_contains(j as nat, w, c5);
        lemma_tx_contains(t, c5);
        assert(bip110::witness_findings(j as nat, t.input[j].witness).contains(c5));
        assert(!bip110::compliant_witness(w));
    }
    if path && w.last().len() > 257 {
        assert(bip110::control_block_finding(j as nat, w.last()) =~= seq![c6]);
        lemma_contains_one(c6, c6);
        lemma_witness_contains(j as nat, w, c6);
        lemma_tx_contains(t, c6);
        assert(bip110::witness_findings(j as nat, t.input[j].witness).contains(c6));
        assert(!bip110::compliant_witness(w));
    }
    if 0 <= k < w.len() && !(path && k >= w.len() - 2) && w[k].len() > 256 {
        let c4 = Finding {
            rule: "C4"@,
            detail: "input "@ + text::decimal(j as nat) + ": non-exempt witness item "@
                + text::decimal(w[k].len()) + " bytes > 256"@,
        };
        let n: int = if path {
            w.len() - 2
        } else {
            w.len() as int
        };
        lemma_items_contain(j as nat, w, n, c4);
        lemma_witness_contains(j as nat, w, c4);
        lemma_tx_contains(t, c4);
        assert(bip110::witness_findings(j as nat, t.input[j].witness).contains(c4));
        assert(!bip110::items_within_cap(w, n));
        assert(!bip110::compliant_witness(w));
    }
}

proof fn lemma_list_exact(list: Seq<Ins>, bad: spec_fn(Ins) -> bool, report: spec_fn(Ins) -> Finding)
    requires
        forall|i: Ins| #[trigger] bip110::ins_finding(i) == (if bad(i) {
            seq![report(i)]
        } else {
            Seq::empty()
        }),
    ensures
        bip110::list_findings(list) == list.filter(bad).map_values(report),
    decreases list.len(),
{
    reveal(Seq::filter);
    if list.len() > 0 {
        lemma_list_exact(list.drop_last(), bad, report);
        let f = bip110::ins_finding(list.last());
        assert(bip110::list_findings(list) =~= list.filter(bad).map_values(report));
    } else {
        assert(bip110::list_findings(list) =~= list.filter(bad).map_values(report));
    }
}

proof fn lemma_items_exact(
    index: nat,
    items: Seq<Seq<u8>>,
    n: int,
    large: spec_fn(Seq<u8>) -> bool,
    report: spec_fn(Seq<u8>) -> Finding,
)
    requires
        0 <= n <= items.len(),
        forall|i: Seq<u8>| #[trigger] large(i) <==> i.len() > 256,
        forall|i: Seq<u8>| #[trigger] report(i) == (Finding {
            rule: "C4"@,
            detail: "input "@ + text::decimal(index) + ": non-exempt witness item "@ + text::decimal(
                i.len(),
            ) + " bytes > 256"@,
        }),
    ensures
        bip110::item_findings(index, items, n) == items.take(n).filter(large).map_values(report),
    decreases n,
{
    reveal(Seq::filter);
    if n > 0 {
        lemma_items_exact(index, items, n - 1, large, report);
        assert(items.take(n).drop_last() =~= items.take(n - 1));
        assert(items.take(n).last() == items[n - 1]);
        assert(report(items[n - 1]).rule == "C4"@);
        assert(bip110::item_findings(index, items, n) =~= items.take(n).filter(large).map_values(
            report,
        ));
    } else {
        assert(bip110::item_findings(index, items, n) =~= items.take(n).filter(large).map_values(
            report,
        ));
    }
}

/// What is found on a transaction is what is found on its outputs and then what is found on its inputs.
/// Without either nothing is found, and an output appended adds its own finding behind the others, with
/// its index and its size, where it is too large, and none where it is not.
pub proof fn law_an_output_adds_its_own_finding(t: TxView, o: TxOutView)
    ensures
        bip110::tx_findings(t) == bip110::tx_findings(TxView { input: Seq::empty(), ..t })
            + bip110::tx_findings(TxView { output: Seq::empty(), ..t }),
        t.input.len() == 0 && t.output.len() == 0 ==> bip110::tx_findings(t).len() == 0,
        t.input.len() == 0 ==> bip110::tx_findings(TxView { output: t.output.push(o), ..t })
            == bip110::tx_findings(t) + ({
            let spk = o.script_pubkey;
            let head = "output "@ + text::decimal(t.output.len());
            if spk.len() > 83 && spk[0] == 0x6a {
                seq![
                    Finding {
                        rule: "C2"@,
                        detail: head + ": OP_RETURN scriptPubKey "@ + text::decimal(spk.len())
                            + " bytes > 83"@,
                    },
                ]
            } else if spk.len() > 34 && spk[0] != 0x6a {
                seq![
                    Finding {
                        rule: "C1"@,
                        detail: head + ": scriptPubKey "@ + text::decimal(spk.len())
                            + " bytes > 34"@,
                    },
                ]
            } else {
                Seq::empty()
            }
        }),
{
    let more = TxView { output: t.output.push(o), ..t };
    let no_outputs = TxView { output: Seq::empty(), ..t };
    lemma_outputs_frame(t.output, o, t.output.len() as int);
    lemma_inputs_frame(t, more, t.input.len() as int);
    lemma_inputs_frame(t, no_outputs, t.input.len() as int);
    assert(more.output[t.output.len() as int] == o);
    assert(bip110::tx_findings(t) =~= bip110::tx_findings(TxView { input: Seq::empty(), ..t })
        + bip110::tx_findings(no_outputs));
    if t.input.len() == 0 {
        assert(bip110::tx_findings(more) =~= bip110::tx_findings(t) + bip110::output_finding(
            t.output.len(),
            o.script_pubkey,
        ));
    }
}

proof fn lemma_outputs_frame(output: Seq<TxOutView>, o: TxOutView, n: int)
    requires
        0 <= n <= output.len(),
    ensures
        bip110::output_findings(output.push(o), n) == bip110::output_findings(output, n),
    decreases n,
{
    if n > 0 {
        lemma_outputs_frame(output, o, n - 1);
        assert(output.push(o)[n - 1] == output[n - 1]);
    }
}

proof fn lemma_inputs_frame(t: TxView, more: TxView, n: int)
    requires
        0 <= n <= t.input.len() <= more.input.len(),
        forall|j: int| 0 <= j < t.input.len() ==> #[trigger] more.input[j] == t.input[j],
    ensures
        bip110::input_findings(more, n) == bip110::input_findings(t, n),
    decreases n,
{
    if n > 0 {
        lemma_inputs_frame(t, more, n - 1);
        assert(more.input[n - 1] == t.input[n - 1]);
    }
}

/// An input appended to a transaction adds its own findings behind those there are: one for an annex,
/// one for a control block that is too large, one for each item that is too large, in order, one for
/// each instruction of a leaf that is not allowed, in order, and one for a leaf that is cut short.
pub proof fn law_an_input_adds_its_own_findings(t: TxView, x: TxInView)
    ensures
        ({
            let w = x.witness;
            let path = w.len() >= 2 && w.last().len() >= 33 && (w.last().len() - 33) % 32 == 0 && (
            w.last()[0] == 0xc0 || w.last()[0] == 0xc1);
            let head = "input "@ + text::decimal(t.input.len());
            let large = |i: Seq<u8>| i.len() > 256;
            let large_report = |i: Seq<u8>|
                Finding {
                    rule: "C4"@,
                    detail: head + ": non-exempt witness item "@ + text::decimal(i.len()) + " bytes > 256"@,
                };
            let bad = |i: Ins|
                match i {
                    Ins::Push(d) => d.len() > 256,
                    Ins::Op(b) => b == 0x63 || b == 0x64 || b == 80 || b == 98 || 126 <= b <= 129 || 131 <= b
                        <= 134 || 137 <= b <= 138 || 141 <= b <= 142 || 149 <= b <= 153 || 187 <= b <= 254,
                };
            let bad_report = |i: Ins|
                match i {
                    Ins::Push(d) => Finding {
                        rule: "C3"@,
                        detail: "tapscript push payload "@ + text::decimal(d.len()) + " bytes > 256"@,
                    },
                    Ins::Op(b) => if b == 0x63 || b == 0x64 {
                        Finding {
                            rule: "C8"@,
                            detail: "tapscript contains OP_IF/OP_NOTIF (0x"@ + text::hex_byte(b) + ")"@,
                        }
                    } else {
                        Finding {
                            rule: "C7"@,
                            detail: "tapscript contains OP_SUCCESS opcode 0x"@ + text::hex_byte(b),
                        }
                    },
                };
            let annex = if w.len() >= 2 && w.last().len() > 0 && w.last()[0] == 0x50 {
                seq![Finding { rule: "C5"@, detail: head + ": witness carries an annex (0x50)"@ }]
            } else {
                Seq::empty()
            };
            let block = if w.last().len() > 257 {
                seq![
                    Finding {
                        rule: "C6"@,
                        detail: head + ": control block "@ + text::decimal(w.last().len())
                            + " bytes > 257"@,
                    },
                ]
            } else {
                Seq::empty()
            };
            let before = bip110::tx_findings(t);
            let after = bip110::tx_findings(TxView { input: t.input.push(x), ..t });
            if path {
                let leaf = scripts::parse(w[w.len() - 2]);
                let cut = if leaf.1 {
                    Seq::empty()
                } else {
                    seq![
                        Finding {
                            rule: "C7"@,
                            detail: "malformed tapscript: unexpected end of script"@,
                        },
                    ]
                };
                after == before + annex + block + w.take(w.len() - 2).filter(large).map_values(
                    large_report,
                ) + leaf.0.filter(bad).map_values(bad_report) + cut
            } else {
                after == before + annex + w.filter(large).map_values(large_report)
            }
        }),
{
    let more = TxView { input: t.input.push(x), ..t };
    let w = x.witness;
    let n = t.input.len() as int;
    let head = "input "@ + text::decimal(t.input.len());
    let large = |i: Seq<u8>| i.len() > 256;
    let large_report = |i: Seq<u8>|
        Finding {
            rule: "C4"@,
            detail: head + ": non-exempt witness item "@ + text::decimal(i.len()) + " bytes > 256"@,
        };
    let bad = |i: Ins|
        match i {
            Ins::Push(d) => d.len() > 256,
            Ins::Op(b) => b == 0x63 || b == 0x64 || b == 80 || b == 98 || 126 <= b <= 129 || 131 <= b
                <= 134 || 137 <= b <= 138 || 141 <= b <= 142 || 149 <= b <= 153 || 187 <= b <= 254,
        };
    let bad_report = |i: Ins|
        match i {
            Ins::Push(d) => Finding {
                rule: "C3"@,
                detail: "tapscript push payload "@ + text::decimal(d.len()) + " bytes > 256"@,
            },
            Ins::Op(b) => if b == 0x63 || b == 0x64 {
                Finding {
                    rule: "C8"@,
                    detail: "tapscript contains OP_IF/OP_NOTIF (0x"@ + text::hex_byte(b) + ")"@,
                }
            } else {
                Finding {
                    rule: "C7"@,
                    detail: "tapscript contains OP_SUCCESS opcode 0x"@ + text::hex_byte(b),
                }
            },
        };
    let annex = if w.len() >= 2 && w.last().len() > 0 && w.last()[0] == 0x50 {
        seq![Finding { rule: "C5"@, detail: head + ": witness carries an annex (0x50)"@ }]
    } else {
        Seq::empty()
    };
    let block = if w.last().len() > 257 {
        seq![
            Finding {
                rule: "C6"@,
                detail: head + ": control block "@ + text::decimal(w.last().len())
                    + " bytes > 257"@,
            },
        ]
    } else {
        Seq::empty()
    };
    lemma_inputs_frame(t, more, n);
    assert(more.input[n] == x);
    let before = bip110::tx_findings(t);
    let after = bip110::tx_findings(more);
    assert(bip110::input_findings(more, n + 1) == bip110::input_findings(t, n)
        + bip110::witness_findings(n as nat, w));
    assert(after =~= before + bip110::witness_findings(n as nat, w));
    assert(annex =~= bip110::annex_finding(n as nat, w));
    assert(block =~= bip110::control_block_finding(n as nat, w.last()));
    assert forall|i: Ins| #[trigger] bip110::ins_finding(i) == (if bad(i) {
        seq![bad_report(i)]
    } else {
        Seq::empty()
    }) by {}
    if w.len() == 0 {
        reveal(Seq::filter);
        assert(w.filter(large).map_values(large_report) =~= Seq::<Finding>::empty());
        assert(after =~= before + annex + w.filter(large).map_values(large_report));
    } else if bip110::script_path(w) {
        let leaf = scripts::parse(w[w.len() - 2]);
        lemma_items_exact(n as nat, w, w.len() - 2, large, large_report);
        lemma_list_exact(leaf.0, bad, bad_report);
        let cut = if leaf.1 {
            Seq::empty()
        } else {
            seq![
                Finding {
                    rule: "C7"@,
                    detail: "malformed tapscript: unexpected end of script"@,
                },
            ]
        };
        assert(after =~= before + annex + block + w.take(w.len() - 2).filter(large).map_values(
            large_report,
        ) + leaf.0.filter(bad).map_values(bad_report) + cut);
    } else {
        lemma_items_exact(n as nat, w, w.len() as int, large, large_report);
        assert(w.take(w.len() as int) =~= w);
        assert(after =~= before + annex + w.filter(large).map_values(large_report));
    }
}

/// What is found on outputs comes in front of what is found on inputs.
pub proof fn law_outputs_are_reported_first(t: TxView, a: int, b: int)
    requires
        0 <= a < b < bip110::tx_findings(t).len(),
        bip110::tx_findings(t)[b].rule == "C1"@ || bip110::tx_findings(t)[b].rule == "C2"@,
    ensures
        bip110::tx_findings(t)[a].rule == "C1"@ || bip110::tx_findings(t)[a].rule == "C2"@,
{
    let found = bip110::tx_findings(t);
    let outs = bip110::output_findings(t.output, t.output.len() as int);
    let ins = bip110::input_findings(t, t.input.len() as int);
    lemma_rules_differ();
    if b >= outs.len() {
        let f = ins[b - outs.len()];
        assert(found[b] == f);
        assert(ins.contains(f));
        lemma_inputs_contain(t, t.input.len() as int, f);
        let j = choose|j: int|
            0 <= j < t.input.len() && bip110::witness_findings(
                j as nat,
                (#[trigger] t.input[j]).witness,
            ).contains(f);
        let w = t.input[j].witness;
        lemma_witness_contains(j as nat, w, f);
        lemma_items_contain(j as nat, w, w.len() as int, f);
        if bip110::script_path(w) {
            lemma_items_contain(j as nat, w, w.len() - 2, f);
            let l = scripts::parse(w[w.len() - 2]).0;
            lemma_list_contains(l, f);
            if bip110::list_findings(l).contains(f) {
                let k = choose|k: int|
                    0 <= k < l.len() && bip110::ins_finding(#[trigger] l[k]).contains(f);
                assert(bip110::ins_finding(l[k]).contains(f));
            }
        }
        assert(f.rule != "C1"@ && f.rule != "C2"@);
    }
    let f = outs[a];
    assert(found[a] == f);
    assert(outs.contains(f));
    lemma_outputs_contain(t.output, t.output.len() as int, f);
}

/// The names of the rules are different texts.
proof fn lemma_rules_differ()
    ensures
        "C3"@ != "C1"@ && "C3"@ != "C2"@,
        "C4"@ != "C1"@ && "C4"@ != "C2"@,
        "C5"@ != "C1"@ && "C5"@ != "C2"@,
        "C6"@ != "C1"@ && "C6"@ != "C2"@,
        "C7"@ != "C1"@ && "C7"@ != "C2"@,
        "C8"@ != "C1"@ && "C8"@ != "C2"@,
{
    reveal_strlit("C1");
    reveal_strlit("C2");
    reveal_strlit("C3");
    reveal_strlit("C4");
    reveal_strlit("C5");
    reveal_strlit("C6");
    reveal_strlit("C7");
    reveal_strlit("C8");
    assert("C1"@[1] == '1');
    assert("C2"@[1] == '2');
    assert("C3"@[1] == '3');
    assert("C4"@[1] == '4');
    assert("C5"@[1] == '5');
    assert("C6"@[1] == '6');
    assert("C7"@[1] == '7');
    assert("C8"@[1] == '8');
}

/// Whatever the check reports is there: a report names one of seven rules, and an output, an input or
/// an instruction of a leaf that breaks it.
pub proof fn law_reports_are_true(t: TxView, f: Finding)
    requires
        bip110::tx_findings(t).contains(f),
    ensures
        ({
            ||| f.rule == "C1"@ && exists|i: int|
                0 <= i < t.output.len() && (#[trigger] t.output[i]).script_pubkey.len() > 34
                    && t.output[i].script_pubkey[0] != 0x6a
            ||| f.rule == "C2"@ && exists|i: int|
                0 <= i < t.output.len() && (#[trigger] t.output[i]).script_pubkey.len() > 83
                    && t.output[i].script_pubkey[0] == 0x6a
            ||| exists|j: int|
                0 <= j < t.input.len() && ({
                    let w = (#[trigger] t.input[j]).witness;
                    ||| f.rule == "C5"@ && w.len() >= 2 && w.last().len() > 0 && w.last()[0] == 0x50
                    ||| f.rule == "C6"@ && w.len() >= 2 && w.last().len() > 257 && (w.last()[0] == 0xc0
                        || w.last()[0] == 0xc1)
                    ||| f.rule == "C4"@ && exists|k: int|
                        0 <= k < w.len() && (#[trigger] w[k]).len() > 256
                    ||| w.len() >= 2 && w.last().len() >= 33 && (w.last()[0] == 0xc0
                        || w.last()[0] == 0xc1) && ({
                        let leaf = scripts::parse(w[w.len() - 2]);
                        ||| f.rule == "C3"@ && exists|k: int|
                            0 <= k < leaf.0.len() && (#[trigger] leaf.0[k]) is Push
                                && leaf.0[k]->Push_0.len() > 256
                        ||| f.rule == "C8"@ && exists|k: int|
                            0 <= k < leaf.0.len() && ((#[trigger] leaf.0[k]) == Ins::Op(0x63)
                                || leaf.0[k] == Ins::Op(0x64))
                        ||| f.rule == "C7"@ && (!leaf.1 || exists|k: int|
                            0 <= k < leaf.0.len() && (#[trigger] leaf.0[k]) is Op && ({
                                let b = leaf.0[k]->Op_0;
                                b == 80 || b == 98 || 126 <= b <= 129 || 131 <= b <= 134 || 137 <= b
                                    <= 138 || 141 <= b <= 142 || 149 <= b <= 153 || 187 <= b <= 254
                            }))
                    })
                })
        }),
{
    lemma_tx_contains(t, f);
    if exists|i: int|
        0 <= i < t.output.len() && bip110::output_finding(
            i as nat,
            (#[trigger] t.output[i]).script_pubkey,
        ).contains(f) {
        let i = choose|i: int|
            0 <= i < t.output.len() && bip110::output_finding(
                i as nat,
                (#[trigger] t.output[i]).script_pubkey,
            ).contains(f);
        let spk = t.output[i].script_pubkey;
        assert(spk.len() > 34);
    } else {
        let j = choose|j: int|
            0 <= j < t.input.len() && bip110::witness_findings(
                j as nat,
                (#[trigger] t.input[j]).witness,
            ).contains(f);
        let w = t.input[j].witness;
        lemma_witness_contains(j as nat, w, f);
        lemma_items_contain(j as nat, w, w.len() as int, f);
        if bip110::script_path(w) {
            let leaf = scripts::parse(w[w.len() - 2]);
            lemma_items_contain(j as nat, w, w.len() - 2, f);
            lemma_list_contains(leaf.0, f);
            if bip110::list_findings(leaf.0).contains(f) {
                let k = choose|k: int|
                    0 <= k < leaf.0.len() && bip110::ins_finding(#[trigger] leaf.0[k]).contains(f);
                assert(bip110::ins_finding(leaf.0[k]).len() == 1);
                match leaf.0[k] {
                    Ins::Push(d) => {
                        assert(leaf.0[k]->Push_0.len() > 256);
                    },
                    Ins::Op(b) => {
                        assert(leaf.0[k]->Op_0 == b);
                    },
                }
            }
        }
    }
}

/// A transaction is accepted exactly where all its bytes are within the limits: scriptPubKeys of at
/// most 34 bytes, or 83 behind `OP_RETURN`; no annex; witness items of at most 256 bytes, but for the
/// leaf and the control block of a script-path spend; control blocks of at most 257; and leaves that
/// can be read to their end and hold neither a push of more than 256 bytes nor a forbidden opcode.
pub proof fn law_accepted_exactly_within_the_limits(t: TxView)
    ensures
        bip110::compliant(t) <==> ({
            &&& forall|i: int|
                0 <= i < t.output.len() ==> (#[trigger] t.output[i]).script_pubkey.len() <= 34 || (
                t.output[i].script_pubkey[0] == 0x6a && t.output[i].script_pubkey.len() <= 83)
            &&& forall|j: int|
                0 <= j < t.input.len() ==> ({
                    let w = (#[trigger] t.input[j]).witness;
                    let path = w.len() >= 2 && w.last().len() >= 33 && (w.last().len() - 33) % 32
                        == 0 && (w.last()[0] == 0xc0 || w.last()[0] == 0xc1);
                    &&& !(w.len() >= 2 && w.last().len() > 0 && w.last()[0] == 0x50)
                    &&& forall|k: int|
                        0 <= k < w.len() && !(path && k >= w.len() - 2) ==> (#[trigger] w[k]).len()
                            <= 256
                    &&& path ==> w.last().len() <= 257 && scripts::parse(w[w.len() - 2]).1 && (
                    forall|k: int|
                        0 <= k < scripts::parse(w[w.len() - 2]).0.len() ==> match #[trigger] scripts::parse(
                            w[w.len() - 2],
                        ).0[k] {
                            Ins::Push(d) => d.len() <= 256,
                            Ins::Op(b) => b != 0x63 && b != 0x64 && !(b == 80 || b == 98 || 126 <= b
                                <= 129 || 131 <= b <= 134 || 137 <= b <= 138 || 141 <= b <= 142
                                || 149 <= b <= 153 || 187 <= b <= 254),
                        })
                })
        }),
        bip110::compliant(t) <==> bip110::tx_findings(t).len() == 0,
{
    bip110::law_no_findings_means_compliant(t);
    let outputs = forall|i: int|
        0 <= i < t.output.len() ==> (#[trigger] t.output[i]).script_pubkey.len() <= 34 || (
        t.output[i].script_pubkey[0] == 0x6a && t.output[i].script_pubkey.len() <= 83);
    assert(outputs <==> (forall|i: int|
        0 <= i < t.output.len() ==> bip110::compliant_output(
            (#[trigger] t.output[i]).script_pubkey,
        ))) by {
        assert forall|i: int| 0 <= i < t.output.len() implies (bip110::compliant_output(
            (#[trigger] t.output[i]).script_pubkey,
        ) <==> (t.output[i].script_pubkey.len() <= 34 || (t.output[i].script_pubkey[0] == 0x6a
            && t.output[i].script_pubkey.len() <= 83))) by {}
    }
    assert forall|j: int| 0 <= j < t.input.len() implies (bip110::compliant_witness(
        (#[trigger] t.input[j]).witness,
    ) <==> ({
        let w = t.input[j].witness;
        let path = w.len() >= 2 && w.last().len() >= 33 && (w.last().len() - 33) % 32 == 0 && (
        w.last()[0] == 0xc0 || w.last()[0] == 0xc1);
        &&& !(w.len() >= 2 && w.last().len() > 0 && w.last()[0] == 0x50)
        &&& forall|k: int|
            0 <= k < w.len() && !(path && k >= w.len() - 2) ==> (#[trigger] w[k]).len() <= 256
        &&& path ==> w.last().len() <= 257 && scripts::parse(w[w.len() - 2]).1 && (forall|k: int|
            0 <= k < scripts::parse(w[w.len() - 2]).0.len() ==> match #[trigger] scripts::parse(
                w[w.len() - 2],
            ).0[k] {
                Ins::Push(d) => d.len() <= 256,
                Ins::Op(b) => b != 0x63 && b != 0x64 && !(b == 80 || b == 98 || 126 <= b <= 129
                    || 131 <= b <= 134 || 137 <= b <= 138 || 141 <= b <= 142 || 149 <= b <= 153
                    || 187 <= b <= 254),
            })
    })) by {
        let w = t.input[j].witness;
        let path = bip110::script_path(w);
        if path {
            let l = scripts::parse(w[w.len() - 2]).0;
            assert(bip110::compliant_list(l) <==> (forall|k: int|
                0 <= k < l.len() ==> match #[trigger] l[k] {
                    Ins::Push(d) => d.len() <= 256,
                    Ins::Op(b) => b != 0x63 && b != 0x64 && !(b == 80 || b == 98 || 126 <= b <= 129
                        || 131 <= b <= 134 || 137 <= b <= 138 || 141 <= b <= 142 || 149 <= b <= 153
                        || 187 <= b <= 254),
                })) by {
                assert forall|k: int| 0 <= k < l.len() implies (bip110::compliant_instruction(
                    #[trigger] l[k],
                ) <==> match l[k] {
                    Ins::Push(d) => d.len() <= 256,
                    Ins::Op(b) => b != 0x63 && b != 0x64 && !(b == 80 || b == 98 || 126 <= b <= 129
                        || 131 <= b <= 134 || 137 <= b <= 138 || 141 <= b <= 142 || 149 <= b <= 153
                        || 187 <= b <= 254),
                }) by {}
            }
        }
    }
}

} // verus!
