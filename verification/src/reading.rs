//! What each channel reads from a transaction, whoever made it.
use crate::bytes;
use crate::channels;
use crate::channels::Channel;
use crate::channels::control_block;
use crate::channels::fake_key;
use crate::channels::op_return;
use crate::channels::p2wsh_envelope;
use crate::channels::stego;
use crate::error::PackError;
use crate::scripts;
use crate::scripts::Ins;
use crate::tapscript;
use crate::tx::TxOutView;
use crate::tx::TxView;
use vstd::prelude::*;

verus! {

/// On the tapleaf channel what is read is what the last but one witness item of the first input pushes
/// behind the first push of the three bytes `ord`, all of it; where that is nothing, or they are not
/// pushed, it is all that the item pushes, provided that the item can be read to its end. `k` is where
/// the three bytes are pushed first.
pub proof fn law_tapleaf_reading(t: TxView, k: int)
    ensures
        t.input.len() == 0 ==> channels::decoded(Channel::Tapleaf, t) == Err::<Seq<u8>, PackError>(
            PackError::NoInputs,
        ),
        t.input.len() > 0 ==> {
            let w = t.input[0].witness;
            let (list, whole) = scripts::parse(w[w.len() - 2]);
            let id = Ins::Push(seq![0x6fu8, 0x72u8, 0x64u8]);
            let found = channels::decoded(Channel::Tapleaf, t);
            &&& w.len() < 2 ==> found == Err::<Seq<u8>, PackError>(
                PackError::NoScriptPath(w.len() as usize),
            )
            &&& w.len() >= 2 && 0 <= k <= list.len() && (forall|i: int|
                0 <= i < k ==> #[trigger] list[i] != id) && (k < list.len() ==> list[k] == id)
                ==> if k < list.len() && scripts::pushed_bytes(list.skip(k + 1)).len() > 0 {
                found == Ok::<Seq<u8>, PackError>(scripts::pushed_bytes(list.skip(k + 1)))
            } else if whole {
                found == Ok::<Seq<u8>, PackError>(scripts::pushed_bytes(list))
            } else {
                found == Err::<Seq<u8>, PackError>(PackError::MalformedScript)
            }
        },
{
    if t.input.len() > 0 {
        let w = t.input[0].witness;
        let list = scripts::parse(w[w.len() - 2]).0;
        let id = Ins::Push(seq![0x6fu8, 0x72u8, 0x64u8]);
        if w.len() >= 2 && 0 <= k <= list.len() && (forall|i: int|
            0 <= i < k ==> #[trigger] list[i] != id) && (k < list.len() ==> list[k] == id) {
            tapscript::law_ord_payload(list, k);
        }
    }
}

/// On the `OP_RETURN` channel what is read adds up over the outputs: an output that does not begin with
/// `OP_RETURN` adds nothing, one that does adds what it pushes, and one that does and is cut short is an
/// error, as is everything behind it.
pub proof fn law_op_return_reading(t: TxView, o: TxOutView)
    ensures
        t.output.len() == 0 ==> channels::decoded(Channel::OpReturn, t) == Ok::<Seq<u8>, PackError>(
            Seq::<u8>::empty(),
        ),
        ({
            let more = TxView { output: t.output.push(o), ..t };
            let spk = o.script_pubkey;
            let before = channels::decoded(Channel::OpReturn, t);
            let after = channels::decoded(Channel::OpReturn, more);
            match before {
                Err(e) => e == PackError::MalformedScript && after == before,
                Ok(d) => if spk.len() == 0 || spk[0] != 0x6a {
                    after == before
                } else if scripts::parse(spk).1 {
                    after == Ok::<Seq<u8>, PackError>(
                        d + scripts::pushed_bytes(scripts::parse(spk).0),
                    )
                } else {
                    after == Err::<Seq<u8>, PackError>(PackError::MalformedScript)
                },
            }
        }),
{
    let more = t.output.push(o);
    let n = t.output.len() as int;
    lemma_pushed_frame(t.output, o, n);
    assert(more[n] == o);
}

proof fn lemma_pushed_frame(output: Seq<TxOutView>, o: TxOutView, n: int)
    requires
        0 <= n <= output.len(),
    ensures
        op_return::pushed(output.push(o), n) == op_return::pushed(output, n),
    decreases n,
{
    if n > 0 {
        lemma_pushed_frame(output, o, n - 1);
        assert(output.push(o)[n - 1] == output[n - 1]);
    }
}

/// On the witness arguments channel what is read is all witness items of the first input but the last
/// two, one behind the other, whatever the last two are.
pub proof fn law_witness_argument_reading(
    t: TxView,
    items: Seq<Seq<u8>>,
    leaf: Seq<u8>,
    block: Seq<u8>,
)
    ensures
        t.input.len() == 0 ==> channels::decoded(Channel::WitnessArgs, t) == Err::<
            Seq<u8>,
            PackError,
        >(PackError::NoInputs),
        t.input.len() > 0 && t.input[0].witness.len() < 2 ==> channels::decoded(
            Channel::WitnessArgs,
            t,
        ) == Err::<Seq<u8>, PackError>(
            PackError::NoScriptPath(t.input[0].witness.len() as usize),
        ),
        t.input.len() > 0 && t.input[0].witness == items.push(leaf).push(block)
            ==> channels::decoded(Channel::WitnessArgs, t) == Ok::<Seq<u8>, PackError>(
            bytes::joined(items),
        ),
{
    let w = items.push(leaf).push(block);
    assert(w.take(w.len() - 2) =~= items);
}

/// On the control block channel what is read stands in the last witness item of the first input: its
/// second byte is the length, and the bytes from the third to the 32nd and from the 34th on are the
/// payload, as many as the length says.
pub proof fn law_control_block_reading(t: TxView)
    ensures
        t.input.len() == 0 ==> channels::decoded(Channel::ControlBlock, t) == Err::<
            Seq<u8>,
            PackError,
        >(PackError::NoInputs),
        t.input.len() > 0 && t.input[0].witness.len() == 0 ==> channels::decoded(
            Channel::ControlBlock,
            t,
        ) == Err::<Seq<u8>, PackError>(PackError::EmptyWitness),
        t.input.len() > 0 && t.input[0].witness.len() > 0 ==> {
            let block = t.input[0].witness.last();
            let found = channels::decoded(Channel::ControlBlock, t);
            let n = block[1] as int;
            if block.len() < 33 {
                found == Err::<Seq<u8>, PackError>(
                    PackError::ControlBlockTooShort(block.len() as usize),
                )
            } else if (block.len() - 33) % 32 != 0 {
                found == Err::<Seq<u8>, PackError>(
                    PackError::ControlBlockLength(block.len() as usize),
                )
            } else if n > block.len() - 3 {
                found == Err::<Seq<u8>, PackError>(
                    PackError::DeclaredLength {
                        declared: n as usize,
                        available: (block.len() - 3) as usize,
                    },
                )
            } else {
                &&& found matches Ok(d)
                &&& d.len() == n
                &&& forall|i: int|
                    0 <= i < n ==> #[trigger] d[i] == (if i < 30 {
                        block[2 + i]
                    } else {
                        block[3 + i]
                    })
            }
        },
{
    if t.input.len() > 0 && t.input[0].witness.len() > 0 {
        let block = t.input[0].witness.last();
        if block.len() >= 33 {
            let c = control_block::carried(block);
            assert(c.len() == block.len() - 2);
            assert(c[0] == block[1]);
            if block[1] <= block.len() - 3 {
                let d = c.subrange(1, 1 + c[0] as int);
                assert forall|i: int| 0 <= i < d.len() implies #[trigger] d[i] == (if i < 30 {
                    block[2 + i]
                } else {
                    block[3 + i]
                }) by {
                    assert(d[i] == c[1 + i]);
                }
            }
        }
    }
}

proof fn lemma_before_envelope(pre: Seq<Ins>, rest: Seq<Ins>)
    requires
        forall|i: int|
            0 <= i < pre.len() ==> #[trigger] pre[i] != Ins::Op(0x63) && pre[i] != Ins::Op(0x68),
    ensures
        p2wsh_envelope::enveloped(pre + rest, false) == p2wsh_envelope::enveloped(rest, false),
    decreases pre.len(),
{
    if pre.len() == 0 {
        assert(pre + rest =~= rest);
    } else {
        let less = pre.skip(1);
        assert forall|i: int| 0 <= i < less.len() implies #[trigger] less[i] != Ins::Op(0x63)
            && less[i] != Ins::Op(0x68) by {
            assert(less[i] == pre[i + 1]);
        }
        lemma_before_envelope(less, rest);
        assert((pre + rest).skip(1) =~= less + rest);
        assert((pre + rest)[0] == pre[0]);
        let e = p2wsh_envelope::enveloped(less + rest, false);
        assert(pre[0] != Ins::Op(0x63) && pre[0] != Ins::Op(0x68));
    }
}

proof fn lemma_in_envelope(body: Seq<Ins>, rest: Seq<Ins>)
    requires
        forall|i: int| 0 <= i < body.len() ==> #[trigger] body[i] != Ins::Op(0x68),
    ensures
        p2wsh_envelope::enveloped(body + rest, true) == (
            scripts::pushed_bytes(body) + p2wsh_envelope::enveloped(rest, true).0,
            p2wsh_envelope::enveloped(rest, true).1,
        ),
    decreases body.len(),
{
    let e = p2wsh_envelope::enveloped(rest, true);
    if body.len() == 0 {
        assert(body + rest =~= rest);
        assert(scripts::pushed_bytes(body) + e.0 =~= e.0);
    } else {
        let less = body.skip(1);
        assert forall|i: int| 0 <= i < less.len() implies #[trigger] less[i] != Ins::Op(0x68) by {
            assert(less[i] == body[i + 1]);
        }
        lemma_in_envelope(less, rest);
        assert((body + rest).skip(1) =~= less + rest);
        assert((body + rest)[0] == body[0]);
        assert(body[0] != Ins::Op(0x68));
        let one = seq![body[0]];
        assert(body =~= one + less);
        match body[0] {
            Ins::Push(d) => {
                scripts::law_pushed_bytes_add_up(one, less, 0, d);
                assert(scripts::pushed_bytes(body) + e.0 =~= d + (scripts::pushed_bytes(less) + e.0));
            },
            Ins::Op(b) => {
                scripts::law_pushed_bytes_add_up(one, less, b, Seq::empty());
                assert(scripts::pushed_bytes(body) =~= scripts::pushed_bytes(less));
            },
        }
    }
}

/// On the witness script channel what is read is what the last witness item of the first input pushes
/// between its first `OP_IF` and the next `OP_ENDIF`, whatever stands behind that. Where an `OP_ENDIF`
/// comes first, or neither is there, nothing is read; an `OP_IF` that nothing ends holds all that is
/// pushed behind it. Only a script that is cut short before an `OP_ENDIF` is an error.
pub proof fn law_witness_script_reading(
    t: TxView,
    pre: Seq<Ins>,
    body: Seq<Ins>,
    post: Seq<Ins>,
    whole: bool,
)
    requires
        t.input.len() > 0,
        t.input[0].witness.len() > 0,
        forall|i: int|
            0 <= i < pre.len() ==> #[trigger] pre[i] != Ins::Op(0x63) && pre[i] != Ins::Op(0x68),
        forall|i: int| 0 <= i < body.len() ==> #[trigger] body[i] != Ins::Op(0x68),
    ensures
        ({
            let script = scripts::parse(t.input[0].witness.last());
            let found = channels::decoded(Channel::P2wshEnvelope, t);
            let none = Ok::<Seq<u8>, PackError>(Seq::<u8>::empty());
            let cut = Err::<Seq<u8>, PackError>(PackError::MalformedScript);
            &&& script == (pre + (seq![Ins::Op(0x63)] + (body + (seq![Ins::Op(0x68)] + post))), whole)
                ==> found == Ok::<Seq<u8>, PackError>(scripts::pushed_bytes(body))
            &&& script == (pre + (seq![Ins::Op(0x63)] + body), whole) ==> found == (if whole {
                Ok::<Seq<u8>, PackError>(scripts::pushed_bytes(body))
            } else {
                cut
            })
            &&& script == (pre + (seq![Ins::Op(0x68)] + post), whole) ==> found == none
            &&& script == (pre, whole) ==> found == (if whole {
                none
            } else {
                cut
            })
        }),
{
    let script = scripts::parse(t.input[0].witness.last());
    let empty = Seq::<Ins>::empty();
    let open = seq![Ins::Op(0x63u8)];
    let close = seq![Ins::Op(0x68u8)];
    let end = close + post;
    assert(end[0] == Ins::Op(0x68u8));
    assert(p2wsh_envelope::enveloped(end, true) == (Seq::<u8>::empty(), true));
    assert(p2wsh_envelope::enveloped(end, false) == (Seq::<u8>::empty(), true));
    // Closed.
    let inner = body + end;
    lemma_before_envelope(pre, open + inner);
    lemma_in_envelope(body, end);
    assert((open + inner)[0] == Ins::Op(0x63u8));
    assert((open + inner).skip(1) =~= inner);
    assert(scripts::pushed_bytes(body) + Seq::<u8>::empty() =~= scripts::pushed_bytes(body));
    // Never closed.
    lemma_before_envelope(pre, open + body);
    lemma_in_envelope(body, empty);
    assert(body + empty =~= body);
    assert((open + body)[0] == Ins::Op(0x63u8));
    assert((open + body).skip(1) =~= body);
    // Closed first, and neither.
    lemma_before_envelope(pre, end);
    lemma_before_envelope(pre, empty);
    assert(pre + empty =~= pre);
}

/// Without an input, or without a witness on the first one, nothing can be read on the witness script
/// channel.
pub proof fn law_witness_script_needs_a_witness(t: TxView)
    ensures
        t.input.len() == 0 ==> channels::decoded(Channel::P2wshEnvelope, t) == Err::<
            Seq<u8>,
            PackError,
        >(PackError::NoInputs),
        t.input.len() > 0 && t.input[0].witness.len() == 0 ==> channels::decoded(
            Channel::P2wshEnvelope,
            t,
        ) == Err::<Seq<u8>, PackError>(PackError::EmptyWitness),
{
}

proof fn lemma_gathered(output: Seq<TxOutView>, n: int)
    requires
        0 <= n <= output.len(),
        forall|i: int|
            0 <= i < n ==> (#[trigger] output[i]).script_pubkey.len() == 34
                && output[i].script_pubkey[0] == 0x51 && output[i].script_pubkey[1] == 32,
    ensures
        fake_key::gathered(output, n) is Ok,
        fake_key::gathered(output, n)->Ok_0.len() == 32 * n,
        forall|k: int|
            0 <= k < 32 * n ==> #[trigger] fake_key::gathered(output, n)->Ok_0[k] == output[k
                / 32].script_pubkey[2 + k % 32],
    decreases n,
{
    if n > 0 {
        lemma_gathered(output, n - 1);
        let before = fake_key::gathered(output, n - 1)->Ok_0;
        let all = fake_key::gathered(output, n)->Ok_0;
        assert(output[n - 1].script_pubkey.len() == 34);
        assert(all =~= before + output[n - 1].script_pubkey.skip(2));
        assert forall|k: int| 0 <= k < 32 * n implies #[trigger] all[k] == output[k
            / 32].script_pubkey[2 + k % 32] by {
            if k < 32 * (n - 1) {
                assert(all[k] == before[k]);
            } else {
                assert(k / 32 == n - 1 && k % 32 == k - 32 * (n - 1));
            }
        }
    }
}

/// On the fake key channel every output but the last is a taproot output, and their keys, one behind
/// the other, are a length in four bytes, most significant first, and as many bytes of payload. The
/// first output that is none, if there is one, is named. `bad` is its index.
pub proof fn law_fake_key_reading(t: TxView, bad: int)
    ensures
        ({
            let o = t.output;
            let n = o.len() - 1;
            let found = channels::decoded(Channel::FakeKey, t);
            &&& o.len() < 2 ==> found == Err::<Seq<u8>, PackError>(
                PackError::TooFewOutputs(o.len() as usize),
            )
            &&& o.len() >= 2 && 0 <= bad < n && (forall|i: int|
                0 <= i < bad ==> (#[trigger] o[i]).script_pubkey.len() == 34 && o[i].script_pubkey[0]
                    == 0x51 && o[i].script_pubkey[1] == 32) && !(o[bad].script_pubkey.len() == 34
                && o[bad].script_pubkey[0] == 0x51 && o[bad].script_pubkey[1] == 32) ==> found == Err::<
                Seq<u8>,
                PackError,
            >(PackError::NotADataOutput(bad as usize))
            &&& o.len() >= 2 && (forall|i: int|
                0 <= i < n ==> (#[trigger] o[i]).script_pubkey.len() == 34 && o[i].script_pubkey[0]
                    == 0x51 && o[i].script_pubkey[1] == 32) ==> {
                let k = o[0].script_pubkey;
                let len = k[2] * 0x100_0000 + k[3] * 0x1_0000 + k[4] * 0x100 + k[5];
                if len > 32 * n - 4 {
                    found == Err::<Seq<u8>, PackError>(
                        PackError::DeclaredLength {
                            declared: len as usize,
                            available: (32 * n - 4) as usize,
                        },
                    )
                } else {
                    &&& found matches Ok(d)
                    &&& d.len() == len
                    &&& forall|i: int|
                        0 <= i < len ==> #[trigger] d[i] == o[(4 + i) / 32].script_pubkey[2 + (4 + i)
                            % 32]
                }
            }
        }),
{
    let o = t.output;
    let n = o.len() - 1;
    if o.len() >= 2 {
        if 0 <= bad < n && (forall|i: int|
            0 <= i < bad ==> (#[trigger] o[i]).script_pubkey.len() == 34 && o[i].script_pubkey[0]
                == 0x51 && o[i].script_pubkey[1] == 32) && !(o[bad].script_pubkey.len() == 34
            && o[bad].script_pubkey[0] == 0x51 && o[bad].script_pubkey[1] == 32) {
            lemma_gathered(o, bad);
            lemma_gathered_err(o, bad + 1, n);
        }
        if forall|i: int|
            0 <= i < n ==> (#[trigger] o[i]).script_pubkey.len() == 34 && o[i].script_pubkey[0]
                == 0x51 && o[i].script_pubkey[1] == 32 {
            lemma_gathered(o, n);
            let all = fake_key::gathered(o, n)->Ok_0;
            assert(all[0] == o[0].script_pubkey[2]);
            assert(all[1] == o[0].script_pubkey[3]);
            assert(all[2] == o[0].script_pubkey[4]);
            assert(all[3] == o[0].script_pubkey[5]);
        }
    }
}

proof fn lemma_gathered_err(output: Seq<TxOutView>, k: int, n: int)
    requires
        0 <= k <= n,
        fake_key::gathered(output, k) is Err,
    ensures
        fake_key::gathered(output, n) == fake_key::gathered(output, k),
    decreases n,
{
    if k < n {
        lemma_gathered_err(output, k, n - 1);
    }
}

proof fn lemma_amounts(output: Seq<TxOutView>, n: int)
    requires
        0 <= n <= output.len(),
        forall|i: int| 0 <= i < n ==> 1_000 <= (#[trigger] output[i]).value <= 66_535,
    ensures
        stego::read_amounts(output, n) is Ok,
        stego::read_amounts(output, n)->Ok_0.len() == 2 * n,
        forall|k: int|
            0 <= k < 2 * n ==> #[trigger] stego::read_amounts(output, n)->Ok_0[k] == (if k % 2 == 0 {
                (output[k / 2].value - 1_000) / 0x100
            } else {
                (output[k / 2].value - 1_000) % 0x100
            }),
    decreases n,
{
    if n > 0 {
        lemma_amounts(output, n - 1);
        let before = stego::read_amounts(output, n - 1)->Ok_0;
        let all = stego::read_amounts(output, n)->Ok_0;
        let v = output[n - 1].value - 1_000;
        assert(1_000 <= output[n - 1].value <= 66_535);
        assert(all =~= before + seq![(v / 0x100) as u8, (v % 0x100) as u8]);
        assert forall|k: int| 0 <= k < 2 * n implies #[trigger] all[k] == (if k % 2 == 0 {
            (output[k / 2].value - 1_000) / 0x100
        } else {
            (output[k / 2].value - 1_000) % 0x100
        }) by {
            if k < 2 * (n - 1) {
                assert(all[k] == before[k]);
            }
        }
    }
}

proof fn lemma_amounts_err(output: Seq<TxOutView>, k: int, n: int)
    requires
        0 <= k <= n,
        stego::read_amounts(output, k) is Err,
    ensures
        stego::read_amounts(output, n) == stego::read_amounts(output, k),
    decreases n,
{
    if k < n {
        lemma_amounts_err(output, k, n - 1);
    }
}

/// On the amounts channel the sequence number of the first input is the length, and the value of each
/// output above 1,000 satoshi is two bytes, most significant first. The first value that stands for none,
/// if there is one, is named; `bad` is its index.
pub proof fn law_amount_reading(t: TxView, bad: int)
    ensures
        t.input.len() == 0 ==> channels::decoded(Channel::Stego, t) == Err::<Seq<u8>, PackError>(
            PackError::NoInputs,
        ),
        t.input.len() > 0 ==> {
            let o = t.output;
            let len = t.input[0].sequence as int;
            let needed = (len + 1) / 2;
            let found = channels::decoded(Channel::Stego, t);
            &&& o.len() < needed ==> found == Err::<Seq<u8>, PackError>(
                PackError::MissingOutputs {
                    declared: len as usize,
                    needed: needed as usize,
                    outputs: o.len() as usize,
                },
            )
            &&& o.len() >= needed && 0 <= bad < needed && (forall|i: int|
                0 <= i < bad ==> 1_000 <= (#[trigger] o[i]).value <= 66_535) ==> {
                &&& o[bad].value < 1_000 ==> found == Err::<Seq<u8>, PackError>(
                    PackError::BelowBase(bad as usize),
                )
                &&& o[bad].value > 66_535 ==> found == Err::<Seq<u8>, PackError>(
                    PackError::AmountTooLarge {
                        output: bad as usize,
                        piece: (o[bad].value - 1_000) as u64,
                    },
                )
            }
            &&& o.len() >= needed && (forall|i: int|
                0 <= i < needed ==> 1_000 <= (#[trigger] o[i]).value <= 66_535) ==> {
                &&& found matches Ok(d)
                &&& d.len() == len
                &&& forall|i: int|
                    0 <= i < len ==> #[trigger] d[i] == (if i % 2 == 0 {
                        (o[i / 2].value - 1_000) / 0x100
                    } else {
                        (o[i / 2].value - 1_000) % 0x100
                    })
            }
        },
{
    if t.input.len() > 0 {
        let o = t.output;
        let len = t.input[0].sequence as int;
        let needed = (len + 1) / 2;
        assert(needed == bytes::chunk_count(len, 2));
        if o.len() >= needed {
            if 0 <= bad < needed && (forall|i: int|
                0 <= i < bad ==> 1_000 <= (#[trigger] o[i]).value <= 66_535) && !(1_000
                <= o[bad].value <= 66_535) {
                lemma_amounts(o, bad);
                lemma_amounts_err(o, bad + 1, needed);
            }
            if forall|i: int| 0 <= i < needed ==> 1_000 <= (#[trigger] o[i]).value <= 66_535 {
                lemma_amounts(o, needed);
            }
        }
    }
}

} // verus!
