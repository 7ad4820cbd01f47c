//! Tapscripts that carry data: chunked pushes, the ord envelope, and their readers.
//!
//! Data goes in chunks of 255 bytes, each pushed with `OP_PUSHDATA1` and discarded in pairs by
//! `OP_2DROP`, which is the densest form under a 256-byte cap on pushes.
use crate::bytes;
use crate::error::PackError;
use crate::scripts;
use crate::scripts::Ins;
use crate::scripts::Instruction;
use crate::taproot;
use crate::taproot_spend;
use vstd::prelude::*;

verus! {

/// The protocol identifier pushed first in an envelope: the ASCII bytes of `ord`.
pub const PROTOCOL_ID: [u8; 3] = [0x6f, 0x72, 0x64];

/// The densest chunk under a 256-byte cap on pushes: 255 bytes take a two-byte header, 256 would
/// take three.
pub const CHUNK_SIZE: usize = 255;

/// How a data-carrying tapleaf is spent.
#[derive(Clone, Copy, PartialEq, Eq, Debug, Structural)]
pub enum Auth {
    /// By anyone: the envelope ends with `OP_1`.
    Anyone,
    /// With a Schnorr signature of the reveal key, checked by `OP_CHECKSIG` before the envelope.
    Checksig,
}

impl Default for Auth {
    fn default() -> (r: Self)
        ensures
            r == Auth::Anyone,
    {
        Auth::Anyone
    }
}

/// A rule that a leaf breaks on purpose, for testing that nodes enforce it.
#[derive(Clone, Copy, PartialEq, Eq, Debug, Structural)]
pub enum Violate {
    /// None: the leaf of `Auth::Anyone`.
    Nothing,
    /// C3: a push of 300 bytes, dropped again.
    PushTooBig,
    /// C8: an `OP_IF` that is executed.
    OpIf,
    /// C7: an `OP_SUCCESS` opcode (`OP_VER`).
    OpSuccess,
}

impl Default for Violate {
    fn default() -> (r: Self)
        ensures
            r == Violate::Nothing,
    {
        Violate::Nothing
    }
}

/// The chunks that `data` is pushed in.
pub open spec fn data_chunks(data: Seq<u8>) -> Seq<Seq<u8>> {
    bytes::chunks(data, CHUNK_SIZE as int)
}

/// The first `k` pairs of chunks, each pair pushed and dropped.
pub open spec fn paired(c: Seq<Seq<u8>>, k: int) -> Seq<Ins>
    decreases k,
{
    if k <= 0 {
        Seq::empty()
    } else {
        paired(c, k - 1).push(Ins::Push(c[2 * k - 2])).push(Ins::Push(c[2 * k - 1])).push(
            Ins::Op(scripts::OP_2DROP),
        )
    }
}

/// `{ push push OP_2DROP }* [ push OP_DROP ]? OP_1`
pub open spec fn plain_leaf(data: Seq<u8>) -> Seq<Ins> {
    let c = data_chunks(data);
    let body = paired(c, c.len() as int / 2);
    let all = if c.len() % 2 == 1 {
        body.push(Ins::Push(c.last())).push(Ins::Op(scripts::OP_DROP))
    } else {
        body
    };
    all.push(Ins::Op(scripts::OP_PUSHNUM_1))
}

/// `push(ord) { push push OP_2DROP }*` and then `push OP_2DROP` or `OP_DROP`.
pub open spec fn envelope(data: Seq<u8>) -> Seq<Ins> {
    let c = data_chunks(data);
    let body = seq![Ins::Push(PROTOCOL_ID@)] + paired(c, c.len() as int / 2);
    if c.len() % 2 == 1 {
        body.push(Ins::Push(c.last())).push(Ins::Op(scripts::OP_2DROP))
    } else {
        body.push(Ins::Op(scripts::OP_DROP))
    }
}

/// `<key> OP_CHECKSIG`
pub open spec fn key_check(key: Seq<u8>) -> Seq<Ins> {
    seq![Ins::Push(key), Ins::Op(scripts::OP_CHECKSIG)]
}

/// The instructions in front of the envelope under `auth`.
pub open spec fn auth_prefix(auth: Auth) -> Seq<Ins> {
    match auth {
        Auth::Anyone => Seq::empty(),
        Auth::Checksig => key_check(taproot_spend::reveal_key()),
    }
}

/// The instructions behind the envelope under `auth`.
pub open spec fn auth_suffix(auth: Auth) -> Seq<Ins> {
    match auth {
        Auth::Anyone => seq![Ins::Op(scripts::OP_PUSHNUM_1)],
        Auth::Checksig => Seq::empty(),
    }
}

/// The leaf that carries `data` under `auth`.
pub open spec fn auth_leaf(data: Seq<u8>, auth: Auth) -> Seq<Ins> {
    auth_prefix(auth) + envelope(data) + auth_suffix(auth)
}

/// The oversized payload of `Violate::PushTooBig`.
pub open spec fn big_push() -> Seq<u8> {
    Seq::new(300, |i: int| 0xeeu8)
}

/// The instructions in front of the envelope of a violating leaf.
pub open spec fn violation_prefix(violate: Violate) -> Seq<Ins> {
    match violate {
        Violate::PushTooBig => seq![Ins::Push(big_push()), Ins::Op(scripts::OP_DROP)],
        _ => Seq::empty(),
    }
}

/// The instructions behind the envelope of a violating leaf.
pub open spec fn violation_suffix(violate: Violate) -> Seq<Ins> {
    match violate {
        Violate::Nothing | Violate::PushTooBig => seq![Ins::Op(scripts::OP_PUSHNUM_1)],
        Violate::OpIf => seq![
            Ins::Op(scripts::OP_PUSHNUM_1),
            Ins::Op(scripts::OP_IF),
            Ins::Op(scripts::OP_PUSHNUM_1),
            Ins::Op(scripts::OP_ENDIF),
        ],
        Violate::OpSuccess => seq![Ins::Op(scripts::OP_PUSHNUM_1), Ins::Op(scripts::OP_VER)],
    }
}

/// The leaf that carries `data` and breaks the rule that `violate` names.
pub open spec fn violation_leaf(data: Seq<u8>, violate: Violate) -> Seq<Ins> {
    violation_prefix(violate) + envelope(data) + violation_suffix(violate)
}

/// What is pushed behind the first push of the protocol identifier; nothing where there is none.
pub open spec fn ord_payload(list: Seq<Ins>) -> Seq<u8>
    decreases list.len(),
{
    if list.len() == 0 {
        Seq::empty()
    } else if list[0] == Ins::Push(PROTOCOL_ID@) {
        scripts::pushed_bytes(list.skip(1))
    } else {
        ord_payload(list.skip(1))
    }
}

/// The ord payload of a script, read up to its end or to where it is cut short.
pub open spec fn script_ord_payload(s: Seq<u8>) -> Seq<u8> {
    ord_payload(scripts::parse(s).0)
}

/// Appends a push to a builder that holds an encoded list.
fn add_push(b: bitcoin::script::Builder, data: &[u8]) -> (r: bitcoin::script::Builder)
    requires
        data@.len() < scripts::PUSH_LIMIT,
    ensures
        forall|l: Seq<Ins>|
            scripts::builder_bytes(b) == #[trigger] scripts::encode(l) ==> scripts::builder_bytes(r)
                == scripts::encode(l.push(Ins::Push(data@))),
{
    let r = scripts::push_slice(b, data);
    proof {
        assert forall|l: Seq<Ins>|
            scripts::builder_bytes(b) == #[trigger] scripts::encode(l) implies scripts::builder_bytes(
            r,
        ) == scripts::encode(l.push(Ins::Push(data@))) by {
            scripts::lemma_encode_push(l, Ins::Push(data@));
        }
    }
    r
}

/// Appends an opcode to a builder that holds an encoded list.
fn add_op(b: bitcoin::script::Builder, op: u8) -> (r: bitcoin::script::Builder)
    ensures
        forall|l: Seq<Ins>|
            scripts::builder_bytes(b) == #[trigger] scripts::encode(l) ==> scripts::builder_bytes(r)
                == scripts::encode(l.push(Ins::Op(op))),
{
    let r = scripts::push_opcode(b, op);
    proof {
        assert forall|l: Seq<Ins>|
            scripts::builder_bytes(b) == #[trigger] scripts::encode(l) implies scripts::builder_bytes(
            r,
        ) == scripts::encode(l.push(Ins::Op(op))) by {
            scripts::lemma_encode_push(l, Ins::Op(op));
            assert(scripts::encode(l) + seq![op] =~= scripts::encode(l).push(op));
        }
    }
    r
}

/// Appends the pairs of chunks behind what the builder holds.
fn add_pairs(b: bitcoin::script::Builder, chunks: &Vec<Vec<u8>>, Ghost(l): Ghost<Seq<Ins>>) -> (r:
    bitcoin::script::Builder)
    requires
        scripts::builder_bytes(b) == scripts::encode(l),
        forall|i: int| 0 <= i < chunks@.len() ==> #[trigger] chunks@[i]@.len() <= CHUNK_SIZE,
    ensures
        scripts::builder_bytes(r) == scripts::encode(
            l + paired(bytes::views(chunks@), chunks@.len() as int / 2),
        ),
{
    let mut b = b;
    let mut k: usize = 0;
    let ghost c = bytes::views(chunks@);
    proof {
        assert(l + paired(c, 0) =~= l);
    }
    while k < chunks.len() / 2
        invariant
            c == bytes::views(chunks@),
            k <= chunks@.len() / 2,
            scripts::builder_bytes(b) == scripts::encode(l + paired(c, k as int)),
            forall|i: int| 0 <= i < chunks@.len() ==> #[trigger] chunks@[i]@.len() <= CHUNK_SIZE,
        decreases chunks@.len() - k,
    {
        b = add_push(b, chunks[2 * k].as_slice());
        b = add_push(b, chunks[2 * k + 1].as_slice());
        b = add_op(b, scripts::OP_2DROP);
        proof {
            let now = l + paired(c, k as int);
            assert(l + paired(c, k + 1) =~= now.push(Ins::Push(c[2 * k as int])).push(
                Ins::Push(c[2 * k + 1]),
            ).push(Ins::Op(scripts::OP_2DROP)));
        }
        k = k + 1;
    }
    b
}

/// The chunks of `data`, each within the push cap.
fn chunked(data: &[u8]) -> (r: Vec<Vec<u8>>)
    ensures
        bytes::views(r@) == data_chunks(data@),
        forall|i: int| 0 <= i < r@.len() ==> #[trigger] r@[i]@.len() <= CHUNK_SIZE,
{
    let r = bytes::split_chunks(data, CHUNK_SIZE);
    proof {
        bytes::law_chunk_sizes(data@, CHUNK_SIZE as int);
        assert forall|i: int| 0 <= i < r@.len() implies #[trigger] r@[i]@.len() <= CHUNK_SIZE by {
            assert(bytes::views(r@)[i] == r@[i]@);
        }
    }
    r
}

/// The tapscript that carries `data` in plain chunks and ends with `OP_1`.
pub fn build_tapscript(data: &[u8]) -> (r: Vec<u8>)
    ensures
        r@ == scripts::encode(plain_leaf(data@)),
{
    let chunks = chunked(data);
    let ghost c = data_chunks(data@);
    let empty = scripts::new_builder();
    let mut b = add_pairs(empty, &chunks, Ghost(Seq::empty()));
    proof {
        assert(Seq::<Ins>::empty() + paired(c, c.len() as int / 2) =~= paired(
            c,
            c.len() as int / 2,
        ));
    }
    if chunks.len() % 2 == 1 {
        proof {
            assert(c[c.len() - 1] == chunks@[chunks@.len() - 1]@);
        }
        b = add_push(b, chunks[chunks.len() - 1].as_slice());
        b = add_op(b, scripts::OP_DROP);
    }
    b = add_op(b, scripts::OP_PUSHNUM_1);
    scripts::into_bytes(b)
}

/// Appends the envelope of `data` behind what the builder holds.
fn append_envelope(b: bitcoin::script::Builder, data: &[u8], Ghost(l): Ghost<Seq<Ins>>) -> (r:
    bitcoin::script::Builder)
    requires
        scripts::builder_bytes(b) == scripts::encode(l),
    ensures
        scripts::builder_bytes(r) == scripts::encode(l + envelope(data@)),
{
    let chunks = chunked(data);
    let ghost c = data_chunks(data@);
    let mut b = add_push(b, PROTOCOL_ID.as_slice());
    let ghost guard = Ins::Push(PROTOCOL_ID@);
    b = add_pairs(b, &chunks, Ghost(l.push(guard)));
    let ghost body = seq![guard] + paired(c, c.len() as int / 2);
    proof {
        assert(l.push(guard) + paired(c, c.len() as int / 2) =~= l + body);
    }
    if chunks.len() % 2 == 1 {
        proof {
            assert(c[c.len() - 1] == chunks@[chunks@.len() - 1]@);
            assert(l + envelope(data@) =~= (l + body).push(Ins::Push(c.last())).push(
                Ins::Op(scripts::OP_2DROP),
            ));
        }
        b = add_push(b, chunks[chunks.len() - 1].as_slice());
        add_op(b, scripts::OP_2DROP)
    } else {
        proof {
            assert(l + envelope(data@) =~= (l + body).push(Ins::Op(scripts::OP_DROP)));
        }
        add_op(b, scripts::OP_DROP)
    }
}

/// The envelope of `data` as a script of its own.
pub fn build_envelope(data: &[u8]) -> (r: Vec<u8>)
    ensures
        r@ == scripts::encode(envelope(data@)),
{
    let empty = scripts::new_builder();
    let b = append_envelope(empty, data, Ghost(Seq::empty()));
    proof {
        assert(Seq::<Ins>::empty() + envelope(data@) =~= envelope(data@));
    }
    scripts::into_bytes(b)
}

/// The x-only public key of the reveal key.
pub fn reveal_xonly_bytes() -> (r: [u8; 32])
    ensures
        r@ == taproot_spend::reveal_key(),
{
    taproot::public_key(&taproot_spend::REVEAL_KEY_SECRET)
}

/// The tapscript that carries `data` behind a check of a signature of `key`.
pub fn build_tapscript_checksig(data: &[u8], key: &[u8; 32]) -> (r: Vec<u8>)
    ensures
        r@ == scripts::encode(key_check(key@) + envelope(data@)),
        r@ == scripts::encode(seq![Ins::Push(key@), Ins::Op(0xac)] + envelope(data@)),
{
    let mut b = scripts::new_builder();
    let ghost l = Seq::<Ins>::empty();
    proof {
        assert(scripts::builder_bytes(b) == scripts::encode(l));
    }
    b = add_push(b, key.as_slice());
    b = add_op(b, scripts::OP_CHECKSIG);
    let ghost l1 = l.push(Ins::Push(key@)).push(Ins::Op(scripts::OP_CHECKSIG));
    b = append_envelope(b, data, Ghost(l1));
    proof {
        assert(l1 =~= key_check(key@));
    }
    scripts::into_bytes(b)
}

/// The tapscript that carries `data` under `auth`.
pub fn build_tapscript_auth(data: &[u8], auth: Auth) -> (r: Vec<u8>)
    ensures
        r@ == scripts::encode(auth_leaf(data@, auth)),
{
    match auth {
        Auth::Anyone => {
            let ghost l = Seq::<Ins>::empty();
            let mut b = scripts::new_builder();
            proof {
                assert(scripts::builder_bytes(b) == scripts::encode(l));
            }
            b = append_envelope(b, data, Ghost(l));
            b = add_op(b, scripts::OP_PUSHNUM_1);
            proof {
                assert(auth_leaf(data@, auth) =~= (l + envelope(data@)).push(
                    Ins::Op(scripts::OP_PUSHNUM_1),
                ));
            }
            scripts::into_bytes(b)
        },
        Auth::Checksig => {
            proof {
                assert(auth_leaf(data@, auth) =~= key_check(taproot_spend::reveal_key())
                    + envelope(data@));
            }
            build_tapscript_checksig(data, &reveal_xonly_bytes())
        },
    }
}

/// The tapscript that carries `data` and breaks the rule that `violate` names. Apart from that rule
/// it is spendable by anyone.
pub fn build_tapscript_violation(data: &[u8], violate: Violate) -> (r: Vec<u8>)
    ensures
        r@ == scripts::encode(violation_leaf(data@, violate)),
{
    let mut b = scripts::new_builder();
    let ghost l = Seq::<Ins>::empty();
    proof {
        assert(scripts::builder_bytes(b) == scripts::encode(l));
    }
    match violate {
        Violate::Nothing => {
            proof {
                assert(violation_leaf(data@, violate) =~= auth_leaf(data@, Auth::Anyone));
            }
            return build_tapscript_auth(data, Auth::Anyone);
        },
        Violate::PushTooBig => {
            let big: Vec<u8> = vec![0xeeu8; 300];
            proof {
                assert(big@ =~= big_push());
            }
            b = add_push(b, big.as_slice());
            b = add_op(b, scripts::OP_DROP);
            let ghost l1 = l.push(Ins::Push(big@)).push(Ins::Op(scripts::OP_DROP));
            b = append_envelope(b, data, Ghost(l1));
            b = add_op(b, scripts::OP_PUSHNUM_1);
            proof {
                assert(violation_leaf(data@, violate) =~= (l1 + envelope(data@)).push(
                    Ins::Op(scripts::OP_PUSHNUM_1),
                ));
            }
        },
        Violate::OpIf => {
            b = append_envelope(b, data, Ghost(l));
            b = add_op(b, scripts::OP_PUSHNUM_1);
            b = add_op(b, scripts::OP_IF);
            b = add_op(b, scripts::OP_PUSHNUM_1);
            b = add_op(b, scripts::OP_ENDIF);
            proof {
                assert(violation_leaf(data@, violate) =~= (l + envelope(data@)).push(
                    Ins::Op(scripts::OP_PUSHNUM_1),
                ).push(Ins::Op(scripts::OP_IF)).push(Ins::Op(scripts::OP_PUSHNUM_1)).push(
                    Ins::Op(scripts::OP_ENDIF),
                ));
            }
        },
        Violate::OpSuccess => {
            b = append_envelope(b, data, Ghost(l));
            b = add_op(b, scripts::OP_PUSHNUM_1);
            b = add_op(b, scripts::OP_VER);
            proof {
                assert(violation_leaf(data@, violate) =~= (l + envelope(data@)).push(
                    Ins::Op(scripts::OP_PUSHNUM_1),
                ).push(Ins::Op(scripts::OP_VER)));
            }
        },
    }
    scripts::into_bytes(b)
}

/// What a script pushes behind the first push of the protocol identifier, up to its end or to where
/// it is cut short; nothing where the identifier is not pushed.
pub fn extract_ord_payload(script: &[u8]) -> (r: Vec<u8>)
    ensures
        r@ == script_ord_payload(script@),
        r@ == ord_payload(scripts::parse(script@).0),
{
    let (list, _) = scripts::instructions(script);
    let ghost l = scripts::ins_views(list@);
    let mut out: Vec<u8> = Vec::new();
    let mut seen: bool = false;
    let mut i: usize = 0;
    proof {
        assert(l.skip(0) =~= l);
    }
    while i < list.len()
        invariant
            l == scripts::ins_views(list@),
            i <= list@.len(),
            seen ==> out@ + scripts::pushed_bytes(l.skip(i as int)) == ord_payload(l),
            !seen ==> out@.len() == 0 && ord_payload(l.skip(i as int)) == ord_payload(l),
        decreases list@.len() - i,
    {
        let ghost rest = l.skip(i as int);
        proof {
            assert(rest[0] == list@[i as int]@);
            assert(rest.skip(1) =~= l.skip(i + 1));
            lemma_pushed_first(rest);
        }
        match &list[i] {
            Instruction::PushBytes(d) => {
                if seen {
                    let ghost before = out@;
                    out.extend_from_slice(d.as_slice());
                    proof {
                        assert(out@ =~= before + d@);
                        assert(out@ + scripts::pushed_bytes(rest.skip(1)) =~= before
                            + scripts::pushed_bytes(rest));
                    }
                } else if is_protocol_id(d.as_slice()) {
                    seen = true;
                    proof {
                        assert(out@ + scripts::pushed_bytes(rest.skip(1)) =~= scripts::pushed_bytes(
                            rest.skip(1),
                        ));
                    }
                } else {
                    proof {
                        assert(rest[0] != Ins::Push(PROTOCOL_ID@));
                    }
                }
            },
            Instruction::Op(_) => {},
        }
        i = i + 1;
    }
    proof {
        assert(l.skip(i as int) =~= Seq::<Ins>::empty());
        assert(out@ + scripts::pushed_bytes(l.skip(i as int)) =~= out@);
        assert(out@ =~= ord_payload(l));
    }
    out
}

/// Whether `d` is the protocol identifier.
fn is_protocol_id(d: &[u8]) -> (r: bool)
    ensures
        r == (d@ == PROTOCOL_ID@),
{
    let r = d.len() == 3 && d[0] == PROTOCOL_ID[0] && d[1] == PROTOCOL_ID[1] && d[2]
        == PROTOCOL_ID[2];
    proof {
        assert(PROTOCOL_ID@.len() == 3);
        if r {
            assert(d@ =~= PROTOCOL_ID@);
        }
    }
    r
}

/// What a script pushes, in order. A script that is cut short is an error.
pub fn extract_data(script: &[u8]) -> (r: Result<Vec<u8>, PackError>)
    ensures
        match r {
            Ok(d) => scripts::parse(script@).1 && d@ == scripts::script_pushes(script@),
            Err(e) => !scripts::parse(script@).1 && e == PackError::MalformedScript,
        },
        r matches Ok(d) ==> d@ == scripts::pushed_bytes(scripts::parse(script@).0),
{
    let (list, complete) = scripts::instructions(script);
    if !complete {
        return Err(PackError::MalformedScript);
    }
    let ghost l = scripts::ins_views(list@);
    let mut out: Vec<u8> = Vec::new();
    let mut i: usize = 0;
    proof {
        assert(l.skip(0) =~= l);
        assert(out@ + scripts::pushed_bytes(l.skip(0)) =~= scripts::pushed_bytes(l));
    }
    while i < list.len()
        invariant
            l == scripts::ins_views(list@),
            i <= list@.len(),
            out@ + scripts::pushed_bytes(l.skip(i as int)) == scripts::pushed_bytes(l),
        decreases list@.len() - i,
    {
        let ghost rest = l.skip(i as int);
        let ghost before = out@;
        proof {
            assert(rest[0] == list@[i as int]@);
            assert(rest.skip(1) =~= l.skip(i + 1));
            lemma_pushed_first(rest);
        }
        match &list[i] {
            Instruction::PushBytes(d) => {
                out.extend_from_slice(d.as_slice());
                proof {
                    assert(out@ =~= before + d@);
                    assert(out@ + scripts::pushed_bytes(rest.skip(1)) =~= before
                        + scripts::pushed_bytes(rest));
                }
            },
            Instruction::Op(_) => {},
        }
        i = i + 1;
    }
    proof {
        assert(l.skip(i as int) =~= Seq::<Ins>::empty());
        assert(out@ + scripts::pushed_bytes(l.skip(i as int)) =~= out@);
    }
    Ok(out)
}

/// The pushes of a list are those of its first instruction and those of the rest.
proof fn lemma_pushed_first(l: Seq<Ins>)
    requires
        l.len() > 0,
    ensures
        scripts::pushed_bytes(l) == (match l[0] {
            Ins::Push(d) => d + scripts::pushed_bytes(l.skip(1)),
            Ins::Op(_) => scripts::pushed_bytes(l.skip(1)),
        }),
{
    let one = seq![l[0]];
    assert(l =~= one + l.skip(1));
    scripts::lemma_pushed_add(one, l.skip(1));
    assert(one =~= Seq::<Ins>::empty().push(l[0]));
    scripts::lemma_pushed_push(Seq::<Ins>::empty(), l[0]);
    assert(scripts::pushed_bytes(Seq::<Ins>::empty()) =~= Seq::<u8>::empty());
    match l[0] {
        Ins::Push(d) => {
            assert(Seq::<u8>::empty() + d =~= d);
        },
        Ins::Op(_) => {
            assert(Seq::<u8>::empty() + scripts::pushed_bytes(l.skip(1)) =~= scripts::pushed_bytes(
                l.skip(1),
            ));
        },
    }
}

/// Instructions that data leaves are made of can be told apart again.
proof fn lemma_paired_encodable(c: Seq<Seq<u8>>, k: int)
    requires
        0 <= k <= c.len() / 2,
        forall|i: int| 0 <= i < c.len() ==> #[trigger] c[i].len() <= CHUNK_SIZE,
    ensures
        scripts::all_encodable(paired(c, k)),
        scripts::pushed_bytes(paired(c, k)) == bytes::joined(c.take(2 * k)),
    decreases k,
{
    if k == 0 {
        assert(c.take(0) =~= Seq::<Seq<u8>>::empty());
        assert(bytes::joined(c.take(0)) =~= Seq::<u8>::empty());
        assert(scripts::pushed_bytes(paired(c, 0)) =~= Seq::<u8>::empty());
    } else {
        lemma_paired_encodable(c, k - 1);
        let a0 = paired(c, k - 1);
        let a1 = a0.push(Ins::Push(c[2 * k - 2]));
        let a2 = a1.push(Ins::Push(c[2 * k - 1]));
        scripts::lemma_pushed_push(a0, Ins::Push(c[2 * k - 2]));
        scripts::lemma_pushed_push(a1, Ins::Push(c[2 * k - 1]));
        scripts::lemma_pushed_push(a2, Ins::Op(scripts::OP_2DROP));
        assert(c.take(2 * k).drop_last() =~= c.take(2 * k - 1));
        assert(c.take(2 * k - 1).drop_last() =~= c.take(2 * k - 2));
        assert(bytes::joined(c.take(2 * k - 1)) == bytes::joined(c.take(2 * k - 2)) + c[2 * k - 2]);
        assert(c[2 * k - 1].len() <= CHUNK_SIZE && c[2 * k - 2].len() <= CHUNK_SIZE);
    }
}

/// Reading back the plain leaf of `data` gives its instructions, and they push `data`.
pub proof fn law_plain_leaf_roundtrip(data: Seq<u8>)
    ensures
        scripts::parse(scripts::encode(plain_leaf(data))) == (plain_leaf(data), true),
        scripts::script_pushes(scripts::encode(plain_leaf(data))) == data,
{
    let c = data_chunks(data);
    let h = c.len() as int / 2;
    let body = paired(c, h);
    bytes::law_chunk_sizes(data, CHUNK_SIZE as int);
    bytes::law_chunks_join(data, CHUNK_SIZE as int);
    lemma_paired_encodable(c, h);
    if c.len() % 2 == 1 {
        let b1 = body.push(Ins::Push(c.last()));
        let b2 = b1.push(Ins::Op(scripts::OP_DROP));
        scripts::lemma_pushed_push(body, Ins::Push(c.last()));
        scripts::lemma_pushed_push(b1, Ins::Op(scripts::OP_DROP));
        scripts::lemma_pushed_push(b2, Ins::Op(scripts::OP_PUSHNUM_1));
        assert(c.drop_last() =~= c.take(2 * h));
        assert(c[c.len() - 1].len() <= CHUNK_SIZE);
    } else {
        scripts::lemma_pushed_push(body, Ins::Op(scripts::OP_PUSHNUM_1));
        assert(c =~= c.take(2 * h));
    }
    scripts::law_parse_encode(plain_leaf(data));
}

/// The envelope of `data` can be told apart again, starts with the identifier, and pushes `data`
/// behind it.
proof fn lemma_envelope_pushes(data: Seq<u8>)
    ensures
        scripts::all_encodable(envelope(data)),
        envelope(data).len() > 0,
        envelope(data)[0] == Ins::Push(PROTOCOL_ID@),
        scripts::pushed_bytes(envelope(data).skip(1)) == data,
{
    let c = data_chunks(data);
    let h = c.len() as int / 2;
    let body = paired(c, h);
    bytes::law_chunk_sizes(data, CHUNK_SIZE as int);
    bytes::law_chunks_join(data, CHUNK_SIZE as int);
    lemma_paired_encodable(c, h);
    assert(PROTOCOL_ID@.len() == 3);
    if c.len() % 2 == 1 {
        let b1 = body.push(Ins::Push(c.last()));
        let b2 = b1.push(Ins::Op(scripts::OP_2DROP));
        scripts::lemma_pushed_push(body, Ins::Push(c.last()));
        scripts::lemma_pushed_push(b1, Ins::Op(scripts::OP_2DROP));
        assert(envelope(data).skip(1) =~= b2);
        assert(c.drop_last() =~= c.take(2 * h));
        assert(c[c.len() - 1].len() <= CHUNK_SIZE);
    } else {
        let b1 = body.push(Ins::Op(scripts::OP_DROP));
        scripts::lemma_pushed_push(body, Ins::Op(scripts::OP_DROP));
        assert(envelope(data).skip(1) =~= b1);
        assert(c =~= c.take(2 * h));
    }
}

/// The ord payload of a list is that of the list without a front part that does not push the
/// identifier.
proof fn lemma_ord_skip(pre: Seq<Ins>, list: Seq<Ins>)
    requires
        forall|i: int| 0 <= i < pre.len() ==> #[trigger] pre[i] != Ins::Push(PROTOCOL_ID@),
    ensures
        ord_payload(pre + list) == ord_payload(list),
    decreases pre.len(),
{
    if pre.len() == 0 {
        assert(pre + list =~= list);
    } else {
        assert((pre + list).skip(1) =~= pre.skip(1) + list);
        assert((pre + list)[0] == pre[0]);
        assert forall|i: int| 0 <= i < pre.skip(1).len() implies #[trigger] pre.skip(1)[i]
            != Ins::Push(PROTOCOL_ID@) by {
            assert(pre.skip(1)[i] == pre[i + 1]);
        }
        lemma_ord_skip(pre.skip(1), list);
    }
}

/// An envelope between instructions that do not push reads back to its data.
proof fn lemma_wrapped_envelope(pre: Seq<Ins>, data: Seq<u8>, suffix: Seq<Ins>)
    requires
        scripts::all_encodable(pre),
        scripts::all_encodable(suffix),
        forall|i: int| 0 <= i < pre.len() ==> #[trigger] pre[i] != Ins::Push(PROTOCOL_ID@),
        forall|i: int| 0 <= i < suffix.len() ==> #[trigger] suffix[i] is Op,
    ensures
        scripts::parse(scripts::encode(pre + envelope(data) + suffix)) == (
            pre + envelope(data) + suffix,
            true,
        ),
        script_ord_payload(scripts::encode(pre + envelope(data) + suffix)) == data,
{
    let e = envelope(data);
    let list = pre + e + suffix;
    lemma_envelope_pushes(data);
    assert forall|i: int| 0 <= i < list.len() implies scripts::encodable(#[trigger] list[i]) by {
        if i < pre.len() {
            assert(list[i] == pre[i]);
        } else if i < pre.len() + e.len() {
            assert(list[i] == e[i - pre.len()]);
        } else {
            assert(list[i] == suffix[i - pre.len() - e.len()]);
        }
    }
    scripts::law_parse_encode(list);
    assert(list =~= pre + (e + suffix));
    lemma_ord_skip(pre, e + suffix);
    assert((e + suffix).skip(1) =~= e.skip(1) + suffix);
    scripts::lemma_pushed_add(e.skip(1), suffix);
    lemma_ops_push_nothing(suffix);
    assert(data + Seq::<u8>::empty() =~= data);
}

/// Opcodes push nothing.
proof fn lemma_ops_push_nothing(list: Seq<Ins>)
    requires
        forall|i: int| 0 <= i < list.len() ==> #[trigger] list[i] is Op,
    ensures
        scripts::pushed_bytes(list) == Seq::<u8>::empty(),
    decreases list.len(),
{
    if list.len() > 0 {
        assert(list.last() is Op);
        assert forall|i: int| 0 <= i < list.drop_last().len() implies #[trigger] list.drop_last()[i] is Op by {
            assert(list.drop_last()[i] == list[i]);
        }
        lemma_ops_push_nothing(list.drop_last());
    }
}

/// Reading back an envelope gives its data.
pub proof fn law_envelope_roundtrip(data: Seq<u8>)
    ensures
        script_ord_payload(scripts::encode(envelope(data))) == data,
{
    let none = Seq::<Ins>::empty();
    lemma_wrapped_envelope(none, data, none);
    assert(none + envelope(data) + none =~= envelope(data));
}

/// Reading back a leaf gives its instructions, and its ord payload is its data.
pub proof fn law_auth_leaf_roundtrip(data: Seq<u8>, auth: Auth)
    ensures
        scripts::parse(scripts::encode(auth_leaf(data, auth))) == (auth_leaf(data, auth), true),
        script_ord_payload(scripts::encode(auth_leaf(data, auth))) == data,
{
    assert(taproot_spend::reveal_key().len() == 32);
    assert(PROTOCOL_ID@.len() == 3);
    lemma_wrapped_envelope(auth_prefix(auth), data, auth_suffix(auth));
}

/// Reading back a violating leaf gives its instructions, and its ord payload is its data.
pub proof fn law_violation_leaf_roundtrip(data: Seq<u8>, violate: Violate)
    ensures
        scripts::parse(scripts::encode(violation_leaf(data, violate))) == (
            violation_leaf(data, violate),
            true,
        ),
        script_ord_payload(scripts::encode(violation_leaf(data, violate))) == data,
{
    assert(PROTOCOL_ID@.len() == 3);
    assert(big_push().len() == 300);
    lemma_wrapped_envelope(violation_prefix(violate), data, violation_suffix(violate));
}

/// Where no full chunk is the identifier, no pair of full chunks pushes it.
proof fn lemma_paired_no_id(c: Seq<Seq<u8>>, k: int)
    requires
        0 <= k <= c.len() / 2,
        forall|i: int| 0 <= i < 2 * k ==> (#[trigger] c[i]).len() == CHUNK_SIZE,
    ensures
        forall|i: int|
            0 <= i < paired(c, k).len() ==> #[trigger] paired(c, k)[i] != Ins::Push(PROTOCOL_ID@),
    decreases k,
{
    if k > 0 {
        lemma_paired_no_id(c, k - 1);
        assert(PROTOCOL_ID@.len() == 3);
        assert(c[2 * k - 2].len() == CHUNK_SIZE && c[2 * k - 1].len() == CHUNK_SIZE);
        let l = paired(c, k);
        let front = paired(c, k - 1);
        assert forall|i: int| 0 <= i < l.len() implies #[trigger] l[i] != Ins::Push(PROTOCOL_ID@) by {
            if i < front.len() {
                assert(l[i] == front[i]);
            }
        }
    }
}

/// One push with opcodes behind it has no ord payload, whatever it pushes.
proof fn lemma_last_push_no_payload(d: Seq<u8>, ops: Seq<Ins>)
    requires
        forall|i: int| 0 <= i < ops.len() ==> #[trigger] ops[i] is Op,
    ensures
        ord_payload(seq![Ins::Push(d)] + ops).len() == 0,
{
    let l = seq![Ins::Push(d)] + ops;
    assert(l.skip(1) =~= ops);
    lemma_ops_push_nothing(ops);
    lemma_ord_skip(ops, Seq::empty());
    assert(ops + Seq::<Ins>::empty() =~= ops);
}

/// The plain leaf of any data has no ord payload: only its last push can be the identifier, and
/// nothing is pushed behind it.
pub proof fn law_plain_leaf_has_no_ord_payload(data: Seq<u8>)
    ensures
        script_ord_payload(scripts::encode(plain_leaf(data))).len() == 0,
{
    let c = data_chunks(data);
    let h = c.len() as int / 2;
    let leaf = plain_leaf(data);
    let one = Ins::Op(scripts::OP_PUSHNUM_1);
    law_plain_leaf_roundtrip(data);
    bytes::law_chunk_sizes(data, CHUNK_SIZE as int);
    if c.len() % 2 == 1 {
        let pre = paired(c, h);
        let ops = seq![Ins::Op(scripts::OP_DROP), one];
        lemma_paired_no_id(c, h);
        assert(leaf =~= pre + (seq![Ins::Push(c.last())] + ops));
        lemma_ord_skip(pre, seq![Ins::Push(c.last())] + ops);
        lemma_last_push_no_payload(c.last(), ops);
    } else if c.len() > 0 {
        let pre = paired(c, h - 1).push(Ins::Push(c[2 * h - 2]));
        let ops = seq![Ins::Op(scripts::OP_2DROP), one];
        lemma_paired_no_id(c, h - 1);
        assert(PROTOCOL_ID@.len() == 3);
        assert(c[2 * h - 2].len() == CHUNK_SIZE);
        assert(leaf =~= pre + (seq![Ins::Push(c[2 * h - 1])] + ops));
        lemma_ord_skip(pre, seq![Ins::Push(c[2 * h - 1])] + ops);
        lemma_last_push_no_payload(c[2 * h - 1], ops);
    } else {
        let none = Seq::<Ins>::empty();
        assert(leaf =~= seq![one] + none);
        lemma_ord_skip(seq![one], none);
    }
}

/// The ord payload of a script is what is pushed behind the first push of the three bytes `ord`, and
/// nothing where they are not pushed.
pub proof fn law_ord_payload(list: Seq<Ins>, k: int)
    requires
        0 <= k <= list.len(),
        forall|i: int| 0 <= i < k ==> #[trigger] list[i] != Ins::Push(seq![0x6fu8, 0x72u8, 0x64u8]),
        k < list.len() ==> list[k] == Ins::Push(seq![0x6fu8, 0x72u8, 0x64u8]),
    ensures
        ord_payload(list) == (if k < list.len() {
            scripts::pushed_bytes(list.skip(k + 1))
        } else {
            Seq::empty()
        }),
{
    assert(PROTOCOL_ID@ =~= seq![0x6fu8, 0x72u8, 0x64u8]);
    let pre = list.take(k);
    let rest = list.skip(k);
    assert(list =~= pre + rest);
    lemma_ord_skip(pre, rest);
    if k < list.len() {
        assert(rest[0] == list[k]);
        assert(rest.skip(1) =~= list.skip(k + 1));
    }
}

proof fn lemma_paired_layout(c: Seq<Seq<u8>>, k: int, m: int)
    requires
        0 <= k <= c.len() / 2,
    ensures
        paired(c, k).len() == 3 * k,
        0 <= m < k ==> {
            &&& paired(c, k)[3 * m] == Ins::Push(c[2 * m])
            &&& paired(c, k)[3 * m + 1] == Ins::Push(c[2 * m + 1])
            &&& paired(c, k)[3 * m + 2] == Ins::Op(scripts::OP_2DROP)
        },
    decreases k,
{
    if k > 0 {
        lemma_paired_layout(c, k - 1, m);
        assert(paired(c, k - 1).len() == 3 * (k - 1));
    }
}

/// How the plain leaf is laid out: every 510 bytes of data are two pushes of 255 and an `OP_2DROP`; of
/// the rest, up to 255 bytes are one push and an `OP_DROP`, more are two pushes and an `OP_2DROP`; and
/// an `OP_1` ends it.
pub proof fn law_plain_leaf_layout(data: Seq<u8>, m: int)
    ensures
        ({
            let l = plain_leaf(data);
            let n = (data.len() + 254) / 255;
            &&& l.len() == n + (n + 1) / 2 + 1
            &&& l.last() == Ins::Op(0x51)
            &&& 0 <= m && 510 * m + 255 < data.len() ==> {
                &&& l[3 * m] == Ins::Push(data.subrange(510 * m, 510 * m + 255))
                &&& l[3 * m + 1] == Ins::Push(
                    data.subrange(
                        510 * m + 255,
                        if 510 * m + 510 <= data.len() {
                            510 * m + 510
                        } else {
                            data.len() as int
                        },
                    ),
                )
                &&& l[3 * m + 2] == Ins::Op(0x6d)
            }
            &&& 0 <= m && 510 * m < data.len() <= 510 * m + 255 ==> {
                &&& l.len() == 3 * m + 3
                &&& l[3 * m] == Ins::Push(data.skip(510 * m))
                &&& l[3 * m + 1] == Ins::Op(0x75)
            }
        }),
{
    let c = data_chunks(data);
    let h = c.len() as int / 2;
    let l = plain_leaf(data);
    bytes::law_chunk_sizes(data, 255);
    assert(c.len() == (data.len() + 254) / 255);
    lemma_paired_layout(c, h, m);
    if 0 <= m && 510 * m + 255 < data.len() {
        assert(m < h);
        bytes::law_chunk_bytes(data, 255, 2 * m);
        bytes::law_chunk_bytes(data, 255, 2 * m + 1);
        assert(l[3 * m] == paired(c, h)[3 * m]);
        assert(l[3 * m + 1] == paired(c, h)[3 * m + 1]);
        assert(l[3 * m + 2] == paired(c, h)[3 * m + 2]);
    }
    if 0 <= m && 510 * m < data.len() <= 510 * m + 255 {
        assert(c.len() == 2 * m + 1);
        assert(h == m);
        bytes::law_chunk_bytes(data, 255, 2 * m);
        assert(data.subrange(510 * m, data.len() as int) =~= data.skip(510 * m));
    }
}

/// How the envelope is laid out: the three bytes `ord`, then every 510 bytes of data as two pushes of
/// 255 and an `OP_2DROP`; a last single push is dropped together with the identifier, else the
/// identifier is dropped alone.
pub proof fn law_envelope_layout(data: Seq<u8>, m: int)
    ensures
        ({
            let l = envelope(data);
            let n = (data.len() + 254) / 255;
            &&& l.len() == 2 + n + n / 2
            &&& l[0] == Ins::Push(seq![0x6fu8, 0x72u8, 0x64u8])
            &&& n % 2 == 0 ==> l.last() == Ins::Op(0x75)
            &&& 0 <= m && 510 * m + 255 < data.len() ==> {
                &&& l[3 * m + 1] == Ins::Push(data.subrange(510 * m, 510 * m + 255))
                &&& l[3 * m + 2] == Ins::Push(
                    data.subrange(
                        510 * m + 255,
                        if 510 * m + 510 <= data.len() {
                            510 * m + 510
                        } else {
                            data.len() as int
                        },
                    ),
                )
                &&& l[3 * m + 3] == Ins::Op(0x6d)
            }
            &&& 0 <= m && 510 * m < data.len() <= 510 * m + 255 ==> {
                &&& l.len() == 3 * m + 3
                &&& l[3 * m + 1] == Ins::Push(data.skip(510 * m))
                &&& l[3 * m + 2] == Ins::Op(0x6d)
            }
        }),
{
    let c = data_chunks(data);
    let h = c.len() as int / 2;
    let l = envelope(data);
    let p = paired(c, h);
    bytes::law_chunk_sizes(data, 255);
    assert(c.len() == (data.len() + 254) / 255);
    assert(PROTOCOL_ID@ =~= seq![0x6fu8, 0x72u8, 0x64u8]);
    lemma_paired_layout(c, h, m);
    if 0 <= m && 510 * m + 255 < data.len() {
        assert(m < h);
        bytes::law_chunk_bytes(data, 255, 2 * m);
        bytes::law_chunk_bytes(data, 255, 2 * m + 1);
        assert(l[3 * m + 1] == p[3 * m]);
        assert(l[3 * m + 2] == p[3 * m + 1]);
        assert(l[3 * m + 3] == p[3 * m + 2]);
    }
    if 0 <= m && 510 * m < data.len() <= 510 * m + 255 {
        assert(c.len() == 2 * m + 1);
        assert(h == m);
        bytes::law_chunk_bytes(data, 255, 2 * m);
        assert(data.subrange(510 * m, data.len() as int) =~= data.skip(510 * m));
    }
}

/// What stands around the envelope: nothing in front and an `OP_1` behind where anyone may spend, the
/// reveal key and an `OP_CHECKSIG` in front where its signature is asked for, and for each rule to
/// break what breaks it.
pub proof fn law_leaves_around_the_envelope(data: Seq<u8>)
    ensures
        auth_leaf(data, Auth::Anyone) == envelope(data).push(Ins::Op(0x51)),
        auth_leaf(data, Auth::Checksig) == seq![
            Ins::Push(taproot::public_key_of(Seq::new(32, |i: int| 2u8))@),
            Ins::Op(0xac),
        ] + envelope(data),
        violation_leaf(data, Violate::Nothing) == envelope(data).push(Ins::Op(0x51)),
        violation_leaf(data, Violate::PushTooBig) == seq![
            Ins::Push(Seq::new(300, |i: int| 0xeeu8)),
            Ins::Op(0x75),
        ] + envelope(data).push(Ins::Op(0x51)),
        violation_leaf(data, Violate::OpIf) == envelope(data) + seq![
            Ins::Op(0x51),
            Ins::Op(0x63),
            Ins::Op(0x51),
            Ins::Op(0x68),
        ],
        violation_leaf(data, Violate::OpSuccess) == envelope(data) + seq![
            Ins::Op(0x51),
            Ins::Op(0x62),
        ],
{
    let e = envelope(data);
    assert(taproot_spend::REVEAL_KEY_SECRET@ =~= Seq::new(32, |i: int| 2u8));
    assert(auth_leaf(data, Auth::Anyone) =~= e.push(Ins::Op(0x51)));
    assert(auth_leaf(data, Auth::Checksig) =~= key_check(taproot_spend::reveal_key()) + e);
    assert(violation_leaf(data, Violate::Nothing) =~= e.push(Ins::Op(0x51)));
    assert(violation_leaf(data, Violate::PushTooBig) =~= seq![
        Ins::Push(big_push()),
        Ins::Op(0x75),
    ] + e.push(Ins::Op(0x51)));
    assert(violation_leaf(data, Violate::OpIf) =~= e + violation_suffix(Violate::OpIf));
    assert(violation_leaf(data, Violate::OpSuccess) =~= e + violation_suffix(Violate::OpSuccess));
}

/// Without a violation, the violating leaf is the leaf that anyone can spend.
pub proof fn law_no_violation_is_open(data: Seq<u8>)
    ensures
        violation_leaf(data, Violate::Nothing) == auth_leaf(data, Auth::Anyone),
{
}

/// The size of the pushes of `len` bytes: the bytes, and two for the header of each chunk, one where
/// the last is below 76 bytes.
pub open spec fn chunk_pushes_size(len: int) -> int {
    let count = bytes::chunk_count(len, CHUNK_SIZE as int);
    if len == 0 {
        0
    } else if len - CHUNK_SIZE * (count - 1) < 76 {
        len + 2 * count - 1
    } else {
        len + 2 * count
    }
}

/// The size of the plain leaf of `len` bytes: the pushes, a drop for each pair begun, and the final
/// `OP_1`.
pub open spec fn plain_leaf_size(len: int) -> int {
    chunk_pushes_size(len) + (bytes::chunk_count(len, CHUNK_SIZE as int) + 1) / 2 + 1
}

/// The bytes that pushing the first `n` chunks takes.
pub open spec fn pushes_size(c: Seq<Seq<u8>>, n: int) -> int
    decreases n,
{
    if n <= 0 {
        0
    } else {
        pushes_size(c, n - 1) + scripts::ins_bytes(Ins::Push(c[n - 1])).len()
    }
}

/// How many bytes pushing the chunks of `data` takes.
pub proof fn law_chunk_pushes_size(data: Seq<u8>)
    ensures
        pushes_size(data_chunks(data), data_chunks(data).len() as int) == chunk_pushes_size(
            data.len() as int,
        ),
{
    let c = data_chunks(data);
    bytes::law_chunk_sizes(data, CHUNK_SIZE as int);
    if data.len() > 0 {
        lemma_full_pushes_size(c, c.len() - 1);
        assert(pushes_size(c, c.len() as int) == 257 * (c.len() - 1) + scripts::ins_bytes(
            Ins::Push(c.last()),
        ).len());
    }
}

proof fn lemma_full_pushes_size(c: Seq<Seq<u8>>, n: int)
    requires
        0 <= n <= c.len(),
        forall|i: int| 0 <= i < n ==> #[trigger] c[i].len() == CHUNK_SIZE,
    ensures
        pushes_size(c, n) == 257 * n,
    decreases n,
{
    if n > 0 {
        lemma_full_pushes_size(c, n - 1);
        assert(c[n - 1].len() == CHUNK_SIZE);
    }
}

proof fn lemma_paired_size(c: Seq<Seq<u8>>, k: int)
    requires
        0 <= k <= c.len() / 2,
    ensures
        scripts::encode(paired(c, k)).len() == pushes_size(c, 2 * k) + k,
    decreases k,
{
    if k > 0 {
        lemma_paired_size(c, k - 1);
        let a0 = paired(c, k - 1);
        let a1 = a0.push(Ins::Push(c[2 * k - 2]));
        let a2 = a1.push(Ins::Push(c[2 * k - 1]));
        scripts::lemma_encode_push(a0, Ins::Push(c[2 * k - 2]));
        scripts::lemma_encode_push(a1, Ins::Push(c[2 * k - 1]));
        scripts::lemma_encode_push(a2, Ins::Op(scripts::OP_2DROP));
        assert(pushes_size(c, 2 * k) == pushes_size(c, 2 * k - 1) + scripts::ins_bytes(
            Ins::Push(c[2 * k - 1]),
        ).len());
        assert(pushes_size(c, 2 * k - 1) == pushes_size(c, 2 * k - 2) + scripts::ins_bytes(
            Ins::Push(c[2 * k - 2]),
        ).len());
    }
}

/// How many bytes the plain leaf of `data` takes.
pub proof fn law_plain_leaf_size(data: Seq<u8>)
    ensures
        scripts::encode(plain_leaf(data)).len() == plain_leaf_size(data.len() as int),
{
    let c = data_chunks(data);
    let h = c.len() as int / 2;
    let body = paired(c, h);
    bytes::law_chunk_sizes(data, CHUNK_SIZE as int);
    law_chunk_pushes_size(data);
    lemma_paired_size(c, h);
    let all = plain_leaf(data).drop_last();
    scripts::lemma_encode_push(all, Ins::Op(scripts::OP_PUSHNUM_1));
    if c.len() % 2 == 1 {
        let b1 = body.push(Ins::Push(c.last()));
        scripts::lemma_encode_push(body, Ins::Push(c.last()));
        scripts::lemma_encode_push(b1, Ins::Op(scripts::OP_DROP));
        assert(all =~= b1.push(Ins::Op(scripts::OP_DROP)));
        assert(2 * h == c.len() - 1);
        assert(pushes_size(c, c.len() as int) == pushes_size(c, 2 * h) + scripts::ins_bytes(
            Ins::Push(c.last()),
        ).len());
    } else {
        assert(all =~= body);
        assert(2 * h == c.len());
    }
    assert(plain_leaf(data) =~= all.push(Ins::Op(scripts::OP_PUSHNUM_1)));
}

/// Full pairs of chunks cost 515 bytes for each 510 bytes of data, and one byte closes the leaf.
pub proof fn law_plain_leaf_density(data: Seq<u8>)
    requires
        data.len() % 510 == 0,
    ensures
        scripts::encode(plain_leaf(data)).len() == data.len() / 510 * 515 + 1,
{
    law_plain_leaf_size(data);
    let p = data.len() as int / 510;
    assert(data.len() == 510 * p);
    if data.len() > 0 {
        assert(bytes::chunk_count(data.len() as int, CHUNK_SIZE as int) == 2 * p);
    }
}

} // verus!
