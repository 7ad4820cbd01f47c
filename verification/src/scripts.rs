//! Bitcoin scripts: the instruction stream, its byte encoding, and the calls that build and read it.
use vstd::prelude::*;

verus! {

/// `OP_1` (`OP_PUSHNUM_1`).
pub const OP_PUSHNUM_1: u8 = 0x51;

/// `OP_VER`, which tapscript treats as `OP_SUCCESS98`.
pub const OP_VER: u8 = 0x62;

/// `OP_IF`.
pub const OP_IF: u8 = 0x63;

/// `OP_NOTIF`.
pub const OP_NOTIF: u8 = 0x64;

/// `OP_ENDIF`.
pub const OP_ENDIF: u8 = 0x68;

/// `OP_RETURN`.
pub const OP_RETURN: u8 = 0x6a;

/// `OP_2DROP`.
pub const OP_2DROP: u8 = 0x6d;

/// `OP_DROP`.
pub const OP_DROP: u8 = 0x75;

/// `OP_CHECKSIG`.
pub const OP_CHECKSIG: u8 = 0xac;

/// The first length that a script push cannot carry.
pub const PUSH_LIMIT: u64 = 0x1_0000_0000;

/// One instruction of a script, as a mathematical value.
#[verifier::ext_equal]
pub enum Ins {
    /// A push of these bytes.
    Push(Seq<u8>),
    /// Any other opcode.
    Op(u8),
}

/// One instruction of a script.
#[derive(Debug, Clone, PartialEq, Eq)]
pub enum Instruction {
    /// A push of these bytes.
    PushBytes(Vec<u8>),
    /// Any other opcode.
    Op(u8),
}

impl View for Instruction {
    type V = Ins;

    open spec fn view(&self) -> Ins {
        match self {
            Instruction::PushBytes(d) => Ins::Push(d@),
            Instruction::Op(b) => Ins::Op(*b),
        }
    }
}

/// The instructions held by a sequence of executable ones.
pub open spec fn ins_views(s: Seq<Instruction>) -> Seq<Ins> {
    Seq::new(s.len(), |i: int| s[i]@)
}

/// The opcode and length bytes in front of a push of `len` bytes.
pub open spec fn push_header(len: int) -> Seq<u8> {
    if len < 76 {
        seq![len as u8]
    } else if len < 0x100 {
        seq![76u8, len as u8]
    } else if len < 0x1_0000 {
        seq![77u8, (len % 0x100) as u8, (len / 0x100) as u8]
    } else {
        seq![
            78u8,
            (len % 0x100) as u8,
            (len / 0x100 % 0x100) as u8,
            (len / 0x1_0000 % 0x100) as u8,
            (len / 0x100_0000) as u8,
        ]
    }
}

/// The bytes of one instruction.
pub open spec fn ins_bytes(i: Ins) -> Seq<u8> {
    match i {
        Ins::Push(d) => push_header(d.len() as int) + d,
        Ins::Op(b) => seq![b],
    }
}

/// The bytes of a list of instructions.
pub open spec fn encode(list: Seq<Ins>) -> Seq<u8>
    decreases list.len(),
{
    if list.len() == 0 {
        Seq::empty()
    } else {
        encode(list.drop_last()) + ins_bytes(list.last())
    }
}

/// The push of `len` bytes that starts at `at`, or `None` where `s` is too short for it.
pub open spec fn push_at(s: Seq<u8>, at: int, len: int) -> Option<(Ins, int)> {
    if at + len <= s.len() {
        Some((Ins::Push(s.subrange(at, at + len)), at + len))
    } else {
        None
    }
}

/// The first instruction of a non-empty script and its length in bytes, or `None` where the script
/// ends in the middle of it.
pub open spec fn first_instruction(s: Seq<u8>) -> Option<(Ins, int)>
    recommends
        s.len() > 0,
{
    if s[0] < 76 {
        push_at(s, 1, s[0] as int)
    } else if s[0] == 76 {
        if s.len() < 2 {
            None
        } else {
            push_at(s, 2, s[1] as int)
        }
    } else if s[0] == 77 {
        if s.len() < 3 {
            None
        } else {
            push_at(s, 3, s[1] + s[2] * 0x100)
        }
    } else if s[0] == 78 {
        if s.len() < 5 {
            None
        } else {
            push_at(s, 5, s[1] + s[2] * 0x100 + s[3] * 0x1_0000 + s[4] * 0x100_0000)
        }
    } else {
        Some((Ins::Op(s[0]), 1))
    }
}

/// The instructions of a script up to its end or to the first one that is cut short, and whether
/// the end was reached.
pub open spec fn parse(s: Seq<u8>) -> (Seq<Ins>, bool)
    decreases s.len(),
{
    if s.len() == 0 {
        (Seq::empty(), true)
    } else {
        match first_instruction(s) {
            None => (Seq::empty(), false),
            Some((i, n)) => {
                let rest = parse(s.skip(n));
                (seq![i] + rest.0, rest.1)
            },
        }
    }
}

/// Instructions that the encoding keeps apart: pushes below the push limit, and opcodes above the
/// push opcodes.
pub open spec fn encodable(i: Ins) -> bool {
    match i {
        Ins::Push(d) => d.len() < PUSH_LIMIT,
        Ins::Op(b) => b > 78,
    }
}

/// Lists of such instructions.
pub open spec fn all_encodable(list: Seq<Ins>) -> bool {
    forall|i: int| 0 <= i < list.len() ==> encodable(#[trigger] list[i])
}

/// The bytes of all pushes in the list, in order.
pub open spec fn pushed_bytes(list: Seq<Ins>) -> Seq<u8>
    decreases list.len(),
{
    if list.len() == 0 {
        Seq::empty()
    } else {
        match list.last() {
            Ins::Push(d) => pushed_bytes(list.drop_last()) + d,
            Ins::Op(_) => pushed_bytes(list.drop_last()),
        }
    }
}

/// What a script pushes before it ends or is cut short.
pub open spec fn script_pushes(s: Seq<u8>) -> Seq<u8> {
    pushed_bytes(parse(s).0)
}

/// Encoding distributes over concatenation.
pub proof fn lemma_encode_add(a: Seq<Ins>, b: Seq<Ins>)
    ensures
        encode(a + b) == encode(a) + encode(b),
    decreases b.len(),
{
    if b.len() == 0 {
        assert(a + b =~= a);
        assert(encode(a) + encode(b) =~= encode(a));
    } else {
        lemma_encode_add(a, b.drop_last());
        assert((a + b).drop_last() =~= a + b.drop_last());
        assert(encode(a + b) =~= encode(a) + encode(b));
    }
}

/// A list of one instruction encodes to the bytes of that instruction.
pub proof fn lemma_encode_one(i: Ins)
    ensures
        encode(seq![i]) == ins_bytes(i),
{
    assert(seq![i].drop_last() =~= Seq::<Ins>::empty());
    assert(encode(seq![i].drop_last()) =~= Seq::<u8>::empty());
    assert(encode(seq![i]) =~= ins_bytes(i));
}

/// Appending one instruction appends its bytes.
pub proof fn lemma_encode_push(a: Seq<Ins>, i: Ins)
    ensures
        encode(a.push(i)) == encode(a) + ins_bytes(i),
{
    assert(a.push(i).drop_last() =~= a);
}

/// Collecting pushes distributes over concatenation.
pub proof fn lemma_pushed_add(a: Seq<Ins>, b: Seq<Ins>)
    ensures
        pushed_bytes(a + b) == pushed_bytes(a) + pushed_bytes(b),
    decreases b.len(),
{
    if b.len() == 0 {
        assert(a + b =~= a);
        assert(pushed_bytes(a) + pushed_bytes(b) =~= pushed_bytes(a));
    } else {
        lemma_pushed_add(a, b.drop_last());
        assert((a + b).drop_last() =~= a + b.drop_last());
        assert(pushed_bytes(a + b) =~= pushed_bytes(a) + pushed_bytes(b));
    }
}

/// Appending one instruction appends what it pushes.
pub proof fn lemma_pushed_push(a: Seq<Ins>, i: Ins)
    ensures
        pushed_bytes(a.push(i)) == (match i {
            Ins::Push(d) => pushed_bytes(a) + d,
            Ins::Op(_) => pushed_bytes(a),
        }),
{
    assert(a.push(i).drop_last() =~= a);
}

/// A number below the push limit is made up of its four bytes.
proof fn lemma_four_bytes(n: int)
    requires
        0 <= n < PUSH_LIMIT,
    ensures
        n % 0x100 + (n / 0x100 % 0x100) * 0x100 + (n / 0x1_0000 % 0x100) * 0x1_0000 + (n
            / 0x100_0000) * 0x100_0000 == n,
        0 <= n / 0x100_0000 < 0x100,
{
}

/// The push read from behind its header is the one written.
proof fn lemma_push_read(d: Seq<u8>, rest: Seq<u8>)
    requires
        d.len() < PUSH_LIMIT,
    ensures
        ({
            let h = push_header(d.len() as int);
            push_at(h + d + rest, h.len() as int, d.len() as int) == Some(
                (Ins::Push(d), (h + d).len() as int),
            )
        }),
{
    let h = push_header(d.len() as int);
    let s = h + d + rest;
    assert(s.subrange(h.len() as int, h.len() + d.len() as int) =~= d);
}

/// The first instruction read from an encoding is the first one written.
pub proof fn lemma_first_of_encoding(i: Ins, rest: Seq<u8>)
    requires
        encodable(i),
    ensures
        first_instruction(ins_bytes(i) + rest) == Some((i, ins_bytes(i).len() as int)),
        (ins_bytes(i) + rest).skip(ins_bytes(i).len() as int) == rest,
        ins_bytes(i).len() > 0,
{
    let s = ins_bytes(i) + rest;
    assert(s.skip(ins_bytes(i).len() as int) =~= rest);
    match i {
        Ins::Push(d) => {
            let n = d.len() as int;
            let h = push_header(n);
            lemma_push_read(d, rest);
            lemma_four_bytes(n);
            assert(s[0] == h[0]);
            if n < 76 {
                assert(s[0] == n);
            } else if n < 0x100 {
                assert(s[1] == h[1]);
                assert(s[1] == n);
            } else if n < 0x1_0000 {
                assert(s[1] == h[1] && s[2] == h[2]);
                assert(s[1] + s[2] * 0x100 == n);
            } else {
                assert(s[1] == h[1] && s[2] == h[2] && s[3] == h[3] && s[4] == h[4]);
                assert(s[1] + s[2] * 0x100 + s[3] * 0x1_0000 + s[4] * 0x100_0000 == n);
            }
        },
        Ins::Op(b) => {
            assert(s[0] == b);
        },
    }
}

/// Reading an encoded list of instructions gives that list back, to the end of the script.
pub proof fn law_parse_encode(list: Seq<Ins>)
    requires
        all_encodable(list),
    ensures
        parse(encode(list)) == (list, true),
    decreases list.len(),
{
    if list.len() > 0 {
        let i = list[0];
        let rest = list.skip(1);
        assert(list =~= seq![i] + rest);
        lemma_encode_add(seq![i], rest);
        lemma_encode_one(i);
        assert(all_encodable(rest));
        law_parse_encode(rest);
        lemma_first_of_encoding(i, encode(rest));
        assert(parse(encode(list)).0 =~= list);
    } else {
        assert(list =~= Seq::<Ins>::empty());
    }
}

/// Where an instruction can be read from the front of a string, it takes some but not more than all
/// of its bytes, and more bytes behind it change nothing.
proof fn lemma_first_of_longer(a: Seq<u8>, b: Seq<u8>)
    requires
        a.len() > 0,
        first_instruction(a) is Some,
    ensures
        first_instruction(a + b) == first_instruction(a),
        0 < first_instruction(a)->Some_0.1 <= a.len(),
        (a + b).skip(first_instruction(a)->Some_0.1) == a.skip(first_instruction(a)->Some_0.1) + b,
{
    let s = a + b;
    let (i, n) = first_instruction(a)->Some_0;
    assert(s[0] == a[0]);
    if a[0] < 76 {
        assert(s.subrange(1, n) =~= a.subrange(1, n));
    } else if a[0] == 76 {
        assert(s[1] == a[1]);
        assert(s.subrange(2, n) =~= a.subrange(2, n));
    } else if a[0] == 77 {
        assert(s[1] == a[1] && s[2] == a[2]);
        assert(s.subrange(3, n) =~= a.subrange(3, n));
    } else if a[0] == 78 {
        assert(s[1] == a[1] && s[2] == a[2] && s[3] == a[3] && s[4] == a[4]);
        assert(s.subrange(5, n) =~= a.subrange(5, n));
    }
    assert(s.skip(n) =~= a.skip(n) + b);
}

/// Scripts are read instruction by instruction: behind a script that can be read to its end, another
/// one is read as on its own.
pub proof fn law_parse_of_joined_scripts(a: Seq<u8>, b: Seq<u8>)
    requires
        parse(a).1,
    ensures
        parse(a + b) == (parse(a).0 + parse(b).0, parse(b).1),
    decreases a.len(),
{
    if a.len() == 0 {
        assert(a + b =~= b);
        assert(parse(a).0 + parse(b).0 =~= parse(b).0);
    } else {
        lemma_first_of_longer(a, b);
        let (i, n) = first_instruction(a)->Some_0;
        law_parse_of_joined_scripts(a.skip(n), b);
        assert(parse(a + b).0 =~= parse(a).0 + parse(b).0);
    }
}

/// Every byte above 78 is an instruction of its own, and bytes behind a length are a push, whichever
/// of the four forms the length is given in: in the opcode itself, or in one, two or four bytes, least
/// significant first, behind the opcodes 76, 77 and 78.
pub proof fn law_parse_of_one_instruction(op: u8, d: Seq<u8>)
    ensures
        op > 78 ==> parse(seq![op]) == (seq![Ins::Op(op)], true),
        d.len() <= 75 ==> parse(seq![d.len() as u8] + d) == (seq![Ins::Push(d)], true),
        d.len() <= 0xff ==> parse(seq![76u8, d.len() as u8] + d) == (seq![Ins::Push(d)], true),
        d.len() <= 0xffff ==> parse(
            seq![77u8, (d.len() % 0x100) as u8, (d.len() / 0x100) as u8] + d,
        ) == (seq![Ins::Push(d)], true),
        d.len() <= 0xffff_ffff ==> parse(
            seq![
                78u8,
                (d.len() % 0x100) as u8,
                (d.len() / 0x100 % 0x100) as u8,
                (d.len() / 0x1_0000 % 0x100) as u8,
                (d.len() / 0x100_0000) as u8,
            ] + d,
        ) == (seq![Ins::Push(d)], true),
{
    let n = d.len() as int;
    let h0 = seq![d.len() as u8];
    let h1 = seq![76u8, d.len() as u8];
    let h2 = seq![77u8, (d.len() % 0x100) as u8, (d.len() / 0x100) as u8];
    let h4 = seq![
        78u8,
        (d.len() % 0x100) as u8,
        (d.len() / 0x100 % 0x100) as u8,
        (d.len() / 0x1_0000 % 0x100) as u8,
        (d.len() / 0x100_0000) as u8,
    ];
    if op > 78 {
        lemma_parse_whole(seq![op], Ins::Op(op));
    }
    if n <= 75 {
        assert((h0 + d).subrange(1, 1 + n) =~= d);
        lemma_parse_whole(h0 + d, Ins::Push(d));
    }
    if n <= 0xff {
        assert((h1 + d).subrange(2, 2 + n) =~= d);
        lemma_parse_whole(h1 + d, Ins::Push(d));
    }
    if n <= 0xffff {
        let s = h2 + d;
        assert(s.subrange(3, 3 + n) =~= d);
        assert(s[1] == h2[1] && s[2] == h2[2]);
        assert(s[1] + s[2] * 0x100 == n);
        lemma_parse_whole(s, Ins::Push(d));
    }
    if n <= 0xffff_ffff {
        let s = h4 + d;
        lemma_four_bytes(n);
        assert(s.subrange(5, 5 + n) =~= d);
        assert(s[1] == h4[1] && s[2] == h4[2] && s[3] == h4[3] && s[4] == h4[4]);
        assert(s[1] + s[2] * 0x100 + s[3] * 0x1_0000 + s[4] * 0x100_0000 == n);
        lemma_parse_whole(s, Ins::Push(d));
    }
}

/// A string whose first instruction is all of it is read as that instruction.
proof fn lemma_parse_whole(s: Seq<u8>, i: Ins)
    requires
        s.len() > 0,
        first_instruction(s) == Some((i, s.len() as int)),
    ensures
        parse(s) == (seq![i], true),
{
    reveal_with_fuel(parse, 2);
    assert(s.skip(s.len() as int) =~= Seq::<u8>::empty());
    assert(parse(s).0 =~= seq![i]);
}

/// A push that says it is longer than what there is, or whose length is itself cut short, ends the
/// reading: nothing is read from there on, and the script counts as cut short.
pub proof fn law_parse_of_a_cut_push(a: Seq<u8>, s: Seq<u8>)
    requires
        parse(a).1,
        s.len() > 0,
        ({
            ||| s[0] < 76 && s.len() < 1 + s[0]
            ||| s[0] == 76 && (s.len() < 2 || s.len() < 2 + s[1])
            ||| s[0] == 77 && (s.len() < 3 || s.len() < 3 + s[1] + s[2] * 0x100)
            ||| s[0] == 78 && (s.len() < 5 || s.len() < 5 + s[1] + s[2] * 0x100 + s[3] * 0x1_0000
                + s[4] * 0x100_0000)
        }),
    ensures
        parse(a + s) == (parse(a).0, false),
{
    law_parse_of_joined_scripts(a, s);
    assert(parse(a).0 + Seq::<Ins>::empty() =~= parse(a).0);
}

/// What scripts push adds up: an opcode pushes nothing, a push its bytes, and a list what its parts
/// push one after the other.
pub proof fn law_pushed_bytes_add_up(a: Seq<Ins>, b: Seq<Ins>, op: u8, d: Seq<u8>)
    ensures
        pushed_bytes(a + b) == pushed_bytes(a) + pushed_bytes(b),
        pushed_bytes(seq![Ins::Op(op)]) == Seq::<u8>::empty(),
        pushed_bytes(seq![Ins::Push(d)]) == d,
{
    lemma_pushed_add(a, b);
    let none = Seq::<Ins>::empty();
    assert(seq![Ins::Op(op)] =~= none.push(Ins::Op(op)));
    assert(seq![Ins::Push(d)] =~= none.push(Ins::Push(d)));
    lemma_pushed_push(none, Ins::Op(op));
    lemma_pushed_push(none, Ins::Push(d));
    assert(pushed_bytes(none) =~= Seq::<u8>::empty());
    assert(Seq::<u8>::empty() + d =~= d);
}

/// Encoding adds up too: an opcode is its byte, and a push its bytes behind the shortest header.
pub proof fn law_encoding_adds_up(a: Seq<Ins>, b: Seq<Ins>, op: u8, d: Seq<u8>)
    ensures
        encode(a + b) == encode(a) + encode(b),
        encode(seq![Ins::Op(op)]) == seq![op],
        d.len() <= 75 ==> encode(seq![Ins::Push(d)]) == seq![d.len() as u8] + d,
        76 <= d.len() <= 0xff ==> encode(seq![Ins::Push(d)]) == seq![76u8, d.len() as u8] + d,
        0x100 <= d.len() <= 0xffff ==> encode(seq![Ins::Push(d)]) == seq![
            77u8,
            (d.len() % 0x100) as u8,
            (d.len() / 0x100) as u8,
        ] + d,
{
    lemma_encode_add(a, b);
    lemma_encode_one(Ins::Op(op));
    lemma_encode_one(Ins::Push(d));
}

/// `bitcoin::script::Builder`, which holds the bytes of a script under construction.
#[verifier::external_type_specification]
#[verifier::external_body]
pub struct ExBuilder(bitcoin::script::Builder);

/// The bytes that a `bitcoin::script::Builder` holds.
pub uninterp spec fn builder_bytes(b: bitcoin::script::Builder) -> Seq<u8>;

/// `bitcoin::script::Builder::new`: a builder that holds no bytes.
#[verifier::external_body]
pub(crate) fn new_builder() -> (r: bitcoin::script::Builder)
    ensures
        builder_bytes(r) == Seq::<u8>::empty(),
{
    bitcoin::script::Builder::new()
}

/// `bitcoin::script::Builder::push_opcode`: appends the opcode's byte.
#[verifier::external_body]
pub(crate) fn push_opcode(b: bitcoin::script::Builder, op: u8) -> (r: bitcoin::script::Builder)
    ensures
        builder_bytes(r) == builder_bytes(b).push(op),
{
    b.push_opcode(bitcoin::opcodes::Opcode::from(op))
}

/// `bitcoin::script::Builder::push_slice`: appends the shortest push header for the length of
/// `data`, and `data`. `PushBytesBuf` holds every length below the push limit, so the conversion
/// in the body does not fail.
#[verifier::external_body]
pub(crate) fn push_slice(b: bitcoin::script::Builder, data: &[u8]) -> (r: bitcoin::script::Builder)
    requires
        data@.len() < PUSH_LIMIT,
    ensures
        builder_bytes(r) == builder_bytes(b) + ins_bytes(Ins::Push(data@)),
{
    let buf = bitcoin::script::PushBytesBuf::try_from(data.to_vec()).expect("below the push limit");
    b.push_slice(&buf)
}

/// `bitcoin::script::Builder::into_bytes`: the bytes that the builder holds.
#[verifier::external_body]
pub(crate) fn into_bytes(b: bitcoin::script::Builder) -> (r: Vec<u8>)
    ensures
        r@ == builder_bytes(b),
{
    b.into_bytes()
}

/// `bitcoin::ScriptBuf::new_op_return`: `OP_RETURN` followed by one push of `data`.
#[verifier::external_body]
pub(crate) fn new_op_return(data: &[u8]) -> (r: Vec<u8>)
    requires
        data@.len() < PUSH_LIMIT,
    ensures
        r@ == encode(seq![Ins::Op(OP_RETURN), Ins::Push(data@)]),
{
    let buf = bitcoin::script::PushBytesBuf::try_from(data.to_vec()).expect("below the push limit");
    bitcoin::ScriptBuf::new_op_return(&buf).into_bytes()
}

/// `bitcoin::Script::is_op_return`: whether the first byte is `OP_RETURN`.
#[verifier::external_body]
pub(crate) fn is_op_return(script: &[u8]) -> (r: bool)
    ensures
        r == op_return_script(script@),
{
    bitcoin::Script::from_bytes(script).is_op_return()
}

/// `bitcoin::Script::is_p2tr`: whether the script is `OP_1` and a push of 32 bytes.
#[verifier::external_body]
pub(crate) fn is_p2tr(script: &[u8]) -> (r: bool)
    ensures
        r == p2tr_script(script@),
{
    bitcoin::Script::from_bytes(script).is_p2tr()
}

/// Scripts that begin with `OP_RETURN`.
pub open spec fn op_return_script(s: Seq<u8>) -> bool {
    s.len() > 0 && s[0] == OP_RETURN
}

/// Scripts of the shape `OP_1 <32 bytes>`.
pub open spec fn p2tr_script(s: Seq<u8>) -> bool {
    s.len() == 34 && s[0] == OP_PUSHNUM_1 && s[1] == 32
}

/// The script `OP_1 <key>`.
pub open spec fn p2tr_of(key: Seq<u8>) -> Seq<u8> {
    seq![OP_PUSHNUM_1, 32u8] + key
}

/// `bitcoin::Script::instructions` and one call of `next` on it: the first instruction of a
/// non-empty script with the number of bytes left behind it, or an error where the script ends in
/// the middle of that instruction.
#[verifier::external_body]
fn next_instruction(script: &[u8]) -> (r: Result<Option<(Instruction, usize)>, ()>)
    ensures
        match r {
            Ok(None) => script@.len() == 0,
            Ok(Some((i, left))) => script@.len() > 0 && left <= script@.len()
                && first_instruction(script@) == Some((i@, script@.len() - left)),
            Err(()) => script@.len() > 0 && first_instruction(script@) is None,
        },
{
    let mut it = bitcoin::Script::from_bytes(script).instructions();
    match it.next() {
        None => Ok(None),
        Some(Ok(bitcoin::script::Instruction::PushBytes(p))) => {
            Ok(Some((Instruction::PushBytes(p.as_bytes().to_vec()), it.as_script().len())))
        },
        Some(Ok(bitcoin::script::Instruction::Op(o))) => {
            Ok(Some((Instruction::Op(o.to_u8()), it.as_script().len())))
        },
        Some(Err(_)) => Err(()),
    }
}

/// The instructions of `script` up to its end or to the first one that is cut short, and whether
/// the end was reached.
pub fn instructions(script: &[u8]) -> (r: (Vec<Instruction>, bool))
    ensures
        (ins_views(r.0@), r.1) == parse(script@),
{
    let mut out: Vec<Instruction> = Vec::new();
    let mut at: usize = 0;
    let n: usize = script.len();
    proof {
        assert(script@.skip(0) =~= script@);
        assert(ins_views(out@) + parse(script@).0 =~= parse(script@).0);
    }
    loop
        invariant
            at <= n,
            n == script@.len(),
            ins_views(out@) + parse(script@.skip(at as int)).0 == parse(script@).0,
            parse(script@.skip(at as int)).1 == parse(script@).1,
        decreases n - at,
    {
        let rest = vstd::slice::slice_subrange(script, at, n);
        proof {
            assert(rest@ =~= script@.skip(at as int));
        }
        match next_instruction(rest) {
            Ok(None) => {
                proof {
                    assert(ins_views(out@) =~= parse(script@).0);
                }
                return (out, true);
            },
            Ok(Some((i, left))) => {
                let ghost before = ins_views(out@);
                let ghost head = i@;
                out.push(i);
                proof {
                    assert(ins_views(out@) =~= before.push(head));
                    assert(rest@.skip(rest@.len() - left) =~= script@.skip(n - left));
                    assert(ins_views(out@) + parse(script@.skip(n - left)).0 =~= before + parse(
                        rest@,
                    ).0);
                }
                at = n - left;
            },
            Err(()) => {
                proof {
                    assert(ins_views(out@) =~= parse(script@).0);
                }
                return (out, false);
            },
        }
    }
}

} // verus!
