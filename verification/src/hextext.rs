//! Bytes and numbers read from and written to text.
use crate::text;
use vstd::prelude::*;
use vstd::string::StrSliceExecFns;

verus! {

/// Whether `c` is a hexadecimal digit of either case.
pub open spec fn is_hex(c: char) -> bool {
    '0' <= c <= '9' || 'a' <= c <= 'f' || 'A' <= c <= 'F'
}

/// The value of a hexadecimal digit.
pub open spec fn hex_value(c: char) -> int {
    if '0' <= c <= '9' {
        c as int - '0' as int
    } else if 'a' <= c <= 'f' {
        c as int - 'a' as int + 10
    } else {
        c as int - 'A' as int + 10
    }
}

/// Whether all characters are hexadecimal digits.
pub open spec fn all_hex(t: Seq<char>) -> bool {
    forall|i: int| 0 <= i < t.len() ==> is_hex(#[trigger] t[i])
}

/// Two lower-case hexadecimal digits for each byte.
pub open spec fn hex_of(b: Seq<u8>) -> Seq<char> {
    Seq::new(
        2 * b.len(),
        |i: int|
            if i % 2 == 0 {
                text::digit(b[i / 2] as int / 16)
            } else {
                text::digit(b[i / 2] as int % 16)
            },
    )
}

/// The bytes that pairs of hexadecimal digits stand for; `None` where the text is not made of such
/// pairs.
pub open spec fn unhexed(t: Seq<char>) -> Option<Seq<u8>> {
    if t.len() % 2 == 0 && all_hex(t) {
        Some(
            Seq::new(
                t.len() / 2,
                |i: int| (16 * hex_value(t[2 * i]) + hex_value(t[2 * i + 1])) as u8,
            ),
        )
    } else {
        None
    }
}

proof fn lemma_digit_value(d: int)
    requires
        0 <= d < 16,
    ensures
        is_hex(text::digit(d)),
        hex_value(text::digit(d)) == d,
{
}

/// Reading the hexadecimal form of bytes gives the bytes back.
pub proof fn law_hex_roundtrip(b: Seq<u8>)
    ensures
        all_hex(hex_of(b)),
        unhexed(hex_of(b)) == Some(b),
{
    let t = hex_of(b);
    assert forall|i: int| 0 <= i < t.len() implies is_hex(#[trigger] t[i]) by {
        lemma_digit_value(b[i / 2] as int / 16);
        lemma_digit_value(b[i / 2] as int % 16);
    }
    let r = unhexed(t)->Some_0;
    assert(r.len() == b.len());
    assert forall|i: int| 0 <= i < b.len() implies r[i] == b[i] by {
        lemma_digit_value(b[i] as int / 16);
        lemma_digit_value(b[i] as int % 16);
        assert((2 * i) / 2 == i && (2 * i + 1) / 2 == i);
        assert(t[2 * i] == text::digit(b[i] as int / 16));
        assert(t[2 * i + 1] == text::digit(b[i] as int % 16));
    }
    assert(r =~= b);
}

/// The error of `hex::decode`; nothing in it is looked at.
#[verifier::external_type_specification]
#[verifier::external_body]
pub struct ExFromHexError(hex::FromHexError);

/// `hex::decode`: the bytes that the pairs of digits stand for, in either case; an error where the
/// text is not made of such pairs.
#[verifier::external_body]
pub(crate) fn decode(t: &str) -> (r: Result<Vec<u8>, hex::FromHexError>)
    ensures
        match r {
            Ok(b) => unhexed(t@) == Some(b@),
            Err(_) => unhexed(t@) is None,
        },
{
    hex::decode(t)
}

/// `hex::encode`: two lower-case digits for each byte.
#[verifier::external_body]
pub(crate) fn encode(b: &[u8]) -> (r: String)
    ensures
        r@ == hex_of(b@),
{
    hex::encode(b)
}

/// Whether `c` is white space: has the Unicode property `White_Space`.
pub open spec fn is_white(c: char) -> bool {
    let n = c as int;
    0x09 <= n <= 0x0d || n == 0x20 || n == 0x85 || n == 0xa0 || n == 0x1680 || 0x2000 <= n <= 0x200a
        || n == 0x2028 || n == 0x2029 || n == 0x202f || n == 0x205f || n == 0x3000
}

/// Whether all characters are white space.
pub open spec fn all_white(t: Seq<char>) -> bool {
    forall|i: int| 0 <= i < t.len() ==> is_white(#[trigger] t[i])
}

/// A text without the white space at its ends.
pub open spec fn trimmed(t: Seq<char>) -> Seq<char>
    decreases t.len(),
{
    if t.len() == 0 {
        t
    } else if is_white(t[0]) {
        trimmed(t.skip(1))
    } else if is_white(t.last()) {
        trimmed(t.drop_last())
    } else {
        t
    }
}

/// White space around a text that neither begins nor ends with any is all that is taken off.
pub proof fn law_white_space_is_taken_off(before: Seq<char>, t: Seq<char>, after: Seq<char>)
    requires
        all_white(before),
        all_white(after),
        t.len() > 0 ==> !is_white(t[0]) && !is_white(t.last()),
    ensures
        trimmed(before + t + after) == t,
    decreases before.len() + after.len(),
{
    let all = before + t + after;
    if before.len() > 0 {
        let less = before.skip(1);
        assert(is_white(before[0]));
        assert(all[0] == before[0]);
        assert(all.skip(1) =~= less + t + after);
        assert forall|i: int| 0 <= i < less.len() implies is_white(#[trigger] less[i]) by {
            assert(less[i] == before[i + 1]);
        }
        law_white_space_is_taken_off(less, t, after);
    } else if after.len() > 0 {
        if t.len() == 0 {
            let less = after.skip(1);
            assert(is_white(after[0]));
            assert(all[0] == after[0]);
            assert(all.skip(1) =~= before + t + less);
            assert forall|i: int| 0 <= i < less.len() implies is_white(#[trigger] less[i]) by {
                assert(less[i] == after[i + 1]);
            }
            law_white_space_is_taken_off(before, t, less);
        } else {
            let less = after.drop_last();
            assert(is_white(after[after.len() - 1]));
            assert(all.last() == after.last());
            assert(all[0] == t[0]);
            assert(all.drop_last() =~= before + t + less);
            assert forall|i: int| 0 <= i < less.len() implies is_white(#[trigger] less[i]) by {
                assert(less[i] == after[i]);
            }
            law_white_space_is_taken_off(before, t, less);
        }
    } else {
        assert(all =~= t);
    }
}

/// Of hexadecimal digits nothing is taken off, and white space around them is all that is.
pub proof fn law_hex_is_kept(before: Seq<char>, t: Seq<char>, after: Seq<char>)
    requires
        all_white(before),
        all_white(after),
        all_hex(t),
    ensures
        trimmed(before + t + after) == t,
        trimmed(t) == t,
{
    if t.len() > 0 {
        assert(is_hex(t[0]) && is_hex(t[t.len() - 1]));
    }
    law_white_space_is_taken_off(before, t, after);
}

/// `str::trim`: the text without the white space at its ends, where white space is what has the
/// Unicode property `White_Space`.
#[verifier::external_body]
pub(crate) fn trim(t: &str) -> (r: &str)
    ensures
        r@ == trimmed(t@),
{
    t.trim()
}

/// The error of `bitcoin::Txid::from_str`; nothing in it is looked at.
#[verifier::external_type_specification]
#[verifier::external_body]
pub struct ExHexToArrayError(bitcoin::hashes::hex::HexToArrayError);

/// `bitcoin::Txid::from_str`: the id that 64 hexadecimal digits stand for, which give its bytes last
/// to first; an error for any other text.
#[verifier::external_body]
pub(crate) fn read_txid(t: &str) -> (r: Result<[u8; 32], bitcoin::hashes::hex::HexToArrayError>)
    ensures
        match r {
            Ok(id) => txid_of(t@) == Some(id@),
            Err(_) => txid_of(t@) is None,
        },
{
    t.parse::<bitcoin::Txid>().map(|id| bitcoin::hashes::Hash::to_byte_array(id))
}

/// The id that a text stands for, in the byte order of its hash.
pub open spec fn txid_of(t: Seq<char>) -> Option<Seq<u8>> {
    match unhexed(t) {
        Some(b) => if b.len() == 32 {
            Some(b.reverse())
        } else {
            None
        },
        None => None,
    }
}

/// Whether all characters are decimal digits.
pub open spec fn all_decimal(t: Seq<char>) -> bool {
    forall|i: int| 0 <= i < t.len() ==> '0' <= #[trigger] t[i] <= '9'
}

/// The number that decimal digits stand for.
pub open spec fn decimal_value(t: Seq<char>) -> int
    decreases t.len(),
{
    if t.len() == 0 {
        0
    } else {
        10 * decimal_value(t.drop_last()) + (t.last() as int - '0' as int)
    }
}

/// The digits of a number: what is behind a leading plus sign, or all.
pub open spec fn digits(t: Seq<char>) -> Seq<char> {
    if t.len() > 0 && t[0] == '+' {
        t.skip(1)
    } else {
        t
    }
}

/// The 32-bit number that a text stands for: digits, with or without a plus sign in front.
pub open spec fn u32_of(t: Seq<char>) -> Option<u32> {
    let d = digits(t);
    if d.len() > 0 && all_decimal(d) && decimal_value(d) <= u32::MAX {
        Some(decimal_value(d) as u32)
    } else {
        None
    }
}

proof fn lemma_decimal_value_grows(t: Seq<char>, n: int)
    requires
        0 <= n <= t.len(),
        all_decimal(t),
    ensures
        0 <= decimal_value(t.take(n)) <= decimal_value(t),
    decreases t.len(),
{
    if n == t.len() {
        assert(t.take(n) =~= t);
        if t.len() > 0 {
            assert(all_decimal(t.drop_last())) by {
                assert forall|i: int| 0 <= i < t.len() - 1 implies '0' <= #[trigger] t.drop_last()[i] <= '9' by {
                    assert(t.drop_last()[i] == t[i]);
                }
            }
            lemma_decimal_value_grows(t.drop_last(), t.len() - 1);
            assert(t.drop_last().take(t.len() - 1) =~= t.drop_last());
            assert('0' <= t[t.len() - 1] <= '9');
        }
    } else {
        assert(all_decimal(t.drop_last())) by {
            assert forall|i: int| 0 <= i < t.len() - 1 implies '0' <= #[trigger] t.drop_last()[i] <= '9' by {
                assert(t.drop_last()[i] == t[i]);
            }
        }
        lemma_decimal_value_grows(t.drop_last(), n);
        assert(t.drop_last().take(n) =~= t.take(n));
        assert('0' <= t[t.len() - 1] <= '9');
    }
}

/// Digits are read from the most significant one on.
pub proof fn law_decimal_value(t: Seq<char>, c: char)
    ensures
        decimal_value(t.push(c)) == 10 * decimal_value(t) + (c as int - '0' as int),
        decimal_value(Seq::empty()) == 0,
{
    assert(t.push(c).drop_last() =~= t);
}

/// The decimal form of a number is made of digits, begins with a zero only where it is the number
/// zero, and stands for the number.
pub proof fn law_decimal_reads_back(n: nat)
    ensures
        text::decimal(n).len() > 0,
        all_decimal(text::decimal(n)),
        decimal_value(text::decimal(n)) == n,
        text::decimal(n)[0] == '0' ==> text::decimal(n) == seq!['0'] && n == 0,
    decreases n,
{
    let t = text::decimal(n);
    if n < 10 {
        let none = Seq::<char>::empty();
        assert(t =~= none.push(text::digit(n as int)));
        law_decimal_value(none, text::digit(n as int));
        assert(t =~= seq![text::digit(n as int)]);
        if t[0] == '0' {
            assert(n == 0);
            assert(t =~= seq!['0']);
        }
    } else {
        let front = text::decimal(n / 10);
        let c = text::digit((n % 10) as int);
        law_decimal_reads_back(n / 10);
        law_decimal_value(front, c);
        assert('0' <= c <= '9');
        assert forall|i: int| 0 <= i < t.len() implies '0' <= #[trigger] t[i] <= '9' by {
            if i < front.len() {
                assert(t[i] == front[i]);
            }
        }
        assert(t[0] == front[0]);
    }
}

/// Two hexadecimal digits, in lower case, stand for their byte.
pub proof fn law_hex_byte_reads_back(b: u8)
    ensures
        text::hex_byte(b).len() == 2,
        unhexed(text::hex_byte(b)) == Some(seq![b]),
        forall|i: int|
            0 <= i < 2 ==> '0' <= #[trigger] text::hex_byte(b)[i] <= '9' || 'a' <= text::hex_byte(
                b,
            )[i] <= 'f',
{
    law_hex_roundtrip(seq![b]);
    assert(hex_of(seq![b]) =~= text::hex_byte(b));
}

/// An index is its digits, with or without a plus sign in front; anything else is none, and neither is
/// a number of more than 32 bits.
pub proof fn law_u32_of(t: Seq<char>)
    ensures
        t.len() > 0 && (forall|i: int| 0 <= i < t.len() ==> '0' <= #[trigger] t[i] <= '9') ==> {
            &&& decimal_value(t) <= 0xffff_ffff ==> u32_of(t) == Some(decimal_value(t) as u32)
                && u32_of(seq!['+'] + t) == Some(decimal_value(t) as u32)
            &&& decimal_value(t) > 0xffff_ffff ==> u32_of(t) is None && u32_of(
                seq!['+'] + t,
            ) is None
        },
        t.len() == 0 ==> u32_of(t) is None && u32_of(seq!['+'] + t) is None,
        (exists|i: int| 1 <= i < t.len() && !('0' <= #[trigger] t[i] <= '9')) ==> u32_of(t) is None,
        t.len() > 0 && t[0] != '+' && !('0' <= t[0] <= '9') ==> u32_of(t) is None,
{
    let plus = seq!['+'] + t;
    assert(plus.skip(1) =~= t);
    assert(digits(plus) == t);
    if t.len() > 0 && (forall|i: int| 0 <= i < t.len() ==> '0' <= #[trigger] t[i] <= '9') {
        assert('0' <= t[0] <= '9');
        assert(digits(t) == t);
        lemma_decimal_value_grows(t, 0);
    }
    if exists|i: int| 1 <= i < t.len() && !('0' <= #[trigger] t[i] <= '9') {
        let i = choose|i: int| 1 <= i < t.len() && !('0' <= #[trigger] t[i] <= '9');
        if t[0] == '+' {
            assert(digits(t)[i - 1] == t[i]);
        }
        assert(!all_decimal(digits(t)));
    }
}

/// An id is written as 64 hexadecimal digits, its last byte first, and read back from them; no text
/// of another length is one.
pub proof fn law_txid_reads_back(id: Seq<u8>, t: Seq<char>)
    ensures
        id.len() == 32 ==> txid_of(hex_of(id.reverse())) == Some(id) && hex_of(id.reverse()).len()
            == 64,
        txid_of(t) is Some ==> t.len() == 64 && all_hex(t),
{
    law_hex_roundtrip(id.reverse());
    assert(id.reverse().reverse() =~= id);
}

/// The 32-bit number that a text stands for.
pub fn read_u32(t: &str) -> (r: Option<u32>)
    ensures
        r == u32_of(t@),
{
    let n: usize = t.unicode_len();
    if n == 0 {
        return None;
    }
    let start: usize = if t.get_char(0) == '+' {
        1
    } else {
        0
    };
    let ghost d = digits(t@);
    proof {
        assert(d =~= t@.skip(start as int));
    }
    if start == n {
        return None;
    }
    let mut value: u64 = 0;
    let mut i: usize = start;
    proof {
        assert(d.take(0) =~= Seq::<char>::empty());
    }
    while i < n
        invariant
            n == t@.len(),
            start <= i <= n,
            start < n,
            d == digits(t@),
            d == t@.skip(start as int),
            value == decimal_value(d.take(i - start)),
            value <= u32::MAX,
            forall|k: int| 0 <= k < i - start ==> '0' <= #[trigger] d[k] <= '9',
        decreases n - i,
    {
        let c: char = t.get_char(i);
        proof {
            assert(c == d[i - start]);
        }
        if !('0' <= c && c <= '9') {
            return None;
        }
        value = value * 10 + ((c as u64) - ('0' as u64));
        proof {
            assert(d.take(i + 1 - start).drop_last() =~= d.take(i - start));
            assert(d.take(i + 1 - start).last() == c);
        }
        if value > u32::MAX as u64 {
            proof {
                if all_decimal(d) {
                    lemma_decimal_value_grows(d, i + 1 - start);
                }
            }
            return None;
        }
        i = i + 1;
    }
    proof {
        assert(d.take(n - start) =~= d);
    }
    Some(value as u32)
}

} // verus!
