//! Byte strings: splitting into chunks, joining, zero padding and fixed-width integers.
use vstd::prelude::*;

verus! {

/// The byte strings held by a sequence of vectors.
pub open spec fn views(items: Seq<Vec<u8>>) -> Seq<Seq<u8>> {
    Seq::new(items.len(), |i: int| items[i]@)
}

/// The byte string of a vector that may be missing.
pub open spec fn opt_view(o: Option<Vec<u8>>) -> Option<Seq<u8>> {
    match o {
        Some(v) => Some(v@),
        None => None,
    }
}

/// The concatenation of `parts`, first to last.
pub open spec fn joined(parts: Seq<Seq<u8>>) -> Seq<u8>
    decreases parts.len(),
{
    if parts.len() == 0 {
        Seq::empty()
    } else {
        joined(parts.drop_last()) + parts.last()
    }
}

/// `s` cut from the front into pieces of `n` bytes; only the last piece may be shorter.
pub open spec fn chunks(s: Seq<u8>, n: int) -> Seq<Seq<u8>>
    decreases s.len(),
{
    if s.len() == 0 || n <= 0 {
        Seq::empty()
    } else if s.len() <= n {
        seq![s]
    } else {
        seq![s.take(n)] + chunks(s.skip(n), n)
    }
}

/// How many pieces of at most `n` bytes a string of `len` bytes makes.
pub open spec fn chunk_count(len: int, n: int) -> int
    recommends
        0 <= len,
        0 < n,
{
    (len + n - 1) / n
}

/// `s` followed by as many zero bytes as make it `n` bytes long.
pub open spec fn zero_padded(s: Seq<u8>, n: int) -> Seq<u8>
    recommends
        s.len() <= n,
{
    Seq::new(n as nat, |i: int| if i < s.len() { s[i] } else { 0u8 })
}

/// The chunks of `s`, the last one filled up with zero bytes.
pub open spec fn padded_chunks(s: Seq<u8>, n: int) -> Seq<Seq<u8>> {
    Seq::new(chunks(s, n).len(), |i: int| zero_padded(chunks(s, n)[i], n))
}

/// The byte strings held by a sequence of words.
pub open spec fn word_views(words: Seq<[u8; 32]>) -> Seq<Seq<u8>> {
    Seq::new(words.len(), |i: int| words[i]@)
}

/// `n` as four bytes, most significant first.
pub open spec fn be_u32(n: u32) -> Seq<u8> {
    seq![
        (n / 0x100_0000) as u8,
        (n / 0x1_0000 % 0x100) as u8,
        (n / 0x100 % 0x100) as u8,
        (n % 0x100) as u8,
    ]
}

/// `n` as four bytes, least significant first.
pub open spec fn le_u32(n: u32) -> Seq<u8> {
    be_u32(n).reverse()
}

/// The number that four bytes, most significant first, stand for.
pub open spec fn from_be_u32(b: Seq<u8>) -> int
    recommends
        b.len() == 4,
{
    b[0] * 0x100_0000 + b[1] * 0x1_0000 + b[2] * 0x100 + b[3]
}

/// Reading back a four-byte big-endian number gives the number that was written.
pub proof fn law_be_u32_roundtrip(n: u32)
    ensures
        from_be_u32(be_u32(n)) == n,
{
}

/// Joining distributes over concatenation.
pub proof fn lemma_joined_add(a: Seq<Seq<u8>>, b: Seq<Seq<u8>>)
    ensures
        joined(a + b) == joined(a) + joined(b),
    decreases b.len(),
{
    if b.len() == 0 {
        assert(a + b =~= a);
        assert(joined(a) + joined(b) =~= joined(a));
    } else {
        lemma_joined_add(a, b.drop_last());
        assert((a + b).drop_last() =~= a + b.drop_last());
        assert(joined(a + b) =~= joined(a) + joined(b));
    }
}

/// Cutting a string into chunks and joining them gives the string back.
pub proof fn law_chunks_join(s: Seq<u8>, n: int)
    requires
        0 < n,
    ensures
        joined(chunks(s, n)) == s,
    decreases s.len(),
{
    if s.len() == 0 {
        assert(joined(chunks(s, n)) =~= s);
    } else if s.len() <= n {
        lemma_joined_one(s);
    } else {
        law_chunks_join(s.skip(n), n);
        lemma_joined_one(s.take(n));
        lemma_joined_add(seq![s.take(n)], chunks(s.skip(n), n));
        assert(s.take(n) + s.skip(n) =~= s);
    }
}

/// Joining a single part gives that part.
pub proof fn lemma_joined_one(s: Seq<u8>)
    ensures
        joined(seq![s]) == s,
{
    assert(seq![s].drop_last() =~= Seq::<Seq<u8>>::empty());
    assert(joined(seq![s].drop_last()) =~= Seq::<u8>::empty());
    assert(joined(seq![s]) =~= s);
}

/// Every chunk but the last is full, no chunk is empty, and their number is the rounded-up quotient.
pub proof fn law_chunk_sizes(s: Seq<u8>, n: int)
    requires
        0 < n,
    ensures
        chunks(s, n).len() == chunk_count(s.len() as int, n),
        forall|i: int| 0 <= i < chunks(s, n).len() ==> 0 < #[trigger] chunks(s, n)[i].len() <= n,
        forall|i: int| 0 <= i < chunks(s, n).len() - 1 ==> #[trigger] chunks(s, n)[i].len() == n,
        s.len() > 0 ==> chunks(s, n).last().len() == s.len() - n * (chunks(s, n).len() - 1),
    decreases s.len(),
{
    let len = s.len() as int;
    if len == 0 {
        assert((len + n - 1) / n == 0) by (nonlinear_arith)
            requires
                len == 0,
                0 < n,
        ;
    } else if len <= n {
        assert((len + n - 1) / n == 1) by (nonlinear_arith)
            requires
                0 < len <= n,
        ;
        assert(n * (chunks(s, n).len() - 1) == 0) by (nonlinear_arith)
            requires
                chunks(s, n).len() == 1,
        ;
    } else {
        let rest = s.skip(n);
        let tail = chunks(rest, n);
        law_chunk_sizes(rest, n);
        assert((len + n - 1) / n == (len - n + n - 1) / n + 1) by (nonlinear_arith)
            requires
                0 < n < len,
        ;
        let all = chunks(s, n);
        assert(all =~= seq![s.take(n)] + tail);
        assert forall|i: int| 0 <= i < all.len() implies 0 < #[trigger] all[i].len() <= n by {
            if i > 0 {
                assert(all[i] == tail[i - 1]);
            }
        }
        assert forall|i: int| 0 <= i < all.len() - 1 implies #[trigger] all[i].len() == n by {
            if i > 0 {
                assert(all[i] == tail[i - 1]);
            }
        }
        assert(tail.len() > 0) by {
            assert((len - n + n - 1) / n >= 1) by (nonlinear_arith)
                requires
                    0 < n < len,
            ;
        }
        assert(all.last() == tail.last());
        assert(n * (all.len() - 1) == n * (tail.len() - 1) + n) by (nonlinear_arith)
            requires
                all.len() == tail.len() + 1,
        ;
    }
}

/// The chunk numbered `i` holds the bytes from `n * i` on, `n` of them or as many as there are.
pub proof fn law_chunk_bytes(s: Seq<u8>, n: int, i: int)
    requires
        0 < n,
        0 <= i < chunks(s, n).len(),
    ensures
        0 <= n * i < s.len(),
        chunks(s, n)[i] == s.subrange(
            n * i,
            if n * i + n <= s.len() {
                n * i + n
            } else {
                s.len() as int
            },
        ),
    decreases s.len(),
{
    if i == 0 {
        assert(n * i == 0) by (nonlinear_arith)
            requires
                i == 0,
        ;
        if s.len() <= n {
            assert(s.subrange(0, s.len() as int) =~= s);
        } else {
            assert(s.subrange(0, n) =~= s.take(n));
        }
    } else {
        let rest = s.skip(n);
        assert(s.len() > n);
        assert(chunks(s, n)[i] == chunks(rest, n)[i - 1]);
        law_chunk_bytes(rest, n, i - 1);
        assert(n * i == n * (i - 1) + n) by (nonlinear_arith);
        let from = n * (i - 1);
        let to: int = if from + n <= rest.len() {
            from + n
        } else {
            rest.len() as int
        };
        assert(rest.subrange(from, to) =~= s.subrange(from + n, to + n));
    }
}

/// The byte numbered `j` of the padded chunk numbered `i` is the byte numbered `n * i + j` of the
/// string, or zero where the string is shorter; and there are just as many chunks as it takes.
pub proof fn law_padded_chunk_bytes(s: Seq<u8>, n: int, i: int, j: int)
    requires
        0 < n,
        0 <= i < padded_chunks(s, n).len(),
        0 <= j < n,
    ensures
        padded_chunks(s, n)[i].len() == n,
        padded_chunks(s, n).len() == (s.len() + n - 1) / n,
        padded_chunks(s, n)[i][j] == (if n * i + j < s.len() {
            s[n * i + j]
        } else {
            0u8
        }),
{
    law_chunk_sizes(s, n);
    law_chunk_bytes(s, n, i);
}

/// Joining parts is putting them one behind the other.
pub proof fn law_joined_parts(a: Seq<Seq<u8>>, part: Seq<u8>)
    ensures
        joined(a.push(part)) == joined(a) + part,
        joined(Seq::empty()) == Seq::<u8>::empty(),
{
    assert(a.push(part).drop_last() =~= a);
}

/// Padding leaves the string in front of the zeros.
pub proof fn lemma_zero_padded_prefix(s: Seq<u8>, n: int)
    requires
        s.len() <= n,
    ensures
        zero_padded(s, n).len() == n,
        zero_padded(s, n).take(s.len() as int) == s,
{
    assert(zero_padded(s, n).take(s.len() as int) =~= s);
}

/// Joining a list is joining its first part with the joined rest.
pub proof fn lemma_joined_first(parts: Seq<Seq<u8>>)
    requires
        parts.len() > 0,
    ensures
        joined(parts) == parts[0] + joined(parts.skip(1)),
{
    assert(parts =~= seq![parts[0]] + parts.skip(1));
    lemma_joined_add(seq![parts[0]], parts.skip(1));
    lemma_joined_one(parts[0]);
}

/// Joined parts of `n` bytes are as long as their number says, and cutting them again gives the
/// parts.
pub proof fn law_chunks_of_joined(parts: Seq<Seq<u8>>, n: int)
    requires
        0 < n,
        forall|i: int| 0 <= i < parts.len() ==> (#[trigger] parts[i]).len() == n,
    ensures
        joined(parts).len() == n * parts.len(),
        chunks(joined(parts), n) == parts,
    decreases parts.len(),
{
    if parts.len() == 0 {
        assert(n * parts.len() == 0) by (nonlinear_arith)
            requires
                parts.len() == 0,
        ;
        assert(chunks(joined(parts), n) =~= parts);
    } else {
        let rest = parts.skip(1);
        lemma_joined_first(parts);
        assert forall|i: int| 0 <= i < rest.len() implies (#[trigger] rest[i]).len() == n by {
            assert(rest[i] == parts[i + 1]);
        }
        law_chunks_of_joined(rest, n);
        let s = joined(parts);
        assert(n * parts.len() == n + n * rest.len()) by (nonlinear_arith)
            requires
                parts.len() == rest.len() + 1,
        ;
        assert(parts[0].len() == n);
        assert(s.take(n) =~= parts[0]);
        assert(s.skip(n) =~= joined(rest));
        if rest.len() == 0 {
            assert(s =~= parts[0]);
            assert(chunks(s, n) =~= parts);
        } else {
            assert(n * rest.len() > 0) by (nonlinear_arith)
                requires
                    n > 0,
                    rest.len() > 0,
            ;
            assert(chunks(s, n) =~= parts);
        }
    }
}

/// Padded chunks are all full, and joined they start with the string that was cut.
pub proof fn law_padded_chunks(s: Seq<u8>, n: int)
    requires
        0 < n,
    ensures
        forall|i: int|
            0 <= i < padded_chunks(s, n).len() ==> (#[trigger] padded_chunks(s, n)[i]).len() == n,
        joined(padded_chunks(s, n)).len() == n * padded_chunks(s, n).len(),
        s.len() <= n * padded_chunks(s, n).len(),
        joined(padded_chunks(s, n)).take(s.len() as int) == s,
    decreases s.len(),
{
    let c = chunks(s, n);
    let p = padded_chunks(s, n);
    law_chunk_sizes(s, n);
    assert forall|i: int| 0 <= i < p.len() implies (#[trigger] p[i]).len() == n by {}
    law_chunks_of_joined(p, n);
    if s.len() == 0 {
        assert(n * p.len() == 0) by (nonlinear_arith)
            requires
                p.len() == 0,
        ;
        assert(joined(p).take(0) =~= s);
    } else if s.len() <= n {
        assert(p =~= seq![zero_padded(s, n)]);
        lemma_joined_one(zero_padded(s, n));
        lemma_zero_padded_prefix(s, n);
        assert(n * p.len() == n) by (nonlinear_arith)
            requires
                p.len() == 1,
        ;
    } else {
        let rest = s.skip(n);
        law_padded_chunks(rest, n);
        assert(p.skip(1) =~= padded_chunks(rest, n)) by {
            assert forall|i: int| 0 <= i < p.skip(1).len() implies #[trigger] p.skip(1)[i]
                == padded_chunks(rest, n)[i] by {
                assert(c[i + 1] == chunks(rest, n)[i]);
            }
        }
        assert(p[0] =~= s.take(n));
        lemma_joined_first(p);
        let tail = joined(padded_chunks(rest, n));
        assert(n * p.len() == n + n * padded_chunks(rest, n).len()) by (nonlinear_arith)
            requires
                p.len() == padded_chunks(rest, n).len() + 1,
        ;
        assert(joined(p).take(s.len() as int) =~= s.take(n) + tail.take(rest.len() as int));
        assert(s.take(n) + rest =~= s);
    }
}

/// A copy of `data`.
pub fn copy_of(data: &[u8]) -> (r: Vec<u8>)
    ensures
        r@ == data@,
{
    vstd::slice::slice_to_vec(data)
}

/// The bytes of `data` from `from` up to `to`.
pub fn copy_range(data: &[u8], from: usize, to: usize) -> (r: Vec<u8>)
    requires
        from <= to <= data@.len(),
    ensures
        r@ == data@.subrange(from as int, to as int),
{
    vstd::slice::slice_to_vec(vstd::slice::slice_subrange(data, from, to))
}

/// `data` cut into pieces of `size` bytes, the last one possibly shorter.
pub fn split_chunks(data: &[u8], size: usize) -> (r: Vec<Vec<u8>>)
    requires
        0 < size,
    ensures
        views(r@) == chunks(data@, size as int),
{
    let mut out: Vec<Vec<u8>> = Vec::new();
    let mut at: usize = 0;
    let n: usize = data.len();
    proof {
        assert(data@.skip(0) =~= data@);
        assert(views(out@) + chunks(data@.skip(0), size as int) =~= chunks(data@, size as int));
    }
    while at < n
        invariant
            0 < size,
            at <= n,
            n == data@.len(),
            views(out@) + chunks(data@.skip(at as int), size as int) == chunks(data@, size as int),
        decreases n - at,
    {
        let end: usize = if n - at <= size {
            n
        } else {
            at + size
        };
        let piece = copy_range(data, at, end);
        let ghost rest = data@.skip(at as int);
        let ghost before = views(out@);
        out.push(piece);
        proof {
            assert(views(out@) =~= before.push(piece@));
            assert(data@.skip(end as int) =~= rest.skip(end - at));
            if rest.len() <= size {
                assert(piece@ =~= rest);
                assert(chunks(data@.skip(end as int), size as int) =~= Seq::<Seq<u8>>::empty());
            } else {
                assert(piece@ =~= rest.take(size as int));
            }
            assert(views(out@) + chunks(data@.skip(end as int), size as int) =~= before + chunks(
                rest,
                size as int,
            ));
        }
        at = end;
    }
    proof {
        assert(views(out@) =~= views(out@) + chunks(data@.skip(at as int), size as int));
    }
    out
}

/// `data` followed by zero bytes up to 32 bytes.
pub fn padded_word(data: &[u8]) -> (r: [u8; 32])
    requires
        data@.len() <= 32,
    ensures
        r@ == zero_padded(data@, 32),
{
    let mut word: [u8; 32] = [0u8; 32];
    let mut i: usize = 0;
    while i < data.len()
        invariant
            i <= data@.len() <= 32,
            forall|j: int| 0 <= j < 32 ==> word@[j] == (if j < i {
                data@[j]
            } else {
                0u8
            }),
        decreases data@.len() - i,
    {
        word[i] = data[i];
        i = i + 1;
    }
    proof {
        assert(word@ =~= zero_padded(data@, 32));
    }
    word
}

/// `data` cut into words of 32 bytes, the last one filled up with zero bytes.
pub fn split_words(data: &[u8]) -> (r: Vec<[u8; 32]>)
    ensures
        word_views(r@) == padded_chunks(data@, 32),
{
    let parts = split_chunks(data, 32);
    let mut out: Vec<[u8; 32]> = Vec::new();
    let mut i: usize = 0;
    proof {
        law_chunk_sizes(data@, 32);
    }
    while i < parts.len()
        invariant
            views(parts@) == chunks(data@, 32),
            i <= parts@.len(),
            forall|k: int|
                0 <= k < chunks(data@, 32).len() ==> 0 < #[trigger] chunks(data@, 32)[k].len() <= 32,
            word_views(out@) == padded_chunks(data@, 32).take(i as int),
        decreases parts@.len() - i,
    {
        proof {
            assert(views(parts@)[i as int] == parts@[i as int]@);
        }
        let word = padded_word(parts[i].as_slice());
        let ghost before = word_views(out@);
        out.push(word);
        proof {
            assert(word_views(out@) =~= before.push(word@));
            assert(padded_chunks(data@, 32).take(i + 1) =~= before.push(word@));
        }
        i = i + 1;
    }
    proof {
        assert(padded_chunks(data@, 32).take(i as int) =~= padded_chunks(data@, 32));
    }
    out
}

/// `n` as four bytes, most significant first.
pub fn be_bytes(n: u32) -> (r: [u8; 4])
    ensures
        r@ == be_u32(n),
{
    let r: [u8; 4] = [
        (n / 0x100_0000) as u8,
        (n / 0x1_0000 % 0x100) as u8,
        (n / 0x100 % 0x100) as u8,
        (n % 0x100) as u8,
    ];
    proof {
        assert(r@ =~= be_u32(n));
    }
    r
}

} // verus!
