//! The memcomparable encoding of byte strings used in storage keys.
//!
//! A byte string is cut into groups of eight bytes. Every group is written out
//! in full followed by a marker byte: `255` where more groups follow, and
//! `255 - pad` for the last group, which is padded with `pad` zero bytes
//! (`1 <= pad <= 8`; a string whose length is a multiple of eight ends with a
//! group of padding only). The encoding is self-delimiting, so encodings can be
//! concatenated and taken apart again.

use vstd::prelude::*;

verus! {

/// The number of key bytes in one group.
pub const ENC_GROUP_SIZE: usize = 8;

/// The marker of a group that more groups follow.
pub const ENC_MARKER: u8 = 255;

/// `n` zero bytes.
pub open spec fn zeros(n: nat) -> Seq<u8> {
    Seq::new(n, |i: int| 0u8)
}

/// The encoding of `key`.
pub open spec fn encoded(key: Seq<u8>) -> Seq<u8>
    decreases key.len(),
{
    if key.len() >= 8 {
        key.take(8).push(255u8) + encoded(key.skip(8))
    } else {
        (key + zeros((8 - key.len()) as nat)).push((255 - (8 - key.len())) as u8)
    }
}

/// Whether `data` starts with a complete encoding: groups of nine bytes, each
/// marked `255` but the last, whose marker is between `247` and `254`.
pub open spec fn decodable(data: Seq<u8>) -> bool
    decreases data.len(),
{
    if data.len() < 9 {
        false
    } else if data[8] == 255 {
        decodable(data.skip(9))
    } else {
        data[8] >= 247
    }
}

/// The byte string whose encoding starts `data`, and the bytes after that
/// encoding.
pub open spec fn decoded(data: Seq<u8>) -> (Seq<u8>, Seq<u8>)
    decreases data.len(),
{
    if data.len() < 9 {
        (Seq::empty(), data)
    } else if data[8] == 255 {
        let (k, rest) = decoded(data.skip(9));
        (data.take(8) + k, rest)
    } else {
        (data.take(8 - (255 - data[8])), data.skip(9))
    }
}

/// Decoding the encoding of `key`, followed by anything, gives back `key` and
/// what followed.
pub proof fn lemma_decode_encoded(key: Seq<u8>, rest: Seq<u8>)
    ensures
        decodable(encoded(key) + rest),
        decoded(encoded(key) + rest) == (key, rest),
    decreases key.len(),
{
    let data = encoded(key) + rest;
    if key.len() >= 8 {
        lemma_decode_encoded(key.skip(8), rest);
        assert(data.skip(9) =~= encoded(key.skip(8)) + rest);
        assert(data[8] == 255u8);
        assert(data.take(8) =~= key.take(8));
        assert(key.take(8) + key.skip(8) =~= key);
    } else {
        let pad = 8 - key.len();
        assert(data[8] == (255 - pad) as u8);
        assert(data.skip(9) =~= rest);
        assert(data.take(8 - pad) =~= key);
    }
}

/// Appends the encoding of `key` to `out`.
pub fn encode_bytes(out: &mut Vec<u8>, key: &[u8])
    ensures
        final(out)@ == old(out)@ + encoded(key@),
{
    let len = key.len();
    let mut index: usize = 0;
    assert(key@.skip(0) =~= key@);
    while len - index >= ENC_GROUP_SIZE
        invariant
            index <= len,
            len == key@.len(),
            old(out)@ + encoded(key@) == out@ + encoded(key@.skip(index as int)),
        decreases len - index,
    {
        let ghost before = out@;
        let ghost tail = key@.skip(index as int);
        let mut j: usize = index;
        while j < index + ENC_GROUP_SIZE
            invariant
                index <= j <= index + 8 <= len,
                len == key@.len(),
                out@ == before + key@.subrange(index as int, j as int),
            decreases index + 8 - j,
        {
            out.push(key[j]);
            assert(out@ =~= before + key@.subrange(index as int, j + 1));
            j = j + 1;
        }
        out.push(ENC_MARKER);
        proof {
            assert(tail.take(8) =~= key@.subrange(index as int, index + 8));
            assert(tail.skip(8) =~= key@.skip(index + 8));
            assert(encoded(tail) == tail.take(8).push(255u8) + encoded(tail.skip(8)));
            assert(out@ =~= before + tail.take(8).push(255u8));
        }
        index = index + ENC_GROUP_SIZE;
    }
    let ghost before = out@;
    let ghost tail = key@.skip(index as int);
    let mut j: usize = index;
    while j < len
        invariant
            index <= j <= len,
            len == key@.len(),
            out@ == before + key@.subrange(index as int, j as int),
        decreases len - j,
    {
        out.push(key[j]);
        assert(out@ =~= before + key@.subrange(index as int, j + 1));
        j = j + 1;
    }
    let pad: usize = ENC_GROUP_SIZE - (len - index);
    let mut p: usize = 0;
    while p < pad
        invariant
            p <= pad,
            index <= len,
            len == key@.len(),
            out@ == before + key@.subrange(index as int, len as int) + zeros(p as nat),
        decreases pad - p,
    {
        out.push(0u8);
        assert(out@ =~= before + key@.subrange(index as int, len as int) + zeros((p + 1) as nat));
        p = p + 1;
    }
    out.push(ENC_MARKER - pad as u8);
    proof {
        assert(tail =~= key@.subrange(index as int, len as int));
        assert(encoded(tail) == (tail + zeros(pad as nat)).push((255 - pad) as u8));
        assert(out@ =~= before + encoded(tail));
    }
}

/// Takes the encoding that starts `data` apart: the byte string it encodes,
/// and the bytes after it.
pub fn decode_bytes(data: &[u8]) -> (r: (Vec<u8>, &[u8]))
    requires
        decodable(data@),
    ensures
        (r.0@, r.1@) == decoded(data@),
{
    let mut key: Vec<u8> = Vec::new();
    let mut offset: usize = 0;
    assert(data@.skip(0) =~= data@);
    assert(key@ + decoded(data@).0 =~= decoded(data@).0);
    loop
        invariant_except_break
            offset <= data@.len(),
            decodable(data@.skip(offset as int)),
            decoded(data@) == (key@ + decoded(data@.skip(offset as int)).0, decoded(
                data@.skip(offset as int),
            ).1),
        ensures
            offset <= data@.len(),
            decoded(data@) == (key@, data@.skip(offset as int)),
        decreases data@.len() - offset,
    {
        let ghost tail = data@.skip(offset as int);
        assert(tail.len() >= 9);
        let n = data.len();
        assert(offset + 9 <= n);
        let marker = data[offset + 8];
        assert(tail[8] == marker);
        let pad = (ENC_MARKER - marker) as usize;
        let ghost before = key@;
        if pad == 0 {
            let mut j: usize = offset;
            let end: usize = offset + 8;
            while j < end
                invariant
                    end == offset + 8,
                    offset <= j <= offset + 8,
                    offset + 9 <= data@.len(),
                    key@ == before + data@.subrange(offset as int, j as int),
                decreases offset + 8 - j,
            {
                key.push(data[j]);
                assert(key@ =~= before + data@.subrange(offset as int, j + 1));
                j = j + 1;
            }
            proof {
                assert(tail.take(8) =~= data@.subrange(offset as int, offset + 8));
                assert(tail.skip(9) =~= data@.skip(offset + 9));
            }
            offset = offset + 9;
        } else {
            let keep: usize = ENC_GROUP_SIZE - pad;
            let mut j: usize = offset;
            let end: usize = offset + keep;
            while j < end
                invariant
                    end == offset + keep,
                    offset <= j <= offset + keep,
                    keep <= 8,
                    offset + 9 <= data@.len(),
                    key@ == before + data@.subrange(offset as int, j as int),
                decreases offset + keep - j,
            {
                key.push(data[j]);
                assert(key@ =~= before + data@.subrange(offset as int, j + 1));
                j = j + 1;
            }
            proof {
                assert(tail.take(keep as int) =~= data@.subrange(offset as int, offset + keep));
                assert(tail.skip(9) =~= data@.skip(offset + 9));
            }
            offset = offset + 9;
            break;
        }
    }
    let rest = &data[offset..data.len()];
    assert(rest@ =~= data@.skip(offset as int));
    (key, rest)
}

/// Lexicographic order on byte strings, as `Ord` for `[u8]` orders them: the
/// first differing byte decides, and a proper prefix comes first.
pub open spec fn lex_lt(a: Seq<u8>, b: Seq<u8>) -> bool
    decreases a.len(),
{
    if a.len() == 0 {
        b.len() > 0
    } else if b.len() == 0 {
        false
    } else if a[0] != b[0] {
        a[0] < b[0]
    } else {
        lex_lt(a.drop_first(), b.drop_first())
    }
}

/// A common prefix does not change the order.
pub proof fn lemma_lex_common_prefix(c: Seq<u8>, y: Seq<u8>, z: Seq<u8>)
    ensures
        lex_lt(c + y, c + z) == lex_lt(y, z),
    decreases c.len(),
{
    if c.len() > 0 {
        assert((c + y).drop_first() =~= c.drop_first() + y);
        assert((c + z).drop_first() =~= c.drop_first() + z);
        lemma_lex_common_prefix(c.drop_first(), y, z);
    } else {
        assert(c + y =~= y);
        assert(c + z =~= z);
    }
}

/// Where two strings of one length differ, what follows them does not matter.
pub proof fn lemma_lex_differing_heads(p: Seq<u8>, q: Seq<u8>, s: Seq<u8>, t: Seq<u8>)
    requires
        p.len() == q.len(),
        p != q,
    ensures
        lex_lt(p + s, q + t) == lex_lt(p, q),
    decreases p.len(),
{
    if p.len() == 0 {
        assert(p =~= q);
    } else {
        assert((p + s)[0] == p[0]);
        assert((q + t)[0] == q[0]);
        if p[0] == q[0] {
            assert((p + s).drop_first() =~= p.drop_first() + s);
            assert((q + t).drop_first() =~= q.drop_first() + t);
            if p.drop_first() == q.drop_first() {
                assert(p =~= q) by {
                    assert forall|i: int| 0 <= i < p.len() implies p[i] == q[i] by {
                        if i > 0 {
                            assert(p[i] == p.drop_first()[i - 1]);
                            assert(q[i] == q.drop_first()[i - 1]);
                        }
                    }
                }
            }
            lemma_lex_differing_heads(p.drop_first(), q.drop_first(), s, t);
        }
    }
}

/// No string comes before one of its prefixes.
pub proof fn lemma_lex_not_before_prefix(a: Seq<u8>, b: Seq<u8>)
    requires
        b.len() <= a.len(),
        a.take(b.len() as int) == b,
    ensures
        !lex_lt(a, b),
    decreases b.len(),
{
    if b.len() > 0 {
        assert(a[0] == b[0]) by {
            assert(a.take(b.len() as int)[0] == a[0]);
        }
        assert(a.drop_first().take(b.drop_first().len() as int) =~= b.drop_first()) by {
            assert forall|i: int| 0 <= i < b.len() - 1 implies a.drop_first()[i] == b.drop_first()[i] by {
                assert(a.take(b.len() as int)[i + 1] == a[i + 1]);
            }
        }
        lemma_lex_not_before_prefix(a.drop_first(), b.drop_first());
    }
}

/// Zero bytes come no later than any string of their length.
pub proof fn lemma_lex_zeros_first(y: Seq<u8>)
    ensures
        zeros(y.len()) == y || lex_lt(zeros(y.len()), y),
    decreases y.len(),
{
    if y.len() > 0 {
        let z = zeros(y.len());
        assert(z[0] == 0u8);
        if y[0] == 0 {
            lemma_lex_zeros_first(y.drop_first());
            assert(z.drop_first() =~= zeros(y.drop_first().len()));
            if zeros(y.drop_first().len()) == y.drop_first() {
                assert(z =~= y) by {
                    assert forall|i: int| 0 <= i < y.len() implies z[i] == y[i] by {
                        if i > 0 {
                            assert(y[i] == y.drop_first()[i - 1]);
                        }
                    }
                }
            }
        }
    } else {
        assert(zeros(0) =~= y);
    }
}

/// The first `n` bytes of `x` padded with zero bytes.
pub open spec fn padded(x: Seq<u8>, n: nat) -> Seq<u8> {
    (x + zeros(n)).take(n as int)
}

/// Padding to a common length keeps the order, or makes the strings equal.
pub proof fn lemma_lex_padded(a: Seq<u8>, b: Seq<u8>, n: nat)
    requires
        lex_lt(a, b),
    ensures
        padded(a, n) == padded(b, n) || lex_lt(padded(a, n), padded(b, n)),
    decreases n,
{
    if n > 0 {
        let pa = padded(a, n);
        let pb = padded(b, n);
        let m = (n - 1) as nat;
        if a.len() == 0 {
            assert(pa =~= zeros(n));
            lemma_lex_zeros_first(pb);
        } else {
            assert(pa[0] == a[0]);
            assert(pb[0] == b[0]);
            if a[0] == b[0] {
                lemma_lex_padded(a.drop_first(), b.drop_first(), m);
                assert(pa.drop_first() =~= padded(a.drop_first(), m));
                assert(pb.drop_first() =~= padded(b.drop_first(), m));
                if padded(a.drop_first(), m) == padded(b.drop_first(), m) {
                    assert(pa =~= pb) by {
                        assert forall|i: int| 0 <= i < n implies pa[i] == pb[i] by {
                            if i > 0 {
                                assert(pa[i] == pa.drop_first()[i - 1]);
                                assert(pb[i] == pb.drop_first()[i - 1]);
                            }
                        }
                    }
                }
            }
        }
    } else {
        assert(padded(a, 0) =~= padded(b, 0));
    }
}

/// The first group of an encoding: the first eight bytes, zero-padded, then
/// the marker.
pub open spec fn first_group(x: Seq<u8>) -> Seq<u8> {
    if x.len() >= 8 {
        padded(x, 8).push(255u8)
    } else {
        padded(x, 8).push((255 - (8 - x.len())) as u8)
    }
}

/// What follows the first group of an encoding.
pub open spec fn after_first_group(x: Seq<u8>) -> Seq<u8> {
    if x.len() >= 8 {
        encoded(x.skip(8))
    } else {
        Seq::empty()
    }
}

proof fn lemma_encoded_split(x: Seq<u8>)
    ensures
        encoded(x) == first_group(x) + after_first_group(x),
        first_group(x).len() == 9,
{
    if x.len() >= 8 {
        assert(padded(x, 8) =~= x.take(8));
    } else {
        assert(padded(x, 8) =~= x + zeros((8 - x.len()) as nat));
        assert(encoded(x) =~= first_group(x) + Seq::<u8>::empty());
    }
}

/// Encoding keeps the order of byte strings: a string that comes first has the
/// encoding that comes first.
pub proof fn lemma_encoded_order(a: Seq<u8>, b: Seq<u8>)
    requires
        lex_lt(a, b),
    ensures
        lex_lt(encoded(a), encoded(b)),
    decreases a.len(),
{
    lemma_encoded_split(a);
    lemma_encoded_split(b);
    let ga = first_group(a);
    let gb = first_group(b);
    if a.len() >= 8 && b.len() >= 8 && a.take(8) == b.take(8) {
        assert(a =~= a.take(8) + a.skip(8));
        assert(b =~= b.take(8) + b.skip(8));
        lemma_lex_common_prefix(a.take(8), a.skip(8), b.skip(8));
        lemma_encoded_order(a.skip(8), b.skip(8));
        assert(padded(a, 8) =~= a.take(8));
        assert(padded(b, 8) =~= b.take(8));
        assert(ga == gb);
        lemma_lex_common_prefix(ga, encoded(a.skip(8)), encoded(b.skip(8)));
    } else {
        lemma_lex_padded(a, b, 8);
        let pa = padded(a, 8);
        let pb = padded(b, 8);
        if pa == pb {
            if a.len() >= 8 && b.len() < 8 {
                assert(a.take(b.len() as int) =~= b) by {
                    assert forall|i: int| 0 <= i < b.len() implies a[i] == b[i] by {
                        assert(pa[i] == a[i]);
                        assert(pb[i] == b[i]);
                    }
                }
                lemma_lex_not_before_prefix(a, b);
            } else if a.len() < 8 && b.len() < 8 && a.len() >= b.len() {
                assert(a.take(b.len() as int) =~= b) by {
                    assert forall|i: int| 0 <= i < b.len() implies a[i] == b[i] by {
                        assert(pa[i] == a[i]);
                        assert(pb[i] == b[i]);
                    }
                }
                lemma_lex_not_before_prefix(a, b);
            } else if a.len() >= 8 && b.len() >= 8 {
                assert(a.take(8) =~= pa);
                assert(b.take(8) =~= pb);
            }
            assert(ga[8] < gb[8]);
            assert(pa =~= ga.take(8));
            assert(pb =~= gb.take(8));
            assert(ga =~= pa + seq![ga[8]]);
            assert(gb =~= pa + seq![gb[8]]);
            lemma_lex_common_prefix(pa, seq![ga[8]], seq![gb[8]]);
            assert(lex_lt(seq![ga[8]], seq![gb[8]]));
            assert(ga != gb);
            lemma_lex_differing_heads(ga, gb, after_first_group(a), after_first_group(b));
        } else {
            assert(ga =~= pa + seq![ga[8]]);
            assert(gb =~= pb + seq![gb[8]]);
            lemma_lex_differing_heads(pa, pb, seq![ga[8]], seq![gb[8]]);
            assert(ga != gb) by {
                if ga == gb {
                    assert(pa =~= pb) by {
                        assert forall|i: int| 0 <= i < 8 implies pa[i] == pb[i] by {
                            assert(pa[i] == ga[i]);
                            assert(pb[i] == gb[i]);
                        }
                    }
                }
            }
            lemma_lex_differing_heads(ga, gb, after_first_group(a), after_first_group(b));
        }
    }
}

/// No string comes before itself, and of two strings at most one comes first.
pub proof fn lemma_lex_asymmetric(a: Seq<u8>, b: Seq<u8>)
    ensures
        !(lex_lt(a, b) && lex_lt(b, a)),
        !lex_lt(a, a),
    decreases a.len(),
{
    if a.len() > 0 {
        lemma_lex_asymmetric(a.drop_first(), a.drop_first());
        if b.len() > 0 {
            lemma_lex_asymmetric(a.drop_first(), b.drop_first());
        }
    }
}

/// Of two different strings, one comes first.
pub proof fn lemma_lex_total(a: Seq<u8>, b: Seq<u8>)
    requires
        a != b,
    ensures
        lex_lt(a, b) || lex_lt(b, a),
    decreases a.len(),
{
    if a.len() == 0 {
        assert(b.len() > 0) by {
            if b.len() == 0 {
                assert(a =~= b);
            }
        }
    } else if b.len() > 0 && a[0] == b[0] {
        if a.drop_first() == b.drop_first() {
            assert(a.len() == b.len()) by {
                assert(a.drop_first().len() == b.drop_first().len());
            }
            assert(a =~= b) by {
                assert forall|i: int| 0 <= i < a.len() implies a[i] == b[i] by {
                    if i > 0 {
                        assert(a[i] == a.drop_first()[i - 1]);
                        assert(b[i] == b.drop_first()[i - 1]);
                    }
                }
            }
        }
        lemma_lex_total(a.drop_first(), b.drop_first());
    }
}

/// Byte strings and their encodings are in the same order, and the encoding
/// tells strings apart: comparing encodings byte-wise compares the strings.
pub proof fn lemma_encoded_order_iff(a: Seq<u8>, b: Seq<u8>)
    ensures
        lex_lt(a, b) <==> lex_lt(encoded(a), encoded(b)),
        a == b <==> encoded(a) == encoded(b),
{
    lemma_decode_encoded(a, Seq::empty());
    lemma_decode_encoded(b, Seq::empty());
    assert(encoded(a) + Seq::<u8>::empty() =~= encoded(a));
    assert(encoded(b) + Seq::<u8>::empty() =~= encoded(b));
    if lex_lt(a, b) {
        lemma_encoded_order(a, b);
    } else if a != b {
        lemma_lex_total(a, b);
        lemma_encoded_order(b, a);
        lemma_lex_asymmetric(encoded(a), encoded(b));
    } else {
        lemma_lex_asymmetric(encoded(a), encoded(a));
    }
}

} // verus!
