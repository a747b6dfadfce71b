//! Properties of the custom cipher: the forward scheme that the host uses to
//! hide bytes, and the facts that tie it to the decoder.

use vstd::prelude::*;
use crate::cipher::{
    cipher_bytes, cipher_call_of, cipher_parameters_spec, cipher_stage, first_index, segment_bytes, segment_value,
    segments_bytes, utf8_lossy,
};
use crate::error::ResolveError;
use crate::text::split_spec;

verus! {

/// A charset and radix that the forward scheme can use: at least two digits,
/// and the digits and the separator `cs[radix]` all distinct.
pub open spec fn valid_alphabet(cs: Seq<char>, radix: int) -> bool {
    &&& 2 <= radix < cs.len()
    &&& forall|i: int, j: int| 0 <= i < j <= radix ==> cs[i] != cs[j]
}

/// The base-`radix` numeral of `v` over the digits of `cs`, most significant first.
pub open spec fn numeral(v: nat, cs: Seq<char>, radix: nat) -> Seq<char>
    decreases v via numeral_decreases
{
    if radix < 2 || v < radix {
        seq![cs[v as int]]
    } else {
        numeral(v / radix, cs, radix).push(cs[(v % radix) as int])
    }
}

#[via_fn]
proof fn numeral_decreases(v: nat, cs: Seq<char>, radix: nat) {
    if !(radix < 2 || v < radix) {
        assert(v / radix < v) by (nonlinear_arith)
            requires
                v >= radix,
                radix >= 2,
        ;
    }
}

/// The forward scheme: each byte, raised by `offset`, written as a numeral and
/// followed by the separator.
pub open spec fn cipher_encode(bytes: Seq<u8>, cs: Seq<char>, offset: nat, radix: nat) -> Seq<char>
    decreases bytes.len(),
{
    if bytes.len() == 0 {
        Seq::empty()
    } else {
        cipher_encode(bytes.drop_last(), cs, offset, radix) + numeral(
            (bytes.last() as nat + offset) as nat,
            cs,
            radix,
        ).push(cs[radix as int])
    }
}

proof fn lemma_first_index_of_digit(cs: Seq<char>, radix: int, d: int)
    requires
        valid_alphabet(cs, radix),
        0 <= d <= radix,
    ensures
        first_index(cs, cs[d]) == d,
{
    let c = cs[d];
    assert(0 <= d < cs.len() && cs[d] == c);
    let i = first_index(cs, c);
    assert(0 <= i < cs.len() && cs[i] == c && forall|j: int| 0 <= j < i ==> cs[j] != c);
    if i < d {
        assert(cs[i] != cs[d]);
    }
    if i > d {
        assert(cs[d] != c);
    }
}

proof fn lemma_numeral(v: nat, cs: Seq<char>, radix: nat)
    requires
        valid_alphabet(cs, radix as int),
    ensures
        numeral(v, cs, radix).len() > 0,
        segment_value(numeral(v, cs, radix), cs, radix as int) == v,
        forall|k: int| 0 <= k < numeral(v, cs, radix).len() ==> #[trigger] numeral(v, cs, radix)[k] != cs[radix as int],
    decreases v,
{
    let n = numeral(v, cs, radix);
    if v < radix {
        lemma_first_index_of_digit(cs, radix as int, v as int);
        assert(n.drop_last() =~= Seq::<char>::empty());
        assert(n[0] != cs[radix as int]);
        assert(segment_value(n.drop_last(), cs, radix as int) == 0);
        assert(n.last() == cs[v as int]);
        assert(0 * radix + v == v);
    } else {
        let q = v / radix;
        let m = v % radix;
        vstd::arithmetic::div_mod::lemma_fundamental_div_mod(v as int, radix as int);
        assert(q < v) by (nonlinear_arith)
            requires
                q == v / radix,
                v >= radix,
                radix >= 2,
        ;
        lemma_numeral(q, cs, radix);
        lemma_first_index_of_digit(cs, radix as int, m as int);
        let p = numeral(q, cs, radix);
        assert(n == p.push(cs[m as int]));
        assert(n.drop_last() =~= p);
        assert(n.last() == cs[m as int]);
        assert(segment_value(n, cs, radix as int) == q * radix + m);
        assert(q * radix + m == v) by (nonlinear_arith)
            requires
                v == radix * q + m,
        ;
        assert forall|k: int| 0 <= k < n.len() implies #[trigger] n[k] != cs[radix as int] by {
            if k < p.len() {
                assert(n[k] == p[k]);
            }
        }
    }
}

proof fn lemma_split_append_plain(x: Seq<char>, y: Seq<char>, sep: char)
    requires
        forall|k: int| 0 <= k < y.len() ==> #[trigger] y[k] != sep,
    ensures
        ({
            let sx = split_spec(x, sep);
            split_spec(x + y, sep) == sx.update(sx.len() - 1, sx.last() + y)
        }),
    decreases y.len(),
{
    crate::text::lemma_split_nonempty(x, sep);
    let sx = split_spec(x, sep);
    if y.len() == 0 {
        assert(x + y =~= x);
        assert(sx.last() + y =~= sx.last());
        assert(sx.update(sx.len() - 1, sx.last()) =~= sx);
    } else {
        let y1 = y.drop_last();
        lemma_split_append_plain(x, y1, sep);
        assert((x + y).drop_last() =~= x + y1);
        assert((x + y).last() == y.last());
        assert(y.last() != sep);
        let prev = split_spec(x + y1, sep);
        assert((sx.last() + y1).push(y.last()) =~= sx.last() + y);
        assert(prev.update(prev.len() - 1, prev.last().push(y.last())) =~= sx.update(
            sx.len() - 1,
            sx.last() + y,
        ));
    }
}

proof fn lemma_encode_split(bytes: Seq<u8>, cs: Seq<char>, offset: nat, radix: nat)
    requires
        valid_alphabet(cs, radix as int),
    ensures
        ({
            let sp = split_spec(cipher_encode(bytes, cs, offset, radix), cs[radix as int]);
            &&& sp.len() >= 1
            &&& sp.last().len() == 0
            &&& segments_bytes(sp.drop_last(), cs, offset as int, radix as int) == bytes
        }),
    decreases bytes.len(),
{
    let sep = cs[radix as int];
    if bytes.len() == 0 {
        assert(split_spec(Seq::<char>::empty(), sep).drop_last() =~= Seq::<Seq<char>>::empty());
        assert(segments_bytes(Seq::<Seq<char>>::empty(), cs, offset as int, radix as int) =~= bytes);
    } else {
        let rest = bytes.drop_last();
        let b = bytes.last();
        lemma_encode_split(rest, cs, offset, radix);
        let e = cipher_encode(rest, cs, offset, radix);
        let v = (b as nat + offset) as nat;
        let n = numeral(v, cs, radix);
        lemma_numeral(v, cs, radix);
        lemma_split_append_plain(e, n, sep);
        let se = split_spec(e, sep);
        let whole = cipher_encode(bytes, cs, offset, radix);
        assert(whole == (e + n).push(sep)) by {
            assert(e + n.push(sep) =~= (e + n).push(sep));
        }
        assert(whole.drop_last() =~= e + n);
        let mid = se.update(se.len() - 1, se.last() + n);
        assert(se.last() + n =~= n);
        let sp = split_spec(whole, sep);
        assert(sp == mid.push(Seq::<char>::empty()));
        assert(sp.drop_last() =~= mid);
        assert(mid =~= se.drop_last().push(n));
        assert(mid.drop_last() =~= se.drop_last());
        assert(segment_bytes(n, cs, offset as int, radix as int) =~= seq![b]);
        assert(bytes =~= rest.push(b));
    }
}

/// Encoding bytes with the forward scheme and decoding the result gives the
/// bytes back, for every charset and radix the scheme can use and every offset.
pub proof fn lemma_cipher_round_trip(bytes: Seq<u8>, cs: Seq<char>, offset: nat, radix: nat)
    requires
        valid_alphabet(cs, radix as int),
    ensures
        cipher_bytes(cipher_encode(bytes, cs, offset, radix), cs, offset as int, radix as int) == bytes,
{
    lemma_encode_split(bytes, cs, offset, radix);
    let sp = split_spec(cipher_encode(bytes, cs, offset, radix), cs[radix as int]);
    assert(sp =~= sp.drop_last().push(sp.last()));
    assert(segments_bytes(sp, cs, offset as int, radix as int) =~= segments_bytes(
        sp.drop_last(),
        cs,
        offset as int,
        radix as int,
    ));
}

/// A character that the charset does not hold contributes no digit: removing
/// it from a segment leaves the segment's value unchanged.
pub proof fn lemma_foreign_char_skipped(a: Seq<char>, c: char, b: Seq<char>, cs: Seq<char>, radix: int)
    requires
        forall|i: int| 0 <= i < cs.len() ==> cs[i] != c,
    ensures
        segment_value(a.push(c) + b, cs, radix) == segment_value(a + b, cs, radix),
    decreases b.len(),
{
    if b.len() == 0 {
        assert(a.push(c) + b =~= a.push(c));
        assert(a + b =~= a);
        assert(a.push(c).drop_last() =~= a);
    } else {
        let b1 = b.drop_last();
        lemma_foreign_char_skipped(a, c, b1, cs, radix);
        assert((a.push(c) + b).drop_last() =~= a.push(c) + b1);
        assert((a + b).drop_last() =~= a + b1);
    }
}

/// The forward scheme with the numerals joined by the separator: each byte,
/// raised by `offset`, written as a numeral, with the separator between
/// consecutive numerals only.
pub open spec fn cipher_join(bytes: Seq<u8>, cs: Seq<char>, offset: nat, radix: nat) -> Seq<char>
    decreases bytes.len(),
{
    let last = numeral((bytes.last() as nat + offset) as nat, cs, radix);
    if bytes.len() == 0 {
        Seq::empty()
    } else if bytes.len() == 1 {
        last
    } else {
        cipher_join(bytes.drop_last(), cs, offset, radix).push(cs[radix as int]) + last
    }
}

proof fn lemma_join_then_separator(bytes: Seq<u8>, cs: Seq<char>, offset: nat, radix: nat)
    requires
        bytes.len() >= 1,
    ensures
        cipher_encode(bytes, cs, offset, radix) == cipher_join(bytes, cs, offset, radix).push(cs[radix as int]),
    decreases bytes.len(),
{
    let sep = cs[radix as int];
    let n = numeral((bytes.last() as nat + offset) as nat, cs, radix);
    if bytes.len() == 1 {
        assert(bytes.drop_last().len() == 0);
        assert(cipher_encode(bytes.drop_last(), cs, offset, radix) =~= Seq::<char>::empty());
        assert(Seq::<char>::empty() + n.push(sep) =~= n.push(sep));
    } else {
        lemma_join_then_separator(bytes.drop_last(), cs, offset, radix);
        let j = cipher_join(bytes.drop_last(), cs, offset, radix);
        assert(j.push(sep) + n.push(sep) =~= (j.push(sep) + n).push(sep));
    }
}

/// A trailing separator adds only an empty segment, which stands for no byte.
proof fn lemma_trailing_separator(x: Seq<char>, cs: Seq<char>, offset: int, radix: int)
    requires
        0 <= radix < cs.len(),
    ensures
        cipher_bytes(x.push(cs[radix]), cs, offset, radix) == cipher_bytes(x, cs, offset, radix),
{
    let sep = cs[radix];
    crate::text::lemma_split_nonempty(x, sep);
    assert(x.push(sep).drop_last() =~= x);
    let sp = split_spec(x.push(sep), sep);
    assert(sp == split_spec(x, sep).push(Seq::<char>::empty()));
    assert(sp.drop_last() =~= split_spec(x, sep));
    assert(segment_bytes(Seq::<char>::empty(), cs, offset, radix) =~= Seq::<u8>::empty());
    assert(segments_bytes(sp, cs, offset, radix) =~= segments_bytes(split_spec(x, sep), cs, offset, radix));
}

/// Joining the numerals of bytes by the separator and decoding the result
/// gives the bytes back, for every charset and radix the scheme can use and
/// every offset.
pub proof fn lemma_cipher_join_round_trip(bytes: Seq<u8>, cs: Seq<char>, offset: nat, radix: nat)
    requires
        valid_alphabet(cs, radix as int),
    ensures
        cipher_bytes(cipher_join(bytes, cs, offset, radix), cs, offset as int, radix as int) == bytes,
{
    lemma_cipher_round_trip(bytes, cs, offset, radix);
    if bytes.len() == 0 {
        let e = Seq::<char>::empty();
        assert(cipher_join(bytes, cs, offset, radix) == e);
        assert(cipher_encode(bytes, cs, offset, radix) == e);
    } else {
        lemma_join_then_separator(bytes, cs, offset, radix);
        lemma_trailing_separator(cipher_join(bytes, cs, offset, radix), cs, offset as int, radix as int);
    }
}

/// A page whose first cipher invocation carries the joined numerals of some
/// bytes, with usable offset and radix, decodes to the text of exactly those
/// bytes.
pub proof fn lemma_page_decodes_joined_bytes(
    html: Seq<char>,
    bytes: Seq<u8>,
    offset_text: Seq<char>,
    radix_text: Seq<char>,
    cs: Seq<char>,
    offset: nat,
    radix: nat,
)
    requires
        valid_alphabet(cs, radix as int),
        cipher_parameters_spec(cs, offset_text, radix_text) == Some((offset as int, radix as int)),
        cipher_call_of(html) == Some((cipher_join(bytes, cs, offset, radix), cs, offset_text, radix_text)),
    ensures
        cipher_stage(html) == Ok::<Option<Seq<char>>, ResolveError>(Some(utf8_lossy(bytes))),
{
    lemma_cipher_join_round_trip(bytes, cs, offset, radix);
}

/// How the pieces of `x.push(c) + y` relate to those of `x + y`, with `c` no
/// separator: the same pieces, but for the one that holds the insertion point,
/// which is `p + r` in one and `p.push(c) + r` in the other.
proof fn lemma_split_insert(x: Seq<char>, c: char, y: Seq<char>, sep: char) -> (pr: (Seq<char>, Seq<char>))
    requires
        c != sep,
    ensures
        ({
            let s0 = split_spec(x + y, sep);
            let s1 = split_spec(x.push(c) + y, sep);
            let kk = split_spec(x, sep).len() - 1;
            &&& 0 <= kk < s0.len()
            &&& s1.len() == s0.len()
            &&& forall|i: int| 0 <= i < s0.len() && i != kk ==> #[trigger] s1[i] == s0[i]
            &&& s0[kk] == pr.0 + pr.1
            &&& s1[kk] == pr.0.push(c) + pr.1
            &&& pr.0 == split_spec(x, sep).last()
            &&& (y.len() > 0 && y[0] != sep ==> pr.1.len() > 0)
        }),
    decreases y.len(),
{
    crate::text::lemma_split_nonempty(x, sep);
    let sx = split_spec(x, sep);
    let kk = sx.len() - 1;
    if y.len() == 0 {
        assert(x + y =~= x);
        assert(x.push(c) + y =~= x.push(c));
        assert(x.push(c).drop_last() =~= x);
        assert(sx.last() + Seq::<char>::empty() =~= sx.last());
        assert(sx.last().push(c) + Seq::<char>::empty() =~= sx.last().push(c));
        (sx.last(), Seq::<char>::empty())
    } else {
        let y1 = y.drop_last();
        let d = y.last();
        let (p, r) = lemma_split_insert(x, c, y1, sep);
        crate::text::lemma_split_nonempty(x + y1, sep);
        assert((x + y).drop_last() =~= x + y1);
        assert((x.push(c) + y).drop_last() =~= x.push(c) + y1);
        assert((x + y).last() == d);
        assert((x.push(c) + y).last() == d);
        let t0 = split_spec(x + y1, sep);
        let t1 = split_spec(x.push(c) + y1, sep);
        if d == sep {
            if y1.len() > 0 {
                assert(y[0] == y1[0]);
            }
            (p, r)
        } else if t0.len() - 1 == kk {
            assert((p + r).push(d) =~= p + r.push(d));
            assert((p.push(c) + r).push(d) =~= p.push(c) + r.push(d));
            (p, r.push(d))
        } else {
            if y1.len() > 0 {
                assert(y[0] == y1[0]);
            }
            (p, r)
        }
    }
}

proof fn lemma_segments_bytes_one_piece(s0: Seq<Seq<char>>, s1: Seq<Seq<char>>, kk: int, cs: Seq<char>, offset: int, radix: int)
    requires
        s1.len() == s0.len(),
        forall|i: int| 0 <= i < s0.len() && i != kk ==> #[trigger] s1[i] == s0[i],
        0 <= kk < s0.len() ==> segment_bytes(s1[kk], cs, offset, radix) == segment_bytes(s0[kk], cs, offset, radix),
    ensures
        segments_bytes(s1, cs, offset, radix) == segments_bytes(s0, cs, offset, radix),
    decreases s0.len(),
{
    if s0.len() > 0 {
        let n = s0.len() - 1;
        assert forall|i: int| 0 <= i < n && i != kk implies #[trigger] s1.drop_last()[i] == s0.drop_last()[i] by {
            assert(s1[i] == s0[i]);
        }
        if 0 <= kk < n {
            assert(s1.drop_last()[kk] == s1[kk] && s0.drop_last()[kk] == s0[kk]);
        }
        lemma_segments_bytes_one_piece(s0.drop_last(), s1.drop_last(), kk, cs, offset, radix);
        if kk != n {
            assert(s1[n] == s0[n]);
        }
    }
}

/// A character that the charset does not hold, inserted into the ciphertext
/// next to a character that is not the separator (so into a non-empty
/// segment), changes nothing in the decoded bytes.
pub proof fn lemma_foreign_char_inserted(x: Seq<char>, c: char, y: Seq<char>, cs: Seq<char>, offset: int, radix: int)
    requires
        0 <= radix < cs.len(),
        forall|i: int| 0 <= i < cs.len() ==> cs[i] != c,
        (x.len() > 0 && x.last() != cs[radix]) || (y.len() > 0 && y[0] != cs[radix]),
    ensures
        cipher_bytes(x.push(c) + y, cs, offset, radix) == cipher_bytes(x + y, cs, offset, radix),
{
    let sep = cs[radix];
    let (p, r) = lemma_split_insert(x, c, y, sep);
    let kk = split_spec(x, sep).len() - 1;
    let s0 = split_spec(x + y, sep);
    let s1 = split_spec(x.push(c) + y, sep);
    if x.len() > 0 && x.last() != sep {
        let prev = split_spec(x.drop_last(), sep);
        crate::text::lemma_split_nonempty(x.drop_last(), sep);
        assert(p == prev.last().push(x.last()));
    }
    assert((p + r).len() > 0);
    lemma_foreign_char_skipped(p, c, r, cs, radix);
    lemma_segments_bytes_one_piece(s0, s1, kk, cs, offset, radix);
}

} // verus!
