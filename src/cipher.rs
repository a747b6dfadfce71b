//! The host's custom substitution cipher: each byte of the hidden script is
//! written as a numeral over a per-page digit alphabet, and the numerals are
//! joined by a separator character taken from that same alphabet.

use vstd::prelude::*;
use crate::decimal::{decimal_within, parse_decimal};
use crate::error::ResolveError;
use crate::text::{chars_of, lemma_split_nonempty, split_spec};

verus! {

/// Largest offset accepted: the offset is a signed 64-bit quantity.
pub const MAX_OFFSET: u64 = 9223372036854775807;

/// Largest radix accepted: the radix is an unsigned 32-bit quantity.
pub const MAX_RADIX: u64 = 4294967295;

/// The arguments of one cipher invocation, read as numbers.
#[derive(Debug, Clone)]
pub struct CipherParameters {
    pub ciphertext: String,
    pub charset: String,
    pub offset: u64,
    pub radix: u32,
}

impl CipherParameters {
    /// The radix indexes the charset, and the offset is a signed 64-bit value.
    pub open spec fn wf(&self) -> bool {
        &&& (self.radix as int) < self.charset@.len()
        &&& self.offset <= MAX_OFFSET
    }

    /// The character that separates the numerals.
    pub open spec fn separator(&self) -> char {
        self.charset@[self.radix as int]
    }

    /// The bytes these parameters decode to.
    pub open spec fn bytes(&self) -> Seq<u8> {
        cipher_bytes(self.ciphertext@, self.charset@, self.offset as int, self.radix as int)
    }
}

/// The position of the first occurrence of `c` in `cs`, or -1 when absent.
pub open spec fn first_index(cs: Seq<char>, c: char) -> int {
    if exists|i: int| 0 <= i < cs.len() && cs[i] == c {
        choose|i: int|
            0 <= i < cs.len() && cs[i] == c && forall|j: int| 0 <= j < i ==> cs[j] != c
    } else {
        -1
    }
}

/// The value of one segment: each character found in `cs` is a base-`radix`
/// digit worth its first position there; other characters are skipped.
pub open spec fn segment_value(seg: Seq<char>, cs: Seq<char>, radix: int) -> int
    decreases seg.len(),
{
    if seg.len() == 0 {
        0
    } else {
        let v = segment_value(seg.drop_last(), cs, radix);
        let d = first_index(cs, seg.last());
        if d >= 0 {
            v * radix + d
        } else {
            v
        }
    }
}

/// The byte a segment stands for, if any: empty segments stand for none, and
/// values that fall outside a byte once the offset is taken off are dropped.
pub open spec fn segment_bytes(seg: Seq<char>, cs: Seq<char>, offset: int, radix: int) -> Seq<u8> {
    let b = segment_value(seg, cs, radix) - offset;
    if seg.len() > 0 && 0 <= b <= 255 {
        seq![b as u8]
    } else {
        Seq::empty()
    }
}

/// The bytes of a sequence of segments, in order.
pub open spec fn segments_bytes(segs: Seq<Seq<char>>, cs: Seq<char>, offset: int, radix: int) -> Seq<u8>
    decreases segs.len(),
{
    if segs.len() == 0 {
        Seq::empty()
    } else {
        segments_bytes(segs.drop_last(), cs, offset, radix) + segment_bytes(segs.last(), cs, offset, radix)
    }
}

/// The bytes that `ciphertext` decodes to under the given charset, offset and radix.
pub open spec fn cipher_bytes(ciphertext: Seq<char>, cs: Seq<char>, offset: int, radix: int) -> Seq<u8> {
    segments_bytes(split_spec(ciphertext, cs[radix]), cs, offset, radix)
}

/// The parameters that the textual arguments of an invocation stand for: `None`
/// when the offset or the radix is not a numeral in range, or the radix does
/// not index the charset.
pub open spec fn cipher_parameters_spec(
    charset: Seq<char>,
    offset_text: Seq<char>,
    radix_text: Seq<char>,
) -> Option<(int, int)> {
    match (decimal_within(offset_text, MAX_OFFSET as int), decimal_within(radix_text, MAX_RADIX as int)) {
        (Some(offset), Some(radix)) => if radix < charset.len() {
            Some((offset, radix))
        } else {
            None
        },
        _ => None,
    }
}

/// What the first cipher invocation of `html` is: its four textual
/// arguments (ciphertext, charset, offset, radix) as the pattern of
/// `find_cipher_call` captures them, or `None` when there is no invocation.
pub uninterp spec fn cipher_call_of(html: Seq<char>) -> Option<(Seq<char>, Seq<char>, Seq<char>, Seq<char>)>;

/// What `String::from_utf8_lossy` makes of a byte sequence.
pub uninterp spec fn utf8_lossy(bytes: Seq<u8>) -> Seq<char>;

/// Relies on `regex::Regex::captures`: the leftmost match of the cipher
/// invocation shape in `html`, with its ciphertext, charset, offset and radix
/// groups. The result depends on `html` alone.
#[verifier::external_body]
fn find_cipher_call(html: &str) -> (r: Option<(String, String, String, String)>)
    ensures
        match r {
            Some(t) => cipher_call_of(html@) == Some((t.0@, t.1@, t.2@, t.3@)),
            None => cipher_call_of(html@) is None,
        },
{
    let re = regex::Regex::new(
        r#"(?s)eval\(function\(\w+,\w+,\w+,\w+,\w+,\w+\)\{.*?\}\("(?P<cipher>[^"]+)",\s*(?P<my>\d+),\s*"(?P<mu>[^"]+)",\s*(?P<bu>\d+),\s*(?P<fo>\d+),\s*(?P<zn>\d+)\)\)"#,
    ).unwrap();
    re.captures(html).map(
        |c| (c["cipher"].to_string(), c["mu"].to_string(), c["bu"].to_string(), c["fo"].to_string()),
    )
}

/// Relies on `String::from_utf8_lossy`: the text of `bytes`, with each invalid
/// sequence replaced. The result depends on `bytes` alone.
#[verifier::external_body]
fn lossy_text(bytes: &Vec<u8>) -> (r: String)
    ensures
        r@ == utf8_lossy(bytes@),
{
    String::from_utf8_lossy(bytes.as_slice()).to_string()
}

/// The first position of `c` in `cs`.
fn position_in(cs: &Vec<char>, c: char) -> (r: Option<usize>)
    ensures
        match r {
            Some(i) => first_index(cs@, c) == i as int,
            None => first_index(cs@, c) == -1,
        },
{
    let mut i: usize = 0;
    while i < cs.len()
        invariant
            i <= cs.len(),
            forall|j: int| 0 <= j < i ==> cs@[j] != c,
        decreases cs.len() - i,
    {
        if cs[i] == c {
            proof {
                let k = first_index(cs@, c);
                assert(0 <= k < cs@.len() && cs@[k] == c && forall|j: int| 0 <= j < k ==> cs@[j] != c);
                if k < i {
                    assert(cs@[k] != c);
                }
                if k > i {
                    assert(cs@[i as int] != c);
                }
            }
            return Some(i);
        }
        i = i + 1;
    }
    None
}

/// Reads the offset and radix of a cipher invocation; fails exactly when
/// either is not a numeral in range or the radix does not index `charset`.
pub fn parse_cipher_parameters(
    ciphertext: String,
    charset: String,
    offset_text: &str,
    radix_text: &str,
) -> (r: Result<CipherParameters, ResolveError>)
    ensures
        match cipher_parameters_spec(charset@, offset_text@, radix_text@) {
            Some((offset, radix)) => r matches Ok(p) && p.wf() && p.ciphertext@ == ciphertext@
                && p.charset@ == charset@ && p.offset as int == offset && p.radix as int == radix,
            None => r == Err::<CipherParameters, ResolveError>(ResolveError::MalformedCipherParameters),
        },
{
    let offset = match parse_decimal(offset_text, MAX_OFFSET) {
        Some(v) => v,
        None => return Err(ResolveError::MalformedCipherParameters),
    };
    let radix = match parse_decimal(radix_text, MAX_RADIX) {
        Some(v) => v,
        None => return Err(ResolveError::MalformedCipherParameters),
    };
    let n = charset.as_str().unicode_len();
    if radix >= n as u64 {
        return Err(ResolveError::MalformedCipherParameters);
    }
    Ok(CipherParameters { ciphertext, charset, offset, radix: radix as u32 })
}

/// Capping an accumulator at `cap` commutes with one positional step.
pub proof fn lemma_capped_step(v: int, cap: int, r: int, d: int)
    requires
        v >= 0,
        cap >= 0,
        r >= 0,
        d >= 0,
    ensures
        ({
            let a = if v < cap { v } else { cap };
            let x = a * r + d;
            let y = v * r + d;
            (if x < cap { x } else { cap }) == (if y < cap { y } else { cap })
        }),
{
    if v >= cap && r >= 1 {
        assert(cap * r >= cap) by (nonlinear_arith)
            requires
                cap >= 0,
                r >= 1,
        ;
        assert(v * r >= cap * r) by (nonlinear_arith)
            requires
                v >= cap,
                r >= 0,
        ;
    }
}

/// Decodes the ciphertext into bytes.
pub fn decode_cipher_bytes(p: &CipherParameters) -> (r: Vec<u8>)
    requires
        p.wf(),
    ensures
        r@ == p.bytes(),
{
    let cs = chars_of(p.charset.as_str());
    let ct = chars_of(p.ciphertext.as_str());
    let radix = p.radix as usize;
    let sep = cs[radix];
    let ghost csv = cs@;
    let ghost off = p.offset as int;
    let ghost rd = p.radix as int;
    let cap: u128 = p.offset as u128 + 256;
    let mut out: Vec<u8> = Vec::new();
    let mut acc: u128 = 0;
    let mut len: usize = 0;
    let mut i: usize = 0;
    while i < ct.len()
        invariant
            i <= ct.len(),
            cs@ == p.charset@,
            ct@ == p.ciphertext@,
            p.wf(),
            sep == p.separator(),
            radix == p.radix,
            cap == p.offset + 256,
            csv == cs@,
            off == p.offset as int,
            rd == p.radix as int,
            ({
                let sp = split_spec(ct@.take(i as int), sep);
                let v = segment_value(sp.last(), csv, rd);
                &&& sp.len() >= 1
                &&& out@ == segments_bytes(sp.drop_last(), csv, off, rd)
                &&& acc as int == (if v < cap { v } else { cap as int })
                &&& (len > 0) == (sp.last().len() > 0)
                &&& v >= 0
            }),
        decreases ct.len() - i,
    {
        let c = ct[i];
        let ghost sp = split_spec(ct@.take(i as int), sep);
        proof {
            assert(ct@.take(i as int + 1).drop_last() =~= ct@.take(i as int));
            assert(ct@.take(i as int + 1).last() == c);
        }
        if c == sep {
            if len > 0 && acc >= p.offset as u128 && acc <= p.offset as u128 + 255 {
                out.push((acc - p.offset as u128) as u8);
            }
            proof {
                let sp2 = split_spec(ct@.take(i as int + 1), sep);
                assert(sp2 == sp.push(Seq::<char>::empty()));
                assert(sp2.drop_last() =~= sp);
                assert(sp2.last().len() == 0);
                assert(sp =~= sp.drop_last().push(sp.last()));
            }
            acc = 0;
            len = 0;
        } else {
            let ghost v = segment_value(sp.last(), csv, rd);
            match position_in(&cs, c) {
                Some(d) => {
                    proof {
                        lemma_capped_step(v, cap as int, rd, d as int);
                        assert(acc <= cap);
                        assert(acc * (radix as u128) <= cap * (radix as u128)) by (nonlinear_arith)
                            requires acc <= cap;
                        assert(cap * (radix as u128) <= 0x1_0000_0000_0000_0000 * 0x1_0000_0000) by (nonlinear_arith)
                            requires cap <= 0x1_0000_0000_0000_0000, radix <= 0x1_0000_0000;
                        assert(v * rd + d >= 0) by (nonlinear_arith)
                            requires v >= 0, rd >= 0, d >= 0;
                    }
                    let x: u128 = acc * (radix as u128) + d as u128;
                    acc = if x < cap { x } else { cap };
                },
                None => {},
            }
            proof {
                let sp2 = split_spec(ct@.take(i as int + 1), sep);
                assert(sp2 == sp.update(sp.len() - 1, sp.last().push(c)));
                assert(sp2.drop_last() =~= sp.drop_last());
                assert(sp2.last() == sp.last().push(c));
                assert(sp2.last().drop_last() =~= sp.last());
            }
            len = 1;
        }
        i = i + 1;
    }
    proof {
        assert(ct@.take(ct@.len() as int) =~= ct@);
        let sp = split_spec(ct@, sep);
        assert(sp =~= sp.drop_last().push(sp.last()));
    }
    if len > 0 && acc >= p.offset as u128 && acc <= p.offset as u128 + 255 {
        out.push((acc - p.offset as u128) as u8);
    }
    out
}

/// What the cipher stage makes of a page: `Ok(None)` when it holds no cipher
/// invocation, an error when the invocation's numbers are unusable, and the
/// decoded text otherwise.
pub open spec fn cipher_stage(html: Seq<char>) -> Result<Option<Seq<char>>, ResolveError> {
    match cipher_call_of(html) {
        None => Ok(None),
        Some((ciphertext, charset, offset_text, radix_text)) => match cipher_parameters_spec(
            charset,
            offset_text,
            radix_text,
        ) {
            None => Err(ResolveError::MalformedCipherParameters),
            Some((offset, radix)) => Ok(Some(utf8_lossy(cipher_bytes(ciphertext, charset, offset, radix)))),
        },
    }
}

/// The view of a decoder's tagged outcome.
pub open spec fn outcome_view(r: Result<Option<String>, ResolveError>) -> Result<Option<Seq<char>>, ResolveError> {
    match r {
        Ok(Some(t)) => Ok(Some(t@)),
        Ok(None) => Ok(None),
        Err(e) => Err(e),
    }
}

/// Finds the first cipher invocation of `html` and decodes it.
pub fn unpack_custom_kwik(html: &str) -> (r: Result<Option<String>, ResolveError>)
    ensures
        outcome_view(r) == cipher_stage(html@),
{
    match find_cipher_call(html) {
        None => Ok(None),
        Some((ciphertext, charset, offset_text, radix_text)) => {
            let p = parse_cipher_parameters(ciphertext, charset, offset_text.as_str(), radix_text.as_str())?;
            let bytes = decode_cipher_bytes(&p);
            Ok(Some(lossy_text(&bytes)))
        },
    }
}

} // verus!
