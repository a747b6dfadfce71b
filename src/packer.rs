//! The generic keyword packer: identifiers of a script are replaced by
//! base-N numerals that index a dictionary of the plain words.

use vstd::prelude::*;
use crate::cipher::lemma_capped_step;

verus! {

/// The value of `c` as a digit of the alphabet `0-9a-zA-Z`, or -1.
pub open spec fn alphabet_pos(c: char) -> int {
    if '0' <= c && c <= '9' {
        c as int - '0' as int
    } else if 'a' <= c && c <= 'z' {
        c as int - 'a' as int + 10
    } else if 'A' <= c && c <= 'Z' {
        c as int - 'A' as int + 36
    } else {
        -1
    }
}

/// The value of `tok` as a base-`base` numeral over the alphabet `0-9a-zA-Z`,
/// or `None` when one of its characters is no digit below `base`.
pub open spec fn numeral_value(tok: Seq<char>, base: int) -> Option<int>
    decreases tok.len(),
{
    if tok.len() == 0 {
        Some(0)
    } else {
        let d = alphabet_pos(tok.last());
        match numeral_value(tok.drop_last(), base) {
            Some(v) => if 0 <= d < base {
                Some(v * base + d)
            } else {
                None
            },
            None => None,
        }
    }
}

/// What a token becomes: the dictionary entry its value indexes, when it is a
/// numeral, the index is in range and the entry is not empty; else the token.
pub open spec fn token_replacement(tok: Seq<char>, base: int, dict: Seq<Seq<char>>) -> Seq<char> {
    match numeral_value(tok, base) {
        Some(v) => if v < dict.len() && dict[v].len() > 0 {
            dict[v]
        } else {
            tok
        },
        None => tok,
    }
}

/// The views of a sequence of strings.
pub open spec fn strings_view(v: Seq<String>) -> Seq<Seq<char>> {
    v.map_values(|s: String| s@)
}

/// `s` with the character spans `runs` (in order, not overlapping) each
/// replaced by its `token_replacement`.
pub open spec fn substitute_runs(s: Seq<char>, runs: Seq<(int, int)>, base: int, dict: Seq<Seq<char>>) -> Seq<char>
    decreases runs.len(),
{
    if runs.len() == 0 {
        s
    } else {
        let (a, b) = runs.last();
        substitute_runs(s.take(a), runs.drop_last(), base, dict) + token_replacement(s.subrange(a, b), base, dict)
            + s.skip(b)
    }
}

/// The spans are non-empty, lie inside a text of length `len`, and come in
/// order without overlapping.
pub open spec fn runs_in_order(runs: Seq<(int, int)>, len: int) -> bool {
    &&& forall|i: int| 0 <= i < runs.len() ==> 0 <= (#[trigger] runs[i]).0 < runs[i].1 <= len
    &&& forall|i: int, j: int| 0 <= i < j < runs.len() ==> (#[trigger] runs[i]).1 <= (#[trigger] runs[j]).0
}

/// The character spans of the successive non-overlapping matches of the word
/// pattern `\b\w+\b` in `s`, in the order `Regex::replace_all` visits them.
pub uninterp spec fn word_runs(s: Seq<char>) -> Seq<(int, int)>;

/// Resolves one token against the dictionary.
pub fn resolve_token(token: &str, base: usize, dict: &Vec<String>) -> (r: String)
    ensures
        r@ == token_replacement(token@, base as int, strings_view(dict@)),
{
    let cap: u128 = dict.len() as u128;
    let mut acc: u128 = 0;
    let mut valid = true;
    let ghost b = base as int;
    for c in it: token.chars()
        invariant
            it.seq() == token@,
            cap == dict.len(),
            b == base as int,
            valid ==> ({
                let v = numeral_value(token@.take(it.index() as int), b);
                &&& v is Some
                &&& v->0 >= 0
                &&& acc as int == (if v->0 < cap { v->0 } else { cap as int })
            }),
            !valid ==> numeral_value(token@.take(it.index() as int), b) is None,
    {
        let ghost n = it.index() as int;
        proof {
            assert(token@.take(n + 1).drop_last() =~= token@.take(n));
            assert(token@.take(n + 1).last() == c);
        }
        let pos: u128 = if '0' <= c && c <= '9' {
            (c as u32 - '0' as u32) as u128
        } else if 'a' <= c && c <= 'z' {
            (c as u32 - 'a' as u32 + 10) as u128
        } else if 'A' <= c && c <= 'Z' {
            (c as u32 - 'A' as u32 + 36) as u128
        } else {
            62
        };
        if valid {
            if pos >= 62 || pos >= base as u128 {
                valid = false;
            } else {
                let ghost v = numeral_value(token@.take(n), b)->0;
                proof {
                    lemma_capped_step(v, cap as int, b, pos as int);
                    assert(acc * (base as u128) <= cap * (base as u128)) by (nonlinear_arith)
                        requires
                            acc <= cap,
                    ;
                    assert(cap * (base as u128) <= 0xffff_ffff_ffff_ffff * 0xffff_ffff_ffff_ffff)
                        by (nonlinear_arith)
                        requires
                            cap <= 0xffff_ffff_ffff_ffff,
                            base <= 0xffff_ffff_ffff_ffff,
                    ;
                    assert(v * b + pos >= 0) by (nonlinear_arith)
                        requires
                            v >= 0,
                            b >= 0,
                            pos >= 0,
                    ;
                }
                let x: u128 = acc * (base as u128) + pos;
                acc = if x < cap { x } else { cap };
            }
        }
    }
    proof {
        assert(token@.take(token@.len() as int) =~= token@);
    }
    if valid && acc < cap {
        let i = acc as usize;
        if dict[i].as_str().unicode_len() > 0 {
            return dict[i].clone();
        }
    }
    String::from_str(token)
}

/// Relies on `regex::Regex::replace_all` with the word pattern `\b\w+\b`:
/// each match is replaced by what the closure returns for it, and the text
/// between matches is kept.
#[verifier::external_body]
fn replace_words(packed: &str, base: usize, dict: &Vec<String>) -> (r: String)
    ensures
        r@ == substitute_runs(packed@, word_runs(packed@), base as int, strings_view(dict@)),
{
    let re = regex::Regex::new(r"\b\w+\b").unwrap();
    re.replace_all(packed, |c: &regex::Captures| resolve_token(&c[0], base, dict)).to_string()
}

/// Decodes one packed source: every word token that is a numeral indexing a
/// non-empty dictionary entry becomes that entry.
pub fn unpack_dean_edwards(packed: &str, base: usize, keywords: &Vec<String>) -> (r: String)
    ensures
        r@ == substitute_runs(packed@, word_runs(packed@), base as int, strings_view(keywords@)),
{
    replace_words(packed, base, keywords)
}

/// The digit of the alphabet `0-9a-zA-Z` worth `d`.
pub open spec fn alphabet_char(d: int) -> char {
    if d < 10 {
        (d + 48) as u32 as char
    } else if d < 36 {
        (d + 87) as u32 as char
    } else {
        (d + 29) as u32 as char
    }
}

proof fn lemma_alphabet_char(d: int)
    requires
        0 <= d < 62,
    ensures
        alphabet_pos(alphabet_char(d)) == d,
{
}

/// The base-`base` numeral of `v` over the alphabet `0-9a-zA-Z`, most
/// significant digit first: the token a packer writes for dictionary index `v`.
pub open spec fn base_numeral(v: nat, base: nat) -> Seq<char>
    decreases v via base_numeral_decreases
{
    if base < 2 || v < base {
        seq![alphabet_char(v as int)]
    } else {
        base_numeral(v / base, base).push(alphabet_char((v % base) as int))
    }
}

#[via_fn]
proof fn base_numeral_decreases(v: nat, base: nat) {
    if !(base < 2 || v < base) {
        assert(v / base < v) by (nonlinear_arith)
            requires
                v >= base,
                base >= 2,
        ;
    }
}

proof fn lemma_base_numeral_value(v: nat, base: nat)
    requires
        2 <= base <= 62,
    ensures
        numeral_value(base_numeral(v, base), base as int) == Some(v as int),
    decreases v,
{
    let n = base_numeral(v, base);
    if v < base {
        lemma_alphabet_char(v as int);
        assert(n.drop_last() =~= Seq::<char>::empty());
        assert(numeral_value(n.drop_last(), base as int) == Some(0int));
        assert(0 * base + v == v);
    } else {
        let q = v / base;
        let m = v % base;
        vstd::arithmetic::div_mod::lemma_fundamental_div_mod(v as int, base as int);
        assert(q < v) by (nonlinear_arith)
            requires
                q == v / base,
                v >= base,
                base >= 2,
        ;
        lemma_base_numeral_value(q, base);
        lemma_alphabet_char(m as int);
        assert(n.drop_last() =~= base_numeral(q, base));
        assert(q * base + m == v) by (nonlinear_arith)
            requires
                v == base * q + m,
        ;
    }
}

/// A dictionary index written as its base-`base` numeral resolves back to the
/// dictionary entry; when that entry is empty the numeral is left as it is.
pub proof fn lemma_packed_token_round_trip(v: nat, base: nat, dict: Seq<Seq<char>>)
    requires
        2 <= base <= 62,
        v < dict.len(),
    ensures
        token_replacement(base_numeral(v, base), base as int, dict) == (if dict[v as int].len() > 0 {
            dict[v as int]
        } else {
            base_numeral(v, base)
        }),
{
    lemma_base_numeral_value(v, base);
}

proof fn lemma_numeral_value_nonneg(tok: Seq<char>, base: int)
    ensures
        numeral_value(tok, base) matches Some(v) ==> v >= 0,
    decreases tok.len(),
{
    if tok.len() > 0 {
        lemma_numeral_value_nonneg(tok.drop_last(), base);
        if let Some(v) = numeral_value(tok.drop_last(), base) {
            let d = alphabet_pos(tok.last());
            if 0 <= d < base {
                assert(v * base + d >= 0) by (nonlinear_arith)
                    requires
                        v >= 0,
                        0 <= d < base,
                ;
            }
        }
    }
}

proof fn lemma_substitute_identity(s: Seq<char>, runs: Seq<(int, int)>, base: int, dict: Seq<Seq<char>>)
    requires
        runs_in_order(runs, s.len() as int),
        forall|i: int| 0 <= i < dict.len() ==> (#[trigger] dict[i]).len() == 0,
    ensures
        substitute_runs(s, runs, base, dict) == s,
    decreases runs.len(),
{
    if runs.len() > 0 {
        let (a, b) = runs.last();
        let rest = runs.drop_last();
        assert(runs[runs.len() - 1] == (a, b));
        assert(0 <= runs[runs.len() - 1].0 < runs[runs.len() - 1].1 <= s.len());
        assert forall|i: int| 0 <= i < rest.len() implies 0 <= (#[trigger] rest[i]).0 < rest[i].1 <= a by {
            assert(rest[i] == runs[i]);
        }
        assert forall|i: int, j: int| 0 <= i < j < rest.len() implies (#[trigger] rest[i]).1 <= (#[trigger] rest[j]).0 by {
            assert(rest[i] == runs[i] && rest[j] == runs[j]);
        }
        lemma_substitute_identity(s.take(a), rest, base, dict);
        let tok = s.subrange(a, b);
        lemma_numeral_value_nonneg(tok, base);
        assert(token_replacement(tok, base, dict) == tok);
        assert(s.take(a) + tok + s.skip(b) =~= s);
    }
}

/// With a dictionary whose entries are all empty (or no entries at all), every
/// token passes through as it is, so unpacking leaves the text unchanged,
/// whenever the word spans are in order, as successive regex matches are.
pub proof fn lemma_empty_dictionary_identity(packed: Seq<char>, base: int, dict: Seq<Seq<char>>)
    requires
        runs_in_order(word_runs(packed), packed.len() as int),
        forall|i: int| 0 <= i < dict.len() ==> (#[trigger] dict[i]).len() == 0,
    ensures
        substitute_runs(packed, word_runs(packed), base, dict) == packed,
{
    lemma_substitute_identity(packed, word_runs(packed), base, dict);
}

} // verus!
