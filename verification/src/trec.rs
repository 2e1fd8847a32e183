//! The TREC result-list text codec: parses the whitespace-separated
//! `qid 0 docno rank score runid` line format into result entries and
//! serializes fused output back into the same format.
//!
//! The codec works on bytes. Lines are split at line-feed bytes; within a
//! line, fields are separated by runs of ASCII whitespace. A score literal
//! is an optional sign, up to twelve integer digits and up to six
//! fractional digits — exactly the decimals a [`Score`] represents — and
//! anything else, `nan` and `inf` included, is rejected as an invalid
//! score. The serializer writes the shortest such literal, so parsing a
//! serialized list gives back the records it was written from.

use crate::scoring::Score;
use crate::scoring::MICRO_UNITS;
use crate::scoring::SCALE;
use crate::EntryInfo;
use crate::Rank;
use crate::RankedSearchEntry;
use crate::SearchEntry;
use vstd::prelude::*;

verus! {

/// Units of the largest score magnitude the text form carries: one whole
/// point more than the largest twelve-digit integer part.
pub const MAX_TEXT_UNITS: i128 = 5_822_723_907_000_000_000_000_000_000;

/// The fields of a TREC record line, in reading order.
#[derive(Clone, Copy, Debug, PartialEq, Eq, Structural)]
pub enum TrecField {
    /// The query identifier.
    Qid,
    /// The reserved literal between query and document identifier.
    Reserved,
    /// The document identifier.
    Docno,
    /// The rank field.
    Rank,
    /// The score field.
    Score,
    /// The run identifier.
    Runid,
}

/// A parsed TREC result entry.
#[derive(Debug, Clone, PartialEq, Eq)]
pub struct TrecEntry {
    /// Query identifier.
    pub qid: Vec<u8>,
    /// Document identifier: the join key of fusion.
    pub docno: Vec<u8>,
    /// Rank: the document's position in the list.
    pub rank: Rank,
    /// Similarity score; higher is more similar.
    pub score: Score,
    /// Run identifier; ignored by the fusion algorithms.
    pub runid: Vec<u8>,
}

/// The mathematical reading of a TREC record: byte strings, a rank and a
/// score unit count.
pub struct SpecRecord {
    /// Query identifier.
    pub qid: Seq<u8>,
    /// Document identifier.
    pub docno: Seq<u8>,
    /// Rank.
    pub rank: Rank,
    /// Score, in units.
    pub score: int,
    /// Run identifier.
    pub runid: Seq<u8>,
}

impl View for TrecEntry {
    type V = SpecRecord;

    open spec fn view(&self) -> SpecRecord {
        SpecRecord {
            qid: self.qid@,
            docno: self.docno@,
            rank: self.rank,
            score: self.score@,
            runid: self.runid@,
        }
    }
}

impl TrecEntry {
    /// An owned copy of this entry.
    pub fn to_owned(&self) -> (r: TrecEntry)
        ensures
            r@ == self@,
    {
        let qid = self.qid.clone();
        let docno = self.docno.clone();
        let runid = self.runid.clone();
        assert(qid@ =~= self.qid@);
        assert(docno@ =~= self.docno@);
        assert(runid@ =~= self.runid@);
        TrecEntry { qid, docno, rank: self.rank, score: self.score, runid }
    }
}

impl SearchEntry for TrecEntry {
    open spec fn id_spec(&self) -> Seq<u8> {
        self.docno@
    }

    open spec fn score_spec(&self) -> int {
        self.score@
    }

    fn id(&self) -> (r: &Vec<u8>) {
        &self.docno
    }

    fn score(&self) -> (r: Score) {
        self.score
    }

    fn to_entry(&self) -> (r: EntryInfo) {
        let id = self.docno.clone();
        assert(id@ =~= self.docno@);
        EntryInfo { id, score: self.score }
    }
}

impl RankedSearchEntry for TrecEntry {
    open spec fn rank_spec(&self) -> Rank {
        self.rank
    }

    fn rank(&self) -> (r: Rank) {
        self.rank
    }
}

/// Why a TREC input could not be parsed.
#[derive(Debug, Clone, PartialEq, Eq)]
pub enum ParseError {
    /// A record line ended before the named field could be read.
    Eol(TrecField),
    /// The rank field is not a non-negative integer; holds the offending
    /// text.
    InvalidRank(Vec<u8>),
    /// The score field is not a decimal number the codec can hold — NaN
    /// and infinity literals included; holds the offending text.
    InvalidScore(Vec<u8>),
    /// Any other failure; holds a description.
    Other(Vec<u8>),
}

/// The mathematical reading of a parse error.
pub enum SpecParseError {
    /// A record line ended before the named field could be read.
    Eol(TrecField),
    /// The rank field was invalid; holds the offending text.
    InvalidRank(Seq<u8>),
    /// The score field was invalid; holds the offending text.
    InvalidScore(Seq<u8>),
    /// Any other failure.
    Other(Seq<u8>),
}

impl View for ParseError {
    type V = SpecParseError;

    open spec fn view(&self) -> SpecParseError {
        match self {
            ParseError::Eol(f) => SpecParseError::Eol(*f),
            ParseError::InvalidRank(t) => SpecParseError::InvalidRank(t@),
            ParseError::InvalidScore(t) => SpecParseError::InvalidScore(t@),
            ParseError::Other(t) => SpecParseError::Other(t@),
        }
    }
}

impl ParseError {
    /// A short description of the error kind.
    pub fn description(&self) -> (r: &'static str)
        ensures
            r@ == match self@ {
                SpecParseError::Eol(_) => "unexpected end of line"@,
                SpecParseError::InvalidRank(_) => "invalid rank"@,
                SpecParseError::InvalidScore(_) => "invalid score"@,
                SpecParseError::Other(_) => "parse failure"@,
            },
    {
        match self {
            ParseError::Eol(_) => "unexpected end of line",
            ParseError::InvalidRank(_) => "invalid rank",
            ParseError::InvalidScore(_) => "invalid score",
            ParseError::Other(_) => "parse failure",
        }
    }
}

/// ASCII whitespace: space, tab, line feed, vertical tab, form feed and
/// carriage return. Fields are separated by runs of these.
pub open spec fn is_ws(b: u8) -> bool {
    b == 32 || (9 <= b <= 13)
}

/// An ASCII decimal digit.
pub open spec fn is_digit(b: u8) -> bool {
    48 <= b <= 57
}

/// The digit value of a byte; zero for non-digits.
pub open spec fn digit_of(b: u8) -> nat {
    if is_digit(b) {
        (b - 48) as nat
    } else {
        0
    }
}

/// Whether every byte of `s` is a decimal digit.
pub open spec fn all_digits(s: Seq<u8>) -> bool {
    forall|i: int| 0 <= i < s.len() ==> is_digit(#[trigger] s[i])
}

/// The number a digit string denotes.
pub open spec fn digits_val(s: Seq<u8>) -> nat
    decreases s.len(),
{
    if s.len() == 0 {
        0
    } else {
        digits_val(s.drop_last()) * 10 + digit_of(s.last())
    }
}

/// Ten to the `k`.
pub open spec fn pow10(k: nat) -> nat
    decreases k,
{
    if k == 0 {
        1
    } else {
        10 * pow10((k - 1) as nat)
    }
}

/// The decimal digit string of `n`: non-empty, no leading zero unless
/// `n` is zero itself.
pub open spec fn dec_digits(n: nat) -> Seq<u8>
    decreases n,
{
    if n < 10 {
        seq![(48 + n) as u8]
    } else {
        dec_digits(n / 10).push((48 + n % 10) as u8)
    }
}

proof fn lemma_dec_digits_ensures(n: nat)
    ensures
        dec_digits(n).len() >= 1,
        all_digits(dec_digits(n)),
        digits_val(dec_digits(n)) == n,
    decreases n,
{
    if n < 10 {
        assert(dec_digits(n) == seq![(48 + n) as u8]);
        assert(dec_digits(n).drop_last() =~= Seq::<u8>::empty());
        assert(is_digit(dec_digits(n)[0]));
        assert(digit_of((48 + n) as u8) == n);
        assert(digits_val(Seq::<u8>::empty()) == 0);
        assert(dec_digits(n).last() == (48 + n) as u8);
        assert(digits_val(dec_digits(n)) == digits_val(Seq::<u8>::empty()) * 10 + digit_of(
            (48 + n) as u8,
        ));
    } else {
        lemma_dec_digits_ensures(n / 10);
        let d = dec_digits(n / 10);
        assert(dec_digits(n) == d.push((48 + n % 10) as u8));
        assert(dec_digits(n).drop_last() =~= d);
        assert forall|i: int| 0 <= i < dec_digits(n).len() implies is_digit(
            #[trigger] dec_digits(n)[i],
        ) by {
            if i < d.len() {
                assert(dec_digits(n)[i] == d[i]);
            }
        }
        assert(digits_val(dec_digits(n)) == n / 10 * 10 + n % 10);
        assert(n / 10 * 10 + n % 10 == n) by {
            vstd::arithmetic::div_mod::lemma_fundamental_div_mod(n as int, 10);
        }
    }
}

proof fn lemma_dec_digits_len(n: nat, k: nat)
    requires
        n < pow10(k),
        k >= 1,
    ensures
        dec_digits(n).len() <= k,
    decreases n,
{
    if n >= 10 {
        assert(pow10(k) == 10 * pow10((k - 1) as nat));
        assert(n / 10 < pow10((k - 1) as nat)) by {
            vstd::arithmetic::div_mod::lemma_fundamental_div_mod(n as int, 10);
        }
        assert(k - 1 >= 1) by {
            if k == 1 {
                assert(pow10(0nat) == 1);
                assert(n / 10 < 1);
                assert(n < 10) by {
                    vstd::arithmetic::div_mod::lemma_fundamental_div_mod(n as int, 10);
                }
            }
        }
        lemma_dec_digits_len(n / 10, (k - 1) as nat);
    }
}

/// A digit string prefix never denotes more than the whole string.
proof fn lemma_digits_val_take_le(s: Seq<u8>, i: int)
    requires
        0 <= i <= s.len(),
    ensures
        digits_val(s.take(i)) <= digits_val(s),
    decreases s.len() - i,
{
    if i < s.len() {
        assert(s.take(i + 1).drop_last() =~= s.take(i));
        assert(s.take(i + 1).last() == s[i]);
        assert(digits_val(s.take(i + 1)) == digits_val(s.take(i)) * 10 + digit_of(s[i]));
        assert(digits_val(s.take(i)) <= digits_val(s.take(i)) * 10) by (nonlinear_arith);
        lemma_digits_val_take_le(s, i + 1);
        assert(s.take(s.len() as int) =~= s);
    } else {
        assert(s.take(i) =~= s);
    }
}

/// Appends the decimal digit string of `n`.
fn push_dec(out: &mut Vec<u8>, n: u128)
    ensures
        final(out)@ == old(out)@ + dec_digits(n as nat),
    decreases n,
{
    if n < 10 {
        out.push(48 + (n as u8));
        proof {
            assert(final(out)@ =~= old(out)@ + dec_digits(n as nat));
        }
    } else {
        let ghost mid = old(out)@ + dec_digits((n / 10) as nat);
        push_dec(out, n / 10);
        out.push(48 + ((n % 10) as u8));
        proof {
            assert(dec_digits(n as nat) == dec_digits((n as nat) / 10).push(
                (48 + (n as nat) % 10) as u8,
            ));
            assert(final(out)@ =~= old(out)@ + dec_digits(n as nat));
        }
    }
}

/// The digit part of a rank literal: everything after an optional
/// leading plus sign.
pub open spec fn u32_digits(s: Seq<u8>) -> Seq<u8> {
    if s.len() > 0 && s[0] == 43 {
        s.skip(1)
    } else {
        s
    }
}

/// What the rank field means: an optional plus sign, then at least one
/// digit, denoting a number no greater than the largest rank.
pub open spec fn spec_parse_u32(s: Seq<u8>) -> Option<u32> {
    let digits = u32_digits(s);
    if digits.len() > 0 && all_digits(digits) && digits_val(digits) <= u32::MAX {
        Some(digits_val(digits) as u32)
    } else {
        None
    }
}

/// Parses the rank field.
fn parse_u32(tok: &Vec<u8>) -> (r: Option<u32>)
    ensures
        r == spec_parse_u32(tok@),
{
    let start: usize = if tok.len() > 0 && tok[0] == 43 {
        1
    } else {
        0
    };
    let ghost digits = u32_digits(tok@);
    proof {
        assert(digits.len() == tok@.len() - start);
        assert(forall|t: int|
            0 <= t < digits.len() ==> #[trigger] digits[t] == tok@[t + start]);
    }
    if tok.len() == start {
        return None;
    }
    let mut acc: u64 = 0;
    let mut i: usize = start;
    while i < tok.len()
        invariant
            start <= i <= tok@.len(),
            start <= 1,
            digits == u32_digits(tok@),
            digits.len() == tok@.len() - start,
            forall|t: int| 0 <= t < digits.len() ==> #[trigger] digits[t] == tok@[t + start],
            forall|t: int| 0 <= t < i - start ==> is_digit(#[trigger] digits[t]),
            acc == digits_val(digits.take(i - start)),
            acc <= u32::MAX,
        decreases tok@.len() - i,
    {
        let b = tok[i];
        if !(48 <= b && b <= 57) {
            proof {
                assert(digits[i - start] == tok@[i as int]);
                assert(!is_digit(digits[i - start]));
                assert(!all_digits(digits));
            }
            return None;
        }
        proof {
            assert(digits.take(i - start + 1).drop_last() =~= digits.take(i - start));
            assert(digits.take(i - start + 1).last() == digits[i - start]);
            assert(digits[i - start] == tok@[i as int]);
            assert(digit_of(digits[i - start]) == (b - 48) as nat);
        }
        acc = acc * 10 + ((b - 48) as u64);
        proof {
            assert(digits_val(digits.take(i - start + 1)) == digits_val(digits.take(i - start))
                * 10 + digit_of(digits[i - start]));
        }
        if acc > 0xffff_ffff {
            proof {
                lemma_digits_val_take_le(digits, i - start + 1);
                assert(digits_val(digits) > u32::MAX);
            }
            return None;
        }
        i += 1;
    }
    proof {
        assert(digits.take(digits.len() as int) =~= digits);
    }
    Some(acc as u32)
}


/// Whether a score literal is negative: it starts with a minus sign.
pub open spec fn score_sign(s: Seq<u8>) -> bool {
    s.len() > 0 && s[0] == 45
}

/// A score literal without its sign.
pub open spec fn score_body(s: Seq<u8>) -> Seq<u8> {
    if s.len() > 0 && (s[0] == 45 || s[0] == 43) {
        s.skip(1)
    } else {
        s
    }
}

/// The integer digits of a score literal: the body up to the first dot.
pub open spec fn score_ipart(s: Seq<u8>) -> Seq<u8> {
    let body = score_body(s);
    match body.index_of_first(46u8) {
        Some(i) => body.take(i),
        None => body,
    }
}

/// The fractional digits of a score literal: the body after the first
/// dot, empty when there is none.
pub open spec fn score_fpart(s: Seq<u8>) -> Seq<u8> {
    let body = score_body(s);
    match body.index_of_first(46u8) {
        Some(i) => body.skip(i + 1),
        None => Seq::empty(),
    }
}

/// What the score field means: an optional sign, at most twelve integer
/// digits, an optional dot and at most six fractional digits, at least
/// one digit in all — exactly the decimals a `Score` holds. `nan`, `inf`
/// and exponent forms denote nothing.
pub open spec fn spec_parse_score(s: Seq<u8>) -> Option<int> {
    let ip = score_ipart(s);
    let fp = score_fpart(s);
    if ip.len() + fp.len() >= 1 && ip.len() <= 12 && fp.len() <= 6 && all_digits(ip)
        && all_digits(fp) {
        let mag = digits_val(ip) as int * SCALE as int + digits_val(fp) as int * pow10(
            (6 - fp.len()) as nat,
        ) as int * MICRO_UNITS as int;
        Some(
            if score_sign(s) {
                -mag
            } else {
                mag
            },
        )
    } else {
        None
    }
}

/// An all-digit string of length `k` denotes less than ten to the `k`.
proof fn lemma_digits_val_bound(s: Seq<u8>)
    requires
        all_digits(s),
    ensures
        digits_val(s) < pow10(s.len()),
    decreases s.len(),
{
    if s.len() == 0 {
        assert(pow10(0) == 1);
    } else {
        assert(forall|i: int| 0 <= i < s.len() - 1 ==> s.drop_last()[i] == s[i]);
        lemma_digits_val_bound(s.drop_last());
        assert(digit_of(s.last()) <= 9);
        assert(digits_val(s.drop_last()) * 10 + 9 < pow10(s.drop_last().len()) * 10) by (
        nonlinear_arith)
            requires
                digits_val(s.drop_last()) < pow10(s.drop_last().len()),
        ;
        assert(pow10(s.len()) == 10 * pow10((s.len() - 1) as nat));
    }
}

/// The value of a digit-string prefix stays below ten to its length.
proof fn lemma_digits_val_bound_take(s: Seq<u8>, k: int)
    requires
        0 <= k <= s.len(),
        forall|t: int| 0 <= t < k ==> is_digit(#[trigger] s[t]),
    ensures
        digits_val(s.take(k)) < pow10(k as nat),
{
    assert(forall|t: int| 0 <= t < k ==> s.take(k)[t] == s[t]);
    lemma_digits_val_bound(s.take(k));
}

/// Powers of ten multiply by adding exponents.
proof fn lemma_pow10_adds(a: nat, b: nat)
    ensures
        pow10(a) * pow10(b) == pow10(a + b),
    decreases a,
{
    if a == 0 {
        assert(pow10(0) == 1);
    } else {
        lemma_pow10_adds((a - 1) as nat, b);
        assert(pow10(a) == 10 * pow10((a - 1) as nat));
        assert(pow10(a + b) == 10 * pow10((a + b - 1) as nat));
        assert((10 * pow10((a - 1) as nat)) * pow10(b) == 10 * (pow10((a - 1) as nat) * pow10(
            b,
        ))) by (nonlinear_arith);
    }
}

/// Concrete small powers of ten.
proof fn lemma_pow10_vals()
    ensures
        pow10(6) == 1_000_000,
        pow10(12) == 1_000_000_000_000,
{
    assert(pow10(0) == 1);
    assert(pow10(1) == 10);
    assert(pow10(2) == 100);
    assert(pow10(3) == 1000);
    assert(pow10(4) == 10000);
    assert(pow10(5) == 100000);
    assert(pow10(6) == 1_000_000);
    assert(pow10(7) == 10_000_000);
    assert(pow10(8) == 100_000_000);
    assert(pow10(9) == 1_000_000_000);
    assert(pow10(10) == 10_000_000_000);
    assert(pow10(11) == 100_000_000_000);
    assert(pow10(12) == 1_000_000_000_000);
}

/// Ten to the `k`, executable for small `k`.
fn pow10_exec(k: usize) -> (r: u64)
    requires
        k <= 6,
    ensures
        r == pow10(k as nat),
{
    let mut r: u64 = 1;
    let mut i: usize = 0;
    while i < k
        invariant
            0 <= i <= k <= 6,
            r == pow10(i as nat),
            r <= 1_000_000,
        decreases k - i,
    {
        proof {
            assert(pow10((i + 1) as nat) == 10 * pow10(i as nat));
            lemma_pow10_le((i + 1) as nat, 6);
            lemma_pow10_vals();
        }
        r = r * 10;
        i += 1;
    }
    r
}

proof fn lemma_pow10_le(a: nat, b: nat)
    requires
        a <= b,
    ensures
        pow10(a) <= pow10(b),
    decreases b,
{
    if a < b && b > 0 {
        lemma_pow10_le(a, (b - 1) as nat);
        assert(pow10(b) == 10 * pow10((b - 1) as nat));
        assert(pow10((b - 1) as nat) <= 10 * pow10((b - 1) as nat)) by (nonlinear_arith)
            requires
                pow10((b - 1) as nat) >= 0,
        ;
    }
}

/// Parses the score field into an exact score.
#[verifier::rlimit(60)]
fn parse_score(tok: &Vec<u8>) -> (r: Option<Score>)
    ensures
        match r {
            Some(sc) => spec_parse_score(tok@) == Some(sc@),
            None => spec_parse_score(tok@) is None,
        },
{
    let (neg, start): (bool, usize) = if tok.len() > 0 && tok[0] == 45 {
        (true, 1)
    } else if tok.len() > 0 && tok[0] == 43 {
        (false, 1)
    } else {
        (false, 0)
    };
    let ghost body = score_body(tok@);
    proof {
        assert(body.len() == tok@.len() - start);
        assert(forall|t: int| 0 <= t < body.len() ==> #[trigger] body[t] == tok@[t + start]);
        assert(neg == score_sign(tok@));
    }
    // Find the first dot of the body.
    let mut dot: usize = start;
    while dot < tok.len() && tok[dot] != 46
        invariant
            start <= dot <= tok@.len(),
            start <= 1,
            body == score_body(tok@),
            body.len() == tok@.len() - start,
            forall|t: int| 0 <= t < body.len() ==> #[trigger] body[t] == tok@[t + start],
            forall|t: int| start <= t < dot ==> tok@[t] != 46,
        decreases tok@.len() - dot,
    {
        dot += 1;
    }
    proof {
        body.index_of_first_ensures(46u8);
        if dot < tok@.len() {
            assert(body[dot - start] == 46);
            assert forall|j: int| 0 <= j < dot - start implies body[j] != 46 by {
                assert(body[j] == tok@[j + start]);
            }
            assert(body.index_of_first(46u8) == Some(dot - start));
        } else {
            assert forall|j: int| 0 <= j < body.len() implies body[j] != 46 by {
                assert(body[j] == tok@[j + start]);
            }
            assert(body.index_of_first(46u8) is None);
        }
    }
    let ghost ip = score_ipart(tok@);
    let ghost fp = score_fpart(tok@);
    proof {
        if dot < tok@.len() {
            assert(ip =~= tok@.subrange(start as int, dot as int));
            assert(fp =~= tok@.subrange(dot + 1, tok@.len() as int));
        } else {
            assert(ip =~= tok@.subrange(start as int, tok@.len() as int));
            assert(fp =~= Seq::<u8>::empty());
        }
    }
    // Integer digits.
    if dot - start > 12 {
        return None;
    }
    let mut ipv: u64 = 0;
    let mut i: usize = start;
    while i < dot
        invariant
            start <= i <= dot <= tok@.len(),
            dot - start <= 12,
            ip == score_ipart(tok@),
            ip.len() == dot - start,
            forall|t: int| 0 <= t < ip.len() ==> #[trigger] ip[t] == tok@[t + start],
            forall|t: int| 0 <= t < i - start ==> is_digit(#[trigger] ip[t]),
            ipv == digits_val(ip.take(i - start)),
            ipv < 1_000_000_000_000,
        decreases dot - i,
    {
        let b = tok[i];
        if !(48 <= b && b <= 57) {
            proof {
                assert(ip[i - start] == tok@[i as int]);
                assert(!all_digits(ip));
            }
            return None;
        }
        proof {
            assert(ip.take(i - start + 1).drop_last() =~= ip.take(i - start));
            assert(ip.take(i - start + 1).last() == ip[i - start]);
            assert(ip[i - start] == tok@[i as int]);
            lemma_digits_val_bound_take(ip, i - start + 1);
            lemma_pow10_le((i - start + 1) as nat, 12);
            lemma_pow10_vals();
        }
        ipv = ipv * 10 + ((b - 48) as u64);
        i += 1;
    }
    proof {
        assert(ip.take(ip.len() as int) =~= ip);
    }
    // Fractional digits.
    let fstart: usize = if dot < tok.len() {
        dot + 1
    } else {
        dot
    };
    let flen: usize = tok.len() - fstart;
    if flen > 6 {
        return None;
    }
    if dot - start == 0 && flen == 0 {
        return None;
    }
    let mut fpv: u64 = 0;
    let mut j: usize = fstart;
    while j < tok.len()
        invariant
            fstart <= j <= tok@.len(),
            flen == tok@.len() - fstart,
            flen <= 6,
            fp == score_fpart(tok@),
            fp.len() == flen,
            forall|t: int| 0 <= t < fp.len() ==> #[trigger] fp[t] == tok@[t + fstart],
            forall|t: int| 0 <= t < j - fstart ==> is_digit(#[trigger] fp[t]),
            fpv == digits_val(fp.take(j - fstart)),
            fpv < 1_000_000,
        decreases tok@.len() - j,
    {
        let b = tok[j];
        if !(48 <= b && b <= 57) {
            proof {
                assert(fp[j - fstart] == tok@[j as int]);
                assert(!all_digits(fp));
            }
            return None;
        }
        proof {
            assert(fp.take(j - fstart + 1).drop_last() =~= fp.take(j - fstart));
            assert(fp.take(j - fstart + 1).last() == fp[j - fstart]);
            assert(fp[j - fstart] == tok@[j as int]);
            lemma_digits_val_bound_take(fp, j - fstart + 1);
            lemma_pow10_le((j - fstart + 1) as nat, 6);
            lemma_pow10_vals();
        }
        fpv = fpv * 10 + ((b - 48) as u64);
        j += 1;
    }
    proof {
        assert(fp.take(fp.len() as int) =~= fp);
    }
    let scalepow = pow10_exec(6 - flen);
    proof {
        lemma_digits_val_bound(fp);
        lemma_pow10_adds(fp.len(), (6 - fp.len()) as nat);
        lemma_pow10_vals();
        assert((fpv as int) * (scalepow as int) < 1_000_000) by (nonlinear_arith)
            requires
                0 <= (fpv as int),
                (fpv as int) < pow10(fp.len()),
                scalepow as int == pow10((6 - fp.len()) as nat),
                pow10(fp.len()) * pow10((6 - fp.len()) as nat) == 1_000_000,
        ;
    }
    let fracv: u64 = fpv * scalepow;
    let units: i128 = (ipv as i128) * SCALE + (fracv as i128) * MICRO_UNITS;
    let sc = Score::from_units(if neg {
        -units
    } else {
        units
    });
    Some(sc)
}



/// The views of a list of byte vectors.
pub open spec fn byte_views(ts: Seq<Vec<u8>>) -> Seq<Seq<u8>> {
    ts.map_values(|t: Vec<u8>| t@)
}

/// The length of the whitespace-free token at the head of `s`.
pub open spec fn token_len(s: Seq<u8>) -> nat
    decreases s.len(),
{
    if s.len() == 0 || is_ws(s[0]) {
        0
    } else {
        1 + token_len(s.drop_first())
    }
}

proof fn lemma_token_len_bounds(s: Seq<u8>)
    ensures
        token_len(s) <= s.len(),
    decreases s.len(),
{
    if s.len() > 0 && !is_ws(s[0]) {
        lemma_token_len_bounds(s.drop_first());
    }
}

/// Pins the token length from a scan: `k` whitespace-free bytes followed
/// by the end or a whitespace byte.
proof fn lemma_token_len_char(s: Seq<u8>, k: int)
    requires
        0 <= k <= s.len(),
        forall|t: int| 0 <= t < k ==> !is_ws(#[trigger] s[t]),
        k == s.len() || is_ws(s[k]),
    ensures
        token_len(s) == k,
    decreases k,
{
    if k == 0 {
    } else {
        assert(!is_ws(s[0]));
        assert(forall|t: int| 0 <= t < s.drop_first().len() ==> s.drop_first()[t] == s[t + 1]);
        lemma_token_len_char(s.drop_first(), k - 1);
    }
}

/// The whitespace-separated tokens of a line, in order.
pub open spec fn spec_tokens(s: Seq<u8>) -> Seq<Seq<u8>>
    decreases s.len(),
    via spec_tokens_dec
{
    if s.len() == 0 {
        seq![]
    } else if is_ws(s[0]) {
        spec_tokens(s.drop_first())
    } else {
        seq![s.take(token_len(s) as int)] + spec_tokens(s.skip(token_len(s) as int))
    }
}

#[via_fn]
proof fn spec_tokens_dec(s: Seq<u8>) {
    if s.len() > 0 && !is_ws(s[0]) {
        lemma_token_len_bounds(s);
        assert(token_len(s) >= 1);
    }
}

/// Splits a line into its whitespace-separated tokens.
fn tokenize(line: &Vec<u8>) -> (toks: Vec<Vec<u8>>)
    ensures
        byte_views(toks@) == spec_tokens(line@),
{
    let mut toks: Vec<Vec<u8>> = Vec::new();
    let mut i: usize = 0;
    proof {
        assert(line@.skip(0) =~= line@);
        assert(byte_views(toks@) + spec_tokens(line@) =~= spec_tokens(line@));
    }
    while i < line.len()
        invariant
            0 <= i <= line@.len(),
            spec_tokens(line@) == byte_views(toks@) + spec_tokens(line@.skip(i as int)),
        decreases line@.len() - i,
    {
        let b = line[i];
        if b == 32 || (9 <= b && b <= 13) {
            proof {
                assert(is_ws(line@.skip(i as int)[0]));
                assert(line@.skip(i as int).drop_first() =~= line@.skip(i + 1));
            }
            i += 1;
        } else {
            let start = i;
            let mut tok: Vec<u8> = Vec::new();
            while i < line.len() && !(line[i] == 32 || (9 <= line[i] && line[i] <= 13))
                invariant
                    0 <= start <= i <= line@.len(),
                    start < line@.len(),
                    !is_ws(line@[start as int]),
                    tok@ =~= line@.subrange(start as int, i as int),
                    forall|t: int| start <= t < i ==> !is_ws(#[trigger] line@[t]),
                decreases line@.len() - i,
            {
                tok.push(line[i]);
                i += 1;
            }
            let ghost rest = line@.skip(start as int);
            let ghost prev_toks = byte_views(toks@);
            proof {
                assert(forall|t: int| 0 <= t < rest.len() ==> rest[t] == line@[t + start]);
                assert forall|t: int| 0 <= t < i - start implies !is_ws(#[trigger] rest[t]) by {
                    assert(rest[t] == line@[t + start]);
                }
                if i < line@.len() {
                    assert(is_ws(rest[i - start]));
                }
                lemma_token_len_char(rest, i - start);
                assert(!is_ws(rest[0]));
                assert(spec_tokens(rest) == seq![rest.take(i - start)] + spec_tokens(
                    rest.skip(i - start),
                ));
                assert(rest.take(i - start) =~= tok@);
                assert(rest.skip(i - start) =~= line@.skip(i as int));
            }
            toks.push(tok);
            proof {
                assert(byte_views(toks@) =~= prev_toks.push(rest.take(i - start)));
                assert(byte_views(toks@) + spec_tokens(line@.skip(i as int)) =~= prev_toks + (
                seq![rest.take(i - start)] + spec_tokens(line@.skip(i as int))));
            }
        }
    }
    proof {
        assert(line@.skip(line@.len() as int) =~= Seq::<u8>::empty());
        assert(byte_views(toks@) + spec_tokens(Seq::<u8>::empty()) =~= byte_views(toks@));
    }
    toks
}

/// What one record line means, or why it does not parse: six
/// whitespace-separated fields, of which the second is read and
/// discarded, the fourth must be a rank and the fifth a score.
pub open spec fn spec_parse_line(line: Seq<u8>) -> Result<SpecRecord, SpecParseError> {
    let toks = spec_tokens(line);
    if toks.len() < 1 {
        Err(SpecParseError::Eol(TrecField::Qid))
    } else if toks.len() < 2 {
        Err(SpecParseError::Eol(TrecField::Reserved))
    } else if toks.len() < 3 {
        Err(SpecParseError::Eol(TrecField::Docno))
    } else if toks.len() < 4 {
        Err(SpecParseError::Eol(TrecField::Rank))
    } else {
        match spec_parse_u32(toks[3]) {
            None => Err(SpecParseError::InvalidRank(toks[3])),
            Some(rank) => if toks.len() < 5 {
                Err(SpecParseError::Eol(TrecField::Score))
            } else {
                match spec_parse_score(toks[4]) {
                    None => Err(SpecParseError::InvalidScore(toks[4])),
                    Some(units) => if toks.len() < 6 {
                        Err(SpecParseError::Eol(TrecField::Runid))
                    } else {
                        Ok(
                            SpecRecord {
                                qid: toks[0],
                                docno: toks[2],
                                rank,
                                score: units,
                                runid: toks[5],
                            },
                        )
                    },
                }
            },
        }
    }
}

/// Parses one record line.
fn parse_line(line: &Vec<u8>) -> (r: Result<TrecEntry, ParseError>)
    ensures
        match r {
            Ok(e) => spec_parse_line(line@) == Ok::<SpecRecord, SpecParseError>(e@),
            Err(e) => spec_parse_line(line@) == Err::<SpecRecord, SpecParseError>(e@),
        },
{
    let toks = tokenize(line);
    let ghost tk = spec_tokens(line@);
    proof {
        assert(toks@.len() == tk.len());
        assert(forall|t: int| 0 <= t < toks@.len() ==> #[trigger] toks@[t]@ == tk[t]);
    }
    if toks.len() < 1 {
        return Err(ParseError::Eol(TrecField::Qid));
    }
    if toks.len() < 2 {
        return Err(ParseError::Eol(TrecField::Reserved));
    }
    if toks.len() < 3 {
        return Err(ParseError::Eol(TrecField::Docno));
    }
    if toks.len() < 4 {
        return Err(ParseError::Eol(TrecField::Rank));
    }
    let rank = match parse_u32(&toks[3]) {
        Some(rank) => rank,
        None => {
            let t = toks[3].clone();
            proof {
                assert(t@ =~= tk[3]);
            }
            return Err(ParseError::InvalidRank(t));
        },
    };
    if toks.len() < 5 {
        return Err(ParseError::Eol(TrecField::Score));
    }
    let score = match parse_score(&toks[4]) {
        Some(sc) => sc,
        None => {
            let t = toks[4].clone();
            proof {
                assert(t@ =~= tk[4]);
            }
            return Err(ParseError::InvalidScore(t));
        },
    };
    if toks.len() < 6 {
        return Err(ParseError::Eol(TrecField::Runid));
    }
    let qid = toks[0].clone();
    let docno = toks[2].clone();
    let runid = toks[5].clone();
    proof {
        assert(qid@ =~= tk[0]);
        assert(docno@ =~= tk[2]);
        assert(runid@ =~= tk[5]);
    }
    Ok(TrecEntry { qid, docno, rank, score, runid })
}

/// The lines of a byte text, split at line feeds; a final line feed ends
/// the last line rather than opening an empty one.
pub open spec fn spec_lines(data: Seq<u8>) -> Seq<Seq<u8>>
    decreases data.len(),
    via spec_lines_dec
{
    if data.len() == 0 {
        seq![]
    } else {
        match data.index_of_first(10u8) {
            Some(i) => seq![data.take(i)] + spec_lines(data.skip(i + 1)),
            None => seq![data],
        }
    }
}

#[via_fn]
proof fn spec_lines_dec(data: Seq<u8>) {
    data.index_of_first_ensures(10u8);
}

/// Splits a byte text into its lines.
fn split_lines(data: &Vec<u8>) -> (ls: Vec<Vec<u8>>)
    ensures
        byte_views(ls@) == spec_lines(data@),
{
    let mut ls: Vec<Vec<u8>> = Vec::new();
    let mut p: usize = 0;
    proof {
        assert(data@.skip(0) =~= data@);
        assert(byte_views(ls@) + spec_lines(data@) =~= spec_lines(data@));
    }
    while p < data.len()
        invariant
            0 <= p <= data@.len(),
            spec_lines(data@) == byte_views(ls@) + spec_lines(data@.skip(p as int)),
        decreases data@.len() - p,
    {
        let start = p;
        let mut seg: Vec<u8> = Vec::new();
        while p < data.len() && data[p] != 10
            invariant
                0 <= start <= p <= data@.len(),
                seg@ =~= data@.subrange(start as int, p as int),
                forall|t: int| start <= t < p ==> data@[t] != 10,
            decreases data@.len() - p,
        {
            seg.push(data[p]);
            p += 1;
        }
        let ghost rest = data@.skip(start as int);
        let ghost prev_ls = byte_views(ls@);
        proof {
            assert(forall|t: int| 0 <= t < rest.len() ==> rest[t] == data@[t + start]);
            rest.index_of_first_ensures(10u8);
            if p < data@.len() {
                assert(rest[p - start] == 10);
                assert forall|j: int| 0 <= j < p - start implies rest[j] != 10 by {
                    assert(rest[j] == data@[j + start]);
                }
                assert(rest.index_of_first(10u8) == Some(p - start));
                assert(spec_lines(rest) == seq![rest.take(p - start)] + spec_lines(
                    rest.skip(p - start + 1),
                ));
                assert(rest.skip(p - start + 1) =~= data@.skip(p + 1));
            } else {
                assert forall|j: int| 0 <= j < rest.len() implies rest[j] != 10 by {
                    assert(rest[j] == data@[j + start]);
                }
                assert(rest.index_of_first(10u8) is None);
                assert(rest.len() > 0);
                assert(spec_lines(rest) == seq![rest]);
                assert(rest =~= data@.subrange(start as int, data@.len() as int));
            }
            assert(rest.take(p - start) =~= seg@);
        }
        if p < data.len() {
            p += 1;
        } else {
            proof {
                assert(seg@ =~= rest);
            }
        }
        ls.push(seg);
        proof {
            assert(byte_views(ls@) =~= prev_ls.push(seg@));
            assert(byte_views(ls@) + spec_lines(data@.skip(p as int)) =~= prev_ls + (seq![seg@]
                + spec_lines(data@.skip(p as int))));
            assert(data@.skip(data@.len() as int) =~= Seq::<u8>::empty());
        }
    }
    proof {
        assert(data@.skip(data@.len() as int) =~= Seq::<u8>::empty());
        assert(byte_views(ls@) + spec_lines(Seq::<u8>::empty()) =~= byte_views(ls@));
    }
    ls
}

/// The mathematical readings of a list of parsed entries.
pub open spec fn record_views(v: Seq<TrecEntry>) -> Seq<SpecRecord> {
    v.map_values(|e: TrecEntry| e@)
}

/// What a sequence of record lines means: the records in line order, or
/// the first line's error.
pub open spec fn spec_parse_lines(ls: Seq<Seq<u8>>) -> Result<Seq<SpecRecord>, SpecParseError>
    decreases ls.len(),
{
    if ls.len() == 0 {
        Ok(seq![])
    } else {
        match spec_parse_line(ls.first()) {
            Err(e) => Err(e),
            Ok(r) => match spec_parse_lines(ls.drop_first()) {
                Err(e) => Err(e),
                Ok(rs) => Ok(seq![r] + rs),
            },
        }
    }
}

/// What a whole TREC input means: records in file order, or the first
/// error met reading top to bottom.
pub open spec fn spec_parse(data: Seq<u8>) -> Result<Seq<SpecRecord>, SpecParseError> {
    spec_parse_lines(spec_lines(data))
}

/// Parses a TREC result list: one record per line, fields separated by
/// runs of ASCII whitespace, in the order
/// `qid reserved docno rank score runid`. Parsing stops at the first
/// faulty line and reports what was wrong with it.
pub fn parse_from_trec(data: &Vec<u8>) -> (r: Result<Vec<TrecEntry>, ParseError>)
    ensures
        match r {
            Ok(v) => spec_parse(data@) == Ok::<Seq<SpecRecord>, SpecParseError>(
                record_views(v@),
            ),
            Err(e) => spec_parse(data@) == Err::<Seq<SpecRecord>, SpecParseError>(e@),
        },
{
    let lines = split_lines(data);
    let ghost lsv = spec_lines(data@);
    proof {
        assert(lines@.len() == lsv.len());
        assert(forall|t: int| 0 <= t < lines@.len() ==> #[trigger] lines@[t]@ == lsv[t]);
        assert(lsv.skip(0) =~= lsv);
    }
    let mut out: Vec<TrecEntry> = Vec::new();
    let mut i: usize = 0;
    while i < lines.len()
        invariant
            0 <= i <= lines@.len(),
            lsv == spec_lines(data@),
            lines@.len() == lsv.len(),
            forall|t: int| 0 <= t < lines@.len() ==> #[trigger] lines@[t]@ == lsv[t],
            spec_parse_lines(lsv) == match spec_parse_lines(lsv.skip(i as int)) {
                Ok(rest) => Ok::<Seq<SpecRecord>, SpecParseError>(record_views(out@) + rest),
                Err(e) => Err::<Seq<SpecRecord>, SpecParseError>(e),
            },
        decreases lines@.len() - i,
    {
        let ghost tail = lsv.skip(i as int);
        proof {
            assert(tail.len() > 0);
            assert(tail.first() == lsv[i as int]);
            assert(tail.drop_first() =~= lsv.skip(i + 1));
        }
        match parse_line(&lines[i]) {
            Ok(entry) => {
                let ghost prev_out = out@;
                out.push(entry);
                proof {
                    assert(record_views(out@) =~= record_views(prev_out).push(entry@));
                    match spec_parse_lines(lsv.skip(i + 1)) {
                        Ok(rest) => {
                            assert(spec_parse_lines(tail) == Ok::<
                                Seq<SpecRecord>,
                                SpecParseError,
                            >(seq![entry@] + rest));
                            assert(record_views(prev_out) + (seq![entry@] + rest) =~= record_views(
                                out@,
                            ) + rest);
                        },
                        Err(_) => {},
                    }
                }
            },
            Err(e) => {
                proof {
                    assert(spec_parse_lines(tail) == Err::<Seq<SpecRecord>, SpecParseError>(
                        e@,
                    ));
                }
                return Err(e);
            },
        }
        i += 1;
    }
    proof {
        assert(lsv.skip(lsv.len() as int) =~= Seq::<Seq<u8>>::empty());
        assert(record_views(out@) + seq![] =~= record_views(out@));
    }
    Ok(out)
}


/// Six-digit zero padding: `d` preceded by as many zero digits as bring
/// it to six bytes.
pub open spec fn pad6(d: Seq<u8>) -> Seq<u8> {
    Seq::new((6 - d.len()) as nat, |i: int| 48u8) + d
}

/// Drops trailing zero digits.
pub open spec fn strip_zeros(s: Seq<u8>) -> Seq<u8>
    decreases s.len(),
{
    if s.len() > 0 && s.last() == 48 {
        strip_zeros(s.drop_last())
    } else {
        s
    }
}

/// The shortest decimal literal of a score's unit count: sign, integer
/// digits, and — when the score has a fractional part — a dot and the
/// fractional digits down to a millionth of a point, trailing zeros
/// stripped. A fractional remainder finer than a millionth is not
/// written.
pub open spec fn spec_score_bytes(units: int) -> Seq<u8> {
    let mag = if units < 0 {
        (-units) as nat
    } else {
        units as nat
    };
    let ip = mag / (SCALE as nat);
    let f6 = (mag % (SCALE as nat)) / (MICRO_UNITS as nat);
    let sign: Seq<u8> = if units < 0 {
        seq![45u8]
    } else {
        Seq::empty()
    };
    if f6 == 0 {
        sign + dec_digits(ip)
    } else {
        sign + dec_digits(ip) + seq![46u8] + strip_zeros(pad6(dec_digits(f6)))
    }
}

/// A string of zero digits denotes zero.
proof fn lemma_all_zeros_val(z: Seq<u8>)
    requires
        forall|t: int| 0 <= t < z.len() ==> #[trigger] z[t] == 48,
    ensures
        digits_val(z) == 0,
    decreases z.len(),
{
    if z.len() > 0 {
        assert(forall|t: int| 0 <= t < z.len() - 1 ==> z.drop_last()[t] == z[t]);
        lemma_all_zeros_val(z.drop_last());
        assert(digit_of(z.last()) == 0);
    }
}

/// Leading zero digits do not change a digit string's value.
proof fn lemma_prefix_zeros(z: Seq<u8>, d: Seq<u8>)
    requires
        forall|t: int| 0 <= t < z.len() ==> #[trigger] z[t] == 48,
    ensures
        digits_val(z + d) == digits_val(d),
    decreases d.len(),
{
    if d.len() == 0 {
        assert(z + d =~= z);
        lemma_all_zeros_val(z);
    } else {
        assert((z + d).drop_last() =~= z + d.drop_last());
        assert((z + d).last() == d.last());
        lemma_prefix_zeros(z, d.drop_last());
    }
}

/// Digit strings of one length denoting one number are equal.
proof fn lemma_digits_unique(s1: Seq<u8>, s2: Seq<u8>)
    requires
        all_digits(s1),
        all_digits(s2),
        s1.len() == s2.len(),
        digits_val(s1) == digits_val(s2),
    ensures
        s1 =~= s2,
    decreases s1.len(),
{
    if s1.len() > 0 {
        let a1 = digits_val(s1.drop_last());
        let a2 = digits_val(s2.drop_last());
        let d1 = digit_of(s1.last());
        let d2 = digit_of(s2.last());
        assert(d1 < 10 && d2 < 10);
        vstd::arithmetic::div_mod::lemma_mod_multiples_vanish(a1 as int, d1 as int, 10);
        vstd::arithmetic::div_mod::lemma_mod_multiples_vanish(a2 as int, d2 as int, 10);
        vstd::arithmetic::div_mod::lemma_small_mod(d1, 10);
        vstd::arithmetic::div_mod::lemma_small_mod(d2, 10);
        assert(d1 == d2);
        assert(a1 * 10 == a2 * 10);
        assert(a1 == a2) by (nonlinear_arith)
            requires
                a1 * 10 == a2 * 10,
        ;
        assert(forall|t: int| 0 <= t < s1.len() - 1 ==> s1.drop_last()[t] == s1[t]);
        assert(forall|t: int| 0 <= t < s2.len() - 1 ==> s2.drop_last()[t] == s2[t]);
        lemma_digits_unique(s1.drop_last(), s2.drop_last());
        assert(s1.last() == s2.last());
    }
}

/// Appends the bytes of `src`.
fn push_bytes(out: &mut Vec<u8>, src: &Vec<u8>)
    ensures
        final(out)@ == old(out)@ + src@,
{
    let mut i: usize = 0;
    while i < src.len()
        invariant
            0 <= i <= src@.len(),
            out@ =~= old(out)@ + src@.take(i as int),
        decreases src@.len() - i,
    {
        out.push(src[i]);
        proof {
            assert(old(out)@ + src@.take(i + 1) =~= (old(out)@ + src@.take(i as int)).push(
                src@[i as int],
            ));
        }
        i += 1;
    }
    proof {
        assert(src@.take(src@.len() as int) =~= src@);
        assert(final(out)@ =~= old(out)@ + src@);
    }
}

/// Renders the fractional part: six zero-padded digits of `f6`,
/// trailing zeros stripped.
#[verifier::rlimit(80)]
fn frac_digits_vec(f6: u128) -> (r: Vec<u8>)
    requires
        0 < f6 < 1_000_000,
    ensures
        r@ == strip_zeros(pad6(dec_digits(f6 as nat))),
{
    let mut tmp: Vec<u8> = Vec::new();
    tmp.push(48 + ((f6 / 100000) % 10) as u8);
    tmp.push(48 + ((f6 / 10000) % 10) as u8);
    tmp.push(48 + ((f6 / 1000) % 10) as u8);
    tmp.push(48 + ((f6 / 100) % 10) as u8);
    tmp.push(48 + ((f6 / 10) % 10) as u8);
    tmp.push(48 + (f6 % 10) as u8);
    proof {
        let f = f6 as int;
        let w5 = f / 100000;
        let w4 = f / 10000;
        let w3 = f / 1000;
        let w2 = f / 100;
        let w1 = f / 10;
        vstd::arithmetic::div_mod::lemma_div_denominator(f, 10, 10);
        vstd::arithmetic::div_mod::lemma_div_denominator(f, 100, 10);
        vstd::arithmetic::div_mod::lemma_div_denominator(f, 1000, 10);
        vstd::arithmetic::div_mod::lemma_div_denominator(f, 10000, 10);
        vstd::arithmetic::div_mod::lemma_fundamental_div_mod(f, 10);
        vstd::arithmetic::div_mod::lemma_fundamental_div_mod(w1, 10);
        vstd::arithmetic::div_mod::lemma_fundamental_div_mod(w2, 10);
        vstd::arithmetic::div_mod::lemma_fundamental_div_mod(w3, 10);
        vstd::arithmetic::div_mod::lemma_fundamental_div_mod(w4, 10);
        vstd::arithmetic::div_mod::lemma_fundamental_div_mod(f, 100000);
        vstd::arithmetic::div_mod::lemma_mod_bound(f, 100000);
        vstd::arithmetic::div_mod::lemma_mod_bound(f, 10);
        vstd::arithmetic::div_mod::lemma_mod_bound(w1, 10);
        vstd::arithmetic::div_mod::lemma_mod_bound(w2, 10);
        vstd::arithmetic::div_mod::lemma_mod_bound(w3, 10);
        vstd::arithmetic::div_mod::lemma_mod_bound(w4, 10);
        assert(w5 < 10) by (nonlinear_arith)
            requires
                f == 100000 * w5 + f % 100000,
                f % 100000 >= 0,
                f < 1_000_000,
        ;
        vstd::arithmetic::div_mod::lemma_small_mod(w5 as nat, 10);
        let b5 = (48 + w5 % 10) as u8;
        let b4 = (48 + w4 % 10) as u8;
        let b3 = (48 + w3 % 10) as u8;
        let b2 = (48 + w2 % 10) as u8;
        let b1 = (48 + w1 % 10) as u8;
        let b0 = (48 + f % 10) as u8;
        assert(tmp@ =~= seq![b5, b4, b3, b2, b1, b0]);
        assert(all_digits(tmp@)) by {
            assert forall|t: int| 0 <= t < tmp@.len() implies is_digit(#[trigger] tmp@[t]) by {
                assert(tmp@[0] == b5 && tmp@[1] == b4 && tmp@[2] == b3 && tmp@[3] == b2
                    && tmp@[4] == b1 && tmp@[5] == b0);
            }
        }
        assert(seq![b5, b4, b3, b2, b1, b0].drop_last() =~= seq![b5, b4, b3, b2, b1]);
        assert(seq![b5, b4, b3, b2, b1].drop_last() =~= seq![b5, b4, b3, b2]);
        assert(seq![b5, b4, b3, b2].drop_last() =~= seq![b5, b4, b3]);
        assert(seq![b5, b4, b3].drop_last() =~= seq![b5, b4]);
        assert(seq![b5, b4].drop_last() =~= seq![b5]);
        assert(seq![b5].drop_last() =~= Seq::<u8>::empty());
        assert(digits_val(Seq::<u8>::empty()) == 0);
        assert(digits_val(seq![b5]) == digit_of(b5));
        assert(digits_val(seq![b5, b4]) == digits_val(seq![b5]) * 10 + digit_of(b4));
        assert(digits_val(seq![b5, b4, b3]) == digits_val(seq![b5, b4]) * 10 + digit_of(b3));
        assert(digits_val(seq![b5, b4, b3, b2]) == digits_val(seq![b5, b4, b3]) * 10 + digit_of(
            b2,
        ));
        assert(digits_val(seq![b5, b4, b3, b2, b1]) == digits_val(seq![b5, b4, b3, b2]) * 10
            + digit_of(b1));
        assert(digits_val(seq![b5, b4, b3, b2, b1, b0]) == digits_val(seq![b5, b4, b3, b2, b1])
            * 10 + digit_of(b0));
        assert(digit_of(b5) == w5 && digit_of(b4) == w4 % 10 && digit_of(b3) == w3 % 10
            && digit_of(b2) == w2 % 10 && digit_of(b1) == w1 % 10 && digit_of(b0) == f % 10);
        assert(w5 == w4 / 10 && w4 == w3 / 10 && w3 == w2 / 10 && w2 == w1 / 10 && w1 == f
            / 10);
        assert(w5 * 10 + w4 % 10 == w4);
        assert(w4 * 10 + w3 % 10 == w3);
        assert(w3 * 10 + w2 % 10 == w2);
        assert(w2 * 10 + w1 % 10 == w1);
        assert(w1 * 10 + f % 10 == f);
        assert(digits_val(tmp@) == f6 as nat);
        lemma_dec_digits_ensures(f6 as nat);
        lemma_pow10_vals();
        lemma_dec_digits_len(f6 as nat, 6);
        let zs = Seq::new((6 - dec_digits(f6 as nat).len()) as nat, |i: int| 48u8);
        assert(forall|t: int| 0 <= t < zs.len() ==> #[trigger] zs[t] == 48);
        lemma_prefix_zeros(zs, dec_digits(f6 as nat));
        assert(pad6(dec_digits(f6 as nat)).len() == 6);
        assert(all_digits(pad6(dec_digits(f6 as nat)))) by {
            let pd = pad6(dec_digits(f6 as nat));
            let zs2 = Seq::new((6 - dec_digits(f6 as nat).len()) as nat, |i: int| 48u8);
            assert forall|t: int| 0 <= t < pd.len() implies is_digit(#[trigger] pd[t]) by {
                if t < zs2.len() {
                    assert(pd[t] == 48);
                } else {
                    assert(pd[t] == dec_digits(f6 as nat)[t - zs2.len()]);
                }
            }
        }
        lemma_digits_unique(tmp@, pad6(dec_digits(f6 as nat)));
    }
    let ghost full = tmp@;
    while tmp.len() > 0 && tmp[tmp.len() - 1] == 48
        invariant
            strip_zeros(tmp@) == strip_zeros(full),
        decreases tmp@.len(),
    {
        let _ = tmp.pop();
    }
    proof {
        assert(tmp@ == strip_zeros(full));
    }
    tmp
}

/// Appends a score's decimal literal.
fn write_score(out: &mut Vec<u8>, sc: Score)
    ensures
        final(out)@ == old(out)@ + spec_score_bytes(sc@),
{
    proof {
        use_type_invariant(sc);
        sc.lemma_bounded();
    }
    let u = sc.raw();
    let neg = u < 0;
    let ghost smag: nat = if sc@ < 0 {
        (-sc@) as nat
    } else {
        sc@ as nat
    };
    if neg {
        out.push(45);
    }
    let mag: u128 = if neg {
        (-u) as u128
    } else {
        u as u128
    };
    proof {
        assert(mag as nat == smag);
    }
    let ip: u128 = mag / (SCALE as u128);
    let fr: u128 = mag % (SCALE as u128);
    let f6: u128 = fr / (MICRO_UNITS as u128);
    proof {
        assert(ip as nat == smag / (SCALE as nat));
        assert(f6 as nat == (smag % (SCALE as nat)) / (MICRO_UNITS as nat));
        vstd::arithmetic::div_mod::lemma_mod_bound(mag as int, SCALE as int);
        vstd::arithmetic::div_mod::lemma_fundamental_div_mod(fr as int, MICRO_UNITS as int);
        assert(f6 < 1_000_000) by (nonlinear_arith)
            requires
                fr as int == MICRO_UNITS as int * (f6 as int) + (fr as int) % (
                MICRO_UNITS as int),
                (fr as int) % (MICRO_UNITS as int) >= 0,
                fr < 5_822_723_907_000_000,
                MICRO_UNITS == 5_822_723_907i128,
        ;
    }
    push_dec(out, ip);
    if f6 > 0 {
        out.push(46);
        let mut frac = frac_digits_vec(f6);
        out.append(&mut frac);
    }
    proof {
        if neg {
            if f6 == 0 {
                assert(final(out)@ =~= old(out)@ + (seq![45u8] + dec_digits(ip as nat)));
            } else {
                assert(final(out)@ =~= old(out)@ + (seq![45u8] + dec_digits(ip as nat)
                    + seq![46u8] + strip_zeros(pad6(dec_digits(f6 as nat)))));
            }
        } else {
            if f6 == 0 {
                assert(final(out)@ =~= old(out)@ + dec_digits(ip as nat));
            } else {
                assert(final(out)@ =~= old(out)@ + (dec_digits(ip as nat) + seq![46u8]
                    + strip_zeros(pad6(dec_digits(f6 as nat)))));
            }
        }
    }
}

/// The text line of one record: the six fields separated by single
/// spaces, ended by a line feed.
pub open spec fn spec_write_line(r: SpecRecord) -> Seq<u8> {
    r.qid + seq![32u8, 48u8, 32u8] + r.docno + seq![32u8] + dec_digits(r.rank as nat)
        + seq![32u8] + spec_score_bytes(r.score) + seq![32u8] + r.runid + seq![10u8]
}

/// The text of a record list: one line per record, in order.
pub open spec fn spec_write_all(rs: Seq<SpecRecord>) -> Seq<u8>
    decreases rs.len(),
{
    if rs.len() == 0 {
        Seq::empty()
    } else {
        spec_write_all(rs.drop_last()) + spec_write_line(rs.last())
    }
}

/// Writes a single TREC result line: `qid 0 docno rank score runid`,
/// space-separated and ended by a line feed.
pub fn write(entry: &TrecEntry) -> (line: Vec<u8>)
    ensures
        line@ == spec_write_line(entry@),
{
    let mut out: Vec<u8> = Vec::new();
    push_bytes(&mut out, &entry.qid);
    out.push(32);
    out.push(48);
    out.push(32);
    proof {
        assert(out@ =~= entry.qid@ + seq![32u8, 48u8, 32u8]);
    }
    push_bytes(&mut out, &entry.docno);
    out.push(32);
    proof {
        assert(out@ =~= (entry.qid@ + seq![32u8, 48u8, 32u8] + entry.docno@) + seq![32u8]);
    }
    push_dec(&mut out, entry.rank as u128);
    out.push(32);
    write_score(&mut out, entry.score);
    out.push(32);
    push_bytes(&mut out, &entry.runid);
    out.push(10);
    proof {
        assert(out@ =~= spec_write_line(entry@));
    }
    out
}

/// Writes a list of TREC result entries, one line each, in order.
pub fn write_all(entries: &Vec<TrecEntry>) -> (out: Vec<u8>)
    ensures
        out@ == spec_write_all(record_views(entries@)),
{
    let ghost rv = record_views(entries@);
    let mut out: Vec<u8> = Vec::new();
    let mut i: usize = 0;
    while i < entries.len()
        invariant
            0 <= i <= entries@.len(),
            rv == record_views(entries@),
            rv.len() == entries@.len(),
            out@ == spec_write_all(rv.take(i as int)),
        decreases entries@.len() - i,
    {
        proof {
            assert(rv.take(i + 1).drop_last() =~= rv.take(i as int));
            assert(rv.take(i + 1).last() == rv[i as int]);
            assert(rv[i as int] == entries@[i as int]@);
        }
        let line = write(&entries[i]);
        push_bytes(&mut out, &line);
        i += 1;
    }
    proof {
        assert(rv.take(rv.len() as int) =~= rv);
    }
    out
}


/// A field token: non-empty, with no whitespace byte.
pub open spec fn wf_token(t: Seq<u8>) -> bool {
    t.len() > 0 && forall|i: int| 0 <= i < t.len() ==> !is_ws(#[trigger] t[i])
}

/// A record the codec can write and read back identically: its three
/// string fields are tokens, and its score is a whole number of
/// millionths of a point within the text form's range.
pub open spec fn wf_record(r: SpecRecord) -> bool {
    &&& wf_token(r.qid)
    &&& wf_token(r.docno)
    &&& wf_token(r.runid)
    &&& r.score % (MICRO_UNITS as int) == 0
    &&& -(MAX_TEXT_UNITS as int) < r.score < MAX_TEXT_UNITS as int
}

/// Stripping trailing zeros keeps a prefix of the digits.
proof fn lemma_strip_zeros_prefix(s: Seq<u8>)
    ensures
        strip_zeros(s).len() <= s.len(),
        forall|i: int| 0 <= i < strip_zeros(s).len() ==> #[trigger] strip_zeros(s)[i] == s[i],
    decreases s.len(),
{
    if s.len() > 0 && s.last() == 48 {
        lemma_strip_zeros_prefix(s.drop_last());
        assert(forall|i: int| 0 <= i < s.len() - 1 ==> s.drop_last()[i] == s[i]);
    }
}

/// Stripping trailing zeros divides the value by the matching power of
/// ten.
proof fn lemma_strip_zeros_val(s: Seq<u8>)
    ensures
        digits_val(strip_zeros(s)) * pow10((s.len() - strip_zeros(s).len()) as nat)
            == digits_val(s),
    decreases s.len(),
{
    lemma_strip_zeros_prefix(s);
    if s.len() > 0 && s.last() == 48 {
        lemma_strip_zeros_val(s.drop_last());
        lemma_strip_zeros_prefix(s.drop_last());
        let f = strip_zeros(s);
        let k = (s.drop_last().len() - f.len()) as nat;
        assert(digit_of(s.last()) == 0);
        assert(digits_val(s) == digits_val(s.drop_last()) * 10);
        assert(pow10(k + 1) == 10 * pow10(k)) by {
            lemma_pow10_adds(1, k);
            assert(pow10(0) == 1);
            assert(pow10(1) == 10 * pow10(0));
        }
        assert((s.len() - strip_zeros(s).len()) as nat == k + 1);
        assert(digits_val(f) * pow10(k + 1) == digits_val(f) * pow10(k) * 10) by (
        nonlinear_arith)
            requires
                pow10(k + 1) == 10 * pow10(k),
        ;
        assert(digits_val(f) * pow10(k) * 10 == digits_val(s.drop_last()) * 10);
        assert(digits_val(f) * pow10((s.len() - f.len()) as nat) == digits_val(s));
    } else {
        assert(pow10(0) == 1);
        assert(digits_val(s) * 1 == digits_val(s));
    }
}

/// The serialized score literal parses back to the same unit count, and
/// is a single whitespace-free token.
#[verifier::rlimit(100)]
proof fn lemma_score_roundtrip(units: int)
    requires
        units % (MICRO_UNITS as int) == 0,
        -(MAX_TEXT_UNITS as int) < units < MAX_TEXT_UNITS as int,
    ensures
        spec_parse_score(spec_score_bytes(units)) == Some(units),
        wf_token(spec_score_bytes(units)),
{
    let mag: nat = if units < 0 { (-units) as nat } else { units as nat };
    let ip = mag / (SCALE as nat);
    let fr = mag % (SCALE as nat);
    let f6 = fr / (MICRO_UNITS as nat);
    vstd::arithmetic::div_mod::lemma_fundamental_div_mod(mag as int, SCALE as int);
    vstd::arithmetic::div_mod::lemma_mod_bound(mag as int, SCALE as int);
    vstd::arithmetic::div_mod::lemma_fundamental_div_mod(fr as int, MICRO_UNITS as int);
    vstd::arithmetic::div_mod::lemma_mod_bound(fr as int, MICRO_UNITS as int);
    // The fractional remainder is an exact number of millionths.
    assert((mag as int) % (MICRO_UNITS as int) == 0) by {
        vstd::arithmetic::div_mod::lemma_fundamental_div_mod(units, MICRO_UNITS as int);
        if units < 0 {
            assert(units == MICRO_UNITS as int * (units / MICRO_UNITS as int));
            assert(mag as int == MICRO_UNITS as int * (-(units / MICRO_UNITS as int)))
                by (nonlinear_arith)
                requires
                    units == MICRO_UNITS as int * (units / MICRO_UNITS as int),
                    mag as int == -units,
            ;
            vstd::arithmetic::div_mod::lemma_mod_multiples_basic(
                -(units / MICRO_UNITS as int),
                MICRO_UNITS as int,
            );
        } else {
            vstd::arithmetic::div_mod::lemma_mod_multiples_basic(
                units / MICRO_UNITS as int,
                MICRO_UNITS as int,
            );
        }
    }
    assert((fr as int) % (MICRO_UNITS as int) == 0) by {
        let q = mag as int / SCALE as int;
        let a = mag as int / MICRO_UNITS as int;
        vstd::arithmetic::div_mod::lemma_fundamental_div_mod(mag as int, MICRO_UNITS as int);
        assert(fr as int == MICRO_UNITS as int * (a - 1000000 * q)) by (nonlinear_arith)
            requires
                mag as int == SCALE as int * q + fr as int,
                mag as int == MICRO_UNITS as int * a,
                SCALE as int == MICRO_UNITS as int * 1000000,
        ;
        vstd::arithmetic::div_mod::lemma_mod_multiples_basic(
            a - 1000000 * (mag as int / SCALE as int),
            MICRO_UNITS as int,
        );
    }
    assert(fr as int == MICRO_UNITS as int * (f6 as int));
    assert(f6 < 1_000_000) by (nonlinear_arith)
        requires
            fr as int == MICRO_UNITS as int * (f6 as int),
            fr < 5_822_723_907_000_000,
            MICRO_UNITS == 5_822_723_907i128,
    ;
    assert(ip < 1_000_000_000_000) by (nonlinear_arith)
        requires
            mag as int == SCALE as int * (ip as int) + fr as int,
            fr as int >= 0,
            mag < 5_822_723_907_000_000_000_000_000_000,
            SCALE == 5_822_723_907_000_000i128,
    ;
    lemma_dec_digits_ensures(ip);
    lemma_pow10_vals();
    lemma_dec_digits_len(ip, 12);
    let ib = dec_digits(ip);
    let sign: Seq<u8> = if units < 0 { seq![45u8] } else { Seq::empty() };
    let s = spec_score_bytes(units);
    if f6 == 0 {
        assert(s == sign + ib);
        assert(forall|t: int| 0 <= t < ib.len() ==> is_digit(#[trigger] ib[t]));
        if units < 0 {
            assert(s[0] == 45);
            assert(score_body(s) =~= ib);
            assert(score_sign(s));
        } else {
            assert(s =~= ib);
            assert(!is_ws(s[0]) && s[0] != 45 && s[0] != 43) by {
                assert(is_digit(ib[0]));
            }
            assert(score_body(s) =~= ib);
            assert(!score_sign(s));
        }
        let body = score_body(s);
        body.index_of_first_ensures(46u8);
        assert forall|j: int| 0 <= j < body.len() implies body[j] != 46 by {
            assert(is_digit(ib[j]));
        }
        assert(body.index_of_first(46u8) is None);
        assert(score_ipart(s) == body && score_fpart(s) == Seq::<u8>::empty());
        assert(digits_val(Seq::<u8>::empty()) == 0);
        assert(body.len() >= 1 && body.len() <= 12);
        assert(all_digits(body));
        assert(all_digits(Seq::<u8>::empty()));
        assert(digits_val(body) == ip);
        assert(fr as int == 0);
        assert(mag as int == SCALE as int * (ip as int));
        assert(spec_parse_score(s) == Some(
            if score_sign(s) {
                -(digits_val(body) as int * SCALE as int)
            } else {
                digits_val(body) as int * SCALE as int
            },
        ));
        assert(digits_val(body) as int * SCALE as int == mag as int) by (nonlinear_arith)
            requires
                digits_val(body) == ip,
                mag as int == SCALE as int * (ip as int),
        ;
        assert forall|t: int| 0 <= t < s.len() implies !is_ws(#[trigger] s[t]) by {
            if units < 0 && t == 0 {
            } else {
                let off: int = if units < 0 { 1 } else { 0 };
                assert(s[t] == ib[t - off]);
                assert(is_digit(ib[t - off]));
            }
        }
    } else {
        lemma_dec_digits_ensures(f6);
        lemma_dec_digits_len(f6, 6);
        let zs = Seq::new((6 - dec_digits(f6).len()) as nat, |i: int| 48u8);
        assert(forall|t: int| 0 <= t < zs.len() ==> #[trigger] zs[t] == 48);
        lemma_prefix_zeros(zs, dec_digits(f6));
        let pd = pad6(dec_digits(f6));
        assert(pd.len() == 6);
        assert(digits_val(pd) == f6);
        assert(all_digits(pd)) by {
            assert forall|t: int| 0 <= t < pd.len() implies is_digit(#[trigger] pd[t]) by {
                if t < zs.len() {
                    assert(pd[t] == 48);
                } else {
                    assert(pd[t] == dec_digits(f6)[t - zs.len()]);
                }
            }
        }
        let fb = strip_zeros(pd);
        lemma_strip_zeros_prefix(pd);
        lemma_strip_zeros_val(pd);
        assert(all_digits(fb)) by {
            assert forall|t: int| 0 <= t < fb.len() implies is_digit(#[trigger] fb[t]) by {
                assert(fb[t] == pd[t]);
            }
        }
        assert(fb.len() > 0) by {
            if fb.len() == 0 {
                assert(digits_val(fb) == 0);
                assert(digits_val(fb) * pow10((pd.len() - fb.len()) as nat) == 0) by (
                nonlinear_arith)
                    requires
                        digits_val(fb) == 0,
                ;
            }
        }
        assert(s == sign + ib + seq![46u8] + fb);
        let off: int = if units < 0 { 1 } else { 0 };
        assert(s.len() == off + ib.len() + 1 + fb.len());
        assert(forall|t: int| 0 <= t < ib.len() ==> #[trigger] s[t + off] == ib[t]);
        assert(s[off + ib.len()] == 46);
        assert(forall|t: int|
            0 <= t < fb.len() ==> #[trigger] s[off + ib.len() + 1 + t] == fb[t]);
        if units < 0 {
            assert(s[0] == 45);
            assert(score_sign(s));
        } else {
            assert(s[0] == ib[0] && is_digit(ib[0]));
            assert(!score_sign(s));
        }
        let body = score_body(s);
        assert(body =~= ib + seq![46u8] + fb);
        body.index_of_first_ensures(46u8);
        assert(body[ib.len() as int] == 46);
        assert forall|j: int| 0 <= j < ib.len() implies body[j] != 46 by {
            assert(body[j] == ib[j]);
            assert(is_digit(ib[j]));
        }
        assert(body.index_of_first(46u8) == Some(ib.len() as int));
        assert(score_ipart(s) =~= ib);
        assert(score_fpart(s) =~= fb);
        assert(digits_val(fb) * pow10((6 - fb.len()) as nat) == f6);
        assert(spec_parse_score(s) == Some(
            if score_sign(s) {
                -(digits_val(ib) as int * SCALE as int + digits_val(fb) as int * pow10(
                    (6 - fb.len()) as nat,
                ) as int * MICRO_UNITS as int)
            } else {
                digits_val(ib) as int * SCALE as int + digits_val(fb) as int * pow10(
                    (6 - fb.len()) as nat,
                ) as int * MICRO_UNITS as int
            },
        ));
        assert(digits_val(ib) as int * SCALE as int + digits_val(fb) as int * pow10(
            (6 - fb.len()) as nat,
        ) as int * MICRO_UNITS as int == mag as int) by (nonlinear_arith)
            requires
                digits_val(ib) == ip,
                digits_val(fb) * pow10((6 - fb.len()) as nat) == f6,
                mag as int == SCALE as int * (ip as int) + fr as int,
                fr as int == MICRO_UNITS as int * (f6 as int),
        ;
        assert forall|t: int| 0 <= t < s.len() implies !is_ws(#[trigger] s[t]) by {
            if units < 0 && t == 0 {
            } else if t < off + ib.len() {
                assert(s[t] == ib[t - off]);
                assert(is_digit(ib[t - off]));
            } else if t == off + ib.len() {
                assert(s[t] == 46);
            } else {
                assert(s[t] == fb[t - off - ib.len() - 1]);
                assert(is_digit(fb[t - off - ib.len() - 1]));
            }
        }
    }
}

/// The serialized rank parses back to the same rank, as a single token.
proof fn lemma_rank_roundtrip(rank: u32)
    ensures
        spec_parse_u32(dec_digits(rank as nat)) == Some(rank),
        wf_token(dec_digits(rank as nat)),
{
    lemma_dec_digits_ensures(rank as nat);
    let d = dec_digits(rank as nat);
    assert(is_digit(d[0]));
    assert(u32_digits(d) == d);
    assert forall|t: int| 0 <= t < d.len() implies !is_ws(#[trigger] d[t]) by {
        assert(is_digit(d[t]));
    }
}

/// A leading token followed by a space starts the token list.
proof fn lemma_tokens_prefix(t: Seq<u8>, rest: Seq<u8>)
    requires
        wf_token(t),
    ensures
        spec_tokens(t + seq![32u8] + rest) == seq![t] + spec_tokens(rest),
{
    let s = t + seq![32u8] + rest;
    assert(s.len() == t.len() + 1 + rest.len());
    assert(forall|i: int| 0 <= i < t.len() ==> #[trigger] s[i] == t[i]);
    assert(s[t.len() as int] == 32);
    assert(forall|i: int| 0 <= i < rest.len() ==> #[trigger] s[t.len() + 1 + i] == rest[i]);
    assert forall|i: int| 0 <= i < t.len() implies !is_ws(#[trigger] s[i]) by {
        assert(s[i] == t[i]);
    }
    assert(is_ws(s[t.len() as int]));
    lemma_token_len_char(s, t.len() as int);
    assert(!is_ws(s[0]));
    assert(s.take(t.len() as int) =~= t);
    let after = s.skip(t.len() as int);
    assert(after[0] == 32 && is_ws(after[0]));
    assert(after.drop_first() =~= rest);
    assert(spec_tokens(s) == seq![s.take(token_len(s) as int)] + spec_tokens(
        s.skip(token_len(s) as int),
    ));
    assert(s.take(token_len(s) as int) == t);
    assert(s.skip(token_len(s) as int) == after);
    assert(spec_tokens(after) == spec_tokens(after.drop_first()));
    assert(spec_tokens(after.drop_first()) == spec_tokens(rest));
    assert(seq![s.take(token_len(s) as int)] =~= seq![t]);
}

/// A line of one trailing token.
proof fn lemma_tokens_single(t: Seq<u8>)
    requires
        wf_token(t),
    ensures
        spec_tokens(t) == seq![t],
{
    lemma_token_len_char(t, t.len() as int);
    assert(!is_ws(t[0]));
    assert(t.take(t.len() as int) =~= t);
    assert(t.skip(t.len() as int) =~= Seq::<u8>::empty());
    assert(spec_tokens(t) == seq![t.take(token_len(t) as int)] + spec_tokens(
        t.skip(token_len(t) as int),
    ));
    assert(seq![t.take(token_len(t) as int)] =~= seq![t]);
    assert(spec_tokens(t.skip(token_len(t) as int)) == Seq::<Seq<u8>>::empty());
    assert(seq![t] + Seq::<Seq<u8>>::empty() =~= seq![t]);
}

/// The body of a record's line: everything before the final line feed.
pub open spec fn spec_line_body(r: SpecRecord) -> Seq<u8> {
    r.qid + seq![32u8, 48u8, 32u8] + r.docno + seq![32u8] + dec_digits(r.rank as nat)
        + seq![32u8] + spec_score_bytes(r.score) + seq![32u8] + r.runid
}

/// A well-formed record's line parses back to the record itself.
#[verifier::rlimit(100)]
proof fn lemma_line_roundtrip(r: SpecRecord)
    requires
        wf_record(r),
    ensures
        spec_parse_line(spec_line_body(r)) == Ok::<SpecRecord, SpecParseError>(r),
        forall|i: int| 0 <= i < spec_line_body(r).len() ==> #[trigger] spec_line_body(r)[i]
            != 10,
{
    let rb = dec_digits(r.rank as nat);
    let sb = spec_score_bytes(r.score);
    lemma_rank_roundtrip(r.rank);
    lemma_score_roundtrip(r.score);
    let body = spec_line_body(r);
    let zero: Seq<u8> = seq![48u8];
    assert(wf_token(zero)) by {
        assert(zero[0] == 48 && !is_ws(48u8));
    }
    let rest1 = zero + seq![32u8] + (r.docno + seq![32u8] + rb + seq![32u8] + sb + seq![32u8]
        + r.runid);
    let rest2 = r.docno + seq![32u8] + (rb + seq![32u8] + sb + seq![32u8] + r.runid);
    let rest3 = rb + seq![32u8] + (sb + seq![32u8] + r.runid);
    let rest4 = sb + seq![32u8] + r.runid;
    assert(body =~= r.qid + seq![32u8] + rest1);
    lemma_tokens_prefix(r.qid, rest1);
    assert(rest1 =~= zero + seq![32u8] + (r.docno + seq![32u8] + rb + seq![32u8] + sb
        + seq![32u8] + r.runid));
    lemma_tokens_prefix(
        zero,
        r.docno + seq![32u8] + rb + seq![32u8] + sb + seq![32u8] + r.runid,
    );
    assert(r.docno + seq![32u8] + rb + seq![32u8] + sb + seq![32u8] + r.runid =~= r.docno
        + seq![32u8] + (rb + seq![32u8] + sb + seq![32u8] + r.runid));
    lemma_tokens_prefix(r.docno, rb + seq![32u8] + sb + seq![32u8] + r.runid);
    assert(rb + seq![32u8] + sb + seq![32u8] + r.runid =~= rb + seq![32u8] + (sb + seq![32u8]
        + r.runid));
    lemma_tokens_prefix(rb, sb + seq![32u8] + r.runid);
    lemma_tokens_prefix(sb, r.runid);
    lemma_tokens_single(r.runid);
    let toks = spec_tokens(body);
    assert(toks =~= seq![r.qid, zero, r.docno, rb, sb, r.runid]);
    assert(toks[3] == rb && toks[4] == sb);
    assert(spec_parse_u32(toks[3]) == Some(r.rank));
    assert(spec_parse_score(toks[4]) == Some(r.score));
    let parsed = SpecRecord {
        qid: toks[0],
        docno: toks[2],
        rank: r.rank,
        score: r.score,
        runid: toks[5],
    };
    assert(spec_parse_line(body) == Ok::<SpecRecord, SpecParseError>(parsed));
    assert(parsed == r);
    assert forall|i: int| 0 <= i < body.len() implies #[trigger] body[i] != 10 by {
        let q = r.qid.len() as int;
        let d = r.docno.len() as int;
        let rl = rb.len() as int;
        let sl = sb.len() as int;
        if i < q {
            assert(body[i] == r.qid[i] && !is_ws(r.qid[i]));
        } else if i < q + 3 {
            assert(body[i] == 32 || body[i] == 48);
        } else if i < q + 3 + d {
            assert(body[i] == r.docno[i - q - 3] && !is_ws(r.docno[i - q - 3]));
        } else if i < q + 4 + d {
            assert(body[i] == 32);
        } else if i < q + 4 + d + rl {
            assert(body[i] == rb[i - q - 4 - d] && !is_ws(rb[i - q - 4 - d]));
        } else if i < q + 5 + d + rl {
            assert(body[i] == 32);
        } else if i < q + 5 + d + rl + sl {
            assert(body[i] == sb[i - q - 5 - d - rl] && !is_ws(sb[i - q - 5 - d - rl]));
        } else if i < q + 6 + d + rl + sl {
            assert(body[i] == 32);
        } else {
            assert(body[i] == r.runid[i - q - 6 - d - rl - sl] && !is_ws(
                r.runid[i - q - 6 - d - rl - sl],
            ));
        }
    }
}

/// A line feed after a clean prefix opens the line list.
proof fn lemma_lines_prefix(a: Seq<u8>, rest: Seq<u8>)
    requires
        forall|i: int| 0 <= i < a.len() ==> #[trigger] a[i] != 10,
    ensures
        spec_lines(a + seq![10u8] + rest) == seq![a] + spec_lines(rest),
{
    let s = a + seq![10u8] + rest;
    assert(s.len() == a.len() + 1 + rest.len());
    assert(forall|i: int| 0 <= i < a.len() ==> #[trigger] s[i] == a[i]);
    assert(s[a.len() as int] == 10);
    s.index_of_first_ensures(10u8);
    assert forall|j: int| 0 <= j < a.len() implies s[j] != 10 by {
        assert(s[j] == a[j]);
    }
    assert(s.index_of_first(10u8) == Some(a.len() as int));
    assert(s.take(a.len() as int) =~= a);
    assert(s.skip(a.len() as int + 1) =~= rest);
}

/// A record list's text unfolds line by line from the front.
proof fn lemma_write_all_front(rs: Seq<SpecRecord>)
    requires
        rs.len() > 0,
    ensures
        spec_write_all(rs) == spec_write_line(rs.first()) + spec_write_all(rs.drop_first()),
    decreases rs.len(),
{
    if rs.len() == 1 {
        assert(rs.drop_last() =~= Seq::<SpecRecord>::empty());
        assert(rs.drop_first() =~= Seq::<SpecRecord>::empty());
        assert(rs.last() == rs.first());
        assert(Seq::<u8>::empty() + spec_write_line(rs.first()) =~= spec_write_line(
            rs.first(),
        ));
        assert(spec_write_line(rs.first()) + Seq::<u8>::empty() =~= spec_write_line(
            rs.first(),
        ));
    } else {
        let dl = rs.drop_last();
        lemma_write_all_front(dl);
        assert(dl.first() == rs.first());
        assert(rs.drop_first().drop_last() =~= dl.drop_first());
        assert(rs.drop_first().last() == rs.last());
        assert(spec_write_all(rs.drop_first()) == spec_write_all(dl.drop_first())
            + spec_write_line(rs.last()));
        assert((spec_write_line(rs.first()) + spec_write_all(dl.drop_first()))
            + spec_write_line(rs.last()) =~= spec_write_line(rs.first()) + (spec_write_all(
            dl.drop_first(),
        ) + spec_write_line(rs.last())));
    }
}

/// Round trip: parsing the serialized form of any sequence of
/// well-formed records reproduces exactly that sequence.
pub proof fn lemma_parse_write_roundtrip(rs: Seq<SpecRecord>)
    requires
        forall|i: int| 0 <= i < rs.len() ==> wf_record(#[trigger] rs[i]),
    ensures
        spec_parse(spec_write_all(rs)) == Ok::<Seq<SpecRecord>, SpecParseError>(rs),
    decreases rs.len(),
{
    if rs.len() == 0 {
        assert(spec_write_all(rs) =~= Seq::<u8>::empty());
        assert(spec_lines(Seq::<u8>::empty()) =~= Seq::<Seq<u8>>::empty());
        assert(rs =~= Seq::<SpecRecord>::empty());
    } else {
        let r0 = rs.first();
        lemma_write_all_front(rs);
        lemma_line_roundtrip(r0);
        assert(spec_write_line(r0) =~= spec_line_body(r0) + seq![10u8]);
        assert(spec_write_all(rs) =~= spec_line_body(r0) + seq![10u8] + spec_write_all(
            rs.drop_first(),
        ));
        lemma_lines_prefix(spec_line_body(r0), spec_write_all(rs.drop_first()));
        assert(forall|i: int|
            0 <= i < rs.drop_first().len() ==> wf_record(#[trigger] rs.drop_first()[i]));
        lemma_parse_write_roundtrip(rs.drop_first());
        let ls = spec_lines(spec_write_all(rs));
        assert(ls == seq![spec_line_body(r0)] + spec_lines(spec_write_all(rs.drop_first())));
        assert(ls.len() > 0);
        assert(ls.first() == spec_line_body(r0));
        assert(ls.drop_first() =~= spec_lines(spec_write_all(rs.drop_first())));
        assert(spec_parse_lines(ls) == Ok::<Seq<SpecRecord>, SpecParseError>(
            seq![r0] + rs.drop_first(),
        ));
        assert(seq![r0] + rs.drop_first() =~= rs);
    }
}

/// A line with too few fields is rejected with the error that names the
/// first missing field, never a generic failure.
pub proof fn lemma_missing_field_error(line: Seq<u8>)
    ensures
        spec_tokens(line).len() == 0 ==> spec_parse_line(line) == Err::<
            SpecRecord,
            SpecParseError,
        >(SpecParseError::Eol(TrecField::Qid)),
        spec_tokens(line).len() == 1 ==> spec_parse_line(line) == Err::<
            SpecRecord,
            SpecParseError,
        >(SpecParseError::Eol(TrecField::Reserved)),
        spec_tokens(line).len() == 2 ==> spec_parse_line(line) == Err::<
            SpecRecord,
            SpecParseError,
        >(SpecParseError::Eol(TrecField::Docno)),
        spec_tokens(line).len() == 3 ==> spec_parse_line(line) == Err::<
            SpecRecord,
            SpecParseError,
        >(SpecParseError::Eol(TrecField::Rank)),
        spec_tokens(line).len() == 4 && spec_parse_u32(spec_tokens(line)[3]) is Some
            ==> spec_parse_line(line) == Err::<SpecRecord, SpecParseError>(
            SpecParseError::Eol(TrecField::Score),
        ),
        spec_tokens(line).len() == 5 && spec_parse_u32(spec_tokens(line)[3]) is Some
            && spec_parse_score(spec_tokens(line)[4]) is Some ==> spec_parse_line(line)
            == Err::<SpecRecord, SpecParseError>(SpecParseError::Eol(TrecField::Runid)),
{
}

/// A score field holding any byte that is neither a digit, a sign nor a
/// dot — the letters of `nan` and `NaN` included — never parses.
pub proof fn lemma_score_rejects_non_numeric(tok: Seq<u8>, i: int)
    requires
        0 <= i < tok.len(),
        !is_digit(tok[i]),
        tok[i] != 43,
        tok[i] != 45,
        tok[i] != 46,
    ensures
        spec_parse_score(tok) is None,
{
    let body = score_body(tok);
    let off: int = if tok.len() > 0 && (tok[0] == 45 || tok[0] == 43) { 1 } else { 0 };
    assert(i >= off);
    let j = i - off;
    assert(body[j] == tok[i]);
    body.index_of_first_ensures(46u8);
    match body.index_of_first(46u8) {
        Some(d) => {
            assert(body[d] == 46);
            assert(j != d);
            if j < d {
                let ip = score_ipart(tok);
                assert(ip[j] == body[j]);
                assert(!all_digits(ip));
            } else {
                let fp = score_fpart(tok);
                assert(fp[j - d - 1] == body[j]);
                assert(!all_digits(fp));
            }
        },
        None => {
            let ip = score_ipart(tok);
            assert(ip[j] == body[j]);
            assert(!all_digits(ip));
        },
    }
}

} // verus!
