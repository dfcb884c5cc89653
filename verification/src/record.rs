//! Normalizing raw duplicated-transaction records.
//!
//! A raw record carries every field as a string: two timestamps, the
//! operation name, a brace-delimited height list, a hex-encoded hash
//! with a two-character prefix, an optional argument payload and a
//! numeric neighborhood. Normalization parses each field and fails fast
//! on the first malformed one; the argument stays an opaque string
//! until the aggregation engine decodes it by operation kind.

use crate::numbers::{parses_to_u64, u64_value};
use crate::strsplit::{is_brace, split_commas, trim_braces};
use chrono::Datelike;
use chrono::Timelike;
use vstd::prelude::*;

verus! {

/// A calendar timestamp, year through second, as parsed from the fixed
/// `YYYY-MM-DD HH:MM:SS` format.
#[derive(Clone, Copy, Debug, PartialEq, Eq, Structural)]
pub struct Timestamp {
    pub year: i32,
    pub month: u32,
    pub day: u32,
    pub hour: u32,
    pub minute: u32,
    pub second: u32,
}

/// The calendar fields a timestamp string denotes under the fixed
/// `%Y-%m-%d %H:%M:%S` format, or `None` where the string does not
/// parse. Left abstract: the format's acceptance rules (digit counts,
/// month lengths, leap days) belong to the date library.
pub uninterp spec fn timestamp_of(s: Seq<char>) -> Option<(i32, u32, u32, u32, u32, u32)>;

/// The fields of `timestamp_of`, packed into a `Timestamp`.
pub open spec fn timestamp_value(s: Seq<char>) -> Option<Timestamp> {
    match timestamp_of(s) {
        Some(t) => Some(
            Timestamp {
                year: t.0,
                month: t.1,
                day: t.2,
                hour: t.3,
                minute: t.4,
                second: t.5,
            },
        ),
        None => None,
    }
}

/// Relies on chrono's `NaiveDateTime::parse_from_str` with the fixed
/// `%Y-%m-%d %H:%M:%S` format: whether a string parses, and the
/// calendar fields it denotes, depend on the characters of the string
/// alone.
#[verifier::external_body]
fn parse_timestamp(s: &str) -> (r: Option<Timestamp>)
    ensures
        r == timestamp_value(s@),
        r is Some <==> timestamp_of(s@) is Some,
{
    let dt = match chrono::NaiveDateTime::parse_from_str(s, "%Y-%m-%d %H:%M:%S") {
        Ok(dt) => dt,
        Err(_) => return None,
    };
    Some(Timestamp {
        year: dt.date().year(),
        month: dt.date().month(),
        day: dt.date().day(),
        hour: dt.time().hour(),
        minute: dt.time().minute(),
        second: dt.time().second(),
    })
}

/// Whether `c` is an ASCII hex digit.
pub open spec fn is_hex_digit(c: char) -> bool {
    (48 <= c as u32 <= 57) || (97 <= c as u32 <= 102) || (65 <= c as u32 <= 70)
}

/// The numeric value of an ASCII hex digit.
pub open spec fn hex_digit_val(c: char) -> nat {
    if 48 <= c as u32 <= 57 {
        (c as u32 - 48) as nat
    } else if 97 <= c as u32 <= 102 {
        (c as u32 - 87) as nat
    } else {
        (c as u32 - 55) as nat
    }
}

/// Whether `s` is a well-formed hex string: even length, hex digits
/// throughout.
pub open spec fn hex_ok(s: Seq<char>) -> bool {
    &&& s.len() % 2 == 0
    &&& forall|i: int| 0 <= i < s.len() ==> is_hex_digit(#[trigger] s[i])
}

/// The bytes a hex string denotes, two digits per byte, most
/// significant digit first.
pub open spec fn hex_bytes(s: Seq<char>) -> Seq<u8> {
    Seq::new(s.len() / 2, |i: int| (hex_digit_val(s[2 * i]) * 16 + hex_digit_val(s[2 * i + 1])) as u8)
}

/// Relies on `hex::decode`: it succeeds exactly on even-length strings
/// of ASCII hex digits and turns each digit pair into one byte, most
/// significant digit first.
#[verifier::external_body]
fn hex_decode(s: &str) -> (r: Option<Vec<u8>>)
    ensures
        match r {
            Some(v) => hex_ok(s@) && v@ == hex_bytes(s@),
            None => !hex_ok(s@),
        },
{
    hex::decode(s).ok()
}

/// One raw record, fields still encoded as strings.
#[derive(Debug)]
pub struct RawDuplicatedTransaction {
    pub orig_time: String,
    pub max_time: String,
    pub method: String,
    pub height: String,
    pub hash: String,
    pub argument: Option<String>,
    pub neighborhood: String,
}

/// Which field of a raw record failed to parse. Any one of these is
/// fatal for the whole run.
#[derive(Clone, Copy, Debug, PartialEq, Eq, Structural)]
pub enum NormalizeError {
    BadOrigTime,
    BadMaxTime,
    BadHeights,
    BadHash,
    BadNeighborhood,
}

/// One normalized duplicated-transaction record. `heights` is never
/// empty; its first entry is the canonical occurrence and only the
/// later entries count as duplicates.
#[derive(Debug)]
pub struct DuplicatedTransaction {
    pub orig_time: Timestamp,
    pub max_time: Timestamp,
    pub method: String,
    pub heights: Vec<u64>,
    pub hash: Vec<u8>,
    pub argument: Option<String>,
    pub neighborhood: u64,
}

/// The pieces of a height list string: braces trimmed, then split on
/// commas.
pub open spec fn height_pieces(s: Seq<char>) -> Seq<Seq<char>> {
    split_commas(trim_braces(s))
}

/// Whether every piece of the height list reads as a decimal number.
pub open spec fn heights_ok(s: Seq<char>) -> bool {
    forall|i: int| 0 <= i < height_pieces(s).len() ==> parses_to_u64(#[trigger] height_pieces(s)[i])
}

/// The heights a well-formed height list denotes, in input order.
pub open spec fn heights_value(s: Seq<char>) -> Seq<u64> {
    height_pieces(s).map_values(|p: Seq<char>| u64_value(p) as u64)
}

/// Whether the hash string is well-formed: a two-character prefix, then
/// an even number of hex digits.
pub open spec fn hash_ok(s: Seq<char>) -> bool {
    s.len() >= 2 && hex_ok(s.skip(2))
}

/// The bytes a hash string denotes, prefix dropped.
pub open spec fn hash_value(s: Seq<char>) -> Seq<u8> {
    hex_bytes(s.skip(2))
}

/// Whether a whole raw record normalizes.
pub open spec fn raw_ok(raw: RawDuplicatedTransaction) -> bool {
    &&& timestamp_of(raw.orig_time@) is Some
    &&& timestamp_of(raw.max_time@) is Some
    &&& heights_ok(raw.height@)
    &&& hash_ok(raw.hash@)
    &&& parses_to_u64(raw.neighborhood@)
}

/// Parse a brace-delimited, comma-separated height list. Succeeds
/// exactly when every piece reads as a decimal number, and then returns
/// one height per piece, in input order; there is always at least one
/// piece.
#[verifier::loop_isolation(false)]
pub fn parse_heights(s: &str) -> (r: Option<Vec<u64>>)
    ensures
        match r {
            Some(v) => heights_ok(s@) && v@ == heights_value(s@) && v@.len() >= 1,
            None => !heights_ok(s@),
        },
{
    let n = s.unicode_len();
    let mut lo: usize = 0;
    while lo < n && (s.get_char(lo) == '{' || s.get_char(lo) == '}')
        invariant
            lo <= n,
            n == s@.len(),
            forall|j: int| 0 <= j < lo ==> is_brace(#[trigger] s@[j]),
        decreases n - lo,
    {
        lo = lo + 1;
    }
    let mut hi: usize = n;
    while hi > lo && (s.get_char(hi - 1) == '{' || s.get_char(hi - 1) == '}')
        invariant
            lo <= hi <= n,
            n == s@.len(),
            forall|j: int| 0 <= j < lo ==> is_brace(#[trigger] s@[j]),
            forall|j: int| hi <= j < n ==> is_brace(#[trigger] s@[j]),
        decreases hi,
    {
        hi = hi - 1;
    }
    let t = s.substring_char(lo, hi);
    proof {
        crate::strsplit::lemma_trim_start_at(s@, lo as int);
        assert(forall|j: int|
            hi <= j < n - lo ==> #[trigger] s@.skip(lo as int)[j] == s@[j + lo]);
        crate::strsplit::lemma_trim_end_at(s@.skip(lo as int), hi - lo);
        assert(s@.skip(lo as int).take(hi - lo) =~= s@.subrange(lo as int, hi as int));
        assert(t@ == trim_braces(s@));
    }
    parse_piece_list(t, Ghost(s@))
}

/// Parse the comma-separated pieces of the already-trimmed height list
/// `t`, where `t` is the trimmed form of the original string `orig`.
#[verifier::loop_isolation(false)]
fn parse_piece_list(t: &str, orig: Ghost<Seq<char>>) -> (r: Option<Vec<u64>>)
    requires
        t@ == trim_braces(orig@),
    ensures
        match r {
            Some(v) => heights_ok(orig@) && v@ == heights_value(orig@) && v@.len() >= 1,
            None => !heights_ok(orig@),
        },
{
    let ghost pieces = height_pieces(orig@);
    proof {
        crate::strsplit::lemma_split_commas_nonempty(t@);
        assert(t@.skip(0) =~= t@);
        assert(pieces.skip(0) =~~= pieces);
    }
    let m = t.unicode_len();
    let mut out: Vec<u64> = Vec::new();
    let mut start: usize = 0;
    let mut i: usize = 0;
    loop
        invariant
            start <= i <= m,
            m == t@.len(),
            out@.len() <= pieces.len(),
            forall|k: int| 0 <= k < out@.len() ==> parses_to_u64(#[trigger] pieces[k]),
            forall|k: int|
                0 <= k < out@.len() ==> out@[k] == (u64_value(#[trigger] pieces[k]) as u64),
            pieces.skip(out@.len() as int) == split_commas(t@.skip(start as int)),
            forall|j: int| start <= j < i ==> t@[j] != ',',
        decreases m - i,
    {
        let ghost s = t@.skip(start as int);
        let ghost k0 = out@.len() as int;
        proof {
            assert(forall|j: int| 0 <= j < m - start ==> #[trigger] s[j] == t@[j + start]);
        }
        if i == m {
            let piece = t.substring_char(start, m);
            proof {
                crate::strsplit::lemma_split_first_piece(s, m - start);
                assert(pieces.skip(k0) == seq![s]);
                assert(pieces.len() == k0 + 1);
                assert(s.take(m - start) =~= s);
                assert(piece@ == s);
                assert(pieces.skip(k0)[0] == pieces[k0]);
                assert(pieces[k0] == piece@);
            }
            match crate::numbers::parse_u64(piece) {
                Some(v) => {
                    out.push(v);
                    proof {
                        assert(heights_ok(orig@));
                        assert(out@.len() == heights_value(orig@).len());
                        assert forall|k: int| 0 <= k < out@.len() implies out@[k]
                            == heights_value(orig@)[k] by {}
                        assert(out@ =~= heights_value(orig@));
                    }
                    return Some(out);
                },
                None => {
                    proof {
                        assert(!parses_to_u64(pieces[k0]));
                        assert(!heights_ok(orig@));
                    }
                    return None;
                },
            }
        }
        let c = t.get_char(i);
        if c == ',' {
            let piece = t.substring_char(start, i);
            proof {
                assert(s[i - start] == ',');
                crate::strsplit::lemma_split_first_piece(s, i - start);
                assert(pieces.skip(k0) == seq![s.take(i - start)] + split_commas(
                    s.skip(i - start + 1),
                ));
                assert(pieces.len() > k0);
                assert(piece@ =~= s.take(i - start));
                assert(pieces.skip(k0)[0] == pieces[k0]);
                assert(pieces[k0] == piece@);
                assert(s.skip(i - start + 1) =~= t@.skip(i + 1));
            }
            match crate::numbers::parse_u64(piece) {
                Some(v) => {
                    out.push(v);
                    proof {
                        assert(pieces.skip(k0 + 1) =~~= pieces.skip(k0).skip(1));
                        assert(pieces.skip(k0).skip(1) =~~= split_commas(t@.skip(i + 1)));
                        assert(pieces.skip(k0 + 1) == split_commas(t@.skip(i + 1)));
                    }
                },
                None => {
                    proof {
                        assert(!parses_to_u64(pieces[k0]));
                        assert(!heights_ok(orig@));
                    }
                    return None;
                },
            }
            start = i + 1;
        }
        i = i + 1;
    }
}

impl DuplicatedTransaction {
    /// Normalize one raw record, checking the fields in order: original
    /// time, max time, heights, hash, neighborhood. Succeeds exactly
    /// when every field parses, and then carries the method and the
    /// opaque argument over unchanged.
    pub fn from_raw(value: RawDuplicatedTransaction) -> (r: Result<
        DuplicatedTransaction,
        NormalizeError,
    >)
        ensures
            match r {
                Ok(t) => {
                    &&& raw_ok(value)
                    &&& Some(t.orig_time) == timestamp_value(value.orig_time@)
                    &&& Some(t.max_time) == timestamp_value(value.max_time@)
                    &&& t.method == value.method
                    &&& t.heights@ == heights_value(value.height@)
                    &&& t.heights@.len() >= 1
                    &&& t.hash@ == hash_value(value.hash@)
                    &&& t.argument == value.argument
                    &&& t.neighborhood == u64_value(value.neighborhood@)
                },
                Err(e) => {
                    &&& !raw_ok(value)
                    &&& match e {
                        NormalizeError::BadOrigTime => timestamp_of(value.orig_time@) is None,
                        NormalizeError::BadMaxTime => {
                            &&& timestamp_of(value.orig_time@) is Some
                            &&& timestamp_of(value.max_time@) is None
                        },
                        NormalizeError::BadHeights => {
                            &&& timestamp_of(value.orig_time@) is Some
                            &&& timestamp_of(value.max_time@) is Some
                            &&& !heights_ok(value.height@)
                        },
                        NormalizeError::BadHash => {
                            &&& timestamp_of(value.orig_time@) is Some
                            &&& timestamp_of(value.max_time@) is Some
                            &&& heights_ok(value.height@)
                            &&& !hash_ok(value.hash@)
                        },
                        NormalizeError::BadNeighborhood => {
                            &&& timestamp_of(value.orig_time@) is Some
                            &&& timestamp_of(value.max_time@) is Some
                            &&& heights_ok(value.height@)
                            &&& hash_ok(value.hash@)
                            &&& !parses_to_u64(value.neighborhood@)
                        },
                    }
                },
            },
    {
        let orig_time = match parse_timestamp(value.orig_time.as_str()) {
            Some(t) => t,
            None => {
                return Err(NormalizeError::BadOrigTime);
            },
        };
        let max_time = match parse_timestamp(value.max_time.as_str()) {
            Some(t) => t,
            None => {
                return Err(NormalizeError::BadMaxTime);
            },
        };
        let heights = match parse_heights(value.height.as_str()) {
            Some(v) => v,
            None => {
                return Err(NormalizeError::BadHeights);
            },
        };
        let hash = match Self::decode_hash(value.hash.as_str()) {
            Some(v) => v,
            None => {
                return Err(NormalizeError::BadHash);
            },
        };
        let neighborhood = match crate::numbers::parse_u64(value.neighborhood.as_str()) {
            Some(v) => v,
            None => {
                return Err(NormalizeError::BadNeighborhood);
            },
        };
        Ok(DuplicatedTransaction {
            orig_time,
            max_time,
            method: value.method,
            heights,
            hash,
            argument: value.argument,
            neighborhood,
        })
    }

    /// Decode a hash string: drop the fixed two-character prefix, then
    /// read the rest as hex.
    fn decode_hash(s: &str) -> (r: Option<Vec<u8>>)
        ensures
            match r {
                Some(v) => hash_ok(s@) && v@ == hash_value(s@),
                None => !hash_ok(s@),
            },
    {
        let n = s.unicode_len();
        if n < 2 {
            return None;
        }
        let body = s.substring_char(2, n);
        proof {
            assert(body@ =~= s@.skip(2));
        }
        hex_decode(body)
    }
}

} // verus!
