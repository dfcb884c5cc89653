//! The aggregation engine.
//!
//! Records are classified by operation kind: `tokens.mint` records add
//! their per-address amounts once per duplicate height (every height
//! after the first, the canonical one) into the mint table;
//! `ledger.send` records with at least one duplicate height add their
//! amount once per record into the send table, keyed by the `(from, to)`
//! pair alone; records whose only height is the canonical occurrence,
//! and all other kinds, change nothing. An argument that fails to decode for a classified
//! record, and a sum that would not fit in 64 bits, are fatal for the
//! whole run.

use crate::numbers::{parses_to_u64, u64_value};
use crate::order::str_eq;
use crate::record::DuplicatedTransaction;
use crate::send::TransposedSendTable;
use crate::tables::{mint_address_total, MintRow, TransposedMintTable};
use crate::totals::TotalsByAddress;
use vstd::prelude::*;

verus! {

/// What decoding a record's argument can find wrong, and the overflow
/// of an accumulated sum. Any of these aborts the whole run.
#[derive(Clone, Copy, Debug, PartialEq, Eq, Structural)]
pub enum AggregateError {
    /// A mint record without an argument, with an argument that is no
    /// JSON object of strings, or with an amount that is no decimal
    /// number.
    BadMintArgument,
    /// A send record without an argument, or with an argument missing
    /// the `from`, `to` or `amount` fields in their expected shapes.
    BadSendArgument,
    /// An accumulated sum would not fit in 64 bits.
    Overflow,
}

/// The entries a JSON object of string values denotes, keys ascending,
/// or `None` where the string is no such object. Left abstract: the
/// JSON grammar belongs to the decoding library.
pub uninterp spec fn json_object_entries(s: Seq<char>) -> Option<Seq<(Seq<char>, Seq<char>)>>;

/// Relies on serde_json: decoding a JSON object into a map from string
/// to string succeeds or fails on the characters alone, and iterating
/// the decoded `BTreeMap` yields its entries with unique keys in
/// ascending order.
#[verifier::external_body]
fn parse_mint_argument(s: &str) -> (r: Option<Vec<(String, String)>>)
    ensures
        match r {
            Some(v) => json_object_entries(s@) == Some(v.deep_view()) && (forall|i: int, j: int|
                0 <= i < j < v.deep_view().len() ==> crate::order::seq_lt(
                    (#[trigger] v.deep_view()[i]).0,
                    (#[trigger] v.deep_view()[j]).0,
                )),
            None => json_object_entries(s@) is None,
        },
{
    let m: std::collections::BTreeMap<String, String> = match serde_json::from_str(s) {
        Ok(m) => m,
        Err(_) => return None,
    };
    Some(m.into_iter().collect())
}

/// The `(from, to, amount)` fields a send argument denotes — a JSON
/// object with string fields `from` and `to` and an unsigned 64-bit
/// number field `amount`, other fields ignored — or `None` where the
/// string is no such object. Left abstract as `json_object_entries` is.
pub uninterp spec fn send_argument_of(s: Seq<char>) -> Option<(Seq<char>, Seq<char>, u64)>;

/// Relies on serde_json: parsing a JSON value and reading its `from`,
/// `to` and `amount` fields succeeds or fails, and yields its values,
/// on the characters alone.
#[verifier::external_body]
fn parse_send_argument(s: &str) -> (r: Option<(String, String, u64)>)
    ensures
        match r {
            Some(v) => send_argument_of(s@) == Some((v.0@, v.1@, v.2)),
            None => send_argument_of(s@) is None,
        },
{
    let val: serde_json::Value = match serde_json::from_str(s) {
        Ok(v) => v,
        Err(_) => return None,
    };
    let from = val.get("from")?.as_str()?.to_owned();
    let to = val.get("to")?.as_str()?.to_owned();
    let amount = val.get("amount")?.as_u64()?;
    Some((from, to, amount))
}

/// Whether a record is a mint operation.
pub open spec fn is_mint(r: DuplicatedTransaction) -> bool {
    r.method@ == "tokens.mint"@
}

/// Whether a record is a send operation.
pub open spec fn is_send(r: DuplicatedTransaction) -> bool {
    r.method@ == "ledger.send"@
}

/// The decoded entries of a mint record's argument.
pub open spec fn mint_arg_entries(r: DuplicatedTransaction) -> Option<Seq<(Seq<char>, Seq<char>)>> {
    match r.argument {
        Some(a) => json_object_entries(a@),
        None => None,
    }
}

/// Whether a mint record's argument decodes: a JSON object of strings,
/// every value a decimal number.
pub open spec fn mint_record_ok(r: DuplicatedTransaction) -> bool {
    match mint_arg_entries(r) {
        Some(es) => forall|i: int| 0 <= i < es.len() ==> parses_to_u64((#[trigger] es[i]).1),
        None => false,
    }
}

/// The decoded `(from, to, amount)` of a send record's argument.
pub open spec fn send_arg(r: DuplicatedTransaction) -> Option<(Seq<char>, Seq<char>, u64)> {
    match r.argument {
        Some(a) => send_argument_of(a@),
        None => None,
    }
}

/// The amount one argument entry contributes to address `a`.
pub open spec fn entry_amount(en: (Seq<char>, Seq<char>), a: Seq<char>) -> int {
    if en.0 == a {
        u64_value(en.1) as int
    } else {
        0
    }
}

/// The amount a sequence of argument entries contributes to address
/// `a`.
pub open spec fn entries_amount(es: Seq<(Seq<char>, Seq<char>)>, a: Seq<char>) -> int
    decreases es.len(),
{
    if es.len() == 0 {
        0
    } else {
        entries_amount(es.drop_last(), a) + entry_amount(es.last(), a)
    }
}

/// How often height `h` occurs in `hs`.
pub open spec fn height_count(hs: Seq<u64>, h: u64) -> int
    decreases hs.len(),
{
    if hs.len() == 0 {
        0
    } else {
        height_count(hs.drop_last(), h) + if hs.last() == h {
            1int
        } else {
            0int
        }
    }
}

/// What one record contributes to the mint table at `(h, a)`: its
/// amount for `a`, once per occurrence of `h` among the duplicate
/// heights `heights[1..]` — the canonical `heights[0]` is excluded.
/// Records of other kinds, and mint records whose argument does not
/// decode, contribute nothing.
pub open spec fn mint_contribution(r: DuplicatedTransaction, h: u64, a: Seq<char>) -> int {
    if is_mint(r) {
        match mint_arg_entries(r) {
            Some(es) => height_count(r.heights@.skip(1), h) * entries_amount(es, a),
            None => 0,
        }
    } else {
        0
    }
}

/// What one record contributes to the send table at `(f, t)`: its
/// amount, once per record, provided the record has at least one
/// duplicate height — a record whose only height is the canonical
/// occurrence contributes nothing, the same exclusion rule as for
/// mints. The height values play no further part: they are no part of
/// the key. Records of other kinds, and send records whose argument
/// does not decode, contribute nothing.
pub open spec fn send_contribution(r: DuplicatedTransaction, f: Seq<char>, t: Seq<char>) -> int {
    if is_send(r) && r.heights@.len() >= 2 {
        match send_arg(r) {
            Some(v) => if v.0 == f && v.1 == t {
                v.2 as int
            } else {
                0
            },
            None => 0,
        }
    } else {
        0
    }
}

/// What one record adds to an address's total over all heights: its
/// amount for the address, once per duplicate height.
pub open spec fn mint_total_contribution(r: DuplicatedTransaction, a: Seq<char>) -> int {
    if is_mint(r) {
        match mint_arg_entries(r) {
            Some(es) => (r.heights@.len() - 1) * entries_amount(es, a),
            None => 0,
        }
    } else {
        0
    }
}

/// The total mint effect of a record sequence on one address, over all
/// heights.
pub open spec fn mint_total_sum(rs: Seq<DuplicatedTransaction>, a: Seq<char>) -> int
    decreases rs.len(),
{
    if rs.len() == 0 {
        0
    } else {
        mint_total_sum(rs.drop_last(), a) + mint_total_contribution(rs.last(), a)
    }
}

/// The total mint contribution of a record sequence at `(h, a)`.
pub open spec fn mint_sum(rs: Seq<DuplicatedTransaction>, h: u64, a: Seq<char>) -> int
    decreases rs.len(),
{
    if rs.len() == 0 {
        0
    } else {
        mint_sum(rs.drop_last(), h, a) + mint_contribution(rs.last(), h, a)
    }
}

/// The total send contribution of a record sequence at `(f, t)`.
pub open spec fn send_sum(rs: Seq<DuplicatedTransaction>, f: Seq<char>, t: Seq<char>) -> int
    decreases rs.len(),
{
    if rs.len() == 0 {
        0
    } else {
        send_sum(rs.drop_last(), f, t) + send_contribution(rs.last(), f, t)
    }
}

/// Whether a record's argument decodes as its kind asks.
pub open spec fn record_decodes(r: DuplicatedTransaction) -> bool {
    &&& is_mint(r) ==> mint_record_ok(r)
    &&& is_send(r) ==> send_arg(r) is Some
}

/// Whether every record's argument decodes.
pub open spec fn records_decode(rs: Seq<DuplicatedTransaction>) -> bool {
    forall|i: int| 0 <= i < rs.len() ==> record_decodes(#[trigger] rs[i])
}

/// Whether every record carries at least one height, its canonical
/// occurrence.
pub open spec fn records_have_heights(rs: Seq<DuplicatedTransaction>) -> bool {
    forall|i: int| 0 <= i < rs.len() ==> (#[trigger] rs[i]).heights@.len() >= 1
}

/// Whether a record's whole mint contribution still fits on top of a
/// table.
pub open spec fn mint_fits(tbl: TransposedMintTable, r: DuplicatedTransaction) -> bool {
    forall|h: u64, a: Seq<char>|
        tbl.spec_amount(h, a) + #[trigger] mint_contribution(r, h, a) <= u64::MAX
}

/// Whether a record's send contribution still fits on top of a table.
pub open spec fn send_fits(tbl: TransposedSendTable, r: DuplicatedTransaction) -> bool {
    forall|f: Seq<char>, t: Seq<char>|
        tbl.spec_amount(f, t) + #[trigger] send_contribution(r, f, t) <= u64::MAX
}

/// Whether every accumulated mint sum fits in 64 bits.
pub open spec fn mint_sums_fit(rs: Seq<DuplicatedTransaction>) -> bool {
    forall|h: u64, a: Seq<char>| #[trigger] mint_sum(rs, h, a) <= u64::MAX
}

/// Whether every accumulated send sum fits in 64 bits.
pub open spec fn send_sums_fit(rs: Seq<DuplicatedTransaction>) -> bool {
    forall|f: Seq<char>, t: Seq<char>| #[trigger] send_sum(rs, f, t) <= u64::MAX
}

pub proof fn lemma_entries_amount_nonneg(es: Seq<(Seq<char>, Seq<char>)>, a: Seq<char>)
    ensures
        entries_amount(es, a) >= 0,
    decreases es.len(),
{
    if es.len() > 0 {
        lemma_entries_amount_nonneg(es.drop_last(), a);
    }
}

pub proof fn lemma_height_count_nonneg(hs: Seq<u64>, h: u64)
    ensures
        height_count(hs, h) >= 0,
    decreases hs.len(),
{
    if hs.len() > 0 {
        lemma_height_count_nonneg(hs.drop_last(), h);
    }
}

/// A record's mint contribution is never negative.
pub proof fn lemma_mint_contribution_nonneg(r: DuplicatedTransaction, h: u64, a: Seq<char>)
    ensures
        mint_contribution(r, h, a) >= 0,
{
    if is_mint(r) {
        match mint_arg_entries(r) {
            Some(es) => {
                lemma_height_count_nonneg(r.heights@.skip(1), h);
                lemma_entries_amount_nonneg(es, a);
                assert(height_count(r.heights@.skip(1), h) * entries_amount(es, a) >= 0)
                    by (nonlinear_arith)
                    requires
                        height_count(r.heights@.skip(1), h) >= 0,
                        entries_amount(es, a) >= 0,
                ;
            },
            None => {},
        }
    }
}

/// A record's send contribution is never negative.
pub proof fn lemma_send_contribution_nonneg(r: DuplicatedTransaction, f: Seq<char>, t: Seq<char>)
    ensures
        send_contribution(r, f, t) >= 0,
{
}

/// A prefix of a record sequence never sums above the whole sequence.
pub proof fn lemma_mint_sum_prefix(rs: Seq<DuplicatedTransaction>, k: int, h: u64, a: Seq<char>)
    requires
        0 <= k <= rs.len(),
    ensures
        mint_sum(rs.take(k), h, a) <= mint_sum(rs, h, a),
    decreases rs.len() - k,
{
    if k < rs.len() {
        lemma_mint_sum_prefix(rs, k + 1, h, a);
        assert(rs.take(k + 1).drop_last() =~= rs.take(k));
        assert(rs.take(k + 1).last() == rs[k]);
        lemma_mint_contribution_nonneg(rs[k], h, a);
    } else {
        assert(rs.take(k) =~= rs);
    }
}

/// A prefix of a record sequence never sums above the whole sequence.
pub proof fn lemma_send_sum_prefix(rs: Seq<DuplicatedTransaction>, k: int, f: Seq<char>, t: Seq<char>)
    requires
        0 <= k <= rs.len(),
    ensures
        send_sum(rs.take(k), f, t) <= send_sum(rs, f, t),
    decreases rs.len() - k,
{
    if k < rs.len() {
        lemma_send_sum_prefix(rs, k + 1, f, t);
        assert(rs.take(k + 1).drop_last() =~= rs.take(k));
        assert(rs.take(k + 1).last() == rs[k]);
        lemma_send_contribution_nonneg(rs[k], f, t);
    } else {
        assert(rs.take(k) =~= rs);
    }
}

impl TransposedMintTable {
    /// Fold one record into the mint table. A record of another kind
    /// changes nothing; a mint record adds, for every entry of its
    /// argument and every duplicate height, the entry's amount at
    /// `(height, address)`. Fails fast where the argument does not
    /// decode or a sum would overflow.
    #[verifier::loop_isolation(false)]
    pub fn insert(&mut self, entry: &DuplicatedTransaction) -> (r: Result<(), AggregateError>)
        requires
            old(self).wf(),
            entry.heights@.len() >= 1,
        ensures
            final(self).wf(),
            match r {
                Ok(_) => {
                    &&& is_mint(*entry) ==> mint_record_ok(*entry)
                    &&& mint_fits(*old(self), *entry)
                    &&& forall|h: u64, a: Seq<char>|
                        #[trigger] final(self).spec_amount(h, a) == old(self).spec_amount(h, a)
                            + mint_contribution(*entry, h, a)
                    &&& forall|a: Seq<char>|
                        #[trigger] mint_address_total(final(self).rows@, a) == mint_address_total(
                            old(self).rows@,
                            a,
                        ) + mint_total_contribution(*entry, a)
                },
                Err(e) => match e {
                    AggregateError::BadMintArgument => is_mint(*entry) && !mint_record_ok(*entry)
                        && *final(self) == *old(self),
                    AggregateError::Overflow => is_mint(*entry) && mint_record_ok(*entry)
                        && !mint_fits(*old(self), *entry) && (forall|h: u64, a: Seq<char>|
                        old(self).spec_amount(h, a) <= #[trigger] final(self).spec_amount(h, a)
                            <= old(self).spec_amount(h, a) + mint_contribution(*entry, h, a)),
                    _ => false,
                },
            },
    {
        if !str_eq(entry.method.as_str(), "tokens.mint") {
            proof {
                crate::tables::lemma_mint_table_range(*self);
            }
            return Ok(());
        }
        let arg_string = match &entry.argument {
            Some(a) => a,
            None => {
                return Err(AggregateError::BadMintArgument);
            },
        };
        let entries = match parse_mint_argument(arg_string.as_str()) {
            Some(v) => v,
            None => {
                return Err(AggregateError::BadMintArgument);
            },
        };
        let ghost es = entries.deep_view();
        proof {
            assert(mint_arg_entries(*entry) == Some(es));
        }
        let k = entries.len();
        let mut amounts: Vec<u64> = Vec::new();
        let mut e: usize = 0;
        while e < k
            invariant
                e <= k,
                k == entries@.len(),
                es == entries.deep_view(),
                mint_arg_entries(*entry) == Some(es),
                amounts@.len() == e,
                forall|i: int|
                    0 <= i < e ==> parses_to_u64((#[trigger] es[i]).1) && amounts@[i] == u64_value(
                        es[i].1,
                    ),
            decreases k - e,
        {
            proof {
                assert(es[e as int] == (entries@[e as int].0@, entries@[e as int].1@));
            }
            match crate::numbers::parse_u64(entries[e].1.as_str()) {
                Some(v) => {
                    amounts.push(v);
                },
                None => {
                    proof {
                        assert(mint_arg_entries(*entry) == Some(es));
                        assert(!parses_to_u64(es[e as int].1));
                        assert(0 <= e && (e as int) < es.len());
                        assert(!mint_record_ok(*entry)) by {
                            if mint_record_ok(*entry) {
                                let es2 = mint_arg_entries(*entry).unwrap();
                                assert(es2 == es);
                                assert(parses_to_u64((#[trigger] es2[e as int]).1));
                            }
                        }
                    }
                    return Err(AggregateError::BadMintArgument);
                },
            }
            e = e + 1;
        }
        assert(mint_record_ok(*entry));
        let ghost hs1 = entry.heights@.skip(1);
        let hn = entry.heights.len();
        let mut e: usize = 0;
        while e < k
            invariant
                old(self).wf(),
                self.wf(),
                e <= k,
                k == entries@.len(),
                es == entries.deep_view(),
                amounts@.len() == k,
                forall|i: int|
                    0 <= i < k ==> parses_to_u64((#[trigger] es[i]).1) && amounts@[i] == u64_value(
                        es[i].1,
                    ),
                hn == entry.heights@.len(),
                hn >= 1,
                hs1 == entry.heights@.skip(1),
                mint_record_ok(*entry),
                mint_arg_entries(*entry) == Some(es),
                is_mint(*entry),
                forall|h: u64, a: Seq<char>|
                    #[trigger] self.spec_amount(h, a) == old(self).spec_amount(h, a) + height_count(
                        hs1,
                        h,
                    ) * entries_amount(es.take(e as int), a),
                forall|a: Seq<char>|
                    #[trigger] mint_address_total(self.rows@, a) == mint_address_total(
                        old(self).rows@,
                        a,
                    ) + (hn - 1) * entries_amount(es.take(e as int), a),
            decreases k - e,
        {
            let amt = amounts[e];
            let ghost entry_e = es[e as int];
            proof {
                assert(es[e as int] == (entries@[e as int].0@, entries@[e as int].1@));
            }
            let mut j: usize = 1;
            while j < hn
                invariant
                    old(self).wf(),
                    self.wf(),
                    e < k,
                    k == entries@.len(),
                    es == entries.deep_view(),
                    amounts@.len() == k,
                    forall|i: int|
                        0 <= i < k ==> parses_to_u64((#[trigger] es[i]).1) && amounts@[i]
                            == u64_value(es[i].1),
                    hn == entry.heights@.len(),
                    hn >= 1,
                    1 <= j <= hn,
                    hs1 == entry.heights@.skip(1),
                    mint_record_ok(*entry),
                    mint_arg_entries(*entry) == Some(es),
                    is_mint(*entry),
                    entry_e == es[e as int],
                    amt == amounts@[e as int],
                    forall|h: u64, a: Seq<char>|
                        #[trigger] self.spec_amount(h, a) == old(self).spec_amount(h, a)
                            + height_count(hs1, h) * entries_amount(es.take(e as int), a)
                            + height_count(hs1.take(j - 1), h) * entry_amount(entry_e, a),
                    forall|a: Seq<char>|
                        #[trigger] mint_address_total(self.rows@, a) == mint_address_total(
                            old(self).rows@,
                            a,
                        ) + (hn - 1) * entries_amount(es.take(e as int), a) + (j - 1)
                            * entry_amount(entry_e, a),
                decreases hn - j,
            {
                let h = entry.heights[j];
                proof {
                    assert(hs1[j - 1] == entry.heights@[j as int]);
                }
                let ghost before = *self;
                let ok = self.add_amount(h, entries[e].0.as_str(), amt);
                if !ok {
                    proof {
                        lemma_overflow_witness(
                            *old(self),
                            before,
                            *entry,
                            es,
                            hs1,
                            e as int,
                            j - 1,
                            h,
                            amt,
                        );
                        assert forall|h0: u64, a0: Seq<char>|
                            old(self).spec_amount(h0, a0) <= #[trigger] self.spec_amount(h0, a0)
                                <= old(self).spec_amount(h0, a0) + mint_contribution(
                                *entry,
                                h0,
                                a0,
                            ) by {
                            let hc_f = height_count(hs1, h0);
                            let hc_j = height_count(hs1.take(j - 1), h0);
                            let ea_e = entries_amount(es.take(e as int), a0);
                            let ea_f = entries_amount(es, a0);
                            let ea1 = entry_amount(es[e as int], a0);
                            lemma_height_count_nonneg(hs1, h0);
                            lemma_height_count_nonneg(hs1.take(j - 1), h0);
                            lemma_entries_amount_nonneg(es.take(e as int), a0);
                            lemma_height_count_prefix(hs1, j - 1, h0);
                            lemma_entries_amount_prefix(es, e + 1, a0);
                            assert(es.take(e + 1).drop_last() =~= es.take(e as int));
                            assert(es.take(e + 1).last() == es[e as int]);
                            assert(ea_f >= ea_e + ea1);
                            assert(hc_f * ea_e + hc_j * ea1 >= 0) by (nonlinear_arith)
                                requires
                                    hc_f >= 0,
                                    ea_e >= 0,
                                    hc_j >= 0,
                                    ea1 >= 0,
                            ;
                            assert(hc_f * ea_f >= hc_f * ea_e + hc_j * ea1) by (nonlinear_arith)
                                requires
                                    hc_f >= hc_j,
                                    hc_j >= 0,
                                    ea_f >= ea_e + ea1,
                                    ea_e >= 0,
                                    ea1 >= 0,
                            ;
                        }
                    }
                    return Err(AggregateError::Overflow);
                }
                proof {
                    assert(hs1.take(j as int).drop_last() =~= hs1.take(j - 1));
                    assert(hs1.take(j as int).last() == hs1[j - 1]);
                    assert forall|a0: Seq<char>|
                        #[trigger] mint_address_total(self.rows@, a0) == mint_address_total(
                            old(self).rows@,
                            a0,
                        ) + (hn - 1) * entries_amount(es.take(e as int), a0) + (j as int)
                            * entry_amount(entry_e, a0) by {
                        let ea = entry_amount(entry_e, a0);
                        assert(mint_address_total(self.rows@, a0) == mint_address_total(
                            before.rows@,
                            a0,
                        ) + if a0 == entry_e.0 {
                            amt as int
                        } else {
                            0
                        });
                        if a0 == entry_e.0 {
                            assert(ea == amt as int);
                            assert((j - 1) * ea + ea == (j as int) * ea) by (nonlinear_arith);
                        } else {
                            assert(ea == 0);
                            assert((j - 1) * 0 == 0) by (nonlinear_arith);
                            assert((j as int) * 0 == 0) by (nonlinear_arith);
                        }
                    }
                    assert forall|h0: u64, a0: Seq<char>|
                        #[trigger] self.spec_amount(h0, a0) == old(self).spec_amount(h0, a0)
                            + height_count(hs1, h0) * entries_amount(es.take(e as int), a0)
                            + height_count(hs1.take(j as int), h0) * entry_amount(entry_e, a0) by {
                        let c0 = height_count(hs1.take(j - 1), h0);
                        let c1 = height_count(hs1.take(j as int), h0);
                        let ea = entry_amount(entry_e, a0);
                        assert(before.spec_amount(h0, a0) == old(self).spec_amount(h0, a0)
                            + height_count(hs1, h0) * entries_amount(es.take(e as int), a0) + c0
                            * ea);
                        if a0 == entry_e.0 {
                            assert(ea == amt as int);
                            if h0 == h {
                                assert(c1 == c0 + 1);
                                assert(c1 * ea == c0 * ea + ea) by (nonlinear_arith)
                                    requires
                                        c1 == c0 + 1,
                                ;
                            } else {
                                assert(c1 == c0);
                            }
                        } else {
                            assert(ea == 0);
                            assert(c1 * 0 == 0) by (nonlinear_arith);
                            assert(c0 * 0 == 0) by (nonlinear_arith);
                        }
                    }
                }
                j = j + 1;
            }
            proof {
                assert(hs1.take(hn - 1) =~= hs1);
                assert(es.take(e + 1).drop_last() =~= es.take(e as int));
                assert(es.take(e + 1).last() == es[e as int]);
                assert forall|h0: u64, a0: Seq<char>|
                    #[trigger] self.spec_amount(h0, a0) == old(self).spec_amount(h0, a0)
                        + height_count(hs1, h0) * entries_amount(es.take(e + 1), a0) by {
                    let hc = height_count(hs1, h0);
                    let d0 = entries_amount(es.take(e as int), a0);
                    let ea = entry_amount(es[e as int], a0);
                    assert(entries_amount(es.take(e + 1), a0) == d0 + ea);
                    assert(hc * (d0 + ea) == hc * d0 + hc * ea) by (nonlinear_arith);
                }
                assert forall|a0: Seq<char>|
                    #[trigger] mint_address_total(self.rows@, a0) == mint_address_total(
                        old(self).rows@,
                        a0,
                    ) + (hn - 1) * entries_amount(es.take(e + 1), a0) by {
                    let d0 = entries_amount(es.take(e as int), a0);
                    let ea = entry_amount(es[e as int], a0);
                    assert(entries_amount(es.take(e + 1), a0) == d0 + ea);
                    assert((hn - 1) * (d0 + ea) == (hn - 1) * d0 + (hn - 1) * ea)
                        by (nonlinear_arith);
                }
            }
            e = e + 1;
        }
        proof {
            assert(es.take(k as int) =~= es);
            crate::tables::lemma_mint_table_range(*self);
            assert forall|h: u64, a: Seq<char>|
                old(self).spec_amount(h, a) + #[trigger] mint_contribution(*entry, h, a)
                    <= u64::MAX by {
                assert(self.spec_amount(h, a) == old(self).spec_amount(h, a) + mint_contribution(
                    *entry,
                    h,
                    a,
                ));
            }
        }
        Ok(())
    }
}

/// At a failing addition inside a mint record, the record's whole
/// contribution already cannot fit on top of the starting table.
proof fn lemma_overflow_witness(
    start: TransposedMintTable,
    cur: TransposedMintTable,
    entry: DuplicatedTransaction,
    es: Seq<(Seq<char>, Seq<char>)>,
    hs1: Seq<u64>,
    e: int,
    j0: int,
    h: u64,
    amt: u64,
)
    requires
        is_mint(entry),
        mint_arg_entries(entry) == Some(es),
        hs1 == entry.heights@.skip(1),
        0 <= e < es.len(),
        0 <= j0 < hs1.len(),
        hs1[j0] == h,
        amt == u64_value(es[e].1),
        parses_to_u64(es[e].1),
        cur.spec_amount(h, es[e].0) == start.spec_amount(h, es[e].0) + height_count(hs1, h)
            * entries_amount(es.take(e), es[e].0) + height_count(hs1.take(j0), h) * entry_amount(
            es[e],
            es[e].0,
        ),
        cur.spec_amount(h, es[e].0) + amt > u64::MAX,
    ensures
        !mint_fits(start, entry),
{
    let a = es[e].0;
    let hc_f = height_count(hs1, h);
    let hc_j = height_count(hs1.take(j0), h);
    let ea_f = entries_amount(es, a);
    let ea_e = entries_amount(es.take(e), a);
    assert(entry_amount(es[e], a) == amt as int);
    // the count over all duplicate heights exceeds the count so far
    assert(hs1.take(j0 + 1).drop_last() =~= hs1.take(j0));
    assert(hs1.take(j0 + 1).last() == hs1[j0]);
    lemma_height_count_prefix(hs1, j0 + 1, h);
    assert(hc_f >= hc_j + 1);
    // the amount over all entries exceeds the amount so far
    assert(es.take(e + 1).drop_last() =~= es.take(e));
    assert(es.take(e + 1).last() == es[e]);
    lemma_entries_amount_prefix(es, e + 1, a);
    assert(ea_f >= ea_e + amt);
    lemma_height_count_nonneg(hs1.take(j0), h);
    lemma_entries_amount_nonneg(es.take(e), a);
    assert(hc_f * ea_f >= hc_f * ea_e + hc_j * amt + amt) by (nonlinear_arith)
        requires
            hc_f >= hc_j + 1,
            ea_f >= ea_e + amt,
            hc_j >= 0,
            ea_e >= 0,
            amt >= 0,
    ;
    assert(start.spec_amount(h, a) + mint_contribution(entry, h, a) > u64::MAX);
}

/// A prefix of the duplicate heights never counts a height more often
/// than the whole list.
proof fn lemma_height_count_prefix(hs: Seq<u64>, k: int, h: u64)
    requires
        0 <= k <= hs.len(),
    ensures
        height_count(hs.take(k), h) <= height_count(hs, h),
    decreases hs.len() - k,
{
    if k < hs.len() {
        lemma_height_count_prefix(hs, k + 1, h);
        assert(hs.take(k + 1).drop_last() =~= hs.take(k));
        assert(hs.take(k + 1).last() == hs[k]);
    } else {
        assert(hs.take(k) =~= hs);
    }
}

/// A prefix of the entries never contributes more to an address than
/// the whole list.
proof fn lemma_entries_amount_prefix(es: Seq<(Seq<char>, Seq<char>)>, k: int, a: Seq<char>)
    requires
        0 <= k <= es.len(),
    ensures
        entries_amount(es.take(k), a) <= entries_amount(es, a),
    decreases es.len() - k,
{
    if k < es.len() {
        lemma_entries_amount_prefix(es, k + 1, a);
        assert(es.take(k + 1).drop_last() =~= es.take(k));
        assert(es.take(k + 1).last() == es[k]);
        assert(entry_amount(es[k], a) >= 0);
    } else {
        assert(es.take(k) =~= es);
    }
}

impl TransposedSendTable {
    /// Fold one record into the send table. A record of another kind
    /// changes nothing; a send record with at least one duplicate
    /// height adds its amount at its `(from, to)` pair, once per
    /// record. A send record whose only height is the canonical
    /// occurrence contributes nothing — though its argument must still
    /// decode. Fails fast where the argument does not decode or the
    /// sum would overflow.
    #[verifier::loop_isolation(false)]
    pub fn insert(&mut self, entry: &DuplicatedTransaction) -> (r: Result<(), AggregateError>)
        requires
            old(self).wf(),
            entry.heights@.len() >= 1,
        ensures
            final(self).wf(),
            match r {
                Ok(_) => {
                    &&& is_send(*entry) ==> send_arg(*entry) is Some
                    &&& send_fits(*old(self), *entry)
                    &&& forall|f: Seq<char>, t: Seq<char>|
                        #[trigger] final(self).spec_amount(f, t) == old(self).spec_amount(f, t)
                            + send_contribution(*entry, f, t)
                },
                Err(e) => match e {
                    AggregateError::BadSendArgument => is_send(*entry) && send_arg(*entry) is None
                        && *final(self) == *old(self),
                    AggregateError::Overflow => is_send(*entry) && send_arg(*entry) is Some
                        && !send_fits(*old(self), *entry) && *final(self) == *old(self),
                    _ => false,
                },
            },
    {
        if !str_eq(entry.method.as_str(), "ledger.send") {
            proof {
                crate::send::lemma_send_table_range(*self);
            }
            return Ok(());
        }
        let arg_string = match &entry.argument {
            Some(a) => a,
            None => {
                return Err(AggregateError::BadSendArgument);
            },
        };
        let decoded = match parse_send_argument(arg_string.as_str()) {
            Some(v) => v,
            None => {
                return Err(AggregateError::BadSendArgument);
            },
        };
        if entry.heights.len() < 2 {
            proof {
                crate::send::lemma_send_table_range(*self);
            }
            return Ok(());
        }
        let ok = self.add_amount(decoded.0.as_str(), decoded.1.as_str(), decoded.2);
        if ok {
            proof {
                crate::send::lemma_send_table_range(*self);
                assert forall|f: Seq<char>, t: Seq<char>|
                    #[trigger] self.spec_amount(f, t) == old(self).spec_amount(f, t)
                        + send_contribution(*entry, f, t) by {}
                assert forall|f: Seq<char>, t: Seq<char>|
                    old(self).spec_amount(f, t) + #[trigger] send_contribution(*entry, f, t)
                        <= u64::MAX by {
                    assert(self.spec_amount(f, t) == old(self).spec_amount(f, t)
                        + send_contribution(*entry, f, t));
                }
            }
            Ok(())
        } else {
            proof {
                assert(old(self).spec_amount(decoded.0@, decoded.1@) + send_contribution(
                    *entry,
                    decoded.0@,
                    decoded.1@,
                ) > u64::MAX);
            }
            Err(AggregateError::Overflow)
        }
    }
}

/// The aggregation outputs: the mint table, the send table, and the
/// per-address totals derived from the mint table.
#[derive(Debug)]
pub struct AggregateOutput {
    pub mint: TransposedMintTable,
    pub send: TransposedSendTable,
    pub totals: TotalsByAddress,
}

/// Derive the per-address totals of a mint table: for each address the
/// sum of the table's amounts over all heights. Fails exactly when some
/// address's total would not fit in 64 bits.
#[verifier::loop_isolation(false)]
pub fn totals_of(mint: &TransposedMintTable) -> (r: Result<TotalsByAddress, AggregateError>)
    requires
        mint.wf(),
    ensures
        match r {
            Ok(t) => {
                &&& t.wf()
                &&& forall|a: Seq<char>| #[trigger] t.spec_total(a) == mint_address_total(
                    mint.rows@,
                    a,
                )
            },
            Err(e) => e == AggregateError::Overflow && exists|a: Seq<char>|
                mint_address_total(mint.rows@, a) > u64::MAX,
        },
{
    let mut totals = TotalsByAddress::new();
    let n = mint.rows.len();
    let mut i: usize = 0;
    while i < n
        invariant
            i <= n,
            n == mint.rows@.len(),
            mint.wf(),
            totals.wf(),
            forall|a: Seq<char>| #[trigger] totals.spec_total(a) == mint_address_total(
                mint.rows@.take(i as int),
                a,
            ),
        decreases n - i,
    {
        proof {
            assert(mint.rows@.take(i + 1).drop_last() =~= mint.rows@.take(i as int));
            assert(mint.rows@.take(i + 1).last() == mint.rows@[i as int]);
        }
        let row = &mint.rows[i];
        let ok = totals.add_amount(row.address.as_str(), row.amount);
        if !ok {
            proof {
                lemma_mint_address_total_prefix(mint.rows@, i + 1, row.address@);
            }
            return Err(AggregateError::Overflow);
        }
        i = i + 1;
    }
    proof {
        assert(mint.rows@.take(n as int) =~= mint.rows@);
    }
    Ok(totals)
}

/// A prefix of the rows never totals more for an address than the whole
/// table.
proof fn lemma_mint_address_total_prefix(rows: Seq<MintRow>, k: int, a: Seq<char>)
    requires
        0 <= k <= rows.len(),
    ensures
        mint_address_total(rows.take(k), a) <= mint_address_total(rows, a),
    decreases rows.len() - k,
{
    if k < rows.len() {
        lemma_mint_address_total_prefix(rows, k + 1, a);
        assert(rows.take(k + 1).drop_last() =~= rows.take(k));
        assert(rows.take(k + 1).last() == rows[k]);
    } else {
        assert(rows.take(k) =~= rows);
    }
}

/// Aggregate a run's records: fold every record into the mint and send
/// tables, then derive the per-address totals. Succeeds exactly when
/// every classified record's argument decodes and no accumulated sum
/// overflows; on success the tables hold, at every key, exactly the
/// records' summed contributions, and the totals hold each address's
/// sum over the mint table.
#[verifier::loop_isolation(false)]
pub fn aggregate(records: &Vec<DuplicatedTransaction>) -> (r: Result<
    AggregateOutput,
    AggregateError,
>)
    requires
        records_have_heights(records@),
    ensures
        match r {
            Ok(out) => {
                &&& out.mint.wf()
                &&& out.send.wf()
                &&& out.totals.wf()
                &&& records_decode(records@)
                &&& mint_sums_fit(records@)
                &&& send_sums_fit(records@)
                &&& forall|h: u64, a: Seq<char>| #[trigger] out.mint.spec_amount(h, a) == mint_sum(
                    records@,
                    h,
                    a,
                )
                &&& forall|f: Seq<char>, t: Seq<char>| #[trigger] out.send.spec_amount(f, t)
                    == send_sum(records@, f, t)
                &&& forall|a: Seq<char>| #[trigger] out.totals.spec_total(a) == mint_address_total(
                    out.mint.rows@,
                    a,
                )
                &&& forall|a: Seq<char>| #[trigger] out.totals.spec_total(a) == mint_total_sum(
                    records@,
                    a,
                )
            },
            Err(e) => match e {
                AggregateError::BadMintArgument => exists|i: int|
                    0 <= i < records@.len() && is_mint(#[trigger] records@[i]) && !mint_record_ok(
                        records@[i],
                    ),
                AggregateError::BadSendArgument => exists|i: int|
                    0 <= i < records@.len() && is_send(#[trigger] records@[i]) && send_arg(
                        records@[i],
                    ) is None,
                AggregateError::Overflow => !mint_sums_fit(records@) || !send_sums_fit(records@)
                    || exists|m: TransposedMintTable|
                    (#[trigger] m.wf()) && (forall|h: u64, a: Seq<char>|
                        #[trigger] m.spec_amount(h, a) == mint_sum(records@, h, a)) && exists|
                        a: Seq<char>,
                    |
                        mint_address_total(m.rows@, a) > u64::MAX,
            },
        },
{
    let mut mint = TransposedMintTable::new();
    let mut send = TransposedSendTable::new();
    let n = records.len();
    let mut i: usize = 0;
    while i < n
        invariant
            i <= n,
            n == records@.len(),
            records_have_heights(records@),
            mint.wf(),
            send.wf(),
            forall|j: int| 0 <= j < i ==> record_decodes(#[trigger] records@[j]),
            forall|h: u64, a: Seq<char>| #[trigger] mint.spec_amount(h, a) == mint_sum(
                records@.take(i as int),
                h,
                a,
            ),
            forall|a: Seq<char>| #[trigger] mint_address_total(mint.rows@, a) == mint_total_sum(
                records@.take(i as int),
                a,
            ),
            forall|f: Seq<char>, t: Seq<char>| #[trigger] send.spec_amount(f, t) == send_sum(
                records@.take(i as int),
                f,
                t,
            ),
        decreases n - i,
    {
        let entry = &records[i];
        proof {
            assert(records@.take(i + 1).drop_last() =~= records@.take(i as int));
            assert(records@.take(i + 1).last() == records@[i as int]);
        }
        let ghost mint_before = mint;
        match mint.insert(entry) {
            Ok(_) => {},
            Err(err) => {
                proof {
                    if err == AggregateError::Overflow {
                        let (h, a): (u64, Seq<char>) = choose|h: u64, a: Seq<char>|
                            mint_before.spec_amount(h, a) + #[trigger] mint_contribution(
                                *entry,
                                h,
                                a,
                            ) > u64::MAX;
                        assert(mint_sum(records@.take(i + 1), h, a) > u64::MAX);
                        lemma_mint_sum_prefix(records@, i + 1, h, a);
                        assert(!mint_sums_fit(records@));
                    }
                }
                return Err(err);
            },
        }
        let ghost send_before = send;
        match send.insert(entry) {
            Ok(_) => {},
            Err(err) => {
                proof {
                    if err == AggregateError::Overflow {
                        let (f, t): (Seq<char>, Seq<char>) = choose|f: Seq<char>, t: Seq<char>|
                            send_before.spec_amount(f, t) + #[trigger] send_contribution(
                                *entry,
                                f,
                                t,
                            ) > u64::MAX;
                        assert(send_sum(records@.take(i + 1), f, t) > u64::MAX);
                        lemma_send_sum_prefix(records@, i + 1, f, t);
                        assert(!send_sums_fit(records@));
                    }
                }
                return Err(err);
            },
        }
        i = i + 1;
    }
    proof {
        assert(records@.take(n as int) =~= records@);
        assert forall|h: u64, a: Seq<char>| #[trigger] mint_sum(records@, h, a) <= u64::MAX by {
            assert(mint.spec_amount(h, a) == mint_sum(records@, h, a));
            crate::tables::lemma_mint_table_range(mint);
        }
        assert forall|f: Seq<char>, t: Seq<char>| #[trigger] send_sum(records@, f, t)
            <= u64::MAX by {
            assert(send.spec_amount(f, t) == send_sum(records@, f, t));
            crate::send::lemma_send_table_range(send);
        }
    }
    let totals = match totals_of(&mint) {
        Ok(t) => t,
        Err(err) => {
            proof {
                let a = choose|a: Seq<char>| mint_address_total(mint.rows@, a) > u64::MAX;
                assert(mint.wf() && (forall|h: u64, a2: Seq<char>|
                    #[trigger] mint.spec_amount(h, a2) == mint_sum(records@, h, a2)) && exists|
                    a3: Seq<char>,
                |
                    mint_address_total(mint.rows@, a3) > u64::MAX);
            }
            return Err(err);
        },
    };
    Ok(AggregateOutput { mint, send, totals })
}

} // verus!
