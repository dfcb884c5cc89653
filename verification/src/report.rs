//! Report emission.
//!
//! The tables are laid out as plain report rows in their table order:
//! ascending `(height, address)` for the mint report, ascending
//! address for the summary, ascending `(from, to)` for the send
//! listing. Aliases fill display columns only. Rendering the rows as
//! CSV text or a formatted console table is the caller's concern; the
//! rows carry everything in the defined iteration order.

use crate::alias::AliasMap;
use crate::send::TransposedSendTable;
use crate::tables::TransposedMintTable;
use crate::totals::{TotalRow, TotalsByAddress};
use vstd::prelude::*;

verus! {

/// One mint report row: height, address, display alias, amount.
#[derive(Debug)]
pub struct MintReportRow {
    pub height: u64,
    pub address: String,
    pub alias: String,
    pub amount: u64,
}

/// One per-address summary row.
#[derive(Debug)]
pub struct SummaryRow {
    pub address: String,
    pub alias: String,
    pub total: u64,
}

/// One send listing row: the address pair, their aliases where known,
/// and the accumulated amount.
#[derive(Debug)]
pub struct SendReportRow {
    pub from: String,
    pub from_alias: Option<String>,
    pub to: String,
    pub to_alias: Option<String>,
    pub amount: u64,
}

/// The view of an optional string.
pub open spec fn option_view(o: Option<String>) -> Option<Seq<char>> {
    match o {
        Some(s) => Some(s@),
        None => None,
    }
}

/// Whether `rows` lays the mint table out under `aliases`: one report
/// row per table row, in table order, the height, address and amount
/// columns copied and the alias column resolved for display.
pub open spec fn mint_report_matches(
    mint: TransposedMintTable,
    aliases: AliasMap,
    rows: Seq<MintReportRow>,
) -> bool {
    &&& rows.len() == mint.rows@.len()
    &&& forall|i: int|
        0 <= i < rows.len() ==> {
            &&& (#[trigger] rows[i]).height == mint.rows@[i].height
            &&& rows[i].address@ == mint.rows@[i].address@
            &&& rows[i].amount == mint.rows@[i].amount
            &&& rows[i].alias@ == aliases.spec_display(mint.rows@[i].address@)
        }
}

/// Whether `rows` lays the totals table out under `aliases`.
pub open spec fn summary_matches(
    totals: TotalsByAddress,
    aliases: AliasMap,
    rows: Seq<SummaryRow>,
) -> bool {
    &&& rows.len() == totals.rows@.len()
    &&& forall|i: int|
        0 <= i < rows.len() ==> {
            &&& (#[trigger] rows[i]).address@ == totals.rows@[i].address@
            &&& rows[i].total == totals.rows@[i].total
            &&& rows[i].alias@ == aliases.spec_display(totals.rows@[i].address@)
        }
}

/// Whether `rows` lays the send table out under `aliases`.
pub open spec fn send_report_matches(
    send: TransposedSendTable,
    aliases: AliasMap,
    rows: Seq<SendReportRow>,
) -> bool {
    &&& rows.len() == send.rows@.len()
    &&& forall|i: int|
        0 <= i < rows.len() ==> {
            &&& (#[trigger] rows[i]).from@ == send.rows@[i].from@
            &&& rows[i].to@ == send.rows@[i].to@
            &&& rows[i].amount == send.rows@[i].amount
            &&& option_view(rows[i].from_alias) == aliases.spec_lookup(send.rows@[i].from@)
            &&& option_view(rows[i].to_alias) == aliases.spec_lookup(send.rows@[i].to@)
        }
}

/// Lay the mint table out as report rows, in table order.
#[verifier::loop_isolation(false)]
pub fn mint_report_rows(mint: &TransposedMintTable, aliases: &AliasMap) -> (r: Vec<MintReportRow>)
    ensures
        mint_report_matches(*mint, *aliases, r@),
{
    let n = mint.rows.len();
    let mut out: Vec<MintReportRow> = Vec::new();
    let mut i: usize = 0;
    while i < n
        invariant
            i <= n,
            n == mint.rows@.len(),
            out@.len() == i,
            forall|k: int|
                0 <= k < i ==> {
                    &&& (#[trigger] out@[k]).height == mint.rows@[k].height
                    &&& out@[k].address@ == mint.rows@[k].address@
                    &&& out@[k].amount == mint.rows@[k].amount
                    &&& out@[k].alias@ == aliases.spec_display(mint.rows@[k].address@)
                },
        decreases n - i,
    {
        let row = &mint.rows[i];
        let alias = aliases.display(row.address.as_str());
        let address = row.address.clone();
        out.push(MintReportRow { height: row.height, address, alias, amount: row.amount });
        i = i + 1;
    }
    out
}

/// Lay the totals table out as summary rows, address ascending.
#[verifier::loop_isolation(false)]
pub fn summary_rows(totals: &TotalsByAddress, aliases: &AliasMap) -> (r: Vec<SummaryRow>)
    ensures
        summary_matches(*totals, *aliases, r@),
{
    let n = totals.rows.len();
    let mut out: Vec<SummaryRow> = Vec::new();
    let mut i: usize = 0;
    while i < n
        invariant
            i <= n,
            n == totals.rows@.len(),
            out@.len() == i,
            forall|k: int|
                0 <= k < i ==> {
                    &&& (#[trigger] out@[k]).address@ == totals.rows@[k].address@
                    &&& out@[k].total == totals.rows@[k].total
                    &&& out@[k].alias@ == aliases.spec_display(totals.rows@[k].address@)
                },
        decreases n - i,
    {
        let row = &totals.rows[i];
        let alias = aliases.display(row.address.as_str());
        let address = row.address.clone();
        out.push(SummaryRow { address, alias, total: row.total });
        i = i + 1;
    }
    out
}

/// Lay the send table out as listing rows, pair ascending.
#[verifier::loop_isolation(false)]
pub fn send_report_rows(send: &TransposedSendTable, aliases: &AliasMap) -> (r: Vec<SendReportRow>)
    ensures
        send_report_matches(*send, *aliases, r@),
{
    let n = send.rows.len();
    let mut out: Vec<SendReportRow> = Vec::new();
    let mut i: usize = 0;
    while i < n
        invariant
            i <= n,
            n == send.rows@.len(),
            out@.len() == i,
            forall|k: int|
                0 <= k < i ==> {
                    &&& (#[trigger] out@[k]).from@ == send.rows@[k].from@
                    &&& out@[k].to@ == send.rows@[k].to@
                    &&& out@[k].amount == send.rows@[k].amount
                    &&& option_view(out@[k].from_alias) == aliases.spec_lookup(send.rows@[k].from@)
                    &&& option_view(out@[k].to_alias) == aliases.spec_lookup(send.rows@[k].to@)
                },
        decreases n - i,
    {
        let row = &send.rows[i];
        let from_alias = aliases.lookup(row.from.as_str());
        let to_alias = aliases.lookup(row.to.as_str());
        let from = row.from.clone();
        let to = row.to.clone();
        out.push(SendReportRow { from, from_alias, to, to_alias, amount: row.amount });
        i = i + 1;
    }
    out
}

/// The grand total: the sum of every address's total.
pub open spec fn totals_sum(rows: Seq<TotalRow>) -> int
    decreases rows.len(),
{
    if rows.len() == 0 {
        0
    } else {
        totals_sum(rows.drop_last()) + rows.last().total
    }
}

/// A prefix of the rows never sums above the whole table.
proof fn lemma_totals_sum_prefix(rows: Seq<TotalRow>, k: int)
    requires
        0 <= k <= rows.len(),
    ensures
        totals_sum(rows.take(k)) <= totals_sum(rows),
    decreases rows.len() - k,
{
    if k < rows.len() {
        lemma_totals_sum_prefix(rows, k + 1);
        assert(rows.take(k + 1).drop_last() =~= rows.take(k));
        assert(rows.take(k + 1).last() == rows[k]);
    } else {
        assert(rows.take(k) =~= rows);
    }
}

/// Sum the totals table into one grand total. Fails exactly when the
/// sum would not fit in 64 bits.
#[verifier::loop_isolation(false)]
pub fn grand_total(totals: &TotalsByAddress) -> (r: Option<u64>)
    ensures
        match r {
            Some(v) => v == totals_sum(totals.rows@),
            None => totals_sum(totals.rows@) > u64::MAX,
        },
{
    let n = totals.rows.len();
    let mut acc: u64 = 0;
    let mut i: usize = 0;
    while i < n
        invariant
            i <= n,
            n == totals.rows@.len(),
            acc == totals_sum(totals.rows@.take(i as int)),
        decreases n - i,
    {
        proof {
            assert(totals.rows@.take(i + 1).drop_last() =~= totals.rows@.take(i as int));
            assert(totals.rows@.take(i + 1).last() == totals.rows@[i as int]);
        }
        acc = match acc.checked_add(totals.rows[i].total) {
            Some(v) => v,
            None => {
                proof {
                    lemma_totals_sum_prefix(totals.rows@, i + 1);
                }
                return None;
            },
        };
        i = i + 1;
    }
    proof {
        assert(totals.rows@.take(n as int) =~= totals.rows@);
    }
    Some(acc)
}

} // verus!
