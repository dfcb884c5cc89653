//! Properties of the aggregation, stated once and proved for all
//! inputs.

use crate::aggregate::{
    entries_amount, height_count, is_mint, mint_arg_entries, mint_contribution, send_contribution,
    send_sum,
};
use crate::alias::AliasMap;
use crate::order::seq_lt;
use crate::record::DuplicatedTransaction;
use crate::report::{
    mint_report_matches, send_report_matches, summary_matches, MintReportRow, SendReportRow,
    SummaryRow,
};
use crate::send::TransposedSendTable;
use crate::tables::{mint_key_lt, pair_key_lt, TransposedMintTable};
use crate::totals::TotalsByAddress;
use vstd::prelude::*;

verus! {

/// The canonical height never contributes to the mint aggregation:
/// two records that agree on everything a mint contribution reads but
/// may differ in their first, canonical height contribute the same
/// amount at every `(height, address)` key. Only `heights[1..]` count.
pub proof fn lemma_canonical_height_excluded(
    r1: DuplicatedTransaction,
    r2: DuplicatedTransaction,
    h: u64,
    a: Seq<char>,
)
    requires
        r1.method@ == r2.method@,
        r1.argument == r2.argument,
        r1.heights@.len() >= 1,
        r2.heights@.len() >= 1,
        r1.heights@.skip(1) == r2.heights@.skip(1),
    ensures
        mint_contribution(r1, h, a) == mint_contribution(r2, h, a),
{
}

/// A mint record with `k` addresses and `m` duplicate heights makes
/// exactly `k × m` additions: at each `(h, a)` its contribution is the
/// number of occurrences of `h` among `heights[1..]` times the amount
/// its argument parses for `a`.
pub proof fn lemma_mint_record_contribution(
    r: DuplicatedTransaction,
    es: Seq<(Seq<char>, Seq<char>)>,
    h: u64,
    a: Seq<char>,
)
    requires
        is_mint(r),
        mint_arg_entries(r) == Some(es),
    ensures
        mint_contribution(r, h, a) == height_count(r.heights@.skip(1), h) * entries_amount(es, a),
{
}

/// The send aggregation key is the `(from, to)` pair alone: two
/// records that agree on method and argument, each carrying at least
/// one duplicate height, contribute the same send amount at every
/// pair, whatever their height values. (A record whose only height is
/// the canonical occurrence contributes nothing instead, as
/// `lemma_single_height_contributes_nothing` states.)
pub proof fn lemma_send_ignores_heights(
    r1: DuplicatedTransaction,
    r2: DuplicatedTransaction,
    f: Seq<char>,
    t: Seq<char>,
)
    requires
        r1.method@ == r2.method@,
        r1.argument == r2.argument,
        r1.heights@.len() >= 2,
        r2.heights@.len() >= 2,
    ensures
        send_contribution(r1, f, t) == send_contribution(r2, f, t),
{
}

/// A record with a single height — the canonical occurrence only, no
/// duplicates — contributes nothing to any table.
pub proof fn lemma_single_height_contributes_nothing(
    r: DuplicatedTransaction,
    h: u64,
    a: Seq<char>,
    f: Seq<char>,
    t: Seq<char>,
)
    requires
        r.heights@.len() == 1,
    ensures
        mint_contribution(r, h, a) == 0,
        send_contribution(r, f, t) == 0,
{
    let hs1 = r.heights@.skip(1);
    assert(hs1.len() == 0);
    assert(height_count(hs1, h) == 0);
    if is_mint(r) {
        match mint_arg_entries(r) {
            Some(es) => {
                assert(0 * entries_amount(es, a) == 0) by (nonlinear_arith);
            },
            None => {},
        }
    }
}

/// Send records with the same `(from, to)` pair accumulate into the
/// same bucket: the send sum of two batches of records is the sum of
/// each batch's.
pub proof fn lemma_send_sum_accumulates(
    rs1: Seq<DuplicatedTransaction>,
    rs2: Seq<DuplicatedTransaction>,
    f: Seq<char>,
    t: Seq<char>,
)
    ensures
        send_sum(rs1 + rs2, f, t) == send_sum(rs1, f, t) + send_sum(rs2, f, t),
    decreases rs2.len(),
{
    if rs2.len() == 0 {
        assert(rs1 + rs2 =~= rs1);
    } else {
        assert((rs1 + rs2).drop_last() =~= rs1 + rs2.drop_last());
        assert((rs1 + rs2).last() == rs2.last());
        lemma_send_sum_accumulates(rs1, rs2.drop_last(), f, t);
    }
}

/// Alias resolution never changes an aggregated amount: any two
/// layouts of the same mint table, under any two alias maps, agree on
/// every height, address and amount; only the alias column can differ.
pub proof fn lemma_alias_annotates_only(
    mint: TransposedMintTable,
    a1: AliasMap,
    a2: AliasMap,
    rows1: Seq<MintReportRow>,
    rows2: Seq<MintReportRow>,
)
    requires
        mint_report_matches(mint, a1, rows1),
        mint_report_matches(mint, a2, rows2),
    ensures
        rows1.len() == rows2.len(),
        forall|i: int|
            0 <= i < rows1.len() ==> (#[trigger] rows1[i]).height == rows2[i].height
                && rows1[i].address@ == rows2[i].address@ && rows1[i].amount == rows2[i].amount,
{
}

/// The same, for the send listing: the pair and the amount of every
/// row are the table's, under any alias map.
pub proof fn lemma_alias_annotates_only_send(
    send: TransposedSendTable,
    a1: AliasMap,
    a2: AliasMap,
    rows1: Seq<SendReportRow>,
    rows2: Seq<SendReportRow>,
)
    requires
        send_report_matches(send, a1, rows1),
        send_report_matches(send, a2, rows2),
    ensures
        rows1.len() == rows2.len(),
        forall|i: int|
            0 <= i < rows1.len() ==> (#[trigger] rows1[i]).from@ == rows2[i].from@
                && rows1[i].to@ == rows2[i].to@ && rows1[i].amount == rows2[i].amount,
{
}

/// The mint report iterates strictly ascending by `(height, address)`.
pub proof fn lemma_mint_report_order(
    mint: TransposedMintTable,
    aliases: AliasMap,
    rows: Seq<MintReportRow>,
)
    requires
        mint.wf(),
        mint_report_matches(mint, aliases, rows),
    ensures
        forall|i: int, j: int|
            0 <= i < j < rows.len() ==> mint_key_lt(
                (#[trigger] rows[i]).height,
                rows[i].address@,
                (#[trigger] rows[j]).height,
                rows[j].address@,
            ),
{
}

/// The summary iterates strictly ascending by address.
pub proof fn lemma_summary_order(
    totals: TotalsByAddress,
    aliases: AliasMap,
    rows: Seq<SummaryRow>,
)
    requires
        totals.wf(),
        summary_matches(totals, aliases, rows),
    ensures
        forall|i: int, j: int|
            0 <= i < j < rows.len() ==> seq_lt(
                (#[trigger] rows[i]).address@,
                (#[trigger] rows[j]).address@,
            ),
{
}

/// The send listing iterates strictly ascending by `(from, to)`.
pub proof fn lemma_send_report_order(
    send: TransposedSendTable,
    aliases: AliasMap,
    rows: Seq<SendReportRow>,
)
    requires
        send.wf(),
        send_report_matches(send, aliases, rows),
    ensures
        forall|i: int, j: int|
            0 <= i < j < rows.len() ==> pair_key_lt(
                (#[trigger] rows[i]).from@,
                rows[i].to@,
                (#[trigger] rows[j]).from@,
                rows[j].to@,
            ),
{
}

} // verus!
