use list_all_transactions::aggregate::{aggregate, AggregateError};
use list_all_transactions::record::{DuplicatedTransaction, Timestamp};
use list_all_transactions::send::TransposedSendTable;
use list_all_transactions::tables::TransposedMintTable;

fn ts() -> Timestamp {
    Timestamp { year: 2023, month: 1, day: 2, hour: 3, minute: 4, second: 5 }
}

fn record(method: &str, heights: Vec<u64>, argument: Option<&str>) -> DuplicatedTransaction {
    DuplicatedTransaction {
        orig_time: ts(),
        max_time: ts(),
        method: method.to_string(),
        heights,
        hash: vec![0xde, 0xad],
        argument: argument.map(|s| s.to_string()),
        neighborhood: 1,
    }
}

#[test]
fn mint_record_spreads_over_duplicate_heights() {
    let r = record(
        "tokens.mint",
        vec![100, 205, 310],
        Some("{\"addr1\": \"50\", \"addr2\": \"30\"}"),
    );
    let out = aggregate(&vec![r]).unwrap();
    assert_eq!(out.mint.amount_of(205, "addr1"), 50);
    assert_eq!(out.mint.amount_of(205, "addr2"), 30);
    assert_eq!(out.mint.amount_of(310, "addr1"), 50);
    assert_eq!(out.mint.amount_of(310, "addr2"), 30);
    assert_eq!(out.mint.amount_of(100, "addr1"), 0);
    assert_eq!(out.mint.amount_of(100, "addr2"), 0);
    assert_eq!(out.totals.total_of("addr1"), 100);
    assert_eq!(out.totals.total_of("addr2"), 60);
}

#[test]
fn canonical_height_never_contributes() {
    let r = record("tokens.mint", vec![7, 8], Some("{\"a\": \"5\"}"));
    let out = aggregate(&vec![r]).unwrap();
    assert_eq!(out.mint.amount_of(7, "a"), 0);
    assert_eq!(out.mint.amount_of(8, "a"), 5);
}

#[test]
fn send_records_accumulate_by_pair_only() {
    let r1 = record(
        "ledger.send",
        vec![1, 2],
        Some("{\"from\": \"A\", \"to\": \"B\", \"amount\": 10}"),
    );
    let r2 = record(
        "ledger.send",
        vec![9, 10, 11],
        Some("{\"from\": \"A\", \"to\": \"B\", \"amount\": 15}"),
    );
    let out = aggregate(&vec![r1, r2]).unwrap();
    assert_eq!(out.send.amount_of("A", "B"), 25);
    assert_eq!(out.send.amount_of("B", "A"), 0);
}

#[test]
fn send_amount_counted_once_per_record_not_per_height() {
    let r = record(
        "ledger.send",
        vec![1, 2, 3, 4],
        Some("{\"from\": \"x\", \"to\": \"y\", \"amount\": 10}"),
    );
    let out = aggregate(&vec![r]).unwrap();
    assert_eq!(out.send.amount_of("x", "y"), 10);
}

#[test]
fn send_symbol_field_is_ignored() {
    let r = record(
        "ledger.send",
        vec![1, 2],
        Some("{\"from\": \"x\", \"to\": \"y\", \"amount\": 3, \"symbol\": \"TOK\"}"),
    );
    let out = aggregate(&vec![r]).unwrap();
    assert_eq!(out.send.amount_of("x", "y"), 3);
}

#[test]
fn single_height_record_contributes_nothing() {
    let m = record("tokens.mint", vec![42], Some("{\"a\": \"5\"}"));
    let s = record(
        "ledger.send",
        vec![42],
        Some("{\"from\": \"A\", \"to\": \"B\", \"amount\": 10}"),
    );
    let out = aggregate(&vec![m, s]).unwrap();
    assert_eq!(out.mint.rows.len(), 0);
    assert_eq!(out.send.rows.len(), 0);
    assert_eq!(out.totals.rows.len(), 0);
    assert_eq!(out.totals.total_of("a"), 0);
    assert_eq!(out.send.amount_of("A", "B"), 0);
}

#[test]
fn single_height_send_contributes_nothing() {
    let single = record(
        "ledger.send",
        vec![7],
        Some("{\"from\": \"A\", \"to\": \"B\", \"amount\": 10}"),
    );
    let duplicated = record(
        "ledger.send",
        vec![7, 8],
        Some("{\"from\": \"A\", \"to\": \"B\", \"amount\": 15}"),
    );
    let out = aggregate(&vec![single, duplicated]).unwrap();
    assert_eq!(out.send.amount_of("A", "B"), 15);
    assert_eq!(out.send.rows.len(), 1);
}

#[test]
fn single_height_send_with_bad_argument_is_still_fatal() {
    let r = record("ledger.send", vec![42], Some("{\"from\": \"A\"}"));
    assert_eq!(aggregate(&vec![r]).unwrap_err(), AggregateError::BadSendArgument);
}

#[test]
fn unknown_operation_is_skipped_without_failure() {
    let r = record("unknown.op", vec![1, 2, 3], None);
    let m = record("tokens.mint", vec![5, 6], Some("{\"a\": \"2\"}"));
    let out = aggregate(&vec![r, m]).unwrap();
    assert_eq!(out.mint.amount_of(6, "a"), 2);
    assert_eq!(out.send.rows.len(), 0);
}

#[test]
fn mint_without_argument_is_fatal() {
    let r = record("tokens.mint", vec![1, 2], None);
    assert_eq!(aggregate(&vec![r]).unwrap_err(), AggregateError::BadMintArgument);
}

#[test]
fn mint_with_non_numeric_amount_is_fatal() {
    let r = record("tokens.mint", vec![1, 2], Some("{\"a\": \"five\"}"));
    assert_eq!(aggregate(&vec![r]).unwrap_err(), AggregateError::BadMintArgument);
}

#[test]
fn mint_with_non_object_argument_is_fatal() {
    let r = record("tokens.mint", vec![1, 2], Some("[1, 2]"));
    assert_eq!(aggregate(&vec![r]).unwrap_err(), AggregateError::BadMintArgument);
}

#[test]
fn send_with_missing_field_is_fatal() {
    let r = record("ledger.send", vec![1, 2], Some("{\"from\": \"x\", \"amount\": 3}"));
    assert_eq!(aggregate(&vec![r]).unwrap_err(), AggregateError::BadSendArgument);
}

#[test]
fn send_without_argument_is_fatal() {
    let r = record("ledger.send", vec![1, 2], None);
    assert_eq!(aggregate(&vec![r]).unwrap_err(), AggregateError::BadSendArgument);
}

#[test]
fn mint_overflow_is_fatal() {
    let big = format!("{{\"a\": \"{}\"}}", u64::MAX);
    let r1 = record("tokens.mint", vec![1, 2], Some(&big));
    let r2 = record("tokens.mint", vec![1, 2], Some("{\"a\": \"1\"}"));
    assert_eq!(aggregate(&vec![r1, r2]).unwrap_err(), AggregateError::Overflow);
}

#[test]
fn totals_overflow_is_fatal() {
    let big = format!("{{\"a\": \"{}\"}}", u64::MAX);
    let r = record("tokens.mint", vec![0, 1, 2], Some(&big));
    assert_eq!(aggregate(&vec![r]).unwrap_err(), AggregateError::Overflow);
}

#[test]
fn mixed_records_fill_both_tables() {
    let m = record("tokens.mint", vec![10, 20], Some("{\"a\": \"7\"}"));
    let s = record("ledger.send", vec![1, 2], Some("{\"from\": \"a\", \"to\": \"b\", \"amount\": 4}"));
    let out = aggregate(&vec![m, s]).unwrap();
    assert_eq!(out.mint.amount_of(20, "a"), 7);
    assert_eq!(out.send.amount_of("a", "b"), 4);
    assert_eq!(out.totals.total_of("a"), 7);
}

#[test]
fn mint_rows_come_out_sorted_by_height_then_address() {
    let r1 = record("tokens.mint", vec![1, 30, 20], Some("{\"b\": \"2\", \"a\": \"1\"}"));
    let r2 = record("tokens.mint", vec![1, 20], Some("{\"c\": \"9\"}"));
    let out = aggregate(&vec![r1, r2]).unwrap();
    let keys: Vec<(u64, String)> = out
        .mint
        .rows
        .iter()
        .map(|r| (r.height, r.address.clone()))
        .collect();
    let mut sorted = keys.clone();
    sorted.sort();
    assert_eq!(keys, sorted);
    assert_eq!(keys.len(), 5);
    assert_eq!(keys[0], (20, "a".to_string()));
    assert_eq!(keys[1], (20, "b".to_string()));
    assert_eq!(keys[2], (20, "c".to_string()));
    assert_eq!(keys[3], (30, "a".to_string()));
    assert_eq!(keys[4], (30, "b".to_string()));
}

#[test]
fn table_inserts_match_aggregate() {
    let mut mint = TransposedMintTable::new();
    let mut send = TransposedSendTable::new();
    let m = record("tokens.mint", vec![10, 20], Some("{\"a\": \"7\"}"));
    let s = record("ledger.send", vec![1, 2], Some("{\"from\": \"a\", \"to\": \"b\", \"amount\": 4}"));
    mint.insert(&m).unwrap();
    mint.insert(&s).unwrap();
    send.insert(&m).unwrap();
    send.insert(&s).unwrap();
    assert_eq!(mint.amount_of(20, "a"), 7);
    assert_eq!(send.amount_of("a", "b"), 4);
}

#[test]
fn totals_equal_sum_of_mint_table_over_heights() {
    let r1 = record("tokens.mint", vec![1, 10, 20], Some("{\"a\": \"5\", \"b\": \"2\"}"));
    let r2 = record("tokens.mint", vec![2, 10], Some("{\"a\": \"3\"}"));
    let out = aggregate(&vec![r1, r2]).unwrap();
    let mut sum_a: u64 = 0;
    let mut sum_b: u64 = 0;
    for row in &out.mint.rows {
        if row.address == "a" {
            sum_a += row.amount;
        }
        if row.address == "b" {
            sum_b += row.amount;
        }
    }
    assert_eq!(out.totals.total_of("a"), sum_a);
    assert_eq!(out.totals.total_of("b"), sum_b);
    assert_eq!(sum_a, 13);
    assert_eq!(sum_b, 4);
}
