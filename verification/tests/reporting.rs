use list_all_transactions::aggregate::aggregate;
use list_all_transactions::alias::AliasMap;
use list_all_transactions::record::{DuplicatedTransaction, Timestamp};
use list_all_transactions::report::{grand_total, mint_report_rows, send_report_rows, summary_rows};

fn record(method: &str, heights: Vec<u64>, argument: Option<&str>) -> DuplicatedTransaction {
    DuplicatedTransaction {
        orig_time: Timestamp { year: 2023, month: 1, day: 1, hour: 0, minute: 0, second: 0 },
        max_time: Timestamp { year: 2023, month: 1, day: 1, hour: 0, minute: 0, second: 0 },
        method: method.to_string(),
        heights,
        hash: vec![],
        argument: argument.map(|s| s.to_string()),
        neighborhood: 0,
    }
}

fn aliases() -> AliasMap {
    AliasMap::from_entries(vec![
        ("addr1".to_string(), "alice".to_string()),
        ("addr2".to_string(), "bob".to_string()),
    ])
}

#[test]
fn alias_lookup_finds_known_addresses() {
    let m = aliases();
    assert_eq!(m.lookup("addr1"), Some("alice".to_string()));
    assert_eq!(m.lookup("addr3"), None);
    assert_eq!(m.display("addr2"), "bob".to_string());
    assert_eq!(m.display("addr3"), "".to_string());
}

#[test]
fn empty_alias_map_misses_everything() {
    let m = AliasMap::new();
    assert_eq!(m.lookup("addr1"), None);
    assert_eq!(m.display("addr1"), "".to_string());
}

#[test]
fn mint_report_carries_aliases_and_order() {
    let r = record(
        "tokens.mint",
        vec![100, 205, 310],
        Some("{\"addr2\": \"30\", \"addr1\": \"50\"}"),
    );
    let out = aggregate(&vec![r]).unwrap();
    let rows = mint_report_rows(&out.mint, &aliases());
    let flat: Vec<(u64, &str, &str, u64)> = rows
        .iter()
        .map(|r| (r.height, r.address.as_str(), r.alias.as_str(), r.amount))
        .collect();
    assert_eq!(
        flat,
        vec![
            (205, "addr1", "alice", 50),
            (205, "addr2", "bob", 30),
            (310, "addr1", "alice", 50),
            (310, "addr2", "bob", 30),
        ]
    );
}

#[test]
fn alias_map_changes_only_the_alias_column() {
    let r = record("tokens.mint", vec![1, 2], Some("{\"addr1\": \"50\"}"));
    let out = aggregate(&vec![r]).unwrap();
    let with_aliases = mint_report_rows(&out.mint, &aliases());
    let without = mint_report_rows(&out.mint, &AliasMap::new());
    assert_eq!(with_aliases.len(), without.len());
    for (a, b) in with_aliases.iter().zip(without.iter()) {
        assert_eq!(a.height, b.height);
        assert_eq!(a.address, b.address);
        assert_eq!(a.amount, b.amount);
    }
    assert_eq!(with_aliases[0].alias, "alice");
    assert_eq!(without[0].alias, "");
}

#[test]
fn summary_rows_carry_totals_sorted_by_address() {
    let r = record(
        "tokens.mint",
        vec![1, 2, 3],
        Some("{\"addr2\": \"30\", \"addr1\": \"50\"}"),
    );
    let out = aggregate(&vec![r]).unwrap();
    let rows = summary_rows(&out.totals, &aliases());
    let flat: Vec<(&str, &str, u64)> = rows
        .iter()
        .map(|r| (r.address.as_str(), r.alias.as_str(), r.total))
        .collect();
    assert_eq!(flat, vec![("addr1", "alice", 100), ("addr2", "bob", 60)]);
}

#[test]
fn send_report_annotates_known_pairs() {
    let r1 = record(
        "ledger.send",
        vec![1, 2],
        Some("{\"from\": \"addr1\", \"to\": \"zzz\", \"amount\": 10}"),
    );
    let r2 = record(
        "ledger.send",
        vec![5, 6],
        Some("{\"from\": \"addr1\", \"to\": \"addr2\", \"amount\": 3}"),
    );
    let out = aggregate(&vec![r1, r2]).unwrap();
    let rows = send_report_rows(&out.send, &aliases());
    assert_eq!(rows.len(), 2);
    assert_eq!(rows[0].from, "addr1");
    assert_eq!(rows[0].from_alias, Some("alice".to_string()));
    assert_eq!(rows[0].to, "addr2");
    assert_eq!(rows[0].to_alias, Some("bob".to_string()));
    assert_eq!(rows[0].amount, 3);
    assert_eq!(rows[1].to, "zzz");
    assert_eq!(rows[1].to_alias, None);
    assert_eq!(rows[1].amount, 10);
}

#[test]
fn grand_total_sums_all_addresses() {
    let r = record(
        "tokens.mint",
        vec![1, 2, 3],
        Some("{\"addr1\": \"50\", \"addr2\": \"30\"}"),
    );
    let out = aggregate(&vec![r]).unwrap();
    assert_eq!(grand_total(&out.totals), Some(160));
}

#[test]
fn grand_total_of_empty_run_is_zero() {
    let out = aggregate(&vec![]).unwrap();
    assert_eq!(grand_total(&out.totals), Some(0));
}
