use list_all_transactions::record::{
    DuplicatedTransaction, NormalizeError, RawDuplicatedTransaction,
};

fn raw() -> RawDuplicatedTransaction {
    RawDuplicatedTransaction {
        orig_time: "2023-01-02 03:04:05".to_string(),
        max_time: "2023-01-03 06:07:08".to_string(),
        method: "tokens.mint".to_string(),
        height: "{100,205,310}".to_string(),
        hash: "0x0aff".to_string(),
        argument: Some("{\"addr1\": \"50\"}".to_string()),
        neighborhood: "7".to_string(),
    }
}

#[test]
fn well_formed_record_normalizes() {
    let t = DuplicatedTransaction::from_raw(raw()).unwrap();
    assert_eq!(t.orig_time.year, 2023);
    assert_eq!(t.orig_time.month, 1);
    assert_eq!(t.orig_time.day, 2);
    assert_eq!(t.orig_time.hour, 3);
    assert_eq!(t.orig_time.minute, 4);
    assert_eq!(t.orig_time.second, 5);
    assert_eq!(t.max_time.day, 3);
    assert_eq!(t.method, "tokens.mint");
    assert_eq!(t.heights, vec![100, 205, 310]);
    assert_eq!(t.hash, vec![0x0a, 0xff]);
    assert_eq!(t.argument.as_deref(), Some("{\"addr1\": \"50\"}"));
    assert_eq!(t.neighborhood, 7);
}

#[test]
fn hash_decodes_mixed_case_hex() {
    let mut r = raw();
    r.hash = "0xDeAdBeEf".to_string();
    let t = DuplicatedTransaction::from_raw(r).unwrap();
    assert_eq!(t.hash, vec![0xde, 0xad, 0xbe, 0xef]);
}

#[test]
fn single_height_list_parses() {
    let mut r = raw();
    r.height = "{42}".to_string();
    let t = DuplicatedTransaction::from_raw(r).unwrap();
    assert_eq!(t.heights, vec![42]);
}

#[test]
fn malformed_orig_time_is_rejected() {
    let mut r = raw();
    r.orig_time = "2023-02-30 00:00:00".to_string();
    assert_eq!(
        DuplicatedTransaction::from_raw(r).unwrap_err(),
        NormalizeError::BadOrigTime
    );
}

#[test]
fn malformed_max_time_is_rejected() {
    let mut r = raw();
    r.max_time = "yesterday".to_string();
    assert_eq!(
        DuplicatedTransaction::from_raw(r).unwrap_err(),
        NormalizeError::BadMaxTime
    );
}

#[test]
fn empty_height_list_is_rejected() {
    let mut r = raw();
    r.height = "{}".to_string();
    assert_eq!(
        DuplicatedTransaction::from_raw(r).unwrap_err(),
        NormalizeError::BadHeights
    );
}

#[test]
fn non_numeric_height_is_rejected() {
    let mut r = raw();
    r.height = "{100,abc}".to_string();
    assert_eq!(
        DuplicatedTransaction::from_raw(r).unwrap_err(),
        NormalizeError::BadHeights
    );
}

#[test]
fn height_overflow_is_rejected() {
    let mut r = raw();
    r.height = "{99999999999999999999999}".to_string();
    assert_eq!(
        DuplicatedTransaction::from_raw(r).unwrap_err(),
        NormalizeError::BadHeights
    );
}

#[test]
fn odd_length_hash_is_rejected() {
    let mut r = raw();
    r.hash = "0xabc".to_string();
    assert_eq!(
        DuplicatedTransaction::from_raw(r).unwrap_err(),
        NormalizeError::BadHash
    );
}

#[test]
fn non_hex_hash_is_rejected() {
    let mut r = raw();
    r.hash = "0xzz".to_string();
    assert_eq!(
        DuplicatedTransaction::from_raw(r).unwrap_err(),
        NormalizeError::BadHash
    );
}

#[test]
fn too_short_hash_is_rejected() {
    let mut r = raw();
    r.hash = "0".to_string();
    assert_eq!(
        DuplicatedTransaction::from_raw(r).unwrap_err(),
        NormalizeError::BadHash
    );
}

#[test]
fn empty_hash_body_is_accepted() {
    let mut r = raw();
    r.hash = "0x".to_string();
    let t = DuplicatedTransaction::from_raw(r).unwrap();
    assert_eq!(t.hash, Vec::<u8>::new());
}

#[test]
fn non_numeric_neighborhood_is_rejected() {
    let mut r = raw();
    r.neighborhood = "none".to_string();
    assert_eq!(
        DuplicatedTransaction::from_raw(r).unwrap_err(),
        NormalizeError::BadNeighborhood
    );
}

#[test]
fn plus_prefixed_number_is_accepted() {
    let mut r = raw();
    r.neighborhood = "+5".to_string();
    let t = DuplicatedTransaction::from_raw(r).unwrap();
    assert_eq!(t.neighborhood, 5);
}

#[test]
fn extra_braces_are_trimmed() {
    let mut r = raw();
    r.height = "{{10,20}}".to_string();
    let t = DuplicatedTransaction::from_raw(r).unwrap();
    assert_eq!(t.heights, vec![10, 20]);
}
