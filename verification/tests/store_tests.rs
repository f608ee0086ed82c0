use qcd::error::QcdError;
use qcd::resolver::IdxAlias;
use qcd::store::{StdRow, StdTable};

fn row(idx: u32, directory: &str, alias: &str) -> StdRow {
    StdRow { id: None, idx, directory: directory.to_string(), alias: alias.to_string() }
}

#[test]
fn max_idx() {
    let mut conn = StdTable::new();
    let max_idx = conn.get_max_idx().unwrap();
    assert_eq!(max_idx, 0);

    let entry = row(42, "test", "");
    let _ = conn.add_std_dir(&entry);
    let max_idx = conn.get_max_idx().unwrap();
    assert_eq!(max_idx, 42);
    let in_table = conn.contains_idx(42);
    assert_eq!(in_table, Ok(true));
    let in_table = conn.contains_idx(41);
    assert_eq!(in_table, Ok(false));

    let entry = row(52, "test2", "");
    let _ = conn.add_std_dir(&entry);
    let max_idx = conn.get_max_idx().unwrap();
    assert_eq!(max_idx, 52);

    let entry = row(12, "test3", "");
    let _ = conn.add_std_dir(&entry);
    let max_idx = conn.get_max_idx().unwrap();
    assert_eq!(max_idx, 52);
}

#[test]
fn add_rows_get_rows() {
    let mut conn = StdTable::new();

    let entries = conn.get_std_rows().unwrap();
    assert_eq!(entries.len(), 0);

    let entry = row(44, "temp1", "fst");
    let _ = conn.add_std_dir(&entry);
    let entries = conn.get_std_rows().unwrap();
    assert_eq!(entries.len(), 1);
    assert_eq!(
        entries[0],
        StdRow {
            id: Some(1),
            idx: 44,
            directory: "temp1".to_string(),
            alias: "fst".to_string()
        }
    );
    let in_table = conn.contains_alias("fst");
    assert_eq!(in_table, Ok(true));
    let in_table = conn.contains_alias("scd");
    assert_eq!(in_table, Ok(false));

    let entry = row(24, "temp2", "scd");
    let _ = conn.add_std_dir(&entry);
    let entry = row(34, "temp3", "five");
    let _ = conn.add_std_dir(&entry);

    let entries = conn.get_std_rows().unwrap();
    assert_eq!(entries.len(), 3);

    // Sorted by idx:
    assert_eq!(
        entries[0],
        StdRow {
            id: Some(2),
            idx: 24,
            directory: "temp2".to_string(),
            alias: "scd".to_string()
        }
    );
    assert_eq!(
        entries[1],
        StdRow {
            id: Some(3),
            idx: 34,
            directory: "temp3".to_string(),
            alias: "five".to_string()
        }
    );
    assert_eq!(
        entries[2],
        StdRow {
            id: Some(1),
            idx: 44,
            directory: "temp1".to_string(),
            alias: "fst".to_string()
        }
    );

    let fnd = conn.find_entry(&IdxAlias::Idx(44)).unwrap();
    assert_eq!(
        fnd,
        StdRow {
            id: Some(1),
            idx: 44,
            directory: "temp1".to_string(),
            alias: "fst".to_string()
        }
    );
    let fnd = conn.find_entry(&IdxAlias::Alias("scd".to_string())).unwrap();
    assert_eq!(
        fnd,
        StdRow {
            id: Some(2),
            idx: 24,
            directory: "temp2".to_string(),
            alias: "scd".to_string()
        }
    );
    let fnd = conn.find_entry(&IdxAlias::Alias("s".to_string())).unwrap();
    assert_eq!(
        fnd,
        StdRow {
            id: Some(2),
            idx: 24,
            directory: "temp2".to_string(),
            alias: "scd".to_string()
        }
    );

    let fnd = conn.find_entry(&IdxAlias::Idx(144));
    assert_eq!(fnd, Err(QcdError::NotFound));
    let fnd = conn.find_entry(&IdxAlias::Alias("scdfst".to_string()));
    assert_eq!(fnd, Err(QcdError::NotFound));
    let fnd = conn.find_entry(&IdxAlias::Alias("f".to_string()));
    assert_eq!(fnd, Err(QcdError::Ambiguous));
}

#[test]
fn remove_row() {
    let mut conn = StdTable::new();

    let entry = row(2, "qcd1", "fst");
    let _ = conn.add_std_dir(&entry);

    let entry = row(4, "qcd2", "");
    let _ = conn.add_std_dir(&entry);

    let entry = row(6, "qcd3", "scd");
    let _ = conn.add_std_dir(&entry);

    let entries = conn.get_std_rows().unwrap();
    assert_eq!(entries.len(), 3);

    let _ = conn.rm_std_dir(2);
    let entries = conn.get_std_rows().unwrap();
    assert_eq!(entries.len(), 2);
    assert_eq!(entries[0].idx, 2);
    assert_eq!(entries[1].alias, "scd".to_string());
}

#[test]
fn duplicate_idx_and_alias_rejected() {
    let mut conn = StdTable::new();
    assert_eq!(conn.add_std_dir(&row(7, "/a", "docs")), Ok(7));
    // same idx again
    assert_eq!(conn.add_std_dir(&row(7, "/b", "other")), Err(QcdError::DuplicateIdx(7)));
    // same non-empty alias again
    assert_eq!(
        conn.add_std_dir(&row(8, "/b", "docs")),
        Err(QcdError::DuplicateAlias("docs".to_string()))
    );
    // an empty alias never collides
    assert_eq!(conn.add_std_dir(&row(9, "/c", "")), Ok(9));
    assert_eq!(conn.add_std_dir(&row(10, "/d", "")), Ok(10));
    assert_eq!(conn.get_std_rows().unwrap().len(), 3);
}

#[test]
fn list_sorted_regardless_of_insertion_order() {
    let mut conn = StdTable::new();
    let _ = conn.add_std_dir(&row(30, "/c", ""));
    let _ = conn.add_std_dir(&row(10, "/a", ""));
    let _ = conn.add_std_dir(&row(20, "/b", ""));
    let entries = conn.get_std_rows().unwrap();
    let idxs: Vec<u32> = entries.iter().map(|e| e.idx).collect();
    assert_eq!(idxs, vec![10, 20, 30]);
}

#[test]
fn update_noops_and_uniqueness() {
    let mut conn = StdTable::new();
    let _ = conn.add_std_dir(&row(5, "/five", "five"));
    let _ = conn.add_std_dir(&row(6, "/six", "six"));
    let before = conn.get_std_rows().unwrap();

    // Setting the current idx or the current alias again is a no-op.
    assert_eq!(conn.update_entry(5, &IdxAlias::Idx(5)), Ok(()));
    assert_eq!(conn.update_entry(5, &IdxAlias::Alias("five".to_string())), Ok(()));
    assert_eq!(conn.get_std_rows().unwrap(), before);

    // A taken idx or alias is rejected.
    assert_eq!(conn.update_entry(5, &IdxAlias::Idx(6)), Err(QcdError::DuplicateIdx(6)));
    assert_eq!(
        conn.update_entry(5, &IdxAlias::Alias("six".to_string())),
        Err(QcdError::DuplicateAlias("six".to_string()))
    );
    assert_eq!(conn.get_std_rows().unwrap(), before);

    // An unknown idx is NotFound.
    assert_eq!(conn.update_entry(99, &IdxAlias::Idx(12)), Err(QcdError::NotFound));

    // A real idx update moves the row; the surrogate id stays.
    assert_eq!(conn.update_entry(5, &IdxAlias::Idx(9)), Ok(()));
    let entries = conn.get_std_rows().unwrap();
    assert_eq!(entries.len(), 2);
    assert_eq!(entries[0].idx, 6);
    assert_eq!(entries[1].idx, 9);
    assert_eq!(entries[1].id, Some(1));
    assert_eq!(entries[1].alias, "five".to_string());

    // A real alias update rewrites just that column.
    assert_eq!(conn.update_entry(9, &IdxAlias::Alias("nine".to_string())), Ok(()));
    let entries = conn.get_std_rows().unwrap();
    assert_eq!(entries[1].alias, "nine".to_string());
    assert_eq!(entries[1].directory, "/five".to_string());
}

#[test]
fn remove_is_idempotent_and_exact() {
    let mut conn = StdTable::new();
    let _ = conn.add_std_dir(&row(1, "/a", ""));
    let _ = conn.add_std_dir(&row(2, "/b", ""));
    // removing a nonexistent surrogate id is not an error
    assert_eq!(conn.rm_std_dir(77), Ok(()));
    assert_eq!(conn.get_std_rows().unwrap().len(), 2);
    // removing an existing id removes exactly that one row
    assert_eq!(conn.rm_std_dir(1), Ok(()));
    let entries = conn.get_std_rows().unwrap();
    assert_eq!(entries.len(), 1);
    assert_eq!(entries[0].id, Some(2));
    // removing it again changes nothing
    assert_eq!(conn.rm_std_dir(1), Ok(()));
    assert_eq!(conn.get_std_rows().unwrap().len(), 1);
}

#[test]
fn search_dir_and_default_idx() {
    let mut conn = StdTable::new();
    assert_eq!(conn.add_row(None, "/first".to_string(), None), Ok(1));
    assert_eq!(conn.add_row(Some(41), "/second".to_string(), Some("two".to_string())), Ok(41));
    // default idx is maxIdx + 1
    assert_eq!(conn.add_row(None, "/third".to_string(), None), Ok(42));

    let fnd = conn.search_dir("/second").unwrap();
    assert_eq!(fnd.idx, 41);
    assert_eq!(conn.search_dir("/absent"), Err(QcdError::NotFound));
}

#[test]
fn update_rechecks_any_new_alias_value() {
    // update re-checks uniqueness for the new value across the whole table;
    // unlike insert it does not exempt the empty alias
    let mut conn = StdTable::new();
    let _ = conn.add_std_dir(&row(1, "/a", ""));
    let _ = conn.add_std_dir(&row(2, "/b", "named"));
    assert_eq!(
        conn.update_entry(2, &IdxAlias::Alias("".to_string())),
        Err(QcdError::DuplicateAlias("".to_string()))
    );
    // with no empty-alias row present, clearing the alias works
    let mut conn = StdTable::new();
    let _ = conn.add_std_dir(&row(2, "/b", "named"));
    assert_eq!(conn.update_entry(2, &IdxAlias::Alias("".to_string())), Ok(()));
    assert_eq!(conn.get_std_rows().unwrap()[0].alias, "".to_string());
}
