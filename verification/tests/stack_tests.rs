use qcd::error::QcdError;
use qcd::stack::{StackRow, StackTable, STACKEXPIRE_SECONDS};

const NOW: i64 = 1_700_000_000;

fn srow(sessionid: &str, directory: &str) -> StackRow {
    StackRow { id: None, sessionid: sessionid.to_string(), directory: directory.to_string() }
}

#[test]
fn stack_add_remove() {
    let sessionid = "194811104321123401118419";
    let mut conn = StackTable::new();

    let entry = srow(sessionid, "/home/east");
    let _ = conn.add_stack_dir(&entry, NOW);
    let rows = conn.get_stack_rows(sessionid, NOW).unwrap();
    assert_eq!(rows.len(), 1);
    assert_eq!(rows[0].directory, "/home/east".to_string());

    let entry = srow(sessionid, "/home/south");
    let _ = conn.add_stack_dir(&entry, NOW);
    let rows = conn.get_stack_rows(sessionid, NOW).unwrap();
    assert_eq!(rows.len(), 2);
    assert_eq!(rows[0].directory, "/home/south".to_string());
    assert_eq!(rows[1].directory, "/home/east".to_string());

    let top = conn.stack_top(sessionid).unwrap();
    assert_eq!(top.id.unwrap(), 2);
    let _ = conn.rm_stack_dir(top.id.unwrap());
    let rows = conn.get_stack_rows(sessionid, NOW).unwrap();
    assert_eq!(rows.len(), 1);
    assert_eq!(rows[0].directory, "/home/east".to_string());

    let top = conn.stack_top(sessionid).unwrap();
    assert_eq!(top.id.unwrap(), 1);
    let _ = conn.rm_stack_dir(top.id.unwrap());
    let rows = conn.get_stack_rows(sessionid, NOW).unwrap();
    assert_eq!(rows.len(), 0);
}

#[test]
fn stack_tidyup() {
    let sessionid = "198411104321123401114819";
    let mut conn = StackTable::new();

    let entry = srow(sessionid, "/etc/west");
    let _ = conn.add_stack_dir(&entry, NOW);
    let rows = conn.get_stack_rows(sessionid, NOW).unwrap();
    assert_eq!(rows.len(), 1);
    assert_eq!(rows[0].directory, "/etc/west".to_string());

    let entry = srow(sessionid, "/etc/north");
    let _ = conn.add_stack_dir(&entry, NOW + 2);
    let rows = conn.get_stack_rows(sessionid, NOW + 2).unwrap();
    assert_eq!(rows.len(), 2);
    assert_eq!(rows[0].directory, "/etc/north".to_string());
    assert_eq!(rows[1].directory, "/etc/west".to_string());

    // One tick past the west entry's retention window, any listing sweep
    // drops it and keeps the younger north entry.
    let rows = conn.get_stack_rows(sessionid, NOW + STACKEXPIRE_SECONDS + 1).unwrap();
    assert_eq!(rows.len(), 1);
    assert_eq!(rows[0].directory, "/etc/north".to_string());
    assert_eq!(rows[0].id, Some(2));
}

#[test]
fn push_suppresses_consecutive_duplicates_only() {
    let sid = "aaaabbbbccccddddeeeeffff";
    let mut conn = StackTable::new();
    // pushing the same directory twice in a row yields one entry
    assert_eq!(conn.stack_push(sid, "/d", NOW), Ok(()));
    assert_eq!(conn.stack_push(sid, "/d", NOW), Ok(()));
    assert_eq!(conn.get_stack_rows(sid, NOW).unwrap().len(), 1);
    // non-consecutive duplicates are allowed
    assert_eq!(conn.stack_push(sid, "/e", NOW), Ok(()));
    assert_eq!(conn.stack_push(sid, "/d", NOW), Ok(()));
    let rows = conn.get_stack_rows(sid, NOW).unwrap();
    assert_eq!(rows.len(), 3);
    assert_eq!(rows[0].directory, "/d".to_string());
    assert_eq!(rows[1].directory, "/e".to_string());
    assert_eq!(rows[2].directory, "/d".to_string());
}

#[test]
fn pop_is_lifo_and_errors_when_exhausted() {
    let sid = "aaaabbbbccccddddeeee0001";
    let mut conn = StackTable::new();
    assert_eq!(conn.stack_push(sid, "/one", NOW), Ok(()));
    assert_eq!(conn.stack_push(sid, "/two", NOW), Ok(()));
    assert_eq!(conn.stack_push(sid, "/three", NOW), Ok(()));
    assert_eq!(conn.stack_pop(sid, NOW).unwrap().directory, "/three".to_string());
    assert_eq!(conn.stack_pop(sid, NOW).unwrap().directory, "/two".to_string());
    assert_eq!(conn.stack_pop(sid, NOW).unwrap().directory, "/one".to_string());
    assert_eq!(conn.stack_pop(sid, NOW), Err(QcdError::EmptyStack));
}

#[test]
fn expiry_is_global_across_sessions() {
    let sid_a = "aaaabbbbccccddddeeee0002";
    let sid_b = "aaaabbbbccccddddeeee0003";
    let mut conn = StackTable::new();
    assert_eq!(conn.stack_push(sid_a, "/old", NOW), Ok(()));
    // a push in another session past the window sweeps session A too
    let later = NOW + STACKEXPIRE_SECONDS + 1;
    assert_eq!(conn.stack_push(sid_b, "/fresh", later), Ok(()));
    assert_eq!(conn.stack_top(sid_a), Err(QcdError::EmptyStack));
    assert_eq!(conn.get_stack_rows(sid_a, later).unwrap().len(), 0);
    // entries within the window are unaffected
    assert_eq!(conn.stack_top(sid_b).unwrap().directory, "/fresh".to_string());
}

#[test]
fn drop_discards_top() {
    let sid = "aaaabbbbccccddddeeee0004";
    let mut conn = StackTable::new();
    assert_eq!(conn.stack_drop(sid, NOW), Err(QcdError::EmptyStack));
    assert_eq!(conn.stack_push(sid, "/keep", NOW), Ok(()));
    assert_eq!(conn.stack_push(sid, "/gone", NOW), Ok(()));
    assert_eq!(conn.stack_drop(sid, NOW), Ok(()));
    assert_eq!(conn.stack_top(sid).unwrap().directory, "/keep".to_string());
}

#[test]
fn swap_exchanges_top() {
    let sid = "aaaabbbbccccddddeeee0005";
    let mut conn = StackTable::new();
    assert_eq!(conn.stack_swap(sid, "/c", NOW), Err(QcdError::EmptyStack));
    assert_eq!(conn.stack_push(sid, "/a", NOW), Ok(()));
    assert_eq!(conn.stack_push(sid, "/b", NOW), Ok(()));
    // swap on [A, B] with C returns B and leaves [A, C]
    let popped = conn.stack_swap(sid, "/c", NOW).unwrap();
    assert_eq!(popped.directory, "/b".to_string());
    let rows = conn.get_stack_rows(sid, NOW).unwrap();
    assert_eq!(rows.len(), 2);
    assert_eq!(rows[0].directory, "/c".to_string());
    assert_eq!(rows[1].directory, "/a".to_string());
}

#[test]
fn top_does_not_sweep() {
    let sid = "aaaabbbbccccddddeeee0006";
    let mut conn = StackTable::new();
    assert_eq!(conn.stack_push(sid, "/stale", NOW), Ok(()));
    // top is read-only: even far past the window it still sees the entry
    let later = NOW + STACKEXPIRE_SECONDS + 1;
    assert_eq!(conn.stack_top(sid).unwrap().directory, "/stale".to_string());
    // but the next mutating call sweeps it
    assert_eq!(conn.stack_pop(sid, later), Err(QcdError::EmptyStack));
}

#[test]
fn swap_dedups_against_uncovered_top() {
    let sid = "aaaabbbbccccddddeeee0007";
    let mut conn = StackTable::new();
    assert_eq!(conn.stack_push(sid, "/a", NOW), Ok(()));
    assert_eq!(conn.stack_push(sid, "/b", NOW), Ok(()));
    // after popping /b the new top is /a, so pushing /a again is suppressed
    let popped = conn.stack_swap(sid, "/a", NOW).unwrap();
    assert_eq!(popped.directory, "/b".to_string());
    let rows = conn.get_stack_rows(sid, NOW).unwrap();
    assert_eq!(rows.len(), 1);
    assert_eq!(rows[0].directory, "/a".to_string());
}
