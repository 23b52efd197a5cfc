use rowstore::block::Block;
use rowstore::DBError;
use rowstore::Row;
use rowstore::DB;

fn make_rows(num: u32) -> Vec<Row> {
    (0..num).map(|i| Row { test_data: i }).collect()
}

#[test]
fn make_db() {
    DB::from_rows(&make_rows(0));
    DB::from_rows(&make_rows(4096));
    DB::from_rows(&make_rows(5000));
    assert_eq!(2 + 2, 4);
}

#[test]
fn make_and_get() {
    let (db2, _ids) = DB::from_rows(&make_rows(5000));
    for i in 0..5000 {
        assert_eq!(db2.get_row(i).ok().unwrap().test_data, i);
    }
}

#[test]
fn update_row() {
    let (mut db2, ids) = DB::from_rows(&make_rows(5000));
    for id in ids.iter() {
        let _ = db2.update_row(id.clone(), Row { test_data: 0 });
    }
    for id in ids {
        assert_eq!(db2.get_row(id).ok().unwrap().test_data, 0);
    }
}

#[test]
fn create_empty() {
    let (db, ids) = DB::from_rows(&make_rows(0));
    assert!(ids.is_empty());
    assert_eq!(db.len(), 0);
    assert_eq!(db.data.len(), 0);
    assert!(db.file.is_empty());
}

#[test]
fn create_one_full_block() {
    let (db, ids) = DB::from_rows(&make_rows(4096));
    assert_eq!(ids.len(), 4096);
    for (i, id) in ids.iter().enumerate() {
        assert_eq!(*id, i as u32);
    }
    assert_eq!(db.data.len(), 1);
    assert_eq!(db.file.len(), Block::get_block_size());
    assert_eq!(db.len(), 4096);
}

#[test]
fn create_two_blocks() {
    let (db, ids) = DB::from_rows(&make_rows(5000));
    assert_eq!(ids.len(), 5000);
    for (i, id) in ids.iter().enumerate() {
        assert_eq!(*id, i as u32);
    }
    assert_eq!(db.data.len(), 2);
    // sized for 8192 slots: two whole block regions
    assert_eq!(db.file.len(), 2 * Block::get_block_size());
    assert_eq!(db.len(), 5000);
}

#[test]
fn get_absent_is_not_found() {
    let (db, _ids) = DB::from_rows(&make_rows(3));
    assert!(matches!(db.get_row(3), Err(DBError::IDNotInDatabase)));
    assert!(matches!(db.get_row(100_000), Err(DBError::IDNotInDatabase)));
}

#[test]
fn update_absent_is_not_found() {
    let (mut db, _ids) = DB::from_rows(&make_rows(3));
    let r = db.update_row(7, Row { test_data: 1 });
    assert!(matches!(r, Err(DBError::IDNotInDatabase)));
}

#[test]
fn delete_absent_is_not_found() {
    let (mut db, _ids) = DB::from_rows(&make_rows(3));
    assert!(matches!(db.delete_row(9), Err(DBError::IDNotInDatabase)));
}

#[test]
fn delete_then_get_is_not_found() {
    let (mut db, _ids) = DB::from_rows(&make_rows(10));
    assert_eq!(db.len(), 10);
    assert!(db.delete_row(4).is_ok());
    assert_eq!(db.len(), 9);
    assert!(matches!(db.get_row(4), Err(DBError::IDNotInDatabase)));
    for i in 0..10 {
        if i != 4 {
            assert_eq!(db.get_row(i).ok().unwrap().test_data, i);
        }
    }
}

#[test]
fn freed_id_is_reused() {
    let (mut db, _ids) = DB::from_rows(&make_rows(3));
    assert!(db.delete_row(1).is_ok());
    let id = db.insert(Row { test_data: 77 });
    // the lowest free identifier comes back, never a fresh higher one
    assert_eq!(id, 1);
    assert_eq!(db.get_row(1).ok().unwrap().test_data, 77);

    // insert a row, delete it, insert another: the second identifier is
    // at most the first
    let (mut db2, _) = DB::from_rows(&make_rows(0));
    let first = db2.insert(Row { test_data: 1 });
    db2.delete_row(first).unwrap();
    let second = db2.insert(Row { test_data: 2 });
    assert!(second <= first);
}

#[test]
fn insert_into_full_store_appends_block() {
    let (mut db, _ids) = DB::from_rows(&make_rows(4096));
    assert_eq!(db.data.len(), 1);
    let id = db.insert(Row { test_data: 5 });
    assert_eq!(id, 4096);
    assert_eq!(db.data.len(), 2);
    assert_eq!(db.file.len(), 2 * Block::get_block_size());
    assert_eq!(db.get_row(4096).ok().unwrap().test_data, 5);
}

#[test]
fn update_changes_only_its_row() {
    let (mut db, _ids) = DB::from_rows(&make_rows(5));
    assert!(db.update_row(2, Row { test_data: 42 }).is_ok());
    assert_eq!(db.get_row(2).ok().unwrap().test_data, 42);
    for i in [0u32, 1, 3, 4] {
        assert_eq!(db.get_row(i).ok().unwrap().test_data, i);
    }
    assert_eq!(db.len(), 5);
}
