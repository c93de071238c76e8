//! Single members: insert, lookup classification, bit accounting, and the
//! mask-or-insert repair primitive.

use bfield::{BFieldLookup, BFieldMember};

#[test]
fn test_bfield() {
    let mut bfield = BFieldMember::create("test", true, 1024, 3, 64, 4, None).unwrap();
    // check that inserting keys adds new entries
    bfield.insert(b"test", 2);
    assert_eq!(bfield.get(b"test"), BFieldLookup::Found(2));

    bfield.insert(b"test2", 106);
    assert_eq!(bfield.get(b"test2"), BFieldLookup::Found(106));

    // test3 was never added
    assert_eq!(bfield.get(b"test3"), BFieldLookup::Absent);
}

#[test]
fn test_bfield_collisions() {
    // comically small bfield with too many (16) hashes
    // and too many bits (8) to cause saturation
    let mut bfield = BFieldMember::create("test", true, 128, 16, 64, 8, None).unwrap();

    bfield.insert(b"test", 100);
    assert_eq!(bfield.get(b"test"), BFieldLookup::Indeterminate);
}

#[test]
fn test_bfield_bits_set() {
    let mut bfield = BFieldMember::create("test", true, 128, 2, 16, 4, None).unwrap();

    bfield.insert(b"test", 100);
    assert_eq!(bfield.rank_range(0, 128), 8);
    bfield.insert(b"test2", 200);
    assert_eq!(bfield.rank_range(0, 128), 16);
    bfield.insert(b"test3", 300);
    assert!(bfield.rank_range(0, 128) < 24); // 23 bits set
}

#[test]
fn test_bfield_mask_or_insert() {
    let mut bfield = BFieldMember::create("test", true, 1024, 2, 16, 4, None).unwrap();

    bfield.insert(b"test", 2);
    assert_eq!(bfield.get(b"test"), BFieldLookup::Found(2));

    // `mask_or_insert`ing the same value doesn't change anything
    assert_eq!(bfield.mask_or_insert(b"test", 2), true);
    assert_eq!(bfield.get(b"test"), BFieldLookup::Found(2));

    // `mask_or_insert`ing a new value results in an indeterminate
    assert_eq!(bfield.mask_or_insert(b"test", 3), false);
    assert_eq!(bfield.get(b"test"), BFieldLookup::Indeterminate);

    // `mask_or_insert`ing an indeterminate value is still indeterminate
    assert_eq!(bfield.mask_or_insert(b"test", 3), false);
    assert_eq!(bfield.get(b"test"), BFieldLookup::Indeterminate);

    // `mask_or_insert`ing a new key just sets that key
    assert_eq!(bfield.mask_or_insert(b"test2", 2), true);
    assert_eq!(bfield.get(b"test2"), BFieldLookup::Found(2));
}

#[test]
fn member_test_bfield() {
    let mut bfield = BFieldMember::create("test", true, 1024, 3, 64, 4, None).unwrap();
    // check that inserting keys adds new entries
    bfield.insert(b"test", 2);
    assert_eq!(bfield.get(b"test"), BFieldLookup::Found(2));

    bfield.insert(b"test2", 106);
    assert_eq!(bfield.get(b"test2"), BFieldLookup::Found(106));

    // test3 was never added
    assert_eq!(bfield.get(b"test3"), BFieldLookup::Absent);
}

#[test]
fn member_test_bfield_collisions() {
    let mut bfield = BFieldMember::create("test", true, 128, 16, 64, 8, None).unwrap();

    bfield.insert(b"test", 100);
    assert_eq!(bfield.get(b"test"), BFieldLookup::Indeterminate);
}

#[test]
fn member_test_bfield_bits_set() {
    let mut bfield = BFieldMember::create("test", true, 128, 2, 16, 4, None).unwrap();

    bfield.insert(b"test", 100);
    assert_eq!(bfield.rank_range(0, 128), 8);
    bfield.insert(b"test2", 200);
    assert_eq!(bfield.rank_range(0, 128), 16);
    bfield.insert(b"test3", 300);
    assert_eq!(bfield.rank_range(0, 128), 23);
}

#[test]
fn test_bfieild_mask_or_insert() {
    let mut bfield = BFieldMember::create("test", true, 1024, 2, 16, 4, None).unwrap();

    bfield.insert(b"test", 2);
    assert_eq!(bfield.get(b"test"), BFieldLookup::Found(2));

    // `mask_or_insert`ing the same value doesn't change anything
    assert_eq!(bfield.mask_or_insert(b"test", 2), true);
    assert_eq!(bfield.get(b"test"), BFieldLookup::Found(2));

    // `mask_or_insert`ing a new value results in an indeterminate
    assert_eq!(bfield.mask_or_insert(b"test", 3), false);
    assert_eq!(bfield.get(b"test"), BFieldLookup::Indeterminate);

    // `mask_or_insert`ing an indeterminate value is still indeterminate
    assert_eq!(bfield.mask_or_insert(b"test", 3), false);
    assert_eq!(bfield.get(b"test"), BFieldLookup::Indeterminate);

    // `mask_or_insert`ing a new key just sets that key
    assert_eq!(bfield.mask_or_insert(b"test2", 2), true);
    assert_eq!(bfield.get(b"test2"), BFieldLookup::Found(2));
}

#[test]
fn test_insert_idempotent() {
    // inserting the same pair twice leaves the bit count unchanged
    let mut bfield = BFieldMember::create("test", true, 1024, 3, 64, 4, None).unwrap();
    bfield.insert(b"test", 2);
    let once = bfield.rank_range(0, 1024);
    bfield.insert(b"test", 2);
    assert_eq!(bfield.rank_range(0, 1024), once);
    assert_eq!(bfield.get(b"test"), BFieldLookup::Found(2));
}

#[test]
fn test_insert_monotone_bits() {
    // the count of set bits never decreases across inserts
    let mut bfield = BFieldMember::create("test", true, 1024, 3, 64, 4, None).unwrap();
    let mut last = bfield.rank_range(0, 1024);
    for i in 0..20u32 {
        bfield.insert(&i.to_be_bytes(), i);
        let now = bfield.rank_range(0, 1024);
        assert!(now >= last);
        last = now;
    }
}

#[test]
fn test_member_file_roundtrip() {
    // build a file-backed member, drop it, reopen it, and read it back
    let dir = tempfile::tempdir().unwrap();
    let path = dir.path().join("member.0.bfd");
    let path_str = path.to_str().unwrap();
    let mut bfield =
        BFieldMember::create(path_str, false, 1024, 3, 64, 4, Some(vec![7, 7, 7])).unwrap();
    bfield.insert(b"test", 42);
    assert_eq!(bfield.get(b"test"), BFieldLookup::Found(42));
    drop(bfield);

    let reopened = BFieldMember::open(path_str, true).unwrap();
    assert_eq!(reopened.info(), (1024, 3, 64, 4));
    assert_eq!(reopened.params.other, Some(vec![7, 7, 7]));
    assert_eq!(reopened.get(b"test"), BFieldLookup::Found(42));
    assert_eq!(reopened.get(b"absent"), BFieldLookup::Absent);
}

#[test]
fn test_open_missing_file() {
    let dir = tempfile::tempdir().unwrap();
    let path = dir.path().join("nothing.0.bfd");
    assert!(BFieldMember::open(path.to_str().unwrap(), true).is_err());
}
