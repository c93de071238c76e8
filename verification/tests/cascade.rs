//! The cascade: building across passes, lookups, loading from disk, and
//! persisting an in-memory build.

use bfield::BField;

/// The geometric size schedule of a cascade: each member shrinks by
/// `secondary_scaledown` with a floor of `max_scaledown` of the primary.
fn member_sizes(size: usize, secondary_scaledown: f64, max_scaledown: f64, n: usize) -> Vec<usize> {
    let mut sizes = Vec::new();
    let mut cur_size = size;
    for _ in 0..n {
        sizes.push(cur_size);
        cur_size = f64::max(
            cur_size as f64 * secondary_scaledown,
            size as f64 * max_scaledown,
        ) as usize;
    }
    sizes
}

#[test]
fn can_build_and_query_file_bfield() {
    let tmp_dir = tempfile::tempdir().unwrap();
    let n_secondaries = 4;
    let sizes = member_sizes(1_000_000, 0.1, 0.025, n_secondaries);
    let mut bfield = BField::create(
        tmp_dir.path().to_str().unwrap(),
        "bfield",
        &sizes,
        10,
        39,
        4,
        false,
        Vec::new(),
    )
    .expect("to build");

    // Identity database
    let max_value: u32 = 10_000;
    for p in 0..n_secondaries {
        for i in 0..max_value {
            bfield.insert(&i.to_be_bytes(), i, p);
        }
    }

    for i in 0..max_value {
        let val = bfield.get(&i.to_be_bytes()).unwrap();
        assert_eq!(i, val);
    }
    drop(bfield);

    // and we can load them
    let main_path = tmp_dir.path().join("bfield.0.bfd");
    let bfield = BField::load(main_path.to_str().unwrap(), true).unwrap();
    for i in 0..max_value {
        let val = bfield.get(&i.to_be_bytes()).unwrap();
        assert_eq!(i, val);
    }
}

#[test]
fn can_build_and_query_in_memory_bfield() {
    let tmp_dir = tempfile::tempdir().unwrap();
    let n_secondaries = 4;
    let sizes = member_sizes(1_000_000, 0.1, 0.025, n_secondaries);
    let mut bfield = BField::create(
        tmp_dir.path().to_str().unwrap(),
        "bfield",
        &sizes,
        10,
        39,
        4,
        true,
        Vec::new(),
    )
    .expect("to build");

    // Identity database
    let max_value: u32 = 10_000;
    for p in 0..n_secondaries {
        for i in 0..max_value {
            bfield.insert(&i.to_be_bytes(), i, p);
        }
    }

    for i in 0..max_value {
        let val = bfield.get(&i.to_be_bytes()).unwrap();
        assert_eq!(i, val);
    }
    let bfield = bfield.persist_to_disk().unwrap();
    for m in &bfield.members {
        assert!(std::path::Path::new(&m.filename).exists());
    }
    for i in 0..max_value {
        let val = bfield.get(&i.to_be_bytes()).unwrap();
        assert_eq!(i, val);
    }
}

#[test]
fn test_cascade_inspection() {
    let tmp_dir = tempfile::tempdir().unwrap();
    let sizes = vec![4096, 1024];
    let mut bfield = BField::create(
        tmp_dir.path().to_str().unwrap(),
        "inspect",
        &sizes,
        3,
        64,
        4,
        true,
        vec![1, 2, 3],
    )
    .unwrap();

    let (n_hashes, marker_width, n_marker_bits, member_sizes) = bfield.build_params();
    assert_eq!(n_hashes, 3);
    assert_eq!(marker_width, 64);
    assert_eq!(n_marker_bits, 4);
    assert_eq!(member_sizes, vec![4096, 1024]);

    let info = bfield.info();
    assert_eq!(info, vec![(4096, 3, 64, 4), (1024, 3, 64, 4)]);

    assert_eq!(bfield.params(), &Some(vec![1, 2, 3]));
    bfield.mock_params(vec![9]);
    assert_eq!(bfield.params(), &Some(vec![9]));
}

#[test]
fn test_cascade_force_insert() {
    let tmp_dir = tempfile::tempdir().unwrap();
    let sizes = vec![2048, 1024];
    let mut bfield = BField::create(
        tmp_dir.path().to_str().unwrap(),
        "force",
        &sizes,
        3,
        64,
        4,
        true,
        Vec::new(),
    )
    .unwrap();

    // a fresh key lands in the primary member
    bfield.force_insert(b"fresh", 17);
    assert_eq!(bfield.get(b"fresh"), Some(17));

    // repeating it with the same value is accepted and changes nothing
    bfield.force_insert(b"fresh", 17);
    assert_eq!(bfield.get(b"fresh"), Some(17));

    // a different value for the same key poisons the primary slot and the
    // key moves on to the secondary member
    bfield.force_insert(b"fresh", 18);
    assert_eq!(bfield.get(b"fresh"), Some(18));
}

#[test]
fn test_load_missing_cascade() {
    let tmp_dir = tempfile::tempdir().unwrap();
    let path = tmp_dir.path().join("absent.0.bfd");
    assert!(BField::load(path.to_str().unwrap(), true).is_err());
}
