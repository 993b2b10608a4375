use wgpu_remote::pool::freemap::FreeMap;

#[test]
fn initial_freelists() {
    let freemap = FreeMap::new(208);
    assert_eq!(freemap.freelists().len(), 4);
    assert_eq!(freemap.freelists()[0].members(), vec![192 / 16]);
    assert_eq!(freemap.freelists()[1].members(), vec![]);
    assert_eq!(freemap.freelists()[2].members(), vec![128 / 64]);
    assert_eq!(freemap.freelists()[3].members(), vec![0]);

    let freemap = FreeMap::new(65);
    assert_eq!(freemap.freelists().len(), 3);
    assert!(freemap.freelists()[0].members().is_empty());
    assert!(freemap.freelists()[1].members().is_empty());
    assert_eq!(freemap.freelists()[2].members(), vec![0]);

    let freemap = FreeMap::new(127);
    assert_eq!(freemap.free_ranges(), vec![96..112, 64..96, 0..64]);
}

#[test]
fn allocate_everything() {
    let mut freemap = FreeMap::new(65);
    assert_eq!(freemap.allocate(64), Some(0..64));
    assert_eq!(freemap.free_ranges(), vec![]);

    // exhaust
    assert_eq!(freemap.allocate(1), None);

    // return
    freemap.free(0..64);
    assert_eq!(freemap.free_ranges(), vec![0..64]);
}

#[test]
fn allocate_half() {
    let mut freemap = FreeMap::new(65);
    assert_eq!(freemap.allocate(32), Some(0..32));
    assert_eq!(freemap.free_ranges(), vec![32..64]);

    // exhaust
    assert_eq!(freemap.allocate(32), Some(32..64));
    assert_eq!(freemap.allocate(1), None);

    // return
    freemap.free(0..32);
    freemap.free(32..64);
    assert_eq!(freemap.free_ranges(), vec![0..64]);
}

#[test]
fn allocate_quarter() {
    let mut freemap = FreeMap::new(65);
    assert_eq!(freemap.allocate(16), Some(0..16));
    assert_eq!(freemap.free_ranges(), vec![16..32, 32..64]);

    // exhaust
    assert_eq!(freemap.allocate(32), Some(32..64));
    assert_eq!(freemap.allocate(16), Some(16..32));
    assert_eq!(freemap.allocate(1), None);
}

#[test]
fn allocate_tiny() {
    let mut freemap = FreeMap::new(65);
    assert_eq!(freemap.allocate(1), Some(0..16));
}

#[test]
fn allocate_two_quarters() {
    let mut freemap = FreeMap::new(65);
    assert_eq!(freemap.allocate(16), Some(0..16));
    assert_eq!(freemap.allocate(16), Some(16..32));
    assert_eq!(freemap.free_ranges(), vec![32..64]);

    // exhaust
    assert_eq!(freemap.allocate(32), Some(32..64));
    assert_eq!(freemap.allocate(1), None);
}

#[test]
fn allocate_one_quarter_one_eighth() {
    let mut freemap = FreeMap::new(129);
    assert_eq!(freemap.allocate(32), Some(0..32));
    assert_eq!(freemap.allocate(16), Some(32..48));
    assert_eq!(freemap.free_ranges(), vec![48..64, 64..128]);

    let mut freemap = FreeMap::new(129);
    assert_eq!(freemap.allocate(16), Some(0..16));
    assert_eq!(freemap.allocate(32), Some(32..64));
    assert_eq!(freemap.free_ranges(), vec![16..32, 64..128]);

    // exhaust
    assert_eq!(freemap.allocate(64), Some(64..128));
    assert_eq!(freemap.allocate(16), Some(16..32));
    assert_eq!(freemap.allocate(1), None);

    // return
    freemap.free(32..64);
    assert_eq!(freemap.free_ranges(), vec![32..64]);
    freemap.free(64..128);
    assert_eq!(freemap.free_ranges(), vec![32..64, 64..128]);
    freemap.free(16..32);
    assert_eq!(freemap.free_ranges(), vec![16..32, 32..64, 64..128]);
    freemap.free(0..16);
    assert_eq!(freemap.free_ranges(), vec![0..128]);
}

#[test]
fn allocate_one_half_one_eighth() {
    let mut freemap = FreeMap::new(129);
    assert_eq!(freemap.allocate(64), Some(0..64));
    assert_eq!(freemap.allocate(16), Some(64..80));
    assert_eq!(freemap.free_ranges(), vec![80..96, 96..128]);

    let mut freemap = FreeMap::new(129);
    assert_eq!(freemap.allocate(16), Some(0..16));
    assert_eq!(freemap.allocate(64), Some(64..128));
    assert_eq!(freemap.free_ranges(), vec![16..32, 32..64]);

    // exhaust
    assert_eq!(freemap.allocate(32), Some(32..64));
    assert_eq!(freemap.allocate(16), Some(16..32));
    assert_eq!(freemap.allocate(1), None);
}

#[test]
fn allocate_free_one_eighth() {
    let mut freemap = FreeMap::new(128);
    assert_eq!(freemap.free_ranges(), vec![0..128]);
    assert_eq!(freemap.allocate(16), Some(0..16));
    assert_eq!(freemap.free_ranges(), vec![16..32, 32..64, 64..128]);
    freemap.free(0..16);
    assert_eq!(freemap.free_ranges(), vec![0..128]);
}

#[test]
fn allocate_free_one_eighth_no_coalesce() {
    let mut freemap = FreeMap::new(127);
    assert_eq!(freemap.free_ranges(), vec![96..112, 64..96, 0..64]);
    assert_eq!(freemap.allocate(16), Some(96..112));
    assert_eq!(freemap.free_ranges(), vec![64..96, 0..64]);
    freemap.free(96..112);
    assert_eq!(freemap.free_ranges(), vec![96..112, 64..96, 0..64]);
}
