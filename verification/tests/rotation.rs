use logroller::{Compression, Rotation, RotationAge, RotationSize};

#[test]
fn sizes_count_bytes() {
    assert_eq!(RotationSize::Bytes(1_048_576).bytes(), 1_048_576);
    assert_eq!(RotationSize::KB(1).bytes(), 1024);
    assert_eq!(RotationSize::MB(1).bytes(), 1_048_576);
    assert_eq!(RotationSize::GB(1).bytes(), 1_073_741_824);
    assert_eq!(RotationSize::MB(100).bytes(), 104_857_600);
    assert_eq!(RotationSize::GB(2).bytes(), 2_147_483_648);
    assert_eq!(RotationSize::Bytes(0).bytes(), 0);
}

#[test]
fn thresholds_beyond_64_bits_are_told() {
    assert!(RotationSize::Bytes(u64::MAX).is_countable());
    assert!(RotationSize::KB(u64::MAX / 1024).is_countable());
    assert!(!RotationSize::KB(u64::MAX / 1024 + 1).is_countable());
    assert!(!RotationSize::MB(1 << 44).is_countable());
    assert!(RotationSize::GB((1 << 34) - 1).is_countable());
    assert!(!RotationSize::GB(1 << 34).is_countable());
    assert!(!Rotation::SizeBased(RotationSize::GB(1 << 34)).is_countable());
    assert!(Rotation::SizeBased(RotationSize::GB(1)).is_countable());
    assert!(Rotation::AgeBased(RotationAge::Daily).is_countable());
}

#[test]
fn extensions_of_compressed_files() {
    assert_eq!(Compression::Gzip.get_extension(), "gz");
    assert_eq!(Compression::XZ(6).get_extension(), "xz");
}

#[test]
fn levels_that_the_algorithms_have() {
    assert!(Compression::Gzip.has_valid_level());
    assert!(Compression::XZ(0).has_valid_level());
    assert!(Compression::XZ(9).has_valid_level());
    assert!(!Compression::XZ(10).has_valid_level());
}
