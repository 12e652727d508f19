use boltr::version::{encode_version, negotiate_version};

#[test]
fn negotiate_exact_match() {
    let mut proposals = [0u8; 16];
    proposals[2] = 4;
    proposals[3] = 5;
    assert_eq!(negotiate_version(&proposals), Some((5, 4)));
}

#[test]
fn negotiate_range_match() {
    let mut proposals = [0u8; 16];
    proposals[1] = 3;
    proposals[2] = 6;
    proposals[3] = 5;
    assert_eq!(negotiate_version(&proposals), Some((5, 4)));
}

#[test]
fn negotiate_no_match() {
    let mut proposals = [0u8; 16];
    proposals[2] = 4;
    proposals[3] = 4;
    assert_eq!(negotiate_version(&proposals), None);
}

#[test]
fn negotiate_second_proposal() {
    let mut proposals = [0u8; 16];
    proposals[2] = 0;
    proposals[3] = 6;
    proposals[6] = 2;
    proposals[7] = 5;
    assert_eq!(negotiate_version(&proposals), Some((5, 2)));
}

#[test]
fn negotiate_all_zeros() {
    let proposals = [0u8; 16];
    assert_eq!(negotiate_version(&proposals), None);
}

#[test]
fn encode_version_54() {
    assert_eq!(encode_version(5, 4), [0, 0, 4, 5]);
}

#[test]
fn negotiate_range_saturates_at_zero() {
    // 5.2 with a range of 9: the lower bound saturates at 5.0.
    let mut proposals = [0u8; 16];
    proposals[1] = 9;
    proposals[2] = 2;
    proposals[3] = 5;
    assert_eq!(negotiate_version(&proposals), Some((5, 2)));
}

#[test]
fn negotiate_range_below_minimum() {
    // 5.0 alone is older than every supported version.
    let mut proposals = [0u8; 16];
    proposals[3] = 5;
    assert_eq!(negotiate_version(&proposals), None);
}
