use ipv4_subnets::error::SubnetError;
use ipv4_subnets::selector::find_sub_cidr;

#[test]
fn no_requirement_selects_slash_30() {
    assert_eq!(find_sub_cidr(0, 24), Ok(30));
    assert_eq!(find_sub_cidr(0, 0), Ok(30));
}

#[test]
fn requirement_equal_to_capacity_selects_base() {
    assert_eq!(find_sub_cidr(254, 24), Ok(24));
}

#[test]
fn requirement_above_capacity_is_refused() {
    assert_eq!(find_sub_cidr(255, 24), Err(SubnetError::NoFeasiblePrefix));
    assert_eq!(find_sub_cidr(3, 30), Err(SubnetError::NoFeasiblePrefix));
    assert_eq!(find_sub_cidr(u32::MAX, 0), Err(SubnetError::NoFeasiblePrefix));
}

#[test]
fn smallest_block_that_holds_the_requirement_wins() {
    assert_eq!(find_sub_cidr(62, 24), Ok(26));
    assert_eq!(find_sub_cidr(63, 24), Ok(25));
    assert_eq!(find_sub_cidr(1, 24), Ok(30));
    assert_eq!(find_sub_cidr(2, 24), Ok(30));
    assert_eq!(find_sub_cidr(3, 24), Ok(29));
    assert_eq!(find_sub_cidr(6, 24), Ok(29));
    assert_eq!(find_sub_cidr(7, 24), Ok(28));
    assert_eq!(find_sub_cidr(4294967294, 0), Ok(0));
    assert_eq!(find_sub_cidr(2147483647, 0), Ok(0));
    assert_eq!(find_sub_cidr(2147483646, 0), Ok(1));
}

#[test]
fn slash_30_is_not_cut_further() {
    assert_eq!(find_sub_cidr(0, 30), Ok(30));
    assert_eq!(find_sub_cidr(2, 30), Ok(30));
}

#[test]
fn point_to_point_and_host_route_come_back_unchanged() {
    assert_eq!(find_sub_cidr(0, 31), Ok(31));
    assert_eq!(find_sub_cidr(1000, 31), Ok(31));
    assert_eq!(find_sub_cidr(0, 32), Ok(32));
    assert_eq!(find_sub_cidr(1000, 32), Ok(32));
}

#[test]
fn selector_refuses_prefix_length_above_32() {
    assert_eq!(find_sub_cidr(0, 33), Err(SubnetError::InvalidPrefixLength));
}

#[test]
fn selected_prefix_is_the_largest_that_qualifies() {
    for base in 0..=30u32 {
        for min in [0u32, 1, 2, 3, 14, 15, 254, 255, 65534, 65535, 4294967294] {
            match find_sub_cidr(min, base) {
                Ok(chosen) => {
                    assert!(base <= chosen && chosen <= 30);
                    assert!((1u64 << (32 - chosen)) - 2 >= min as u64);
                    if chosen < 30 {
                        assert!((1u64 << (32 - (chosen + 1))) - 2 < min as u64);
                    }
                }
                Err(e) => {
                    assert_eq!(e, SubnetError::NoFeasiblePrefix);
                    assert!((1u64 << (32 - base)) - 2 < min as u64);
                }
            }
        }
    }
}
