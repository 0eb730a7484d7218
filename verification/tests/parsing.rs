use ipv4_subnets::error::SubnetError;
use ipv4_subnets::parsing::{parse_cidr, parse_input, parse_ip, parse_min_nb, parse_nb_thread};

fn ip(a: u32, b: u32, c: u32, d: u32) -> u32 {
    (a << 24) | (b << 16) | (c << 8) | d
}

#[test]
fn address_in_dotted_quad_notation() {
    assert_eq!(parse_ip("10.0.0.1".to_string()), Ok(ip(10, 0, 0, 1)));
    assert_eq!(parse_ip("192.168.1.130".to_string()), Ok(ip(192, 168, 1, 130)));
    assert_eq!(parse_ip("0.0.0.0".to_string()), Ok(0));
    assert_eq!(parse_ip("255.255.255.255".to_string()), Ok(0xffff_ffff));
    assert_eq!(parse_ip("1.2.3.4".to_string()), Ok(0x0102_0304));
}

#[test]
fn address_octets_may_have_leading_zeros_or_a_plus() {
    assert_eq!(parse_ip("010.001.000.007".to_string()), Ok(ip(10, 1, 0, 7)));
    assert_eq!(parse_ip("+10.+0.+0.+1".to_string()), Ok(ip(10, 0, 0, 1)));
    assert_eq!(parse_ip("0000000000000000000000010.0.0.1".to_string()), Ok(ip(10, 0, 0, 1)));
}

#[test]
fn address_with_wrong_octet_count_is_malformed() {
    assert_eq!(parse_ip("10.0.0".to_string()), Err(SubnetError::MalformedAddress));
    assert_eq!(parse_ip("10.0.0.1.5".to_string()), Err(SubnetError::MalformedAddress));
    assert_eq!(parse_ip("".to_string()), Err(SubnetError::MalformedAddress));
    assert_eq!(parse_ip("10".to_string()), Err(SubnetError::MalformedAddress));
    assert_eq!(parse_ip("...".to_string()), Err(SubnetError::MalformedAddress));
    assert_eq!(parse_ip("10.0.0.".to_string()), Err(SubnetError::MalformedAddress));
    assert_eq!(parse_ip(".10.0.0".to_string()), Err(SubnetError::MalformedAddress));
    assert_eq!(parse_ip("10..0.1".to_string()), Err(SubnetError::MalformedAddress));
}

#[test]
fn address_with_bad_octet_is_malformed() {
    assert_eq!(parse_ip("10.0.x.1".to_string()), Err(SubnetError::MalformedAddress));
    assert_eq!(parse_ip("10.0.0.256".to_string()), Err(SubnetError::MalformedAddress));
    assert_eq!(parse_ip("999.0.0.1".to_string()), Err(SubnetError::MalformedAddress));
    assert_eq!(parse_ip("10.0.0.-1".to_string()), Err(SubnetError::MalformedAddress));
    assert_eq!(parse_ip("10.0.0.1 ".to_string()), Err(SubnetError::MalformedAddress));
    assert_eq!(parse_ip(" 10.0.0.1".to_string()), Err(SubnetError::MalformedAddress));
    assert_eq!(parse_ip("10.0.0.+".to_string()), Err(SubnetError::MalformedAddress));
    assert_eq!(parse_ip("10.0.0.1_0".to_string()), Err(SubnetError::MalformedAddress));
    assert_eq!(parse_ip("10.0.0.٣".to_string()), Err(SubnetError::MalformedAddress));
    assert_eq!(
        parse_ip("10.0.0.99999999999999999999".to_string()),
        Err(SubnetError::MalformedAddress)
    );
}

#[test]
fn prefix_length_in_range() {
    assert_eq!(parse_cidr("0".to_string()), Ok(0));
    assert_eq!(parse_cidr("24".to_string()), Ok(24));
    assert_eq!(parse_cidr("32".to_string()), Ok(32));
    assert_eq!(parse_cidr(" 24\n".to_string()), Ok(24));
    assert_eq!(parse_cidr("\t+8\r\n".to_string()), Ok(8));
    assert_eq!(parse_cidr("\u{3000}16\u{a0}".to_string()), Ok(16));
}

#[test]
fn prefix_length_out_of_range_or_not_a_number() {
    assert_eq!(parse_cidr("33".to_string()), Err(SubnetError::InvalidPrefixLength));
    assert_eq!(parse_cidr("255".to_string()), Err(SubnetError::InvalidPrefixLength));
    assert_eq!(parse_cidr("300".to_string()), Err(SubnetError::InvalidPrefixLength));
    assert_eq!(parse_cidr("abc".to_string()), Err(SubnetError::InvalidPrefixLength));
    assert_eq!(parse_cidr("".to_string()), Err(SubnetError::InvalidPrefixLength));
    assert_eq!(parse_cidr("   ".to_string()), Err(SubnetError::InvalidPrefixLength));
    assert_eq!(parse_cidr("2 4".to_string()), Err(SubnetError::InvalidPrefixLength));
    assert_eq!(parse_cidr("-1".to_string()), Err(SubnetError::InvalidPrefixLength));
}

#[test]
fn minimum_host_count_within_capacity() {
    assert_eq!(parse_min_nb("62\n".to_string(), 24), Ok(62));
    assert_eq!(parse_min_nb("254".to_string(), 24), Ok(254));
    assert_eq!(parse_min_nb("0".to_string(), 24), Ok(0));
    assert_eq!(parse_min_nb("2".to_string(), 30), Ok(2));
    assert_eq!(parse_min_nb("4294967294".to_string(), 0), Ok(4294967294));
}

#[test]
fn minimum_host_count_above_capacity() {
    assert_eq!(
        parse_min_nb("255".to_string(), 24),
        Err(SubnetError::HostRequirementExceedsCapacity)
    );
    assert_eq!(
        parse_min_nb("3".to_string(), 30),
        Err(SubnetError::HostRequirementExceedsCapacity)
    );
    assert_eq!(
        parse_min_nb("4294967295".to_string(), 0),
        Err(SubnetError::HostRequirementExceedsCapacity)
    );
}

#[test]
fn minimum_host_count_within_capacity_of_slash_31_and_slash_32() {
    assert_eq!(parse_min_nb("0".to_string(), 31), Ok(0));
    assert_eq!(parse_min_nb("1".to_string(), 31), Ok(1));
    assert_eq!(parse_min_nb("2".to_string(), 31), Ok(2));
    assert_eq!(parse_min_nb("0".to_string(), 32), Ok(0));
    assert_eq!(parse_min_nb("1".to_string(), 32), Ok(1));
}

#[test]
fn minimum_host_count_above_capacity_of_slash_31_and_slash_32() {
    assert_eq!(
        parse_min_nb("5".to_string(), 31),
        Err(SubnetError::HostRequirementExceedsCapacity)
    );
    assert_eq!(
        parse_min_nb("3".to_string(), 31),
        Err(SubnetError::HostRequirementExceedsCapacity)
    );
    assert_eq!(
        parse_min_nb("1000".to_string(), 31),
        Err(SubnetError::HostRequirementExceedsCapacity)
    );
    assert_eq!(
        parse_min_nb("2".to_string(), 32),
        Err(SubnetError::HostRequirementExceedsCapacity)
    );
    assert_eq!(
        parse_min_nb("1000".to_string(), 32),
        Err(SubnetError::HostRequirementExceedsCapacity)
    );
}

#[test]
fn minimum_host_count_comes_back_unchanged() {
    for cidr in 0..=32u8 {
        let capacity: u64 = match cidr {
            32 => 1,
            31 => 2,
            _ => (1u64 << (32 - cidr)) - 2,
        };
        for nb in [0u64, 1, 2, 3, capacity - 1, capacity, capacity + 1] {
            if nb > u32::MAX as u64 {
                continue;
            }
            let expected = if nb <= capacity {
                Ok(nb as u32)
            } else {
                Err(SubnetError::HostRequirementExceedsCapacity)
            };
            assert_eq!(parse_min_nb(format!("{}", nb), cidr), expected);
        }
    }
}

#[test]
fn minimum_host_count_not_a_number() {
    assert_eq!(parse_min_nb("many".to_string(), 24), Err(SubnetError::MalformedHostCount));
    assert_eq!(parse_min_nb("".to_string(), 24), Err(SubnetError::MalformedHostCount));
    assert_eq!(parse_min_nb("4294967296".to_string(), 0), Err(SubnetError::MalformedHostCount));
    assert_eq!(parse_min_nb("x".to_string(), 31), Err(SubnetError::MalformedHostCount));
    assert_eq!(parse_min_nb("x".to_string(), 40), Err(SubnetError::MalformedHostCount));
}

#[test]
fn minimum_host_count_for_bad_prefix_length() {
    assert_eq!(parse_min_nb("5".to_string(), 33), Err(SubnetError::InvalidPrefixLength));
}

#[test]
fn worker_count_in_range() {
    assert_eq!(parse_nb_thread("1".to_string()), Ok(1));
    assert_eq!(parse_nb_thread("8\n".to_string()), Ok(8));
    assert_eq!(parse_nb_thread(" 32 ".to_string()), Ok(32));
}

#[test]
fn worker_count_out_of_range_or_not_a_number() {
    assert_eq!(parse_nb_thread("0".to_string()), Err(SubnetError::InvalidWorkerCount));
    assert_eq!(parse_nb_thread("33".to_string()), Err(SubnetError::InvalidWorkerCount));
    assert_eq!(parse_nb_thread("256".to_string()), Err(SubnetError::InvalidWorkerCount));
    assert_eq!(parse_nb_thread("four".to_string()), Err(SubnetError::InvalidWorkerCount));
    assert_eq!(parse_nb_thread("".to_string()), Err(SubnetError::InvalidWorkerCount));
}

#[test]
fn whole_request() {
    assert_eq!(
        parse_input("10.0.0.0/24\n".to_string(), "62\n".to_string(), "4\n".to_string()),
        Ok((ip(10, 0, 0, 0), 24, 62, 4))
    );
    assert_eq!(
        parse_input("  192.168.1.0/30  ".to_string(), "0".to_string(), "1".to_string()),
        Ok((ip(192, 168, 1, 0), 30, 0, 1))
    );
    assert_eq!(
        parse_input("10.0.0.6/ 31".to_string(), "2".to_string(), "8".to_string()),
        Ok((ip(10, 0, 0, 6), 31, 2, 8))
    );
    assert_eq!(
        parse_input("10.0.0.6/32".to_string(), "1".to_string(), "8".to_string()),
        Ok((ip(10, 0, 0, 6), 32, 1, 8))
    );
}

#[test]
fn whole_request_with_count_above_capacity_of_slash_31() {
    assert_eq!(
        parse_input("10.0.0.6/ 31".to_string(), "77".to_string(), "8".to_string()),
        Err(SubnetError::HostRequirementExceedsCapacity)
    );
    assert_eq!(
        parse_input("10.0.0.6/32".to_string(), "2".to_string(), "8".to_string()),
        Err(SubnetError::HostRequirementExceedsCapacity)
    );
}

#[test]
fn request_without_one_slash_is_malformed() {
    let nb = || "1".to_string();
    assert_eq!(parse_input("10.0.0.0".to_string(), nb(), nb()), Err(SubnetError::MalformedAddress));
    assert_eq!(
        parse_input("10.0.0.0/24/8".to_string(), nb(), nb()),
        Err(SubnetError::MalformedAddress)
    );
    assert_eq!(parse_input("".to_string(), nb(), nb()), Err(SubnetError::MalformedAddress));
}

#[test]
fn request_reports_the_first_part_that_does_not_read() {
    assert_eq!(
        parse_input("10.0.0/33".to_string(), "x".to_string(), "0".to_string()),
        Err(SubnetError::MalformedAddress)
    );
    assert_eq!(
        parse_input("10.0.0.0 /24".to_string(), "1".to_string(), "1".to_string()),
        Err(SubnetError::MalformedAddress)
    );
    assert_eq!(
        parse_input("10.0.0.0/33".to_string(), "x".to_string(), "0".to_string()),
        Err(SubnetError::InvalidPrefixLength)
    );
    assert_eq!(
        parse_input("10.0.0.0/".to_string(), "1".to_string(), "1".to_string()),
        Err(SubnetError::InvalidPrefixLength)
    );
    assert_eq!(
        parse_input("10.0.0.0/24".to_string(), "x".to_string(), "0".to_string()),
        Err(SubnetError::MalformedHostCount)
    );
    assert_eq!(
        parse_input("10.0.0.0/24".to_string(), "255".to_string(), "0".to_string()),
        Err(SubnetError::HostRequirementExceedsCapacity)
    );
    assert_eq!(
        parse_input("10.0.0.0/24".to_string(), "254".to_string(), "0".to_string()),
        Err(SubnetError::InvalidWorkerCount)
    );
}
