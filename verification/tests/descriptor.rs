use ipv4_subnets::subnet::{usable_host_count, SubNet};

fn ip(a: u32, b: u32, c: u32, d: u32) -> u32 {
    (a << 24) | (b << 16) | (c << 8) | d
}

#[test]
fn usable_hosts_of_ordinary_blocks() {
    assert_eq!(usable_host_count(30), 2);
    assert_eq!(usable_host_count(26), 62);
    assert_eq!(usable_host_count(24), 254);
    assert_eq!(usable_host_count(16), 65534);
    assert_eq!(usable_host_count(1), 2147483646);
    assert_eq!(usable_host_count(0), 4294967294);
}

#[test]
fn usable_hosts_of_point_to_point_and_host_route() {
    assert_eq!(usable_host_count(31), 2);
    assert_eq!(usable_host_count(32), 1);
}

#[test]
fn descriptor_of_ordinary_block() {
    let subnet = SubNet::new(ip(10, 0, 0, 77), 26, 62);
    assert_eq!(
        subnet,
        SubNet {
            network: ip(10, 0, 0, 64),
            first: ip(10, 0, 0, 65),
            last: ip(10, 0, 0, 126),
            broadcast: ip(10, 0, 0, 127),
            cidr: 26,
            nb_usable_ip: 62,
        }
    );
}

#[test]
fn descriptor_of_slash_30() {
    let subnet = SubNet::new(ip(192, 168, 1, 2), 30, 2);
    assert_eq!(subnet.network, ip(192, 168, 1, 0));
    assert_eq!(subnet.first, ip(192, 168, 1, 1));
    assert_eq!(subnet.last, ip(192, 168, 1, 2));
    assert_eq!(subnet.broadcast, ip(192, 168, 1, 3));
    assert_eq!(subnet.nb_usable_ip, 2);
}

#[test]
fn descriptor_of_point_to_point_block() {
    let subnet = SubNet::new(ip(10, 1, 2, 5), 31, 2);
    assert_eq!(subnet.network, ip(10, 1, 2, 4));
    assert_eq!(subnet.first, ip(10, 1, 2, 4));
    assert_eq!(subnet.last, ip(10, 1, 2, 5));
    assert_eq!(subnet.broadcast, ip(10, 1, 2, 5));
    assert_eq!(subnet.cidr, 31);
    assert_eq!(subnet.nb_usable_ip, 2);
}

#[test]
fn descriptor_of_host_route() {
    let address = ip(10, 1, 2, 5);
    let subnet = SubNet::new(address, 32, 1);
    assert_eq!(subnet.network, address);
    assert_eq!(subnet.first, address);
    assert_eq!(subnet.last, address);
    assert_eq!(subnet.broadcast, address);
    assert_eq!(subnet.nb_usable_ip, 1);
}

#[test]
fn descriptor_of_whole_address_space() {
    let subnet = SubNet::new(ip(8, 8, 8, 8), 0, 4294967294);
    assert_eq!(subnet.network, 0);
    assert_eq!(subnet.first, 1);
    assert_eq!(subnet.last, 0xffff_fffe);
    assert_eq!(subnet.broadcast, 0xffff_ffff);
}

#[test]
fn descriptor_at_top_of_address_space() {
    let subnet = SubNet::new(0xffff_ffff, 31, 2);
    assert_eq!(subnet.network, 0xffff_fffe);
    assert_eq!(subnet.broadcast, 0xffff_ffff);
    let subnet = SubNet::new(0xffff_ffff, 24, 254);
    assert_eq!(subnet.network, 0xffff_ff00);
    assert_eq!(subnet.last, 0xffff_fffe);
    assert_eq!(subnet.broadcast, 0xffff_ffff);
}

#[test]
fn descriptor_addresses_are_in_order() {
    for cidr in 0..=32u32 {
        let subnet = SubNet::new(ip(203, 0, 113, 201), cidr, usable_host_count(cidr));
        assert!(subnet.network <= subnet.first);
        assert!(subnet.first <= subnet.last);
        assert!(subnet.last <= subnet.broadcast);
        assert!(subnet.network <= ip(203, 0, 113, 201));
        assert!(ip(203, 0, 113, 201) <= subnet.broadcast);
    }
}

#[test]
fn next_descriptor_follows_at_once_and_is_as_large() {
    for cidr in 1..=32u32 {
        let count = usable_host_count(cidr);
        for address in [0u32, ip(10, 0, 0, 77), ip(192, 168, 1, 130), 0x7fff_ffff] {
            let subnet = SubNet::new(address, cidr, count);
            if subnet.broadcast == u32::MAX {
                continue;
            }
            let next = SubNet::new(subnet.broadcast + 1, cidr, count);
            assert_eq!(next.network, subnet.broadcast + 1);
            assert_eq!(next.broadcast - next.network, subnet.broadcast - subnet.network);
            assert_eq!(next.first - next.network, subnet.first - subnet.network);
            assert_eq!(next.nb_usable_ip, subnet.nb_usable_ip);
        }
    }
}

#[test]
fn point_to_point_descriptor_clears_the_lowest_bit() {
    for address in [0u32, 1, 2, 3, ip(10, 1, 2, 5), 0xffff_fffe, 0xffff_ffff] {
        let subnet = SubNet::new(address, 31, 2);
        assert_eq!(subnet.network, address & 0xffff_fffe);
        assert_eq!(subnet.first, subnet.network);
        assert_eq!(subnet.last, subnet.network + 1);
        assert_eq!(subnet.broadcast, subnet.last);
    }
}
