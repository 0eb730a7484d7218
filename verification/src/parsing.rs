//! The request as text: the base block, the minimum host count and the
//! worker count, each read and checked.

use vstd::prelude::*;
use crate::error::SubnetError;
use crate::subnet::{usable_host_count, usable_hosts};
use crate::render::dotted_quad;
use crate::text::{
    chars_of, decimal_text, decimal_up_to, field_texts, lemma_decimal_text_reads_back,
    lemma_split_at_separator, lemma_split_without_separator, parse_decimal, split, split_fields,
    trim, trimmed,
};

verus! {

/// The address whose four octets are given, the first one in the highest
/// byte.
pub open spec fn address_of_octets(first: nat, second: nat, third: nat, fourth: nat) -> nat {
    ((first * 256 + second) * 256 + third) * 256 + fourth
}

/// What a field of an address reads as: a decimal number of at most 255.
pub open spec fn octet(field: Seq<char>) -> Option<nat> {
    decimal_up_to(field, 255)
}

/// What an address in dotted-quad notation reads as: four fields between
/// dots, each of them an octet.
pub open spec fn parsed_ip(text: Seq<char>) -> Result<u32, SubnetError> {
    let fields = split(text, '.');
    if fields.len() == 4 && octet(fields[0]) is Some && octet(fields[1]) is Some && octet(
        fields[2],
    ) is Some && octet(fields[3]) is Some {
        Ok(
            address_of_octets(
                octet(fields[0])->0,
                octet(fields[1])->0,
                octet(fields[2])->0,
                octet(fields[3])->0,
            ) as u32,
        )
    } else {
        Err(SubnetError::MalformedAddress)
    }
}

/// What a prefix length reads as: a decimal number of at most 32, with
/// white space around it or none.
pub open spec fn parsed_cidr(text: Seq<char>) -> Result<u8, SubnetError> {
    match decimal_up_to(trimmed(text), 32) {
        Some(cidr) => Ok(cidr as u8),
        None => Err(SubnetError::InvalidPrefixLength),
    }
}

/// What a minimum host count reads as, for a base block of prefix length
/// `cidr`: a decimal number that fits 32 bits, with white space around it
/// or none, and no more than the usable hosts of the base block. That holds
/// for every prefix length: a point-to-point block gives 2 usable hosts and
/// a host route 1, and a count above that is refused like any other. The
/// number read comes back unchanged.
pub open spec fn parsed_min_nb(text: Seq<char>, cidr: u8) -> Result<u32, SubnetError> {
    match decimal_up_to(trimmed(text), u32::MAX as nat) {
        None => Err(SubnetError::MalformedHostCount),
        Some(nb) => if cidr > 32 {
            Err(SubnetError::InvalidPrefixLength)
        } else if nb > usable_hosts(cidr as nat) {
            Err(SubnetError::HostRequirementExceedsCapacity)
        } else {
            Ok(nb as u32)
        },
    }
}

/// What a worker count reads as: a decimal number of 1 to 32, with white
/// space around it or none.
pub open spec fn parsed_nb_thread(text: Seq<char>) -> Result<u8, SubnetError> {
    match decimal_up_to(trimmed(text), 32) {
        Some(workers) => if workers >= 1 {
            Ok(workers as u8)
        } else {
            Err(SubnetError::InvalidWorkerCount)
        },
        None => Err(SubnetError::InvalidWorkerCount),
    }
}

/// What a request reads as: the base block as `<address>/<prefix length>`
/// with white space around it or none, the minimum host count and the
/// worker count. The first part that does not read gives the error.
pub open spec fn parsed_input(raw_ip: Seq<char>, raw_nb: Seq<char>, raw_nb_thread: Seq<char>)
    -> Result<(u32, u8, u32, u8), SubnetError> {
    let fields = split(trimmed(raw_ip), '/');
    if fields.len() != 2 {
        Err(SubnetError::MalformedAddress)
    } else {
        match parsed_ip(fields[0]) {
            Err(e) => Err(e),
            Ok(ip) => match parsed_cidr(fields[1]) {
                Err(e) => Err(e),
                Ok(cidr) => match parsed_min_nb(raw_nb, cidr) {
                    Err(e) => Err(e),
                    Ok(min_nb) => match parsed_nb_thread(raw_nb_thread) {
                        Err(e) => Err(e),
                        Ok(nb_thread) => Ok((ip, cidr, min_nb, nb_thread)),
                    },
                },
            },
        }
    }
}

/// Reads an address in dotted-quad notation from its characters.
pub fn ip_from_chars(text: &[char]) -> (r: Result<u32, SubnetError>)
    ensures
        r == parsed_ip(text@),
{
    let fields: Vec<Vec<char>> = split_fields(text, '.');
    if fields.len() != 4 {
        return Err(SubnetError::MalformedAddress);
    }
    let first: u32 = match parse_decimal(fields[0].as_slice(), 255) {
        Some(octet) => octet,
        None => { return Err(SubnetError::MalformedAddress); },
    };
    let second: u32 = match parse_decimal(fields[1].as_slice(), 255) {
        Some(octet) => octet,
        None => { return Err(SubnetError::MalformedAddress); },
    };
    let third: u32 = match parse_decimal(fields[2].as_slice(), 255) {
        Some(octet) => octet,
        None => { return Err(SubnetError::MalformedAddress); },
    };
    let fourth: u32 = match parse_decimal(fields[3].as_slice(), 255) {
        Some(octet) => octet,
        None => { return Err(SubnetError::MalformedAddress); },
    };
    Ok(((first * 256 + second) * 256 + third) * 256 + fourth)
}

/// Reads a prefix length from its characters.
pub fn cidr_from_chars(text: &[char]) -> (r: Result<u8, SubnetError>)
    ensures
        r == parsed_cidr(text@),
{
    match parse_decimal(trim(text), 32) {
        Some(cidr) => Ok(cidr as u8),
        None => Err(SubnetError::InvalidPrefixLength),
    }
}

/// Reads an address in dotted-quad notation.
pub fn parse_ip(raw_ip: String) -> (r: Result<u32, SubnetError>)
    ensures
        r == parsed_ip(raw_ip@),
{
    let chars: Vec<char> = chars_of(raw_ip.as_str());
    ip_from_chars(chars.as_slice())
}

/// Reads a prefix length.
pub fn parse_cidr(raw_cidr: String) -> (r: Result<u8, SubnetError>)
    ensures
        r == parsed_cidr(raw_cidr@),
{
    let chars: Vec<char> = chars_of(raw_cidr.as_str());
    cidr_from_chars(chars.as_slice())
}

/// Reads the minimum number of usable hosts per subnet and holds it against
/// the base block of prefix length `cidr`. A count that the base block
/// cannot give is refused, whatever the prefix length; no other count is
/// put in its place.
pub fn parse_min_nb(raw_nb: String, cidr: u8) -> (r: Result<u32, SubnetError>)
    ensures
        r == parsed_min_nb(raw_nb@, cidr),
        r matches Ok(nb) ==> cidr <= 32 && nb <= usable_hosts(cidr as nat),
{
    let chars: Vec<char> = chars_of(raw_nb.as_str());
    let nb: u32 = match parse_decimal(trim(chars.as_slice()), u32::MAX) {
        Some(nb) => nb,
        None => { return Err(SubnetError::MalformedHostCount); },
    };
    if cidr > 32 {
        return Err(SubnetError::InvalidPrefixLength);
    }
    if usable_host_count(cidr as u32) < nb {
        return Err(SubnetError::HostRequirementExceedsCapacity);
    }
    Ok(nb)
}

/// Reads the number of workers.
pub fn parse_nb_thread(raw_nb_thread: String) -> (r: Result<u8, SubnetError>)
    ensures
        r == parsed_nb_thread(raw_nb_thread@),
{
    let chars: Vec<char> = chars_of(raw_nb_thread.as_str());
    match parse_decimal(trim(chars.as_slice()), 32) {
        Some(workers) => if workers >= 1 {
            Ok(workers as u8)
        } else {
            Err(SubnetError::InvalidWorkerCount)
        },
        None => Err(SubnetError::InvalidWorkerCount),
    }
}

/// Reads a request: the base block, the minimum host count and the worker
/// count. Gives the address, the prefix length, the minimum host count and
/// the worker count.
pub fn parse_input(raw_ip: String, raw_nb: String, raw_nb_thread: String) -> (r: Result<
    (u32, u8, u32, u8),
    SubnetError,
>)
    ensures
        r == parsed_input(raw_ip@, raw_nb@, raw_nb_thread@),
{
    let chars: Vec<char> = chars_of(raw_ip.as_str());
    let split_ip: Vec<Vec<char>> = split_fields(trim(chars.as_slice()), '/');
    if split_ip.len() != 2 {
        return Err(SubnetError::MalformedAddress);
    }
    assert(forall|i: int| 0 <= i < 2 ==> field_texts(split_ip@)[i] == split_ip@[i]@);
    let ip: u32 = match ip_from_chars(split_ip[0].as_slice()) {
        Ok(ip) => ip,
        Err(e) => { return Err(e); },
    };
    let cidr: u8 = match cidr_from_chars(split_ip[1].as_slice()) {
        Ok(cidr) => cidr,
        Err(e) => { return Err(e); },
    };
    let min_nb: u32 = match parse_min_nb(raw_nb, cidr) {
        Ok(min_nb) => min_nb,
        Err(e) => { return Err(e); },
    };
    let nb_thread: u8 = match parse_nb_thread(raw_nb_thread) {
        Ok(nb_thread) => nb_thread,
        Err(e) => { return Err(e); },
    };
    Ok((ip, cidr, min_nb, nb_thread))
}

/// A minimum host count is held against the usable hosts of the base block,
/// whatever the prefix length: a number that was read comes back as it
/// stands where the base block can give that many hosts, and is refused
/// where it cannot. So a count that was accepted never makes the choice of
/// the prefix length fail for want of room.
pub proof fn lemma_read_requirement_is_feasible(text: Seq<char>, cidr: u8)
    requires
        cidr <= 32,
        decimal_up_to(trimmed(text), u32::MAX as nat) is Some,
    ensures
        ({
            let nb = decimal_up_to(trimmed(text), u32::MAX as nat)->0;
            &&& nb <= usable_hosts(cidr as nat) ==> parsed_min_nb(text, cidr) == Ok::<
                u32,
                SubnetError,
            >(nb as u32)
            &&& nb > usable_hosts(cidr as nat) ==> parsed_min_nb(text, cidr) == Err::<
                u32,
                SubnetError,
            >(SubnetError::HostRequirementExceedsCapacity)
            &&& parsed_min_nb(text, cidr) matches Ok(min_nb) ==> min_nb == nb && min_nb
                <= usable_hosts(cidr as nat)
        }),
{
}

/// An address written in dotted-quad notation reads back as itself.
pub proof fn lemma_dotted_quad_reads_back(ip: u32)
    ensures
        parsed_ip(dotted_quad(ip as nat)) == Ok::<u32, SubnetError>(ip),
{
    let a: nat = ip as nat / 0x100_0000;
    let b: nat = ip as nat / 0x1_0000 % 256;
    let c: nat = ip as nat / 0x100 % 256;
    let d: nat = ip as nat % 256;
    lemma_octets_make_the_address(ip);
    lemma_dotted_quad_fields(a, b, c, d);
    lemma_octet_text(a);
    lemma_octet_text(b);
    lemma_octet_text(c);
    lemma_octet_text(d);
}

/// The four octets of an address, the highest byte first, make the address.
proof fn lemma_octets_make_the_address(ip: u32)
    ensures
        ip / 0x100_0000 <= 255,
        ip == address_of_octets(
            ip as nat / 0x100_0000,
            ip as nat / 0x1_0000 % 256,
            ip as nat / 0x100 % 256,
            ip as nat % 256,
        ),
{
    assert(ip / 0x100_0000 <= 255 && ip == (((ip / 0x100_0000) * 256 + ip / 0x1_0000 % 256) * 256
        + ip / 0x100 % 256) * 256 + ip % 256) by (bit_vector);
}

/// The fields of four octets written with dots between them are the texts
/// of the octets.
proof fn lemma_dotted_quad_fields(a: nat, b: nat, c: nat, d: nat)
    requires
        a <= 255,
        b <= 255,
        c <= 255,
        d <= 255,
    ensures
        split(
            decimal_text(a) + seq!['.'] + decimal_text(b) + seq!['.'] + decimal_text(c) + seq![
                '.',
            ] + decimal_text(d),
            '.',
        ) == seq![decimal_text(a), decimal_text(b), decimal_text(c), decimal_text(d)],
{
    let dot: Seq<char> = seq!['.'];
    let one: Seq<char> = decimal_text(a);
    let two: Seq<char> = one + dot + decimal_text(b);
    let three: Seq<char> = two + dot + decimal_text(c);
    let four: Seq<char> = three + dot + decimal_text(d);
    lemma_octet_text(a);
    lemma_octet_text(b);
    lemma_octet_text(c);
    lemma_octet_text(d);
    assert(two =~= one.push('.') + decimal_text(b));
    assert(three =~= two.push('.') + decimal_text(c));
    assert(four =~= three.push('.') + decimal_text(d));
    lemma_split_at_separator(one, decimal_text(b), '.');
    assert(split(two, '.') =~= seq![decimal_text(a), decimal_text(b)]);
    lemma_split_at_separator(two, decimal_text(c), '.');
    assert(split(three, '.') =~= seq![decimal_text(a), decimal_text(b), decimal_text(c)]);
    lemma_split_at_separator(three, decimal_text(d), '.');
    assert(split(four, '.') =~= seq![
        decimal_text(a),
        decimal_text(b),
        decimal_text(c),
        decimal_text(d),
    ]);
}

/// The text of an octet is one field that reads as the octet.
proof fn lemma_octet_text(number: nat)
    requires
        number <= 255,
    ensures
        split(decimal_text(number), '.') == seq![decimal_text(number)],
        octet(decimal_text(number)) == Some(number),
{
    let text: Seq<char> = decimal_text(number);
    lemma_decimal_text_reads_back(number);
    assert(forall|i: int| 0 <= i < text.len() ==> text[i] != '.');
    lemma_split_without_separator(text, '.');
}

} // verus!
