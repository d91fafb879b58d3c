//! Packet decoder: packets within packets, read bit by bit.

use crate::errors::{ParseError, PuzzleError};
use crate::text::{bytes_of, trim, trim_bytes};
use vstd::prelude::*;

verus! {

pub struct PacketHeader {
    pub version: u8,
    pub p_type: u8,
}

/// A packet that holds a number.
pub struct LiteralPacket {
    pub header: PacketHeader,
    pub value: usize,
    /// The bits of the packet after its header.
    pub bits: usize,
}

/// A packet that holds packets.
pub struct OperatorPacket {
    pub header: PacketHeader,
    pub subs: Vec<PacketType>,
    /// The bits between the header and the packets held: 16 or 12.
    pub size_bits: usize,
}

pub enum PacketType {
    Literal(LiteralPacket),
    Operator(OperatorPacket),
}

// ----- bits -----
/// Bit `i` of the bytes, the highest bit of each byte first.
pub open spec fn bit_at(hex: Seq<u8>, i: int) -> int {
    ((hex[i / 8] >> ((7 - i % 8) as u8)) & 1u8) as int
}

/// The number that the `n` bits from bit `at` on write, the highest first.
pub open spec fn bits_value(hex: Seq<u8>, at: int, n: int) -> nat
    decreases n,
{
    if n <= 0 {
        0
    } else {
        (2 * bits_value(hex, at, n - 1) + bit_at(hex, at + n - 1)) as nat
    }
}

pub open spec fn two_to(n: nat) -> nat
    decreases n,
{
    if n == 0 {
        1
    } else {
        2 * two_to((n - 1) as nat)
    }
}

proof fn lemma_bit(hex: Seq<u8>, i: int)
    requires
        0 <= i < 8 * hex.len(),
    ensures
        0 <= bit_at(hex, i) <= 1,
{
    let x = hex[i / 8];
    let s = (7 - i % 8) as u8;
    assert((x >> s) & 1u8 <= 1u8) by (bit_vector);
}

proof fn lemma_two_to_16()
    ensures
        two_to(16) == 65536,
        two_to(1) == 2,
        two_to(3) == 8,
        two_to(4) == 16,
        two_to(11) == 2048,
        two_to(15) == 32768,
{
    reveal_with_fuel(two_to, 17);
}

proof fn lemma_two_to_grows(a: nat, b: nat)
    requires
        a <= b,
    ensures
        two_to(a) <= two_to(b),
    decreases b,
{
    if a < b {
        lemma_two_to_grows(a, (b - 1) as nat);
    }
}

/// Whether the bytes hold `n` bits from bit `at` on.
fn has_bits(hex: &Vec<u8>, at: usize, n: usize) -> (b: bool)
    ensures
        b == (at + n <= 8 * hex.len()),
{
    at as u128 + n as u128 <= 8 * (hex.len() as u128)
}

/// Reads `n` bits from bit `at` on as a number, the highest bit first.
pub fn read_n_bits_at(hex: &Vec<u8>, at: usize, n: usize) -> (val: usize)
    requires
        n <= 16,
        at + n <= 8 * hex.len(),
        at + n <= usize::MAX,
    ensures
        val == bits_value(hex@, at as int, n as int),
        val < two_to(n as nat),
{
    let mut val: usize = 0;
    let mut i: usize = 0;
    while i < n
        invariant
            i <= n <= 16,
            at + n <= 8 * hex.len(),
            at + n <= usize::MAX,
            val == bits_value(hex@, at as int, i as int),
            val < two_to(i as nat),
        decreases n - i,
    {
        let bit = at + i;
        proof {
            lemma_bit(hex@, bit as int);
            lemma_two_to_grows((i + 1) as nat, 16);
            lemma_two_to_16();
        }
        let shift: u8 = (7 - (bit % 8)) as u8;
        let b = (hex[bit / 8] >> shift) & 1u8;
        val = 2 * val + b as usize;
        i += 1;
    }
    val
}

// ----- what the bits write -----
/// The number of a literal packet and the bit after it: groups of five
/// bits from bit `bit` on, the first bit of the last group zero, the other
/// four bits of each the next digit to the base 16 of the number, after
/// those that `acc` holds.
pub open spec fn literal(hex: Seq<u8>, bit: int, acc: nat) -> Option<(nat, int)>
    decreases 8 * hex.len() - bit,
{
    if bit < 0 || bit + 5 > 8 * hex.len() {
        None
    } else {
        let next = acc * 16 + bits_value(hex, bit + 1, 4);
        if bits_value(hex, bit, 1) != 1 {
            Some((next, bit + 5))
        } else {
            literal(hex, bit + 5, next)
        }
    }
}

proof fn lemma_literal_grows(hex: Seq<u8>, bit: int, acc: nat)
    ensures
        literal(hex, bit, acc) is Some ==> literal(hex, bit, acc).unwrap().0 >= acc && bit < literal(
            hex,
            bit,
            acc,
        ).unwrap().1 <= 8 * hex.len(),
    decreases 8 * hex.len() - bit,
{
    if !(bit < 0 || bit + 5 > 8 * hex.len()) {
        let next = acc * 16 + bits_value(hex, bit + 1, 4);
        if bits_value(hex, bit, 1) == 1 {
            lemma_literal_grows(hex, bit + 5, next);
        }
    }
}

/// The bit after the packet that starts at bit `bit`, if the bits write a
/// packet there whose numbers fit.
pub open spec fn packet_end(hex: Seq<u8>, bit: int) -> Option<int>
    decreases 8 * hex.len() - bit, 0nat,
{
    if bit < 0 || bit + 6 > 8 * hex.len() {
        None
    } else if bits_value(hex, bit + 3, 3) == 4 {
        match literal(hex, bit + 6, 0) {
            Some((v, e)) => if v <= usize::MAX {
                Some(e)
            } else {
                None
            },
            None => None,
        }
    } else {
        operator_end(hex, bit + 6)
    }
}

/// The bit after an operator packet whose header ends at bit `start`: a bit
/// that tells how the packets held are counted, then their length in 15 bits
/// or their number in 11 bits, then the packets.
pub open spec fn operator_end(hex: Seq<u8>, start: int) -> Option<int>
    decreases 8 * hex.len() - start, 2nat,
{
    if start < 0 || start + 1 > 8 * hex.len() {
        None
    } else if bits_value(hex, start, 1) == 0 {
        if start + 16 > 8 * hex.len() {
            None
        } else {
            subs_end_by_len(hex, start + 16, bits_value(hex, start + 1, 15) as int)
        }
    } else {
        if start + 12 > 8 * hex.len() {
            None
        } else {
            subs_end_by_count(hex, start + 12, bits_value(hex, start + 1, 11) as int)
        }
    }
}

/// The bit after the packets that fill `left` bits from bit `bit` on.
pub open spec fn subs_end_by_len(hex: Seq<u8>, bit: int, left: int) -> Option<int>
    decreases 8 * hex.len() - bit, 1nat,
{
    if left <= 0 {
        Some(bit)
    } else {
        match packet_end(hex, bit) {
            Some(e) => if bit < e <= 8 * hex.len() && e - bit <= left {
                subs_end_by_len(hex, e, left - (e - bit))
            } else {
                None
            },
            None => None,
        }
    }
}

/// The bit after the `count` packets from bit `bit` on.
pub open spec fn subs_end_by_count(hex: Seq<u8>, bit: int, count: int) -> Option<int>
    decreases 8 * hex.len() - bit, 1nat,
{
    if count <= 0 {
        Some(bit)
    } else {
        match packet_end(hex, bit) {
            Some(e) => if bit < e <= 8 * hex.len() {
                subs_end_by_count(hex, e, count - 1)
            } else {
                None
            },
            None => None,
        }
    }
}

/// The bits that a packet takes.
pub open spec fn bits_of(p: PacketType) -> nat
    decreases p, 0nat,
{
    match p {
        PacketType::Literal(l) => l.bits as nat + 6,
        PacketType::Operator(o) => o.size_bits as nat + bits_to(o.subs@, o.subs@.len() as int) + 6,
    }
}

/// The bits that the first `n` packets take.
pub open spec fn bits_to(subs: Seq<PacketType>, n: int) -> nat
    decreases subs, n,
{
    if n <= 0 || n > subs.len() {
        0
    } else {
        bits_to(subs, n - 1) + bits_of(subs[n - 1])
    }
}

/// The sum of the versions of a packet and of the packets within it.
pub open spec fn versions_of(p: PacketType) -> nat
    decreases p, 0nat,
{
    match p {
        PacketType::Literal(l) => l.header.version as nat,
        PacketType::Operator(o) => o.header.version as nat + versions_to(
            o.subs@,
            o.subs@.len() as int,
        ),
    }
}

/// The sum of the versions of the first `n` packets and of the packets within them.
pub open spec fn versions_to(subs: Seq<PacketType>, n: int) -> nat
    decreases subs, n,
{
    if n <= 0 || n > subs.len() {
        0
    } else {
        versions_to(subs, n - 1) + versions_of(subs[n - 1])
    }
}

/// The header of the packet at bit `bit`.
pub open spec fn is_header(hex: Seq<u8>, bit: int, h: PacketHeader) -> bool {
    h.version == bits_value(hex, bit, 3) && h.p_type == bits_value(hex, bit + 3, 3)
}

/// `p` is the packet that the bits from bit `bit` on write.
pub open spec fn is_packet(hex: Seq<u8>, bit: int, p: PacketType) -> bool
    decreases p, 0nat,
{
    match p {
        PacketType::Literal(l) => {
            &&& is_header(hex, bit, l.header)
            &&& l.header.p_type == 4
            &&& literal(hex, bit + 6, 0) == Some((l.value as nat, bit + 6 + l.bits))
        },
        PacketType::Operator(o) => {
            &&& is_header(hex, bit, o.header)
            &&& o.header.p_type != 4
            &&& is_operator(hex, bit + 6, o.size_bits as int, o.subs@)
        },
    }
}

/// The packets `subs` are what an operator packet holds whose header ends at bit `start`.
pub open spec fn is_operator(hex: Seq<u8>, start: int, size_bits: int, subs: Seq<PacketType>) -> bool
    decreases subs, subs.len() + 1,
{
    if bits_value(hex, start, 1) == 0 {
        &&& size_bits == 16
        &&& bits_to(subs, subs.len() as int) == bits_value(hex, start + 1, 15)
        &&& are_packets(hex, start + 16, subs, subs.len() as int)
    } else {
        &&& size_bits == 12
        &&& subs.len() == bits_value(hex, start + 1, 11)
        &&& are_packets(hex, start + 12, subs, subs.len() as int)
    }
}

/// The first `n` of the packets are what the bits from bit `bit` on write, one after the other.
pub open spec fn are_packets(hex: Seq<u8>, bit: int, subs: Seq<PacketType>, n: int) -> bool
    decreases subs, n,
{
    if n <= 0 || n > subs.len() {
        true
    } else {
        are_packets(hex, bit, subs, n - 1) && is_packet(
            hex,
            bit + bits_to(subs, n - 1),
            subs[n - 1],
        )
    }
}

impl PacketHeader {
    /// Reads the header of the packet at `start_bit`: three bits of version, three of type.
    pub fn from_bytes(hex: &Vec<u8>, start_bit: usize) -> (h: PacketHeader)
        requires
            start_bit + 6 <= 8 * hex.len(),
            start_bit + 6 <= usize::MAX,
        ensures
            is_header(hex@, start_bit as int, h),
            h.version < 8,
            h.p_type < 8,
    {
        proof {
            lemma_two_to_16();
        }
        PacketHeader {
            version: read_n_bits_at(hex, start_bit, 3) as u8,
            p_type: read_n_bits_at(hex, start_bit + 3, 3) as u8,
        }
    }
}

impl LiteralPacket {
    /// The four bits of the group at `bit`, and whether it is the last group.
    pub fn get_group_at(hex: &Vec<u8>, bit: usize) -> (g: (usize, bool))
        requires
            bit + 5 <= 8 * hex.len(),
            bit + 5 <= usize::MAX,
        ensures
            g.0 == bits_value(hex@, bit + 1, 4),
            g.0 < 16,
            g.1 == (bits_value(hex@, bit as int, 1) != 1),
    {
        proof {
            lemma_two_to_16();
        }
        (read_n_bits_at(hex, bit + 1, 4), read_n_bits_at(hex, bit, 1) != 1)
    }

    /// Reads the groups of a literal packet, whose header `h` ends at `start_bit`.
    pub fn from_bytes(h: PacketHeader, hex: &Vec<u8>, start_bit: usize) -> (r: Option<
        LiteralPacket,
    >)
        requires
            8 * hex.len() <= usize::MAX,
        ensures
            match r {
                Some(p) => {
                    &&& p.header == h
                    &&& literal(hex@, start_bit as int, 0) == Some(
                        (p.value as nat, start_bit + p.bits),
                    )
                    &&& start_bit + p.bits <= 8 * hex.len()
                    &&& p.bits >= 5
                },
                None => match literal(hex@, start_bit as int, 0) {
                    Some((v, e)) => v > usize::MAX,
                    None => true,
                },
            },
    {
        let mut bit = start_bit;
        let mut value: usize = 0;
        loop
            invariant_except_break
                literal(hex@, start_bit as int, 0) == literal(hex@, bit as int, value as nat),
            invariant
                8 * hex.len() <= usize::MAX,
                start_bit <= bit,
            ensures
                start_bit + 5 <= bit <= 8 * hex.len(),
                literal(hex@, start_bit as int, 0) == Some((value as nat, bit as int)),
            decreases 8 * hex.len() - bit + 1,
        {
            if !has_bits(hex, bit, 5) {
                return None;
            }
            let (v, last) = LiteralPacket::get_group_at(hex, bit);
            let next = match value.checked_mul(16) {
                Some(x) => x.checked_add(v),
                None => None,
            };
            match next {
                Some(x) => {
                    value = x;
                },
                None => {
                    proof {
                        lemma_literal_grows(
                            hex@,
                            bit + 5,
                            (value * 16 + bits_value(hex@, bit + 1, 4)) as nat,
                        );
                    }
                    return None;
                },
            }
            bit += 5;
            if last {
                break ;
            }
        }
        Some(LiteralPacket { header: h, bits: bit - start_bit, value })
    }

    /// The bits of the packet, its header among them.
    pub fn bits_consumed(&self) -> (n: usize)
        requires
            self.bits + 6 <= usize::MAX,
        ensures
            n == self.bits + 6,
    {
        self.bits + 6
    }
}

proof fn lemma_push(hex: Seq<u8>, bit: int, subs: Seq<PacketType>, p: PacketType, n: int)
    requires
        0 <= n <= subs.len(),
    ensures
        bits_to(subs.push(p), n) == bits_to(subs, n),
        versions_to(subs.push(p), n) == versions_to(subs, n),
        values_to(subs.push(p), n) == values_to(subs, n),
        are_packets(hex, bit, subs.push(p), n) == are_packets(hex, bit, subs, n),
    decreases n,
{
    if n > 0 {
        lemma_push(hex, bit, subs, p, n - 1);
        assert(subs.push(p)[n - 1] == subs[n - 1]);
    }
}

proof fn lemma_bits_grow(subs: Seq<PacketType>, i: int, n: int)
    requires
        0 <= i <= n <= subs.len(),
    ensures
        bits_to(subs, i) <= bits_to(subs, n),
        versions_to(subs, i) <= versions_to(subs, n),
    decreases n - i,
{
    if i < n {
        lemma_bits_grow(subs, i, n - 1);
    }
}

/// One more packet read of those that fill a given number of bits.
proof fn lemma_step_len(
    hex: Seq<u8>,
    first: int,
    subs: Seq<PacketType>,
    p: PacketType,
    at: int,
    left: int,
    total: int,
)
    requires
        at == first + bits_to(subs, subs.len() as int),
        total == bits_to(subs, subs.len() as int) + left,
        left > 0,
        are_packets(hex, first, subs, subs.len() as int),
        subs_end_by_len(hex, first, total) == subs_end_by_len(hex, at, left),
        is_packet(hex, at, p),
        packet_end(hex, at) == Some(at + bits_of(p)),
        at + bits_of(p) <= 8 * hex.len(),
        bits_of(p) >= 11,
    ensures
        bits_to(subs.push(p), subs.len() as int + 1) == bits_to(subs, subs.len() as int) + bits_of(p),
        are_packets(hex, first, subs.push(p), subs.len() as int + 1),
        bits_of(p) <= left ==> subs_end_by_len(hex, first, total) == subs_end_by_len(
            hex,
            at + bits_of(p),
            left - bits_of(p),
        ),
        bits_of(p) > left ==> subs_end_by_len(hex, first, total) is None,
{
    lemma_push(hex, first, subs, p, subs.len() as int);
    assert(subs.push(p)[subs.len() as int] == p);
}

/// One more packet read of a given number of packets.
proof fn lemma_step_count(
    hex: Seq<u8>,
    first: int,
    subs: Seq<PacketType>,
    p: PacketType,
    at: int,
    left: int,
    total: int,
)
    requires
        at == first + bits_to(subs, subs.len() as int),
        left > 0,
        are_packets(hex, first, subs, subs.len() as int),
        subs_end_by_count(hex, first, total) == subs_end_by_count(hex, at, left),
        is_packet(hex, at, p),
        packet_end(hex, at) == Some(at + bits_of(p)),
        at + bits_of(p) <= 8 * hex.len(),
        bits_of(p) >= 11,
    ensures
        bits_to(subs.push(p), subs.len() as int + 1) == bits_to(subs, subs.len() as int) + bits_of(p),
        are_packets(hex, first, subs.push(p), subs.len() as int + 1),
        subs_end_by_count(hex, first, total) == subs_end_by_count(hex, at + bits_of(p), left - 1),
{
    lemma_push(hex, first, subs, p, subs.len() as int);
    assert(subs.push(p)[subs.len() as int] == p);
}

proof fn lemma_no_packet(hex: Seq<u8>, at: int, left: int)
    requires
        left > 0,
        packet_end(hex, at) is None,
    ensures
        subs_end_by_len(hex, at, left) is None,
        subs_end_by_count(hex, at, left) is None,
{
}

proof fn lemma_operator_end(hex: Seq<u8>, start: int)
    requires
        0 <= start,
        start + 1 <= 8 * hex.len(),
    ensures
        bits_value(hex, start, 1) == 0 && start + 16 <= 8 * hex.len() ==> operator_end(hex, start)
            == subs_end_by_len(hex, start + 16, bits_value(hex, start + 1, 15) as int),
        bits_value(hex, start, 1) == 0 && start + 16 > 8 * hex.len() ==> operator_end(hex, start)
            is None,
        bits_value(hex, start, 1) != 0 && start + 12 <= 8 * hex.len() ==> operator_end(hex, start)
            == subs_end_by_count(hex, start + 12, bits_value(hex, start + 1, 11) as int),
        bits_value(hex, start, 1) != 0 && start + 12 > 8 * hex.len() ==> operator_end(hex, start)
            is None,
{
}

proof fn lemma_subs_done(hex: Seq<u8>, start: int)
    ensures
        subs_end_by_len(hex, start, 0) == Some(start),
        subs_end_by_count(hex, start, 0) == Some(start),
{
}

impl PacketType {
    /// The bits of the packet.
    pub fn bits_consumed(&self) -> (n: usize)
        requires
            bits_of(*self) <= usize::MAX,
        ensures
            n == bits_of(*self),
        decreases self, 1nat,
    {
        match self {
            PacketType::Operator(p) => p.bits_consumed(),
            PacketType::Literal(p) => p.bits_consumed(),
        }
    }

    /// The sum of the versions of the packet and of the packets within it,
    /// if it fits a `usize`.
    pub fn count_vers(&self) -> (r: Option<usize>)
        ensures
            match r {
                Some(v) => v == versions_of(*self),
                None => versions_of(*self) > usize::MAX,
            },
        decreases self, 1nat,
    {
        match self {
            PacketType::Operator(p) => p.count_vers(),
            PacketType::Literal(p) => Some(p.header.version as usize),
        }
    }

    /// The value of the packet, if the values on the way to it fit a `usize`
    /// and every comparison in it has two packets to compare.
    pub fn resolve(&self) -> (r: Option<usize>)
        ensures
            match r {
                Some(v) => value_of(*self) == Some(v as nat),
                None => value_of(*self) is None,
            },
        decreases self, 1nat,
    {
        match self {
            PacketType::Operator(p) => p.resolve(),
            PacketType::Literal(p) => Some(p.value),
        }
    }
}

impl OperatorPacket {
    /// Reads what an operator packet holds, whose header `h` ends at `start_bit`.
    pub fn from_bytes(h: PacketHeader, hex: &Vec<u8>, start_bit: usize) -> (r: Option<
        OperatorPacket,
    >)
        requires
            8 * hex.len() <= usize::MAX,
        ensures
            match r {
                Some(o) => {
                    &&& o.header == h
                    &&& is_operator(hex@, start_bit as int, o.size_bits as int, o.subs@)
                    &&& operator_end(hex@, start_bit as int) == Some(
                        start_bit + o.size_bits + bits_to(o.subs@, o.subs@.len() as int),
                    )
                    &&& start_bit + o.size_bits + bits_to(o.subs@, o.subs@.len() as int) <= 8
                        * hex.len()
                    &&& (o.size_bits == 12 || o.size_bits == 16)
                },
                None => operator_end(hex@, start_bit as int) is None,
            },
        decreases 8 * hex.len() - start_bit, 0nat,
    {
        if !has_bits(hex, start_bit, 1) {
            return None;
        }
        proof {
            lemma_operator_end(hex@, start_bit as int);
        }
        let i = read_n_bits_at(hex, start_bit, 1);
        let mut subs: Vec<PacketType> = Vec::new();
        if i == 0 {
            if !has_bits(hex, start_bit, 16) {
                return None;
            }
            let total = read_n_bits_at(hex, start_bit + 1, 15);
            let mut sub_bits = total;
            let mut sub_start_bit = start_bit + 16;
            let ghost whole = subs_end_by_len(hex@, start_bit + 16, total as int);
            while sub_bits > 0
                invariant
                    8 * hex.len() <= usize::MAX,
                    start_bit + 16 <= sub_start_bit <= 8 * hex.len(),
                    sub_start_bit == start_bit + 16 + bits_to(subs@, subs@.len() as int),
                    total == bits_to(subs@, subs@.len() as int) + sub_bits,
                    are_packets(hex@, start_bit + 16, subs@, subs@.len() as int),
                    whole == subs_end_by_len(hex@, start_bit + 16, total as int),
                    whole == operator_end(hex@, start_bit as int),
                    whole == subs_end_by_len(hex@, sub_start_bit as int, sub_bits as int),
                decreases 8 * hex.len() - sub_start_bit,
            {
                let mut consumed: usize = 0;
                let sub = match PacketType::from_hexa(hex, sub_start_bit, &mut consumed) {
                    Some(p) => p,
                    None => {
                        proof {
                            lemma_no_packet(hex@, sub_start_bit as int, sub_bits as int);
                        }
                        return None;
                    },
                };
                proof {
                    lemma_step_len(
                        hex@,
                        start_bit + 16,
                        subs@,
                        sub,
                        sub_start_bit as int,
                        sub_bits as int,
                        total as int,
                    );
                }
                if consumed > sub_bits {
                    return None;
                }
                subs.push(sub);
                sub_start_bit += consumed;
                sub_bits -= consumed;
            }
            proof {
                lemma_subs_done(hex@, sub_start_bit as int);
            }
            Some(OperatorPacket { header: h, subs, size_bits: 16 })
        } else {
            if !has_bits(hex, start_bit, 12) {
                return None;
            }
            let sub_count = read_n_bits_at(hex, start_bit + 1, 11);
            let mut sub_start_bit = start_bit + 12;
            let mut k: usize = 0;
            let ghost whole = subs_end_by_count(hex@, start_bit + 12, sub_count as int);
            while k < sub_count
                invariant
                    k <= sub_count,
                    8 * hex.len() <= usize::MAX,
                    start_bit + 12 <= sub_start_bit <= 8 * hex.len(),
                    subs@.len() == k,
                    sub_start_bit == start_bit + 12 + bits_to(subs@, subs@.len() as int),
                    are_packets(hex@, start_bit + 12, subs@, subs@.len() as int),
                    whole == subs_end_by_count(hex@, start_bit + 12, sub_count as int),
                    whole == operator_end(hex@, start_bit as int),
                    whole == subs_end_by_count(hex@, sub_start_bit as int, sub_count - k),
                decreases sub_count - k,
            {
                let mut consumed: usize = 0;
                let sub = match PacketType::from_hexa(hex, sub_start_bit, &mut consumed) {
                    Some(p) => p,
                    None => {
                        proof {
                            lemma_no_packet(hex@, sub_start_bit as int, sub_count - k);
                        }
                        return None;
                    },
                };
                proof {
                    lemma_step_count(
                        hex@,
                        start_bit + 12,
                        subs@,
                        sub,
                        sub_start_bit as int,
                        sub_count - k,
                        sub_count as int,
                    );
                }
                subs.push(sub);
                sub_start_bit += consumed;
                k += 1;
            }
            proof {
                lemma_subs_done(hex@, sub_start_bit as int);
            }
            Some(OperatorPacket { header: h, subs, size_bits: 12 })
        }
    }

    /// The bits of the packet, its header and the packets that it holds among them.
    pub fn bits_consumed(&self) -> (n: usize)
        requires
            self.size_bits + bits_to(self.subs@, self.subs@.len() as int) + 6 <= usize::MAX,
        ensures
            n == self.size_bits + bits_to(self.subs@, self.subs@.len() as int) + 6,
        decreases self, 0nat,
    {
        let mut sub_size: usize = 0;
        let mut i: usize = 0;
        while i < self.subs.len()
            invariant
                i <= self.subs.len(),
                sub_size == bits_to(self.subs@, i as int),
                self.size_bits + bits_to(self.subs@, self.subs@.len() as int) + 6 <= usize::MAX,
            decreases self.subs.len() - i,
        {
            proof {
                lemma_bits_grow(self.subs@, i + 1, self.subs@.len() as int);
                assert(bits_to(self.subs@, i + 1) == bits_to(self.subs@, i as int) + bits_of(
                    self.subs@[i as int],
                ));
            }
            let one = self.subs[i].bits_consumed();
            sub_size = sub_size + one;
            i += 1;
        }
        self.size_bits + sub_size + 6
    }

    /// The sum of the versions of the packet and of the packets within it,
    /// if it fits a `usize`.
    pub fn count_vers(&self) -> (r: Option<usize>)
        ensures
            match r {
                Some(v) => v == self.header.version + versions_to(
                    self.subs@,
                    self.subs@.len() as int,
                ),
                None => self.header.version + versions_to(self.subs@, self.subs@.len() as int)
                    > usize::MAX,
            },
        decreases self, 0nat,
    {
        let mut v: usize = self.header.version as usize;
        let mut i: usize = 0;
        while i < self.subs.len()
            invariant
                i <= self.subs.len(),
                v == self.header.version + versions_to(self.subs@, i as int),
            decreases self.subs.len() - i,
        {
            proof {
                lemma_bits_grow(self.subs@, i + 1, self.subs@.len() as int);
                assert(versions_to(self.subs@, i + 1) == versions_to(self.subs@, i as int)
                    + versions_of(self.subs@[i as int]));
            }
            let next = match self.subs[i].count_vers() {
                Some(x) => v.checked_add(x),
                None => None,
            };
            match next {
                Some(x) => {
                    v = x;
                },
                None => {
                    return None;
                },
            }
            i += 1;
        }
        Some(v)
    }
}

// ----- the values of packets -----
/// The value of a packet, if the values on the way to it fit a `usize` and
/// every comparison in it has two packets to compare.
pub open spec fn value_of(p: PacketType) -> Option<nat>
    decreases p, 0nat,
{
    match p {
        PacketType::Literal(l) => Some(l.value as nat),
        PacketType::Operator(o) => match values_to(o.subs@, o.subs@.len() as int) {
            Some(values) => combine(o.header.p_type as int, values, values.len() as int),
            None => None,
        },
    }
}

/// The values of the first `n` packets.
pub open spec fn values_to(subs: Seq<PacketType>, n: int) -> Option<Seq<nat>>
    decreases subs, n,
{
    if n <= 0 || n > subs.len() {
        Some(Seq::<nat>::empty())
    } else {
        match (values_to(subs, n - 1), value_of(subs[n - 1])) {
            (Some(vs), Some(v)) => Some(vs.push(v)),
            _ => None,
        }
    }
}

/// What an operator of the type `kind` makes of the first `n` values:
/// their sum, their product, the least or the greatest of them, or 1 where
/// the first is greater than, less than or equal to the second, and else 0.
pub open spec fn combine(kind: int, vs: Seq<nat>, n: int) -> Option<nat>
    decreases n,
{
    if kind == 0 {
        if n <= 0 {
            Some(0)
        } else {
            match combine(kind, vs, n - 1) {
                Some(s) => if s + vs[n - 1] <= usize::MAX {
                    Some(s + vs[n - 1])
                } else {
                    None
                },
                None => None,
            }
        }
    } else if kind == 1 {
        if n <= 0 {
            Some(1)
        } else {
            match combine(kind, vs, n - 1) {
                Some(s) => if s * vs[n - 1] <= usize::MAX {
                    Some(s * vs[n - 1])
                } else {
                    None
                },
                None => None,
            }
        }
    } else if kind == 2 {
        if n <= 0 {
            Some(usize::MAX as nat)
        } else {
            match combine(kind, vs, n - 1) {
                Some(s) => if vs[n - 1] < s {
                    Some(vs[n - 1])
                } else {
                    Some(s)
                },
                None => None,
            }
        }
    } else if kind == 3 {
        if n <= 0 {
            Some(0)
        } else {
            match combine(kind, vs, n - 1) {
                Some(s) => if vs[n - 1] > s {
                    Some(vs[n - 1])
                } else {
                    Some(s)
                },
                None => None,
            }
        }
    } else if kind == 5 || kind == 6 || kind == 7 {
        if vs.len() < 2 {
            None
        } else if (kind == 5 && vs[0] > vs[1]) || (kind == 6 && vs[0] < vs[1]) || (kind == 7
            && vs[0] == vs[1]) {
            Some(1)
        } else {
            Some(0)
        }
    } else {
        Some(0)
    }
}

/// The values as `usize` numbers.
pub open spec fn as_nats(values: Seq<usize>) -> Seq<nat> {
    values.map_values(|v: usize| v as nat)
}

impl OperatorPacket {
    /// The value of the packet, if the values on the way to it fit a `usize`
    /// and every comparison in it has two packets to compare.
    pub fn resolve(&self) -> (r: Option<usize>)
        ensures
            match r {
                Some(v) => value_of_operator(self.header.p_type as int, self.subs@) == Some(
                    v as nat,
                ),
                None => value_of_operator(self.header.p_type as int, self.subs@) is None,
            },
        decreases self, 0nat,
    {
        let mut values: Vec<usize> = Vec::new();
        let mut i: usize = 0;
        proof {
            assert(as_nats(values@) =~= Seq::<nat>::empty());
        }
        while i < self.subs.len()
            invariant
                i <= self.subs.len(),
                values.len() == i,
                values_to(self.subs@, i as int) == Some(as_nats(values@)),
            decreases self.subs.len() - i,
        {
            proof {
                assert(values_to(self.subs@, i + 1) == match (
                    values_to(self.subs@, i as int),
                    value_of(self.subs@[i as int]),
                ) {
                    (Some(vs), Some(v)) => Some(vs.push(v)),
                    _ => None,
                });
            }
            match self.subs[i].resolve() {
                Some(v) => {
                    let ghost before = values@;
                    values.push(v);
                    proof {
                        assert(as_nats(values@) =~= as_nats(before).push(v as nat));
                    }
                },
                None => {
                    proof {
                        lemma_values_fail(self.subs@, i + 1, self.subs@.len() as int);
                    }
                    return None;
                },
            }
            i += 1;
        }
        let kind = self.header.p_type;
        let ghost vs = as_nats(values@);
        if kind == 0 || kind == 1 || kind == 2 || kind == 3 {
            let mut ret: usize = if kind == 0 || kind == 3 {
                0
            } else if kind == 1 {
                1
            } else {
                usize::MAX
            };
            let mut j: usize = 0;
            while j < values.len()
                invariant
                    j <= values.len(),
                    kind == 0 || kind == 1 || kind == 2 || kind == 3,
                    kind == self.header.p_type,
                    vs == as_nats(values@),
                    vs.len() == values.len(),
                    values_to(self.subs@, self.subs@.len() as int) == Some(vs),
                    combine(kind as int, vs, j as int) == Some(ret as nat),
                decreases values.len() - j,
            {
                let x = values[j];
                proof {
                    assert(vs[j as int] == x as nat);
                }
                let next = if kind == 0 {
                    ret.checked_add(x)
                } else if kind == 1 {
                    ret.checked_mul(x)
                } else if kind == 2 {
                    if x < ret {
                        Some(x)
                    } else {
                        Some(ret)
                    }
                } else {
                    if x > ret {
                        Some(x)
                    } else {
                        Some(ret)
                    }
                };
                match next {
                    Some(v) => {
                        ret = v;
                    },
                    None => {
                        proof {
                            assert(combine(kind as int, vs, j + 1) is None);
                            lemma_combine_fail(kind as int, vs, j + 1, vs.len() as int);
                        }
                        return None;
                    },
                }
                j += 1;
            }
            Some(ret)
        } else if kind == 5 || kind == 6 || kind == 7 {
            if values.len() < 2 {
                return None;
            }
            proof {
                assert(vs[0] == values@[0] as nat);
                assert(vs[1] == values@[1] as nat);
            }
            let a = values[0];
            let b = values[1];
            if (kind == 5 && a > b) || (kind == 6 && a < b) || (kind == 7 && a == b) {
                Some(1)
            } else {
                Some(0)
            }
        } else {
            Some(0)
        }
    }
}

/// The value of an operator packet of the type `kind` that holds `subs`.
pub open spec fn value_of_operator(kind: int, subs: Seq<PacketType>) -> Option<nat> {
    match values_to(subs, subs.len() as int) {
        Some(values) => combine(kind, values, values.len() as int),
        None => None,
    }
}

proof fn lemma_values_fail(subs: Seq<PacketType>, i: int, n: int)
    requires
        0 <= i <= n <= subs.len(),
        values_to(subs, i) is None,
    ensures
        values_to(subs, n) is None,
    decreases n - i,
{
    if i < n {
        lemma_values_fail(subs, i, n - 1);
    }
}

proof fn lemma_combine_fail(kind: int, vs: Seq<nat>, i: int, n: int)
    requires
        0 <= kind <= 3,
        0 <= i <= n,
        combine(kind, vs, i) is None,
    ensures
        combine(kind, vs, n) is None,
    decreases n - i,
{
    if i < n {
        lemma_combine_fail(kind, vs, i, n - 1);
    }
}

impl PacketType {
    /// Reads the packet at `start_bit` and stores in `size_bits` how many bits it takes.
    pub fn from_hexa(bytes: &Vec<u8>, start_bit: usize, size_bits: &mut usize) -> (r: Option<
        PacketType,
    >)
        requires
            8 * bytes.len() <= usize::MAX,
        ensures
            match r {
                Some(p) => {
                    &&& is_packet(bytes@, start_bit as int, p)
                    &&& packet_end(bytes@, start_bit as int) == Some(start_bit + bits_of(p))
                    &&& start_bit + bits_of(p) <= 8 * bytes.len()
                    &&& *final(size_bits) == bits_of(p)
                    &&& bits_of(p) >= 11
                },
                None => packet_end(bytes@, start_bit as int) is None && *final(size_bits) == *old(
                    size_bits,
                ),
            },
        decreases 8 * bytes.len() - start_bit, 1nat,
    {
        if !has_bits(bytes, start_bit, 6) {
            return None;
        }
        let header = PacketHeader::from_bytes(bytes, start_bit);
        if header.p_type == 4 {
            match LiteralPacket::from_bytes(header, bytes, start_bit + 6) {
                Some(p) => {
                    *size_bits = p.bits_consumed();
                    Some(PacketType::Literal(p))
                },
                None => None,
            }
        } else {
            match OperatorPacket::from_bytes(header, bytes, start_bit + 6) {
                Some(p) => {
                    *size_bits = p.bits_consumed();
                    Some(PacketType::Operator(p))
                },
                None => None,
            }
        }
    }
}

// ----- the transmission -----
/// The value of a figure to the base 16.
pub open spec fn hex_value(b: u8) -> Option<u8> {
    if 48 <= b <= 57 {
        Some((b - 48) as u8)
    } else if 97 <= b <= 102 {
        Some((b - 87) as u8)
    } else if 65 <= b <= 70 {
        Some((b - 55) as u8)
    } else {
        None
    }
}

/// The byte that two figures to the base 16 write; a plus sign may stand
/// for the first.
pub open spec fn pair_value(a: u8, b: u8) -> Option<u8> {
    match (hex_value(a), hex_value(b)) {
        (Some(h), Some(l)) => Some((16 * h + l) as u8),
        (None, Some(l)) => if a == 43 {
            Some(l)
        } else {
            None
        },
        _ => None,
    }
}

/// The bytes that the figures write, two by two.
pub open spec fn decoded(s: Seq<u8>) -> Option<Seq<u8>> {
    if s.len() % 2 == 0 && forall|k: int|
        0 <= k < s.len() / 2 ==> (#[trigger] pair_value(s[2 * k], s[2 * k + 1])) is Some {
        Some(Seq::new(s.len() / 2, |k: int| pair_value(s[2 * k], s[2 * k + 1]).unwrap()))
    } else {
        None
    }
}

fn hex_digit(b: u8) -> (r: Option<u8>)
    ensures
        r == hex_value(b),
{
    if 48 <= b && b <= 57 {
        Some(b - 48)
    } else if 97 <= b && b <= 102 {
        Some(b - 87)
    } else if 65 <= b && b <= 70 {
        Some(b - 55)
    } else {
        None
    }
}

fn hex_pair(a: u8, b: u8) -> (r: Option<u8>)
    ensures
        r == pair_value(a, b),
{
    match (hex_digit(a), hex_digit(b)) {
        (Some(h), Some(l)) => Some(16 * h + l),
        (None, Some(l)) => if a == 43 {
            Some(l)
        } else {
            None
        },
        _ => None,
    }
}

/// The bytes that the figures write.
pub fn decode(s: &[u8]) -> (r: Option<Vec<u8>>)
    ensures
        match r {
            Some(v) => decoded(s@) == Some(v@),
            None => decoded(s@) is None,
        },
{
    if s.len() % 2 != 0 {
        return None;
    }
    let mut out: Vec<u8> = Vec::new();
    let mut k: usize = 0;
    while k < s.len() / 2
        invariant
            k <= s.len() / 2,
            s.len() % 2 == 0,
            out.len() == k,
            forall|j: int| 0 <= j < k ==> pair_value(s[2 * j], s[2 * j + 1]) == Some(#[trigger] out[j]),
        decreases s.len() / 2 - k,
    {
        match hex_pair(s[2 * k], s[2 * k + 1]) {
            Some(v) => {
                out.push(v);
            },
            None => {
                assert(pair_value(s[2 * k as int], s[2 * k as int + 1]) is None);
                return None;
            },
        }
        k += 1;
    }
    proof {
        assert forall|j: int| 0 <= j < s.len() as int / 2 implies (#[trigger] pair_value(
            s[2 * j],
            s[2 * j + 1],
        )) is Some by {
            assert(pair_value(s[2 * j], s[2 * j + 1]) == Some(out[j]));
        }
        assert(out@ =~= decoded(s@).unwrap());
    }
    Some(out)
}

/// The bit behind the packets that follow each other from the bit `pos`
/// on, where each can be read: the first bit at or behind as many bits
/// as there are bytes.
pub open spec fn chain_end(bytes: Seq<u8>, pos: int) -> Option<int>
    decreases 8 * bytes.len() - pos,
{
    if pos < 0 || pos >= bytes.len() {
        Some(pos)
    } else {
        match packet_end(bytes, pos) {
            Some(e) => if pos < e <= 8 * bytes.len() {
                chain_end(bytes, e)
            } else {
                None
            },
            None => None,
        }
    }
}

/// The packets follow each other from the first bit on, and the last of
/// them ends at or behind as many bits as there are bytes.
pub open spec fn are_cases(bytes: Seq<u8>, cases: Seq<PacketType>) -> bool {
    &&& forall|i: int| 0 <= i < cases.len() ==> #[trigger] case_at(bytes, cases, i)
    &&& bits_to(cases, cases.len() as int) >= bytes.len()
}

/// The packet `i` is the one that is written behind those before it.
#[verifier::opaque]
pub open spec fn case_at(bytes: Seq<u8>, cases: Seq<PacketType>, i: int) -> bool {
    bits_to(cases, i) < bytes.len() && is_packet(bytes, bits_to(cases, i) as int, cases[i])
}

proof fn lemma_chain_step(bytes: Seq<u8>, pos: int, e: int)
    requires
        0 <= pos < bytes.len(),
        packet_end(bytes, pos) == Some(e),
        pos < e <= 8 * bytes.len(),
    ensures
        chain_end(bytes, pos) == chain_end(bytes, e),
{
}

proof fn lemma_chain_fail(bytes: Seq<u8>, pos: int)
    requires
        0 <= pos < bytes.len(),
        packet_end(bytes, pos) is None,
    ensures
        chain_end(bytes, pos) is None,
{
}

proof fn lemma_chain_done(bytes: Seq<u8>, pos: int)
    requires
        pos >= bytes.len(),
    ensures
        chain_end(bytes, pos) is Some,
{
}

proof fn lemma_case_push(bytes: Seq<u8>, cases: Seq<PacketType>, p: PacketType)
    requires
        forall|i: int| 0 <= i < cases.len() ==> #[trigger] case_at(bytes, cases, i),
        bits_to(cases, cases.len() as int) < bytes.len(),
        is_packet(bytes, bits_to(cases, cases.len() as int) as int, p),
    ensures
        forall|i: int| 0 <= i < cases.len() + 1 ==> #[trigger] case_at(bytes, cases.push(p), i),
        bits_to(cases.push(p), cases.len() as int + 1) == bits_to(cases, cases.len() as int)
            + bits_of(p),
{
    reveal(case_at);
    let next = cases.push(p);
    assert forall|i: int| 0 <= i < cases.len() + 1 implies #[trigger] case_at(bytes, next, i) by {
        lemma_bits_push(cases, p, i);
        if i < cases.len() {
            assert(case_at(bytes, cases, i));
            assert(next[i] == cases[i]);
        }
    }
    lemma_bits_push(cases, p, cases.len() as int);
    assert(next[cases.len() as int] == p);
}

/// The packets that follow each other from the first bit on; `None`
/// where one of them cannot be read.
pub fn read_cases(bytes: &Vec<u8>) -> (r: Option<Vec<PacketType>>)
    requires
        8 * bytes.len() <= usize::MAX,
    ensures
        match r {
            Some(cases) => are_cases(bytes@, cases@) && chain_end(bytes@, 0) is Some,
            None => chain_end(bytes@, 0) is None,
        },
{
    let mut cases: Vec<PacketType> = Vec::new();
    let mut last_pos: usize = 0;
    while last_pos < bytes.len()
        invariant
            8 * bytes.len() <= usize::MAX,
            last_pos == bits_to(cases@, cases.len() as int),
            last_pos <= 8 * bytes.len(),
            chain_end(bytes@, 0) == chain_end(bytes@, last_pos as int),
            forall|i: int| 0 <= i < cases.len() ==> #[trigger] case_at(bytes@, cases@, i),
        decreases 8 * bytes.len() - last_pos,
    {
        let mut consumed: usize = 0;
        let p = match PacketType::from_hexa(bytes, last_pos, &mut consumed) {
            Some(p) => p,
            None => {
                proof {
                    lemma_chain_fail(bytes@, last_pos as int);
                }
                return None;
            },
        };
        proof {
            lemma_chain_step(bytes@, last_pos as int, last_pos + consumed);
            lemma_case_push(bytes@, cases@, p);
        }
        cases.push(p);
        last_pos += consumed;
    }
    proof {
        lemma_chain_done(bytes@, last_pos as int);
    }
    Some(cases)
}

/// `r` gives the sum of the versions of the packets and the value of the
/// first packet, or says that one of them is too large.
pub open spec fn is_reading(cases: Seq<PacketType>, r: Result<(usize, usize), PuzzleError>) -> bool {
    let versions = versions_to(cases, cases.len() as int);
    match value_of(cases[0]) {
        Some(v) => if versions <= usize::MAX && v <= usize::MAX {
            r == Ok::<(usize, usize), PuzzleError>((versions as usize, v as usize))
        } else {
            r == Err::<(usize, usize), PuzzleError>(PuzzleError::Overflow)
        },
        None => r == Err::<(usize, usize), PuzzleError>(PuzzleError::Overflow),
    }
}

/// `r` is the answer for the transmission.
pub open spec fn is_answer(text: Seq<char>, r: Result<(usize, usize), PuzzleError>) -> bool {
    match decoded(trim(bytes_of(text))) {
        None => r == Err::<(usize, usize), PuzzleError>(PuzzleError::Parse(ParseError::Malformed)),
        Some(bytes) => if 8 * bytes.len() > usize::MAX {
            r == Err::<(usize, usize), PuzzleError>(PuzzleError::TooLarge)
        } else if bytes.len() == 0 || chain_end(bytes, 0) is None {
            r == Err::<(usize, usize), PuzzleError>(PuzzleError::Parse(ParseError::Malformed))
        } else {
            exists|cases: Seq<PacketType>|
                #[trigger] are_cases(bytes, cases) && cases.len() > 0 && is_reading(cases, r)
        },
    }
}

proof fn lemma_bits_push(cases: Seq<PacketType>, p: PacketType, n: int)
    requires
        0 <= n <= cases.len(),
    ensures
        bits_to(cases.push(p), n) == bits_to(cases, n),
        versions_to(cases.push(p), n) == versions_to(cases, n),
    decreases n,
{
    if n > 0 {
        lemma_bits_push(cases, p, n - 1);
        assert(cases.push(p)[n - 1] == cases[n - 1]);
    }
}

/// The sum of the versions of the packets, where it fits.
fn sum_versions(cases: &Vec<PacketType>) -> (r: Option<usize>)
    ensures
        match r {
            Some(v) => v == versions_to(cases@, cases.len() as int),
            None => versions_to(cases@, cases.len() as int) > usize::MAX,
        },
{
    let mut vers: usize = 0;
    let mut k: usize = 0;
    while k < cases.len()
        invariant
            k <= cases.len(),
            vers == versions_to(cases@, k as int),
        decreases cases.len() - k,
    {
        let next = match cases[k].count_vers() {
            Some(v) => vers.checked_add(v),
            None => None,
        };
        match next {
            Some(v) => {
                vers = v;
            },
            None => {
                proof {
                    lemma_versions_grow(cases@, k + 1, cases.len() as int);
                }
                return None;
            },
        }
        k += 1;
    }
    Some(vers)
}

/// The sum of the versions of the packets of the transmission and the
/// value of its first packet.
pub fn run(contents: &str) -> (r: Result<(usize, usize), PuzzleError>)
    ensures
        is_answer(contents@, r),
{
    let val = trim_bytes(contents.as_bytes());
    let bytes = match decode(val.as_slice()) {
        Some(b) => b,
        None => {
            return Err(PuzzleError::Parse(ParseError::Malformed));
        },
    };
    if bytes.len() > usize::MAX / 8 {
        return Err(PuzzleError::TooLarge);
    }
    if bytes.len() == 0 {
        return Err(PuzzleError::Parse(ParseError::Malformed));
    }
    let cases = match read_cases(&bytes) {
        Some(c) => c,
        None => {
            return Err(PuzzleError::Parse(ParseError::Malformed));
        },
    };
    assert(cases.len() > 0) by {
        if cases.len() == 0 {
            assert(bits_to(cases@, 0) == 0);
        }
    }
    let vers = sum_versions(&cases);
    let value = cases[0].resolve();
    let r = match (vers, value) {
        (Some(n), Some(v)) => Ok((n, v)),
        _ => Err(PuzzleError::Overflow),
    };
    proof {
        assert(is_reading(cases@, r));
    }
    r
}

proof fn lemma_versions_grow(cases: Seq<PacketType>, k: int, n: int)
    requires
        0 <= k <= n <= cases.len(),
    ensures
        versions_to(cases, k) <= versions_to(cases, n),
    decreases n,
{
    if k < n {
        lemma_versions_grow(cases, k, n - 1);
    }
}

} // verus!
