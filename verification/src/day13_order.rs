//! The order of distress packets.

use crate::day13::{Packet, ValueType};
use std::cmp::Ordering;
use vstd::prelude::*;

verus! {

/// How two packets stand to each other.
#[derive(Clone, Copy, Debug, PartialEq, Eq, Structural)]
pub enum Order {
    Less,
    Equal,
    Greater,
}

/// The order of two numbers.
pub open spec fn number_order(a: usize, b: usize) -> Order {
    if a < b {
        Order::Less
    } else if a == b {
        Order::Equal
    } else {
        Order::Greater
    }
}

/// The order of two packets: numbers by their value, lists item by item
/// and, where one list ends first, the shorter before the longer; a number
/// stands to a list as the list of that number alone.
pub open spec fn packet_order(a: Packet, b: Packet) -> Order
    decreases a, b, 0nat,
{
    match (a.packet_type, b.packet_type) {
        (ValueType::Integer(x), ValueType::Integer(y)) => number_order(x, y),
        (ValueType::List, ValueType::List) => lists_order(a.sub_packets@, b.sub_packets@, 0),
        (ValueType::Integer(_), ValueType::List) => one_to_list(a, b.sub_packets@),
        (ValueType::List, ValueType::Integer(_)) => list_to_one(a.sub_packets@, b),
    }
}

/// The order of two lists from their items `i` on.
pub open spec fn lists_order(a: Seq<Packet>, b: Seq<Packet>, i: int) -> Order
    decreases a, b, a.len() + b.len() - i,
{
    if i < 0 {
        Order::Equal
    } else if i >= a.len() || i >= b.len() {
        if a.len() < b.len() {
            Order::Less
        } else if a.len() == b.len() {
            Order::Equal
        } else {
            Order::Greater
        }
    } else {
        match packet_order(a[i], b[i]) {
            Order::Equal => lists_order(a, b, i + 1),
            r => r,
        }
    }
}

/// The order of the list of the one packet `a` to the list `b`.
pub open spec fn one_to_list(a: Packet, b: Seq<Packet>) -> Order
    decreases a, b, b.len() + 1,
{
    if b.len() == 0 {
        Order::Greater
    } else {
        match packet_order(a, b[0]) {
            Order::Equal => if b.len() == 1 {
                Order::Equal
            } else {
                Order::Less
            },
            r => r,
        }
    }
}

/// The order of the list `a` to the list of the one packet `b`.
pub open spec fn list_to_one(a: Seq<Packet>, b: Packet) -> Order
    decreases a, b, a.len() + 1,
{
    if a.len() == 0 {
        Order::Less
    } else {
        match packet_order(a[0], b) {
            Order::Equal => if a.len() == 1 {
                Order::Equal
            } else {
                Order::Greater
            },
            r => r,
        }
    }
}

/// The order as the standard library names it.
pub open spec fn is_order(o: Ordering, r: Order) -> bool {
    match r {
        Order::Less => o == Ordering::Less,
        Order::Equal => o == Ordering::Equal,
        Order::Greater => o == Ordering::Greater,
    }
}

fn compare_numbers(a: usize, b: usize) -> (r: Ordering)
    ensures
        is_order(r, number_order(a, b)),
{
    if a < b {
        Ordering::Less
    } else if a == b {
        Ordering::Equal
    } else {
        Ordering::Greater
    }
}

impl Packet {
    /// How the packet stands to `second`.
    pub fn compare(&self, second: &Packet) -> (r: Ordering)
        ensures
            is_order(r, packet_order(*self, *second)),
        decreases *self, *second,
    {
        match (&self.packet_type, &second.packet_type) {
            (ValueType::Integer(a), ValueType::Integer(b)) => compare_numbers(*a, *b),
            (ValueType::List, ValueType::List) => {
                let len = if self.sub_packets.len() < second.sub_packets.len() {
                    self.sub_packets.len()
                } else {
                    second.sub_packets.len()
                };
                let mut i: usize = 0;
                let ghost mut at: int = 0;
                while i < len
                    invariant
                        i <= len,
                        at == i,
                        self.packet_type is List,
                        second.packet_type is List,
                        len <= self.sub_packets.len(),
                        len <= second.sub_packets.len(),
                        len == self.sub_packets.len() || len == second.sub_packets.len(),
                        lists_order(self.sub_packets@, second.sub_packets@, 0) == lists_order(
                            self.sub_packets@,
                            second.sub_packets@,
                            at,
                        ),
                    decreases len - i,
                {
                    let r = self.sub_packets[i].compare(&second.sub_packets[i]);
                    match r {
                        Ordering::Less | Ordering::Greater => {
                            return r;
                        },
                        _ => {},
                    }
                    i += 1;
                    proof {
                        at = at + 1;
                    }
                }
                compare_numbers(self.sub_packets.len(), second.sub_packets.len())
            },
            (ValueType::Integer(_), ValueType::List) => {
                if second.sub_packets.len() == 0 {
                    return Ordering::Greater;
                }
                match self.compare(&second.sub_packets[0]) {
                    Ordering::Equal => if second.sub_packets.len() == 1 {
                        Ordering::Equal
                    } else {
                        Ordering::Less
                    },
                    r => r,
                }
            },
            (ValueType::List, ValueType::Integer(_)) => {
                if self.sub_packets.len() == 0 {
                    return Ordering::Less;
                }
                match self.sub_packets[0].compare(second) {
                    Ordering::Equal => if self.sub_packets.len() == 1 {
                        Ordering::Equal
                    } else {
                        Ordering::Greater
                    },
                    r => r,
                }
            },
        }
    }

    /// The packet stands before `second`.
    pub fn is_before(&self, second: &Packet) -> (b: bool)
        ensures
            b == (packet_order(*self, *second) == Order::Less),
    {
        match self.compare(second) {
            Ordering::Less => true,
            _ => false,
        }
    }

    /// The packet stands neither before nor after `second`.
    pub fn is_same(&self, second: &Packet) -> (b: bool)
        ensures
            b == (packet_order(*self, *second) == Order::Equal),
    {
        match self.compare(second) {
            Ordering::Equal => true,
            _ => false,
        }
    }
}

} // verus!
