//! Distress signal: packets of numbers and lists.

use crate::day13_order::{Order, packet_order};
use crate::errors::{ParseError, PuzzleError};
use crate::text::{
    bytes_of, decimal, decimal_string, digits_value, is_digit, lemma_digits_prefix, lines,
    rows_view, split_lines, string_bytes,
};
use crate::traits::AdventOfCode;
use vstd::prelude::*;

verus! {

pub enum ValueType {
    Integer(usize),
    List,
}

/// A packet: a number, or a list of packets.
pub struct Packet {
    pub packet_type: ValueType,
    pub sub_packets: Vec<Packet>,
}

/// What a packet holds.
pub enum Tree {
    Number(nat),
    List(Seq<Tree>),
}

/// What the packet holds: its number, or what its packets hold.
pub open spec fn tree_of(p: Packet) -> Tree
    decreases p, 0nat,
{
    match p.packet_type {
        ValueType::Integer(v) => Tree::Number(v as nat),
        ValueType::List => Tree::List(trees_to(p.sub_packets@, p.sub_packets@.len() as int)),
    }
}

/// What the first `n` packets hold.
pub open spec fn trees_to(subs: Seq<Packet>, n: int) -> Seq<Tree>
    decreases subs, n,
{
    if n <= 0 || n > subs.len() {
        Seq::<Tree>::empty()
    } else {
        trees_to(subs, n - 1).push(tree_of(subs[n - 1]))
    }
}

proof fn lemma_trees_push(subs: Seq<Packet>, p: Packet, n: int)
    requires
        0 <= n <= subs.len(),
    ensures
        trees_to(subs.push(p), n) == trees_to(subs, n),
    decreases n,
{
    if n > 0 {
        lemma_trees_push(subs, p, n - 1);
        assert(subs.push(p)[n - 1] == subs[n - 1]);
    }
}

/// The lists that are open while a packet is read, the innermost last, and
/// the figures of the number that is being read.
pub struct Reader {
    pub open: Seq<Seq<Tree>>,
    pub figures: Seq<u8>,
}

/// The open lists once the number that is being read has joined the innermost, if there is one.
pub open spec fn flushed(r: Reader) -> Option<Seq<Seq<Tree>>> {
    if r.figures.len() == 0 {
        Some(r.open)
    } else if r.open.len() == 0 || digits_value(r.figures) > usize::MAX {
        None
    } else {
        Some(
            r.open.drop_last().push(r.open.last().push(Tree::Number(digits_value(r.figures)))),
        )
    }
}

/// What the text from its byte `i` on writes, read in the state `r`: `[`
/// opens a list, `]` closes the innermost, a figure goes on with a number, a
/// comma ends one, and every other character is passed over. The reading
/// ends where the outermost list closes.
pub open spec fn read_from(s: Seq<u8>, i: int, r: Reader) -> Option<Tree>
    decreases s.len() - i,
{
    if i < 0 || i >= s.len() {
        None
    } else {
        let c = s[i];
        if c == 91 {
            read_from(s, i + 1, Reader { open: r.open.push(Seq::<Tree>::empty()), figures: r.figures })
        } else if c == 93 {
            match flushed(r) {
                None => None,
                Some(open) => if open.len() == 0 {
                    None
                } else if open.len() == 1 {
                    Some(Tree::List(open[0]))
                } else {
                    let inner = Tree::List(open.last());
                    let rest = open.drop_last();
                    read_from(
                        s,
                        i + 1,
                        Reader {
                            open: rest.drop_last().push(rest.last().push(inner)),
                            figures: Seq::<u8>::empty(),
                        },
                    )
                },
            }
        } else if is_digit(c) {
            read_from(s, i + 1, Reader { open: r.open, figures: r.figures.push(c) })
        } else if c == 44 {
            match flushed(r) {
                None => None,
                Some(open) => read_from(s, i + 1, Reader { open, figures: Seq::<u8>::empty() }),
            }
        } else {
            read_from(s, i + 1, r)
        }
    }
}

/// What the text writes, if it writes a packet.
pub open spec fn read(s: Seq<u8>) -> Option<Tree> {
    read_from(s, 0, Reader { open: Seq::<Seq<Tree>>::empty(), figures: Seq::<u8>::empty() })
}

/// What the open lists hold.
pub open spec fn open_view(stack: Seq<Vec<Packet>>) -> Seq<Seq<Tree>> {
    stack.map_values(|l: Vec<Packet>| trees_to(l@, l@.len() as int))
}

/// Adds a packet to the innermost open list.
fn push_inner(stack: &mut Vec<Vec<Packet>>, p: Packet)
    requires
        old(stack).len() > 0,
    ensures
        final(stack).len() == old(stack).len(),
        open_view(final(stack)@) == open_view(old(stack)@).drop_last().push(
            open_view(old(stack)@).last().push(tree_of(p)),
        ),
{
    let n = stack.len();
    let ghost before = stack@;
    let mut top: Vec<Packet> = Vec::new();
    std::mem::swap(&mut top, &mut stack[n - 1]);
    proof {
        lemma_trees_push(top@, p, top@.len() as int);
        assert(top@.push(p)[top@.len() as int] == p);
    }
    top.push(p);
    std::mem::swap(&mut top, &mut stack[n - 1]);
    proof {
        assert forall|i: int| 0 <= i < n - 1 implies stack@[i] == before[i] by {}
        assert(open_view(stack@) =~= open_view(before).drop_last().push(
            open_view(before).last().push(tree_of(p)),
        ));
    }
}

/// The number that the figures write.
fn figures_value(figures: &Vec<u8>) -> (r: Option<usize>)
    requires
        forall|i: int| 0 <= i < figures.len() ==> is_digit(#[trigger] figures@[i]),
    ensures
        match r {
            Some(v) => v == digits_value(figures@),
            None => digits_value(figures@) > usize::MAX,
        },
{
    let mut v: usize = 0;
    let mut i: usize = 0;
    while i < figures.len()
        invariant
            i <= figures.len(),
            forall|k: int| 0 <= k < figures.len() ==> is_digit(#[trigger] figures@[k]),
            v == digits_value(figures@.take(i as int)),
        decreases figures.len() - i,
    {
        proof {
            assert(figures@.take(i + 1).drop_last() =~= figures@.take(i as int));
            lemma_digits_prefix(figures@, i + 1);
        }
        let d = (figures[i] - 48) as usize;
        let next = match v.checked_mul(10) {
            Some(x) => x.checked_add(d),
            None => None,
        };
        match next {
            Some(x) => {
                v = x;
            },
            None => {
                return None;
            },
        }
        i += 1;
    }
    proof {
        assert(figures@.take(figures.len() as int) =~= figures@);
    }
    Some(v)
}

/// The number that is being read joins the innermost open list.
fn flush(stack: &mut Vec<Vec<Packet>>, figures: &mut Vec<u8>) -> (ok: bool)
    requires
        forall|i: int| 0 <= i < old(figures).len() ==> is_digit(#[trigger] old(figures)@[i]),
    ensures
        match flushed(Reader { open: open_view(old(stack)@), figures: old(figures)@ }) {
            Some(open) => ok && open_view(final(stack)@) == open && final(figures)@.len() == 0,
            None => !ok,
        },
{
    proof {
        assert(open_view(stack@).len() == stack.len());
    }
    if figures.len() == 0 {
        return true;
    }
    if stack.len() == 0 {
        return false;
    }
    match figures_value(figures) {
        None => false,
        Some(v) => {
            push_inner(stack, Packet { packet_type: ValueType::Integer(v), sub_packets: Vec::new() });
            figures.clear();
            true
        },
    }
}

impl Packet {
    /// Reads a packet from a text such as `[1,[2,[3]],4]`.
    pub fn from_bytes(s: &[u8]) -> (r: Result<Packet, ParseError>)
        ensures
            match r {
                Ok(p) => read(s@) == Some(tree_of(p)),
                Err(e) => e == ParseError::Malformed && read(s@) is None,
            },
    {
        let mut stack: Vec<Vec<Packet>> = Vec::new();
        let mut figures: Vec<u8> = Vec::new();
        let mut i: usize = 0;
        proof {
            assert(open_view(stack@) =~= Seq::<Seq<Tree>>::empty());
        }
        while i < s.len()
            invariant
                i <= s.len(),
                forall|k: int| 0 <= k < figures.len() ==> is_digit(#[trigger] figures@[k]),
                read(s@) == read_from(
                    s@,
                    i as int,
                    Reader { open: open_view(stack@), figures: figures@ },
                ),
            decreases s.len() - i,
        {
            let c = s[i];
            let ghost state = Reader { open: open_view(stack@), figures: figures@ };
            proof {
                assert(open_view(stack@).len() == stack.len());
            }
            if c == 91 {
                let ghost before = stack@;
                stack.push(Vec::new());
                proof {
                    assert(open_view(stack@) =~= open_view(before).push(Seq::<Tree>::empty()));
                }
            } else if c == 93 {
                if !flush(&mut stack, &mut figures) {
                    return Err(ParseError::Malformed);
                }
                proof {
                    assert(open_view(stack@).len() == stack.len());
                    assert(figures@ =~= Seq::<u8>::empty());
                    assert(flushed(state) == Some(open_view(stack@)));
                }
                let ghost open = open_view(stack@);
                match stack.pop() {
                    None => {
                        return Err(ParseError::Malformed);
                    },
                    Some(top) => {
                        proof {
                            assert(open.last() == trees_to(top@, top@.len() as int));
                            assert(open_view(stack@) =~= open.drop_last());
                        }
                        let p = Packet { packet_type: ValueType::List, sub_packets: top };
                        if stack.len() == 0 {
                            return Ok(p);
                        }
                        push_inner(&mut stack, p);
                    },
                }
            } else if 48 <= c && c <= 57 {
                figures.push(c);
            } else if c == 44 {
                if !flush(&mut stack, &mut figures) {
                    return Err(ParseError::Malformed);
                }
                proof {
                    assert(figures@ =~= Seq::<u8>::empty());
                }
            }
            i += 1;
        }
        Err(ParseError::Malformed)
    }
}

// ----- the two parts -----
/// The packets are what the lines write, nothing for an empty line.
pub open spec fn are_packets(rows: Seq<Seq<u8>>, items: Seq<Option<Packet>>) -> bool {
    &&& items.len() == rows.len()
    &&& forall|i: int|
        0 <= i < rows.len() ==> match #[trigger] items[i] {
            Some(p) => rows[i].len() > 0 && read(rows[i]) == Some(tree_of(p)),
            None => rows[i].len() == 0,
        }
}

/// Every line that holds anything writes a packet.
pub open spec fn input_ok(rows: Seq<Seq<u8>>) -> bool {
    forall|i: int| 0 <= i < rows.len() && (#[trigger] rows[i]).len() > 0 ==> read(rows[i]) is Some
}

/// Reads the packets of a text, one a line.
pub fn parse_packets(input: &[u8]) -> (r: Result<Vec<Option<Packet>>, ParseError>)
    ensures
        match r {
            Ok(items) => input_ok(lines(input@)) && are_packets(lines(input@), items@),
            Err(e) => e == ParseError::Malformed && !input_ok(lines(input@)),
        },
{
    let rows = split_lines(input);
    let ghost ls = lines(input@);
    let mut items: Vec<Option<Packet>> = Vec::new();
    let mut i: usize = 0;
    proof {
        assert(ls.len() == rows.len());
    }
    while i < rows.len()
        invariant
            i <= rows.len(),
            rows_view(rows@) == ls,
            ls == lines(input@),
            ls.len() == rows.len(),
            items.len() == i,
            forall|k: int| 0 <= k < i && (#[trigger] ls[k]).len() > 0 ==> read(ls[k]) is Some,
            forall|k: int|
                0 <= k < i ==> match #[trigger] items[k] {
                    Some(p) => ls[k].len() > 0 && read(ls[k]) == Some(tree_of(p)),
                    None => ls[k].len() == 0,
                },
        decreases rows.len() - i,
    {
        proof {
            assert(ls[i as int] == rows@[i as int]@);
        }
        if rows[i].len() == 0 {
            items.push(None);
        } else {
            match Packet::from_bytes(rows[i].as_slice()) {
                Ok(p) => {
                    items.push(Some(p));
                },
                Err(e) => {
                    return Err(e);
                },
            }
        }
        i += 1;
    }
    Ok(items)
}

/// The state of the first part: the packets of the group that is being
/// read, the number of the group, and the sum so far.
pub struct Pairs {
    pub group: Seq<Packet>,
    pub count: nat,
    pub sum: nat,
}

/// The group counts: its first packet stands before its second.
pub open spec fn in_order(group: Seq<Packet>) -> bool {
    packet_order(group[0], group[1]) == Order::Less
}

/// The sum of the numbers of the groups whose first two packets are in
/// order, where the groups are divided by empty lines; nothing where a group
/// that ends holds fewer than two packets.
pub open spec fn pairs_sum(items: Seq<Option<Packet>>, n: int) -> Option<Pairs>
    decreases n,
{
    if n <= 0 {
        Some(Pairs { group: Seq::<Packet>::empty(), count: 1, sum: 0 })
    } else {
        match pairs_sum(items, n - 1) {
            None => None,
            Some(st) => match items[n - 1] {
                Some(p) => Some(Pairs { group: st.group.push(p), count: st.count, sum: st.sum }),
                None => if st.group.len() < 2 {
                    None
                } else {
                    Some(
                        Pairs {
                            group: Seq::<Packet>::empty(),
                            count: st.count + 1,
                            sum: if in_order(st.group) {
                                st.sum + st.count
                            } else {
                                st.sum
                            },
                        },
                    )
                },
            },
        }
    }
}

/// The answer of the first part.
pub open spec fn answer1(items: Seq<Option<Packet>>) -> Option<nat> {
    match pairs_sum(items, items.len() as int) {
        None => None,
        Some(st) => if st.group.len() == 0 {
            Some(st.sum)
        } else if st.group.len() < 2 {
            None
        } else if in_order(st.group) {
            Some(st.sum + st.count)
        } else {
            Some(st.sum)
        },
    }
}

proof fn lemma_pairs_fail(items: Seq<Option<Packet>>, i: int, n: int)
    requires
        0 <= i <= n,
        pairs_sum(items, i) is None,
    ensures
        pairs_sum(items, n) is None,
    decreases n - i,
{
    if i < n {
        lemma_pairs_fail(items, i, n - 1);
    }
}

proof fn lemma_pairs_bound(items: Seq<Option<Packet>>, n: int)
    requires
        0 <= n,
        pairs_sum(items, n) is Some,
    ensures
        pairs_sum(items, n).unwrap().count <= n + 1,
        pairs_sum(items, n).unwrap().sum <= (n + 1) * (n + 1),
    decreases n,
{
    if n > 0 {
        lemma_pairs_bound(items, n - 1);
        let st = pairs_sum(items, n - 1).unwrap();
        assert(st.sum + st.count <= (n + 1) * (n + 1)) by (nonlinear_arith)
            requires
                st.sum <= n * n,
                st.count <= n,
                n > 0,
        ;
        assert(n * n <= (n + 1) * (n + 1)) by (nonlinear_arith)
            requires
                n > 0,
        ;
    }
}

/// The sum of the numbers of the groups of two packets that are in order.
pub fn sum_pairs_in_order(items: &Vec<Option<Packet>>) -> (r: Option<u128>)
    requires
        items.len() <= 0xffff_ffff,
    ensures
        match r {
            Some(v) => answer1(items@) == Some(v as nat),
            None => answer1(items@) is None,
        },
{
    let mut first: Option<&Packet> = None;
    let mut second: Option<&Packet> = None;
    let mut held: usize = 0;
    let mut count: u128 = 1;
    let mut sum: u128 = 0;
    let mut i: usize = 0;
    while i < items.len()
        invariant
            i <= items.len(),
            items.len() <= 0xffff_ffff,
            pairs_sum(items@, i as int) is Some,
            pairs_sum(items@, i as int).unwrap().count == count,
            pairs_sum(items@, i as int).unwrap().sum == sum,
            pairs_sum(items@, i as int).unwrap().group.len() == held,
            held >= 1 ==> first is Some && *first.unwrap() == pairs_sum(
                items@,
                i as int,
            ).unwrap().group[0],
            held >= 2 ==> second is Some && *second.unwrap() == pairs_sum(
                items@,
                i as int,
            ).unwrap().group[1],
            held <= i,
        decreases items.len() - i,
    {
        proof {
            lemma_pairs_bound(items@, i as int);
            assert((i + 1) * (i + 1) <= 0x1_0000_0000 * 0x1_0000_0000) by (nonlinear_arith)
                requires
                    0 <= i <= 0xffff_ffff,
            ;
        }
        match &items[i] {
            Some(p) => {
                if held == 0 {
                    first = Some(p);
                } else if held == 1 {
                    second = Some(p);
                }
                held += 1;
            },
            None => {
                if held < 2 {
                    proof {
                        lemma_pairs_fail(items@, i + 1, items@.len() as int);
                    }
                    return None;
                }
                if first.unwrap().is_before(second.unwrap()) {
                    sum = sum + count;
                }
                count += 1;
                held = 0;
            },
        }
        i += 1;
    }
    proof {
        lemma_pairs_bound(items@, items@.len() as int);
        assert((i + 1) * (i + 1) <= 0x1_0000_0000 * 0x1_0000_0000) by (nonlinear_arith)
            requires
                0 <= i <= 0xffff_ffff,
        ;
    }
    if held == 0 {
        Some(sum)
    } else if held < 2 {
        None
    } else if first.unwrap().is_before(second.unwrap()) {
        Some(sum + count)
    } else {
        Some(sum)
    }
}

/// The divider packet `[[v]]`.
pub fn divider(v: usize) -> (p: Packet)
    ensures
        tree_of(p) == Tree::List(seq![Tree::List(seq![Tree::Number(v as nat)])]),
{
    let number = Packet { packet_type: ValueType::Integer(v), sub_packets: Vec::new() };
    let mut one: Vec<Packet> = Vec::new();
    one.push(number);
    let inner = Packet { packet_type: ValueType::List, sub_packets: one };
    let mut two: Vec<Packet> = Vec::new();
    two.push(inner);
    let p = Packet { packet_type: ValueType::List, sub_packets: two };
    proof {
        assert(trees_to(one@, 0) =~= Seq::<Tree>::empty());
        assert(trees_to(one@, 1) =~= seq![tree_of(number)]);
        assert(trees_to(two@, 0) =~= Seq::<Tree>::empty());
        assert(trees_to(two@, 1) =~= seq![tree_of(inner)]);
    }
    p
}

/// How many of the first `n` packets stand to `d` as `o` says.
pub open spec fn count_order(all: Seq<Packet>, d: Packet, o: Order, n: int) -> nat
    decreases n,
{
    if n <= 0 {
        0
    } else {
        count_order(all, d, o, n - 1) + if packet_order(all[n - 1], d) == o {
            1nat
        } else {
            0nat
        }
    }
}

/// The product of the `e` numbers after `l`.
pub open spec fn rising_product(l: nat, e: nat) -> nat
    decreases e,
{
    if e == 0 {
        1
    } else {
        rising_product(l, (e - 1) as nat) * (l + e)
    }
}

/// The product of the places that the packets like `d` take when the
/// packets are sorted: they follow those that stand before `d`.
pub open spec fn places_product(all: Seq<Packet>, d: Packet) -> nat {
    rising_product(
        count_order(all, d, Order::Less, all.len() as int),
        count_order(all, d, Order::Equal, all.len() as int),
    )
}

/// The decoder key: the product of the places that the packets like one of
/// the two dividers take among all packets, the dividers among them.
pub open spec fn key_of(packets: Seq<Packet>, first: Packet, second: Packet) -> nat {
    let all = packets.push(first).push(second);
    if packet_order(first, second) == Order::Equal {
        places_product(all, first)
    } else {
        places_product(all, first) * places_product(all, second)
    }
}

proof fn lemma_rising_grows(l: nat, i: nat, e: nat)
    requires
        i <= e,
    ensures
        rising_product(l, i) <= rising_product(l, e),
        rising_product(l, i) >= 1,
    decreases e,
{
    if i < e {
        lemma_rising_grows(l, i, (e - 1) as nat);
        let p = rising_product(l, (e - 1) as nat);
        assert(p * (l + e) >= p) by (nonlinear_arith)
            requires
                p >= 1,
                l + e >= 1,
        ;
    } else if i > 0 {
        lemma_rising_grows(l, (i - 1) as nat, (i - 1) as nat);
        let p = rising_product(l, (i - 1) as nat);
        assert(p * (l + i) >= 1) by (nonlinear_arith)
            requires
                p >= 1,
                l + i >= 1,
        ;
    }
}

/// How a packet stands among the packets and the two dividers: how many stand before it, how
/// many are like it.
fn count_places(packets: &Vec<Packet>, first: &Packet, second: &Packet, d: &Packet) -> (r: (
    u128,
    u128,
))
    ensures
        r.0 == count_order(
            packets@.push(*first).push(*second),
            *d,
            Order::Less,
            packets@.len() as int + 2,
        ),
        r.1 == count_order(
            packets@.push(*first).push(*second),
            *d,
            Order::Equal,
            packets@.len() as int + 2,
        ),
        r.0 + r.1 <= packets@.len() + 2,
        r.0 + r.1 <= 0xffff_ffff_ffff_ffff + 2,
{
    let ghost all = packets@.push(*first).push(*second);
    let mut less: u128 = 0;
    let mut same: u128 = 0;
    let mut i: usize = 0;
    while i < packets.len()
        invariant
            i <= packets.len(),
            all == packets@.push(*first).push(*second),
            less == count_order(all, *d, Order::Less, i as int),
            same == count_order(all, *d, Order::Equal, i as int),
            less + same <= i,
        decreases packets.len() - i,
    {
        proof {
            assert(all[i as int] == packets@[i as int]);
        }
        if packets[i].is_before(d) {
            less += 1;
        } else if packets[i].is_same(d) {
            same += 1;
        }
        i += 1;
    }
    let ghost n = packets@.len() as int;
    proof {
        assert(all[n] == *first);
        assert(all[n + 1] == *second);
        assert(count_order(all, *d, Order::Less, n + 2) == count_order(
            all,
            *d,
            Order::Less,
            n + 1,
        ) + if packet_order(all[n + 1], *d) == Order::Less {
            1nat
        } else {
            0nat
        });
        assert(count_order(all, *d, Order::Equal, n + 2) == count_order(
            all,
            *d,
            Order::Equal,
            n + 1,
        ) + if packet_order(all[n + 1], *d) == Order::Equal {
            1nat
        } else {
            0nat
        });
        assert(count_order(all, *d, Order::Less, n + 1) == count_order(all, *d, Order::Less, n)
            + if packet_order(all[n], *d) == Order::Less {
            1nat
        } else {
            0nat
        });
        assert(count_order(all, *d, Order::Equal, n + 1) == count_order(all, *d, Order::Equal, n)
            + if packet_order(all[n], *d) == Order::Equal {
            1nat
        } else {
            0nat
        });
        assert(packets@.len() <= usize::MAX);
    }
    if first.is_before(d) {
        less += 1;
    } else if first.is_same(d) {
        same += 1;
    }
    if second.is_before(d) {
        less += 1;
    } else if second.is_same(d) {
        same += 1;
    }
    (less, same)
}

fn rising(l: u128, e: u128) -> (r: Option<usize>)
    requires
        l + e <= 0xffff_ffff_ffff_ffff_ffff,
    ensures
        match r {
            Some(v) => v == rising_product(l as nat, e as nat),
            None => rising_product(l as nat, e as nat) > usize::MAX,
        },
{
    let mut p: usize = 1;
    let mut j: u128 = 0;
    while j < e
        invariant
            j <= e,
            l + e <= 0xffff_ffff_ffff_ffff_ffff,
            p == rising_product(l as nat, j as nat),
        decreases e - j,
    {
        j += 1;
        let factor = l + j;
        let next = if factor <= usize::MAX as u128 {
            p.checked_mul(factor as usize)
        } else {
            None
        };
        match next {
            Some(v) => {
                p = v;
            },
            None => {
                proof {
                    lemma_rising_grows(l as nat, (j - 1) as nat, (j - 1) as nat);
                    let q = rising_product(l as nat, (j - 1) as nat);
                    assert(q * (l + j) >= l + j) by (nonlinear_arith)
                        requires
                            q >= 1,
                            l + j >= 0,
                    ;
                    lemma_rising_grows(l as nat, j as nat, e as nat);
                }
                return None;
            },
        }
    }
    Some(p)
}

/// The decoder key of the packets with the two dividers, if it fits a `usize`.
pub fn decoder_key(packets: &Vec<Packet>, first: &Packet, second: &Packet) -> (r: Option<usize>)
    ensures
        match r {
            Some(v) => v == key_of(packets@, *first, *second),
            None => key_of(packets@, *first, *second) > usize::MAX,
        },
{
    let (l1, e1) = count_places(packets, first, second, first);
    let a = rising(l1, e1);
    if first.is_same(second) {
        return a;
    }
    let (l2, e2) = count_places(packets, first, second, second);
    let b = rising(l2, e2);
    proof {
        lemma_rising_grows(l1 as nat, 0, e1 as nat);
        lemma_rising_grows(l2 as nat, 0, e2 as nat);
    }
    let ghost x = rising_product(l1 as nat, e1 as nat);
    let ghost y = rising_product(l2 as nat, e2 as nat);
    match (a, b) {
        (Some(x1), Some(y1)) => x1.checked_mul(y1),
        (None, _) => {
            proof {
                assert(x * y >= x) by (nonlinear_arith)
                    requires
                        x >= 1,
                        y >= 1,
                ;
            }
            None
        },
        (_, None) => {
            proof {
                assert(x * y >= y) by (nonlinear_arith)
                    requires
                        x >= 1,
                        y >= 1,
                ;
            }
            None
        },
    }
}

/// The packets of the lines that hold one.
pub open spec fn packets_of(items: Seq<Option<Packet>>, n: int) -> Seq<Packet>
    decreases n,
{
    if n <= 0 {
        Seq::<Packet>::empty()
    } else {
        match items[n - 1] {
            Some(p) => packets_of(items, n - 1).push(p),
            None => packets_of(items, n - 1),
        }
    }
}

/// What a part answers to an input, or why there is no answer.
pub open spec fn is_answer(input: Option<String>, part: int, r: Result<String, PuzzleError>) -> bool {
    match input {
        None => r == Err::<String, PuzzleError>(PuzzleError::MissingInput),
        Some(text) => {
            let rows = lines(bytes_of(text@));
            if !input_ok(rows) {
                r == Err::<String, PuzzleError>(PuzzleError::Parse(ParseError::Malformed))
            } else if rows.len() > 0xffff_ffff {
                r == Err::<String, PuzzleError>(PuzzleError::TooLarge)
            } else {
                exists|items: Seq<Option<Packet>>, first: Packet, second: Packet|
                    {
                        &&& #[trigger] is_reading(rows, items, first, second)
                        &&& if part == 1 {
                            match answer1(items) {
                                Some(v) => r is Ok && r.unwrap()@ == decimal(v),
                                None => r == Err::<String, PuzzleError>(
                                    PuzzleError::Parse(ParseError::Malformed),
                                ),
                            }
                        } else {
                            let key = key_of(packets_of(items, items.len() as int), first, second);
                            if key <= usize::MAX {
                                r is Ok && r.unwrap()@ == decimal(key)
                            } else {
                                r == Err::<String, PuzzleError>(PuzzleError::Overflow)
                            }
                        }
                    }
            }
        },
    }
}

/// The packets are those of the lines, and the dividers are `[[2]]` and `[[6]]`.
pub open spec fn is_reading(
    rows: Seq<Seq<u8>>,
    items: Seq<Option<Packet>>,
    first: Packet,
    second: Packet,
) -> bool {
    &&& are_packets(rows, items)
    &&& tree_of(first) == Tree::List(seq![Tree::List(seq![Tree::Number(2)])])
    &&& tree_of(second) == Tree::List(seq![Tree::List(seq![Tree::Number(6)])])
}

fn run_part(input: Option<String>, part: u8) -> (r: Result<String, PuzzleError>)
    requires
        part == 1 || part == 2,
    ensures
        is_answer(input, part as int, r),
{
    let text = match input {
        Some(t) => t,
        None => {
            return Err(PuzzleError::MissingInput);
        },
    };
    let items = match parse_packets(string_bytes(&text)) {
        Ok(v) => v,
        Err(e) => {
            return Err(PuzzleError::Parse(e));
        },
    };
    if items.len() > 0xffff_ffff {
        return Err(PuzzleError::TooLarge);
    }
    let first = divider(2);
    let second = divider(6);
    proof {
        assert(is_reading(lines(bytes_of(text@)), items@, first, second));
    }
    if part == 1 {
        match sum_pairs_in_order(&items) {
            Some(v) => Ok(decimal_string(v)),
            None => Err(PuzzleError::Parse(ParseError::Malformed)),
        }
    } else {
        let mut packets: Vec<Packet> = Vec::new();
        let mut items = items;
        let ghost all = items@;
        let ghost n = items@.len() as int;
        proof {
            assert(all.take(n) =~= all);
        }
        // the packets leave the list from its end, and are turned round at last
        let mut back: Vec<Packet> = Vec::new();
        while items.len() > 0
            invariant
                items@ == all.take(items@.len() as int),
                items@.len() <= n,
                n == all.len(),
                back@.reverse() == packets_tail(all, items@.len() as int),
            decreases items.len(),
        {
            let ghost k = items@.len() as int;
            let last = items.pop();
            proof {
                assert(items@ =~= all.take(k - 1));
            }
            match last {
                Some(Some(p)) => {
                    let ghost before = back@;
                    back.push(p);
                    proof {
                        assert(back@.reverse() =~= seq![p] + before.reverse());
                        assert(packets_tail(all, k - 1) =~= seq![p] + packets_tail(all, k));
                    }
                },
                _ => {
                    proof {
                        assert(packets_tail(all, k - 1) =~= packets_tail(all, k));
                    }
                },
            }
        }
        while back.len() > 0
            invariant
                packets@ + back@.reverse() == packets_tail(all, 0),
            decreases back.len(),
        {
            let ghost before = back@;
            let ghost got = packets@;
            match back.pop() {
                Some(p) => {
                    packets.push(p);
                    proof {
                        assert(before.reverse() =~= seq![p] + back@.reverse());
                        assert(packets@ + back@.reverse() =~= got + before.reverse());
                    }
                },
                None => {},
            }
        }
        proof {
            assert(back@.reverse() =~= Seq::<Packet>::empty());
            assert(packets@ =~= packets_tail(all, 0));
            lemma_packets_tail(all, 0);
        }
        match decoder_key(&packets, &first, &second) {
            Some(v) => Ok(decimal_string(v as u128)),
            None => Err(PuzzleError::Overflow),
        }
    }
}

/// The packets of the lines from line `from` on.
pub open spec fn packets_tail(items: Seq<Option<Packet>>, from: int) -> Seq<Packet>
    decreases items.len() - from,
{
    if from < 0 || from >= items.len() {
        Seq::<Packet>::empty()
    } else {
        match items[from] {
            Some(p) => seq![p] + packets_tail(items, from + 1),
            None => packets_tail(items, from + 1),
        }
    }
}

proof fn lemma_packets_tail(items: Seq<Option<Packet>>, from: int)
    requires
        0 <= from <= items.len(),
    ensures
        packets_of(items, from) + packets_tail(items, from) == packets_of(
            items,
            items.len() as int,
        ),
    decreases items.len() - from,
{
    if from < items.len() {
        lemma_packets_tail(items, from + 1);
        match items[from] {
            Some(p) => {
                assert(packets_of(items, from + 1) + packets_tail(items, from + 1) =~= packets_of(
                    items,
                    from,
                ) + packets_tail(items, from));
            },
            None => {},
        }
    } else {
        assert(packets_of(items, from) + packets_tail(items, from) =~= packets_of(items, from));
    }
}

pub struct Day13;

impl AdventOfCode for Day13 {
    fn day(&self) -> (d: u8)
        ensures
            d == 13,
    {
        13
    }

    fn run1(&mut self, input: Option<String>) -> (r: Result<String, PuzzleError>)
        ensures
            is_answer(input, 1, r),
    {
        run_part(input, 1)
    }

    fn run2(&mut self, input: Option<String>) -> (r: Result<String, PuzzleError>)
        ensures
            is_answer(input, 2, r),
    {
        run_part(input, 2)
    }
}

} // verus!
