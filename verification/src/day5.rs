//! Seeds and fertilizer: numbers and ranges of numbers sent through a chain of maps.

use crate::errors::{ParseError, PuzzleError};
use crate::text::{
    bytes_of, decimal, decimal_string, has_prefix, lines, parse_usize, rows_view, same_bytes, split,
    split_bytes, split_lines, split_once, split_once_byte, starts_with, string_bytes,
    unsigned_value,
};
use crate::traits::AdventOfCode;
use std::ops::Range;
use vstd::prelude::*;
use vstd::string::*;

verus! {

/// One line of a map: the numbers of `source` go to those of `dst`, the first to the first.
#[derive(Debug)]
pub struct Mapping {
    pub source: Range<usize>,
    pub dst: Range<usize>,
}

impl Mapping {
    /// Both ranges are as long as each other, and neither ends before it starts.
    pub open spec fn wf(&self) -> bool {
        &&& self.source.start <= self.source.end
        &&& self.dst.start <= self.dst.end
        &&& self.dst.end - self.dst.start == self.source.end - self.source.start
    }

    /// The range meets the source, or touches it.
    pub open spec fn touches(&self, range: Range<usize>) -> bool {
        !(range.start > self.source.end || range.end < self.source.start)
    }

    /// Where the part of the range that lies in the source goes.
    pub open spec fn image(&self, range: Range<usize>) -> Range<usize> {
        let from = if range.start > self.source.start {
            range.start
        } else {
            self.source.start
        };
        let to = if range.end < self.source.end {
            range.end
        } else {
            self.source.end
        };
        Range {
            start: (from - self.source.start + self.dst.start) as usize,
            end: (to - self.source.start + self.dst.start) as usize,
        }
    }

    /// The parts of the range before and after the source.
    pub open spec fn rest(&self, range: Range<usize>) -> Seq<Range<usize>> {
        let before = if range.start < self.source.start {
            seq![Range { start: range.start, end: self.source.start }]
        } else {
            Seq::<Range<usize>>::empty()
        };
        let after = if range.end > self.source.end {
            seq![Range { start: self.source.end, end: range.end }]
        } else {
            Seq::<Range<usize>>::empty()
        };
        before + after
    }

    /// Where the part of the range that lies in the source goes, and the
    /// parts that lie outside it; the range itself where it does not touch the source.
    pub fn map_range(&self, range: &Range<usize>) -> (r: (Option<Range<usize>>, Vec<Range<usize>>))
        requires
            self.wf(),
        ensures
            !self.touches(*range) ==> r.0 is None && r.1@ == seq![*range],
            self.touches(*range) ==> r.0 == Some(self.image(*range)) && r.1@ == self.rest(*range),
    {
        let mut rest: Vec<Range<usize>> = Vec::new();
        if range.start > self.source.end || range.end < self.source.start {
            rest.push(range.start..range.end);
            proof {
                assert(rest@ =~= seq![*range]);
            }
            return (None, rest);
        }
        if range.start < self.source.start {
            rest.push(range.start..self.source.start);
        }
        if range.end > self.source.end {
            rest.push(self.source.end..range.end);
        }
        let from = if range.start > self.source.start {
            range.start
        } else {
            self.source.start
        };
        let to = if range.end < self.source.end {
            range.end
        } else {
            self.source.end
        };
        proof {
            assert(rest@ =~= self.rest(*range));
        }
        (Some((from - self.source.start + self.dst.start)..(to - self.source.start + self.dst.start)), rest)
    }

    /// A line of three numbers writes a mapping: where the numbers go, where
    /// they come from, and how many they are.
    pub open spec fn line_ok(s: Seq<u8>) -> bool {
        let parts = split(s, 32);
        &&& parts.len() >= 3
        &&& forall|i: int| 0 <= i < parts.len() ==> unsigned_value(#[trigger] parts[i]) is Some && unsigned_value(parts[i]).unwrap() <= usize::MAX
        &&& unsigned_value(parts[1]).unwrap() + unsigned_value(parts[2]).unwrap() <= usize::MAX
        &&& unsigned_value(parts[0]).unwrap() + unsigned_value(parts[2]).unwrap() <= usize::MAX
    }

    /// The mapping is what the line writes.
    pub open spec fn is_line(&self, s: Seq<u8>) -> bool {
        let parts = split(s, 32);
        &&& self.dst.start == unsigned_value(parts[0]).unwrap()
        &&& self.source.start == unsigned_value(parts[1]).unwrap()
        &&& self.dst.end == self.dst.start + unsigned_value(parts[2]).unwrap()
        &&& self.source.end == self.source.start + unsigned_value(parts[2]).unwrap()
    }

    /// Reads a mapping from a line such as `50 98 2`.
    pub fn from_bytes(s: &[u8]) -> (r: Result<Mapping, ParseError>)
        ensures
            match r {
                Ok(m) => Mapping::line_ok(s@) && m.is_line(s@) && m.wf(),
                Err(e) => e == ParseError::Malformed && !Mapping::line_ok(s@),
            },
    {
        let parts = split_bytes(s, 32);
        let ghost ps = split(s@, 32);
        proof {
            assert(ps.len() == parts.len());
        }
        let mut vals: Vec<usize> = Vec::new();
        let mut i: usize = 0;
        while i < parts.len()
            invariant
                i <= parts.len(),
                rows_view(parts@) == ps,
                ps == split(s@, 32),
                ps.len() == parts.len(),
                vals.len() == i,
                forall|k: int|
                    0 <= k < i ==> unsigned_value(#[trigger] ps[k]) == Some(vals[k] as nat),
            decreases parts.len() - i,
        {
            proof {
                assert(ps[i as int] == parts@[i as int]@);
            }
            match parse_usize(parts[i].as_slice()) {
                Some(v) => {
                    vals.push(v);
                },
                None => {
                    return Err(ParseError::Malformed);
                },
            }
            i += 1;
        }
        if vals.len() < 3 {
            return Err(ParseError::Malformed);
        }
        let source_end = match vals[1].checked_add(vals[2]) {
            Some(v) => v,
            None => {
                return Err(ParseError::Malformed);
            },
        };
        let dst_end = match vals[0].checked_add(vals[2]) {
            Some(v) => v,
            None => {
                return Err(ParseError::Malformed);
            },
        };
        Ok(Mapping { source: vals[1]..source_end, dst: vals[0]..dst_end })
    }
}

/// A map: its lines, of which the first that holds a number says where it goes.
#[derive(Debug)]
pub struct RangeMap {
    pub mappings: Vec<Mapping>,
}

/// Where the first `n` lines send `val`: the first of them that holds it decides.
pub open spec fn sent(mappings: Seq<Mapping>, val: usize, n: int) -> int
    decreases n,
{
    if n <= 0 {
        val as int
    } else if exists|k: int|
        0 <= k < n - 1 && (#[trigger] mappings[k]).source.start <= val < mappings[k].source.end {
        sent(mappings, val, n - 1)
    } else if mappings[n - 1].source.start <= val < mappings[n - 1].source.end {
        mappings[n - 1].dst.start + (val - mappings[n - 1].source.start)
    } else {
        val as int
    }
}

/// What the first `k` of the ranges leave over beside the line `m`, and
/// where it sends what it holds of them.
pub open spec fn through_line(m: Mapping, ranges: Seq<Range<usize>>, k: int) -> (
    Seq<Range<usize>>,
    Seq<Range<usize>>,
)
    decreases k,
{
    if k <= 0 {
        (Seq::<Range<usize>>::empty(), Seq::<Range<usize>>::empty())
    } else {
        let before = through_line(m, ranges, k - 1);
        if m.touches(ranges[k - 1]) {
            (before.0 + m.rest(ranges[k - 1]), before.1.push(m.image(ranges[k - 1])))
        } else {
            (before.0.push(ranges[k - 1]), before.1)
        }
    }
}

/// What is left of the range beside the first `n` lines, and where they
/// send what they hold of it: each line takes what the lines before it have left.
pub open spec fn through_lines(mappings: Seq<Mapping>, range: Range<usize>, n: int) -> (
    Seq<Range<usize>>,
    Seq<Range<usize>>,
)
    decreases n,
{
    if n <= 0 {
        (seq![range], Seq::<Range<usize>>::empty())
    } else {
        let before = through_lines(mappings, range, n - 1);
        let here = through_line(mappings[n - 1], before.0, before.0.len() as int);
        (here.0, before.1 + here.1)
    }
}

/// Where a map sends a range: what its lines send on, and then what they leave.
pub open spec fn sent_range(mappings: Seq<Mapping>, range: Range<usize>) -> Seq<Range<usize>> {
    let all = through_lines(mappings, range, mappings.len() as int);
    all.1 + all.0
}

impl RangeMap {
    pub open spec fn wf(&self) -> bool {
        forall|i: int| 0 <= i < self.mappings.len() ==> (#[trigger] self.mappings[i]).wf()
    }

    /// Where the map sends `val`.
    pub fn map(&self, val: usize) -> (r: usize)
        requires
            self.wf(),
        ensures
            r == sent(self.mappings@, val, self.mappings@.len() as int),
    {
        let mut i: usize = 0;
        while i < self.mappings.len()
            invariant
                i <= self.mappings.len(),
                self.wf(),
                forall|k: int|
                    0 <= k < i ==> !((#[trigger] self.mappings@[k]).source.start <= val
                        < self.mappings@[k].source.end),
            decreases self.mappings.len() - i,
        {
            let m = &self.mappings[i];
            if m.source.start <= val && val < m.source.end {
                proof {
                    assert(m.wf());
                    lemma_sent_found(self.mappings@, val, i as int, self.mappings@.len() as int);
                }
                return m.dst.start + (val - m.source.start);
            }
            i += 1;
        }
        proof {
            lemma_sent_none(self.mappings@, val, self.mappings@.len() as int);
        }
        val
    }

    /// Where the map sends a range.
    pub fn map_range(&self, range: &Range<usize>) -> (r: Vec<Range<usize>>)
        requires
            self.wf(),
        ensures
            r@ == sent_range(self.mappings@, *range),
    {
        let mut to_map: Vec<Range<usize>> = Vec::new();
        to_map.push(range.start..range.end);
        let mut ranges: Vec<Range<usize>> = Vec::new();
        let mut i: usize = 0;
        proof {
            assert(to_map@ =~= seq![*range]);
        }
        while i < self.mappings.len()
            invariant
                i <= self.mappings.len(),
                self.wf(),
                (to_map@, ranges@) == through_lines(self.mappings@, *range, i as int),
            decreases self.mappings.len() - i,
        {
            let mapping = &self.mappings[i];
            let ghost current = to_map@;
            let ghost sent_before = ranges@;
            let mut left: Vec<Range<usize>> = Vec::new();
            let mut k: usize = 0;
            while k < to_map.len()
                invariant
                    k <= to_map.len(),
                    mapping.wf(),
                    to_map@ == current,
                    left@ == through_line(*mapping, current, k as int).0,
                    ranges@ == sent_before + through_line(*mapping, current, k as int).1,
                decreases to_map.len() - k,
            {
                let (mapped, mut rest) = mapping.map_range(&to_map[k]);
                let ghost left0 = left@;
                let ghost ranges0 = ranges@;
                match mapped {
                    Some(r) => {
                        ranges.push(r);
                    },
                    None => {},
                }
                left.append(&mut rest);
                proof {
                    let step = through_line(*mapping, current, k + 1);
                    assert(left@ =~= step.0);
                    assert(ranges@ =~= sent_before + step.1);
                }
                k += 1;
            }
            to_map = left;
            i += 1;
        }
        ranges.append(&mut to_map);
        ranges
    }
}

proof fn lemma_sent_found(mappings: Seq<Mapping>, val: usize, i: int, n: int)
    requires
        0 <= i < n <= mappings.len(),
        mappings[i].source.start <= val < mappings[i].source.end,
        forall|k: int|
            0 <= k < i ==> !((#[trigger] mappings[k]).source.start <= val < mappings[k].source.end),
    ensures
        sent(mappings, val, n) == mappings[i].dst.start + (val - mappings[i].source.start),
    decreases n,
{
    if n - 1 > i {
        lemma_sent_found(mappings, val, i, n - 1);
        assert(mappings[i].source.start <= val < mappings[i].source.end);
    }
}

proof fn lemma_sent_none(mappings: Seq<Mapping>, val: usize, n: int)
    requires
        0 <= n <= mappings.len(),
        forall|k: int|
            0 <= k < n ==> !((#[trigger] mappings[k]).source.start <= val < mappings[k].source.end),
    ensures
        sent(mappings, val, n) == val,
    decreases n,
{
    if n > 0 {
        lemma_sent_none(mappings, val, n - 1);
    }
}

/// The name of the map `k` of the chain, from seeds to locations.
pub open spec fn map_name(k: int) -> Seq<u8> {
    if k == 0 {
        bytes_of("seed-to-soil"@)
    } else if k == 1 {
        bytes_of("soil-to-fertilizer"@)
    } else if k == 2 {
        bytes_of("fertilizer-to-water"@)
    } else if k == 3 {
        bytes_of("water-to-light"@)
    } else if k == 4 {
        bytes_of("light-to-temperature"@)
    } else if k == 5 {
        bytes_of("temperature-to-humidity"@)
    } else {
        bytes_of("humidity-to-location"@)
    }
}

fn map_name_bytes(k: usize) -> (r: &'static [u8])
    requires
        k < 7,
    ensures
        r@ == map_name(k as int),
{
    if k == 0 {
        "seed-to-soil".as_bytes()
    } else if k == 1 {
        "soil-to-fertilizer".as_bytes()
    } else if k == 2 {
        "fertilizer-to-water".as_bytes()
    } else if k == 3 {
        "water-to-light".as_bytes()
    } else if k == 4 {
        "light-to-temperature".as_bytes()
    } else if k == 5 {
        "temperature-to-humidity".as_bytes()
    } else {
        "humidity-to-location".as_bytes()
    }
}

/// The first map of the chain that has the name `word`, or 7 where none has.
pub open spec fn name_index(word: Seq<u8>, k: int) -> int
    decreases 7 - k,
{
    if k >= 7 || k < 0 {
        7
    } else if map_name(k) == word {
        k
    } else {
        name_index(word, k + 1)
    }
}

fn find_name(word: &[u8]) -> (k: usize)
    ensures
        k == name_index(word@, 0),
        k <= 7,
{
    let mut k: usize = 0;
    while k < 7
        invariant
            k <= 7,
            name_index(word@, 0) == name_index(word@, k as int),
        decreases 7 - k,
    {
        if same_bytes(map_name_bytes(k), word) {
            return k;
        }
        k += 1;
    }
    7
}

/// The seeds and the maps of the chain, from seeds to locations.
#[derive(Debug)]
pub struct Almanac {
    pub seeds: Vec<usize>,
    pub maps: Vec<RangeMap>,
}

/// Where the first `n` maps send a seed, one after the other.
pub open spec fn location(maps: Seq<RangeMap>, seed: usize, n: int) -> usize
    decreases n,
{
    if n <= 0 {
        seed
    } else {
        sent(
            maps[n - 1].mappings@,
            location(maps, seed, n - 1),
            maps[n - 1].mappings@.len() as int,
        ) as usize
    }
}

/// Where a map sends the first `k` of the ranges.
pub open spec fn sent_ranges(map: RangeMap, ranges: Seq<Range<usize>>, k: int) -> Seq<Range<usize>>
    decreases k,
{
    if k <= 0 {
        Seq::<Range<usize>>::empty()
    } else {
        sent_ranges(map, ranges, k - 1) + sent_range(map.mappings@, ranges[k - 1])
    }
}

/// Where the first `n` maps send the range from `start` to `to`, one after the other.
pub open spec fn locations_of(maps: Seq<RangeMap>, start: usize, to: usize, n: int) -> Seq<
    Range<usize>,
>
    decreases n,
{
    if n <= 0 {
        seq![Range { start, end: to }]
    } else {
        let before = locations_of(maps, start, to, n - 1);
        sent_ranges(maps[n - 1], before, before.len() as int)
    }
}

/// The least location of the first `n` seeds, or the greatest number where there is no seed.
pub open spec fn least_location(maps: Seq<RangeMap>, seeds: Seq<usize>, n: int) -> usize
    decreases n,
{
    if n <= 0 {
        usize::MAX
    } else {
        let rest = least_location(maps, seeds, n - 1);
        let here = location(maps, seeds[n - 1], maps.len() as int);
        if here < rest {
            here
        } else {
            rest
        }
    }
}

/// The least start of the first `n` ranges, or zero where there is none.
pub open spec fn least_start(ranges: Seq<Range<usize>>, n: int) -> usize
    decreases n,
{
    if n <= 0 {
        0
    } else if n == 1 {
        ranges[0].start
    } else {
        let rest = least_start(ranges, n - 1);
        if ranges[n - 1].start < rest {
            ranges[n - 1].start
        } else {
            rest
        }
    }
}

/// The least location of the ranges of seeds that the first `n` numbers
/// give, each range by its start and its length; nothing where a range ends
/// beyond the numbers of a `usize`. The second part of the result is the
/// start that waits for its length.
pub open spec fn least_of_ranges(maps: Seq<RangeMap>, seeds: Seq<usize>, n: int) -> Option<
    (usize, Option<usize>),
>
    decreases n,
{
    if n <= 0 {
        Some((usize::MAX, None))
    } else {
        match least_of_ranges(maps, seeds, n - 1) {
            None => None,
            Some((min, None)) => Some((min, Some(seeds[n - 1]))),
            Some((min, Some(s))) => if s + seeds[n - 1] > usize::MAX {
                None
            } else {
                let found = locations_of(maps, s, (s + seeds[n - 1]) as usize, maps.len() as int);
                let v = least_start(found, found.len() as int);
                Some((if v < min {
                    v
                } else {
                    min
                }, None))
            },
        }
    }
}

proof fn lemma_ranges_fail(maps: Seq<RangeMap>, seeds: Seq<usize>, i: int, n: int)
    requires
        0 <= i <= n,
        least_of_ranges(maps, seeds, i) is None,
    ensures
        least_of_ranges(maps, seeds, n) is None,
    decreases n - i,
{
    if i < n {
        lemma_ranges_fail(maps, seeds, i, n - 1);
    }
}

impl Almanac {
    pub open spec fn wf(&self) -> bool {
        forall|i: int| 0 <= i < self.maps.len() ==> (#[trigger] self.maps[i]).wf()
    }

    /// Where the maps send a seed, one after the other.
    pub fn seed_to_location(&self, seed: usize) -> (r: usize)
        requires
            self.wf(),
        ensures
            r == location(self.maps@, seed, self.maps@.len() as int),
    {
        let mut current_val = seed;
        let mut i: usize = 0;
        while i < self.maps.len()
            invariant
                i <= self.maps.len(),
                self.wf(),
                current_val == location(self.maps@, seed, i as int),
            decreases self.maps.len() - i,
        {
            proof {
                assert(self.maps[i as int].wf());
            }
            current_val = self.maps[i].map(current_val);
            i += 1;
        }
        current_val
    }

    /// Where the maps send the range of seeds from `start` to `to`, one after the other.
    pub fn seeds_to_location(&self, start: usize, to: usize) -> (r: Vec<Range<usize>>)
        requires
            self.wf(),
        ensures
            r@ == locations_of(self.maps@, start, to, self.maps@.len() as int),
    {
        let mut ranges: Vec<Range<usize>> = Vec::new();
        ranges.push(start..to);
        proof {
            assert(ranges@ =~= seq![Range { start, end: to }]);
        }
        let mut i: usize = 0;
        while i < self.maps.len()
            invariant
                i <= self.maps.len(),
                self.wf(),
                ranges@ == locations_of(self.maps@, start, to, i as int),
            decreases self.maps.len() - i,
        {
            let map = &self.maps[i];
            proof {
                assert(self.maps[i as int].wf());
            }
            let mut new_ranges: Vec<Range<usize>> = Vec::new();
            let mut k: usize = 0;
            while k < ranges.len()
                invariant
                    k <= ranges.len(),
                    map.wf(),
                    new_ranges@ == sent_ranges(*map, ranges@, k as int),
                decreases ranges.len() - k,
            {
                let mut mapped = map.map_range(&ranges[k]);
                let ghost before = new_ranges@;
                new_ranges.append(&mut mapped);
                k += 1;
            }
            ranges = new_ranges;
            i += 1;
        }
        ranges
    }

    /// The least location of the seeds.
    pub fn locations(&self) -> (min: usize)
        requires
            self.wf(),
        ensures
            min == least_location(self.maps@, self.seeds@, self.seeds@.len() as int),
    {
        let mut min = usize::MAX;
        let mut i: usize = 0;
        while i < self.seeds.len()
            invariant
                i <= self.seeds.len(),
                self.wf(),
                min == least_location(self.maps@, self.seeds@, i as int),
            decreases self.seeds.len() - i,
        {
            let val = self.seed_to_location(self.seeds[i]);
            if val < min {
                min = val;
            }
            i += 1;
        }
        min
    }

    /// The least location of the ranges of seeds that the numbers give two
    /// by two, a start and a length.
    pub fn locations2(&self) -> (r: Option<usize>)
        requires
            self.wf(),
        ensures
            match r {
                Some(min) => least_of_ranges(self.maps@, self.seeds@, self.seeds@.len() as int)
                    is Some && min == least_of_ranges(
                    self.maps@,
                    self.seeds@,
                    self.seeds@.len() as int,
                ).unwrap().0,
                None => least_of_ranges(self.maps@, self.seeds@, self.seeds@.len() as int) is None,
            },
    {
        let mut min = usize::MAX;
        let mut start: Option<usize> = None;
        let mut i: usize = 0;
        while i < self.seeds.len()
            invariant
                i <= self.seeds.len(),
                self.wf(),
                least_of_ranges(self.maps@, self.seeds@, i as int) == Some((min, start)),
            decreases self.seeds.len() - i,
        {
            let val = self.seeds[i];
            match start {
                Some(s) => {
                    let to = match s.checked_add(val) {
                        Some(t) => t,
                        None => {
                            proof {
                                lemma_ranges_fail(
                                    self.maps@,
                                    self.seeds@,
                                    i + 1,
                                    self.seeds@.len() as int,
                                );
                            }
                            return None;
                        },
                    };
                    let found = self.seeds_to_location(s, to);
                    let mut v: usize = 0;
                    let mut k: usize = 0;
                    while k < found.len()
                        invariant
                            k <= found.len(),
                            v == least_start(found@, k as int),
                        decreases found.len() - k,
                    {
                        if k == 0 || found[k].start < v {
                            v = found[k].start;
                        }
                        k += 1;
                    }
                    if v < min {
                        min = v;
                    }
                    start = None;
                },
                None => {
                    start = Some(val);
                },
            }
            i += 1;
        }
        Some(min)
    }
}

// ----- reading an almanac -----
/// What has been read of an almanac: the seeds, each map of the chain that
/// has been closed by an empty line, the map that is open, and its lines so far.
pub struct Reading {
    pub seeds: Seq<usize>,
    pub slots: Seq<Option<Seq<Mapping>>>,
    pub name: Option<int>,
    pub current: Seq<Mapping>,
}

/// The words `seeds:` and a space.
pub open spec fn seeds_prefix() -> Seq<u8> {
    seq![115u8, 101, 101, 100, 115, 58, 32]
}

/// The numbers of a line of seeds are written well: after the first space
/// of the line, numbers that fit, with one space between each two.
pub open spec fn seeds_ok(line: Seq<u8>) -> bool {
    let parts = split(split_once(line, 32).unwrap().1, 32);
    forall|i: int|
        0 <= i < parts.len() ==> unsigned_value(#[trigger] parts[i]) is Some && unsigned_value(
            parts[i],
        ).unwrap() <= usize::MAX
}

/// The seeds that a line of seeds writes.
pub open spec fn seeds_of(line: Seq<u8>) -> Seq<usize> {
    split(split_once(line, 32).unwrap().1, 32).map_values(
        |p: Seq<u8>| unsigned_value(p).unwrap() as usize,
    )
}

/// The mapping that a line writes.
pub open spec fn mapping_of(line: Seq<u8>) -> Mapping {
    let parts = split(line, 32);
    let dst = unsigned_value(parts[0]).unwrap();
    let source = unsigned_value(parts[1]).unwrap();
    let len = unsigned_value(parts[2]).unwrap();
    Mapping {
        source: Range { start: source as usize, end: (source + len) as usize },
        dst: Range { start: dst as usize, end: (dst + len) as usize },
    }
}

/// What has been read after one more line: a line of seeds, an empty line
/// that closes the open map, the name of a map before a space, or a line of
/// the open map.
pub open spec fn read_line(st: Reading, line: Seq<u8>) -> Option<Reading> {
    if has_prefix(line, seeds_prefix()) {
        if seeds_ok(line) {
            Some(Reading { seeds: seeds_of(line), ..st })
        } else {
            None
        }
    } else if line.len() == 0 {
        match st.name {
            Some(k) => Some(
                Reading {
                    seeds: st.seeds,
                    slots: st.slots.update(k, Some(st.current)),
                    name: None,
                    current: Seq::<Mapping>::empty(),
                },
            ),
            None => Some(st),
        }
    } else {
        match split_once(line, 32) {
            None => None,
            Some((word, _)) => if name_index(word, 0) < 7 {
                Some(Reading { name: Some(name_index(word, 0)), ..st })
            } else if Mapping::line_ok(line) {
                Some(Reading { current: st.current.push(mapping_of(line)), ..st })
            } else {
                None
            },
        }
    }
}

/// What has been read after the first `n` lines.
pub open spec fn read_lines(ls: Seq<Seq<u8>>, n: int) -> Option<Reading>
    decreases n,
{
    if n <= 0 {
        Some(
            Reading {
                seeds: Seq::<usize>::empty(),
                slots: Seq::new(7, |i: int| None::<Seq<Mapping>>),
                name: None,
                current: Seq::<Mapping>::empty(),
            },
        )
    } else {
        match read_lines(ls, n - 1) {
            Some(st) => read_line(st, ls[n - 1]),
            None => None,
        }
    }
}

/// The almanac that the lines write: every line is read, and every map of the chain is closed.
pub open spec fn almanac_of(ls: Seq<Seq<u8>>) -> Option<Reading> {
    match read_lines(ls, ls.len() as int) {
        Some(st) => if forall|k: int| 0 <= k < 7 ==> (#[trigger] st.slots[k]) is Some {
            Some(st)
        } else {
            None
        },
        None => None,
    }
}

proof fn lemma_read_fail(ls: Seq<Seq<u8>>, i: int, n: int)
    requires
        0 <= i <= n,
        read_lines(ls, i) is None,
    ensures
        read_lines(ls, n) is None,
    decreases n - i,
{
    if i < n {
        lemma_read_fail(ls, i, n - 1);
    }
}

/// The maps are those of the slots.
pub open spec fn are_slots(maps: Seq<Option<RangeMap>>, slots: Seq<Option<Seq<Mapping>>>) -> bool {
    &&& maps.len() == 7
    &&& slots.len() == 7
    &&& forall|k: int|
        0 <= k < 7 ==> match (#[trigger] maps[k], slots[k]) {
            (Some(m), Some(s)) => m.mappings@ == s && m.wf(),
            (None, None) => true,
            _ => false,
        }
}

fn copy_mappings(v: &Vec<Mapping>) -> (r: Vec<Mapping>)
    ensures
        r@ == v@,
{
    let mut r: Vec<Mapping> = Vec::new();
    let mut i: usize = 0;
    while i < v.len()
        invariant
            i <= v.len(),
            r@ == v@.take(i as int),
        decreases v.len() - i,
    {
        let m = &v[i];
        r.push(Mapping { source: m.source.start..m.source.end, dst: m.dst.start..m.dst.end });
        proof {
            assert(r@ =~= v@.take(i + 1));
        }
        i += 1;
    }
    proof {
        assert(v@.take(v.len() as int) =~= v@);
    }
    r
}

/// Reads the seeds of a line of seeds.
fn parse_seeds(line: &[u8]) -> (r: Option<Vec<usize>>)
    requires
        has_prefix(line@, seeds_prefix()),
        split_once(line@, 32) is Some,
    ensures
        match r {
            Some(v) => seeds_ok(line@) && v@ == seeds_of(line@),
            None => !seeds_ok(line@),
        },
{
    let tail = match split_once_byte(line, 32) {
        Some((_, t)) => t,
        None => Vec::new(),
    };
    let parts = split_bytes(tail.as_slice(), 32);
    let ghost ps = split(split_once(line@, 32).unwrap().1, 32);
    let mut seeds: Vec<usize> = Vec::new();
    let mut i: usize = 0;
    proof {
        assert(ps.len() == parts.len());
    }
    while i < parts.len()
        invariant
            i <= parts.len(),
            rows_view(parts@) == ps,
            ps == split(split_once(line@, 32).unwrap().1, 32),
            ps.len() == parts.len(),
            seeds.len() == i,
            forall|k: int| 0 <= k < i ==> unsigned_value(#[trigger] ps[k]) == Some(seeds[k] as nat),
        decreases parts.len() - i,
    {
        proof {
            assert(ps[i as int] == parts@[i as int]@);
        }
        match parse_usize(parts[i].as_slice()) {
            Some(v) => {
                seeds.push(v);
            },
            None => {
                return None;
            },
        }
        i += 1;
    }
    proof {
        assert(seeds@ =~= seeds_of(line@));
    }
    Some(seeds)
}

impl Almanac {
    /// Reads an almanac: a line of seeds, and the maps of the chain, each
    /// under its name and closed by an empty line.
    pub fn from_bytes(s: &[u8]) -> (r: Result<Almanac, ParseError>)
        ensures
            match r {
                Ok(a) => {
                    &&& almanac_of(lines(s@)) is Some
                    &&& a.wf()
                    &&& a.seeds@ == almanac_of(lines(s@)).unwrap().seeds
                    &&& a.maps@.len() == 7
                    &&& forall|k: int|
                        0 <= k < 7 ==> Some((#[trigger] a.maps@[k]).mappings@) == almanac_of(
                            lines(s@),
                        ).unwrap().slots[k]
                },
                Err(e) => e == ParseError::Malformed && almanac_of(lines(s@)) is None,
            },
    {
        let rows = split_lines(s);
        let ghost ls = lines(s@);
        let mut seeds: Vec<usize> = Vec::new();
        let mut maps: Vec<Option<RangeMap>> = Vec::new();
        let mut k: usize = 0;
        while k < 7
            invariant
                k <= 7,
                maps.len() == k,
                forall|j: int| 0 <= j < k ==> (#[trigger] maps[j]) is None,
            decreases 7 - k,
        {
            maps.push(None);
            k += 1;
        }
        let mut name: Option<usize> = None;
        let mut current: Vec<Mapping> = Vec::new();
        let seeds_array: [u8; 7] = [115, 101, 101, 100, 115, 58, 32];
        let seeds_word = seeds_array.as_slice();
        proof {
            assert(seeds_word@ =~= seeds_prefix());
        }
        let mut i: usize = 0;
        proof {
            assert(ls.len() == rows.len());
            assert(read_lines(ls, 0).unwrap().slots =~= Seq::new(7, |i: int| None::<Seq<Mapping>>));
        }
        while i < rows.len()
            invariant
                i <= rows.len(),
                rows_view(rows@) == ls,
                ls == lines(s@),
                ls.len() == rows.len(),
                seeds_word@ == seeds_prefix(),
                read_lines(ls, i as int) is Some,
                read_lines(ls, i as int).unwrap().seeds == seeds@,
                read_lines(ls, i as int).unwrap().current == current@,
                are_slots(maps@, read_lines(ls, i as int).unwrap().slots),
                match name {
                    Some(k) => k < 7 && read_lines(ls, i as int).unwrap().name == Some(k as int),
                    None => read_lines(ls, i as int).unwrap().name is None,
                },
                forall|j: int| 0 <= j < current.len() ==> (#[trigger] current[j]).wf(),
            decreases rows.len() - i,
        {
            let line = rows[i].as_slice();
            let ghost st = read_lines(ls, i as int).unwrap();
            proof {
                assert(ls[i as int] == rows@[i as int]@);
            }
            if starts_with(line, seeds_word) {
                proof {
                    lemma_prefix_has_space(line@);
                }
                match parse_seeds(line) {
                    Some(v) => {
                        seeds = v;
                    },
                    None => {
                        proof {
                            lemma_read_fail(ls, i + 1, ls.len() as int);
                        }
                        return Err(ParseError::Malformed);
                    },
                }
            } else if line.len() == 0 {
                match name {
                    Some(k) => {
                        let closed = RangeMap { mappings: copy_mappings(&current) };
                        maps[k] = Some(closed);
                        name = None;
                        current = Vec::new();
                        proof {
                            assert(are_slots(maps@, read_lines(ls, i + 1).unwrap().slots));
                        }
                    },
                    None => {},
                }
            } else {
                match split_once_byte(line, 32) {
                    None => {
                        proof {
                            lemma_read_fail(ls, i + 1, ls.len() as int);
                        }
                        return Err(ParseError::Malformed);
                    },
                    Some((word, _)) => {
                        let k = find_name(word.as_slice());
                        if k < 7 {
                            name = Some(k);
                        } else {
                            match Mapping::from_bytes(line) {
                                Ok(m) => {
                                    proof {
                                        assert(m.source == mapping_of(line@).source);
                                        assert(m.dst == mapping_of(line@).dst);
                                    }
                                    current.push(m);
                                },
                                Err(e) => {
                                    proof {
                                        lemma_read_fail(ls, i + 1, ls.len() as int);
                                    }
                                    return Err(e);
                                },
                            }
                        }
                    },
                }
            }
            i += 1;
        }
        let ghost end = read_lines(ls, ls.len() as int).unwrap();
        let mut all: Vec<RangeMap> = Vec::new();
        let mut back: Vec<RangeMap> = Vec::new();
        while maps.len() > 0
            invariant
                maps@.len() <= 7,
                back@.len() == 7 - maps@.len(),
                forall|k: int| 0 <= k < maps@.len() ==> match (#[trigger] maps@[k], end.slots[k]) {
                    (Some(m), Some(sl)) => m.mappings@ == sl && m.wf(),
                    (None, None) => true,
                    _ => false,
                },
                end.slots.len() == 7,
                end == read_lines(ls, ls.len() as int).unwrap(),
                read_lines(ls, ls.len() as int) is Some,
                ls == lines(s@),
                forall|k: int|
                    0 <= k < back@.len() ==> Some((#[trigger] back@[k]).mappings@) == end.slots[6
                        - k] && back@[k].wf(),
            decreases maps.len(),
        {
            let ghost n = maps@.len() as int;
            match maps.pop() {
                Some(Some(m)) => {
                    back.push(m);
                },
                _ => {
                    proof {
                        assert(end.slots[n - 1] is None);
                    }
                    return Err(ParseError::Malformed);
                },
            }
        }
        while back.len() > 0
            invariant
                all@.len() + back@.len() == 7,
                end.slots.len() == 7,
                forall|k: int|
                    0 <= k < back@.len() ==> Some((#[trigger] back@[k]).mappings@) == end.slots[6
                        - k] && back@[k].wf(),
                forall|k: int|
                    0 <= k < all@.len() ==> Some((#[trigger] all@[k]).mappings@) == end.slots[k]
                        && all@[k].wf(),
            decreases back.len(),
        {
            match back.pop() {
                Some(m) => {
                    all.push(m);
                },
                None => {},
            }
        }
        proof {
            assert forall|k: int| 0 <= k < 7 implies (#[trigger] end.slots[k]) is Some by {
                assert(Some(all@[k].mappings@) == end.slots[k]);
            }
            assert(almanac_of(ls) == Some(end));
        }
        Ok(Almanac { seeds, maps: all })
    }
}

proof fn lemma_prefix_has_space(line: Seq<u8>)
    requires
        has_prefix(line, seeds_prefix()),
    ensures
        split_once(line, 32) is Some,
{
    assert(line.take(7)[6] == seeds_prefix()[6]);
    crate::text::lemma_first_index_bound(line, 32, 6);
}

/// The almanac holds what has been read.
pub open spec fn holds(a: Almanac, st: Reading) -> bool {
    &&& a.wf()
    &&& a.seeds@ == st.seeds
    &&& a.maps@.len() == 7
    &&& forall|k: int| 0 <= k < 7 ==> Some((#[trigger] a.maps@[k]).mappings@) == st.slots[k]
}

/// What a part answers to an input: the least location of the seeds, or of
/// the ranges of seeds, or why there is none.
pub open spec fn is_answer(input: Option<String>, part: int, r: Result<String, PuzzleError>) -> bool {
    match input {
        None => r == Err::<String, PuzzleError>(PuzzleError::MissingInput),
        Some(text) => match almanac_of(lines(bytes_of(text@))) {
            None => r == Err::<String, PuzzleError>(PuzzleError::Parse(ParseError::Malformed)),
            Some(st) => exists|a: Almanac|
                {
                    &&& #[trigger] holds(a, st)
                    &&& if part == 1 {
                        r is Ok && r.unwrap()@ == decimal(
                            least_location(a.maps@, a.seeds@, a.seeds@.len() as int) as nat,
                        )
                    } else {
                        match least_of_ranges(a.maps@, a.seeds@, a.seeds@.len() as int) {
                            Some(found) => r is Ok && r.unwrap()@ == decimal(found.0 as nat),
                            None => r == Err::<String, PuzzleError>(PuzzleError::Overflow),
                        }
                    }
                },
        },
    }
}

fn run_part(input: Option<String>, part: u8) -> (r: Result<String, PuzzleError>)
    requires
        part == 1 || part == 2,
    ensures
        is_answer(input, part as int, r),
{
    let text = match input {
        Some(t) => t,
        None => {
            return Err(PuzzleError::MissingInput);
        },
    };
    let almanac = match Almanac::from_bytes(string_bytes(&text)) {
        Ok(a) => a,
        Err(e) => {
            return Err(PuzzleError::Parse(e));
        },
    };
    proof {
        assert(holds(almanac, almanac_of(lines(bytes_of(text@))).unwrap()));
    }
    if part == 1 {
        Ok(decimal_string(almanac.locations() as u128))
    } else {
        match almanac.locations2() {
            Some(v) => Ok(decimal_string(v as u128)),
            None => Err(PuzzleError::Overflow),
        }
    }
}

pub struct Day5;

impl AdventOfCode for Day5 {
    fn day(&self) -> (d: u8)
        ensures
            d == 5,
    {
        5
    }

    fn run1(&mut self, input: Option<String>) -> (r: Result<String, PuzzleError>)
        ensures
            is_answer(input, 1, r),
    {
        run_part(input, 1)
    }

    fn run2(&mut self, input: Option<String>) -> (r: Result<String, PuzzleError>)
        ensures
            is_answer(input, 2, r),
    {
        run_part(input, 2)
    }
}

} // verus!
