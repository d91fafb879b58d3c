//! Gear ratios: the numbers of an engine plan that stand next to a symbol.

use crate::errors::{ParseError, PuzzleError};
use crate::pattern::{Span, all_captures, captures_iter, spans_in};
use crate::text::{
    bytes_of, copy_bytes, decimal, decimal_string, lines, parse_usize, rows_view, split_lines,
    string_bytes, string_from_utf8, string_of, text_of, unsigned_value,
};
use crate::traits::AdventOfCode;
use vstd::prelude::*;
use vstd::slice::slice_subrange;
use vstd::string::*;

verus! {

/// The bytes write a number that fits, or some text.
pub open spec fn readable(s: Seq<u8>) -> bool {
    ||| match unsigned_value(s) {
        Some(v) => v <= usize::MAX,
        None => false,
    }
    ||| vstd::utf8::valid_utf8(s)
}

/// What stands on the plan: a symbol, given by its text, or a number.
#[derive(Debug)]
pub enum ItemType {
    Symbol(String),
    Number(usize),
}

impl ItemType {
    pub fn is_symbol(&self) -> (b: bool)
        ensures
            b == (*self is Symbol),
    {
        match self {
            ItemType::Symbol(_) => true,
            _ => false,
        }
    }

    /// The item is the symbol `*`.
    pub open spec fn is_gear(&self) -> bool {
        match *self {
            ItemType::Symbol(s) => bytes_of(s@) == seq![42u8],
            _ => false,
        }
    }

    pub fn is_gear_symbol(&self) -> (b: bool)
        ensures
            b == self.is_gear(),
    {
        match self {
            ItemType::Symbol(s) => {
                let bytes = string_bytes(s);
                let b = bytes.len() == 1 && bytes[0] == 42;
                proof {
                    if b {
                        assert(bytes@ =~= seq![42u8]);
                    }
                }
                b
            },
            _ => false,
        }
    }

    /// The number, where the item is one.
    pub fn value(&self) -> (v: Option<usize>)
        ensures
            v == match *self {
                ItemType::Number(d) => Some(d),
                _ => None::<usize>,
            },
    {
        match self {
            ItemType::Number(d) => Some(*d),
            _ => None,
        }
    }

    /// Reads an item: a number where the text writes one that fits, and else a symbol.
    pub fn from_bytes(s: &[u8]) -> (r: Option<ItemType>)
        ensures
            match r {
                Some(ItemType::Number(d)) => unsigned_value(s@) == Some(d as nat),
                Some(ItemType::Symbol(t)) => bytes_of(t@) == s@ && match unsigned_value(s@) {
                    Some(v) => v > usize::MAX,
                    None => true,
                },
                None => !readable(s@),
            },
    {
        match parse_usize(s) {
            Some(d) => Some(ItemType::Number(d)),
            None => match string_from_utf8(copy_bytes(s)) {
                Some(t) => Some(ItemType::Symbol(t)),
                None => None,
            },
        }
    }
}

/// An item of the plan: its column, its line, its length and what it is.
#[derive(Debug)]
pub struct Item {
    pub x: usize,
    pub y: usize,
    pub len: usize,
    pub item_type: ItemType,
}

impl Item {
    /// `other` starts in the frame around the item: one line above to one
    /// below, one column before its start to one after its end.
    pub open spec fn is_near(&self, other: &Item) -> bool {
        &&& self.x - 1 <= other.x <= self.x + self.len
        &&& self.y - 1 <= other.y <= self.y + 1
    }

    pub fn near(&self, other: &Item) -> (b: bool)
        ensures
            b == self.is_near(other),
    {
        let x_from = if self.x == 0 {
            self.x
        } else {
            self.x - 1
        };
        let y_from = if self.y == 0 {
            self.y
        } else {
            self.y - 1
        };
        x_from <= other.x && other.x as u128 <= self.x as u128 + self.len as u128 && y_from
            <= other.y && other.y as u128 <= self.y as u128 + 1
    }
}

/// Some symbol stands near the item `k`.
pub open spec fn touches_symbol(items: Seq<Item>, k: int) -> bool {
    exists|j: int| 0 <= j < items.len() && (#[trigger] items[j]).item_type is Symbol && items[k].is_near(&items[j])
}

/// The sum of the numbers among the first `n` items that stand near a symbol.
pub open spec fn adjacent_sum(items: Seq<Item>, n: int) -> nat
    decreases n,
{
    if n <= 0 {
        0
    } else {
        adjacent_sum(items, n - 1) + match items[n - 1].item_type {
            ItemType::Number(v) => if touches_symbol(items, n - 1) {
                v as nat
            } else {
                0nat
            },
            _ => 0nat,
        }
    }
}

/// The numbers among the first `n` items that stand near the item `g`.
pub open spec fn numbers_near(items: Seq<Item>, g: int, n: int) -> Seq<usize>
    decreases n,
{
    if n <= 0 {
        Seq::<usize>::empty()
    } else {
        let rest = numbers_near(items, g, n - 1);
        match items[n - 1].item_type {
            ItemType::Number(v) => if items[n - 1].is_near(&items[g]) {
                rest.push(v)
            } else {
                rest
            },
            _ => rest,
        }
    }
}

/// The sum of the ratios of the gears among the first `n` items: a gear is a
/// `*` with two numbers near it, and its ratio their product.
pub open spec fn gear_sum(items: Seq<Item>, n: int) -> nat
    decreases n,
{
    if n <= 0 {
        0
    } else {
        gear_sum(items, n - 1) + if items[n - 1].item_type.is_gear() && numbers_near(
            items,
            n - 1,
            items.len() as int,
        ).len() == 2 {
            let two = numbers_near(items, n - 1, items.len() as int);
            (two[0] * two[1]) as nat
        } else {
            0nat
        }
    }
}

proof fn lemma_adjacent_grows(items: Seq<Item>, i: int, n: int)
    requires
        0 <= i <= n,
    ensures
        adjacent_sum(items, i) <= adjacent_sum(items, n),
        gear_sum(items, i) <= gear_sum(items, n),
    decreases n - i,
{
    if i < n {
        lemma_adjacent_grows(items, i, n - 1);
    }
}

pub struct Day3;

impl Day3 {
    /// The sum of the numbers that stand near a symbol, if it fits a `usize`.
    pub fn find_adjacent(items: Vec<Item>) -> (r: Option<usize>)
        ensures
            match r {
                Some(s) => s == adjacent_sum(items@, items@.len() as int),
                None => adjacent_sum(items@, items@.len() as int) > usize::MAX,
            },
    {
        let mut sum: usize = 0;
        let mut k: usize = 0;
        while k < items.len()
            invariant
                k <= items.len(),
                sum == adjacent_sum(items@, k as int),
            decreases items.len() - k,
        {
            match items[k].item_type {
                ItemType::Number(v) => {
                    let mut j: usize = 0;
                    let mut found = false;
                    while j < items.len() && !found
                        invariant
                            j <= items.len(),
                            k < items.len(),
                            !found ==> forall|i: int|
                                0 <= i < j ==> !((#[trigger] items@[i]).item_type is Symbol
                                    && items@[k as int].is_near(&items@[i])),
                            found ==> touches_symbol(items@, k as int),
                        decreases items.len() - j + (if found {
                            0int
                        } else {
                            1int
                        }),
                    {
                        if items[j].item_type.is_symbol() && items[k].near(&items[j]) {
                            found = true;
                        } else {
                            j += 1;
                        }
                    }
                    if found {
                        match sum.checked_add(v) {
                            Some(s) => {
                                sum = s;
                            },
                            None => {
                                proof {
                                    lemma_adjacent_grows(items@, k + 1, items@.len() as int);
                                }
                                return None;
                            },
                        }
                    }
                },
                _ => {},
            }
            k += 1;
        }
        Some(sum)
    }

    /// The sum of the ratios of the gears, if the ratios and the sum fit a `usize`.
    pub fn find_gears(items: Vec<Item>) -> (r: Option<usize>)
        ensures
            match r {
                Some(s) => s == gear_sum(items@, items@.len() as int),
                None => gear_sum(items@, items@.len() as int) > usize::MAX,
            },
    {
        let mut sum: usize = 0;
        let mut g: usize = 0;
        while g < items.len()
            invariant
                g <= items.len(),
                sum == gear_sum(items@, g as int),
            decreases items.len() - g,
        {
            if items[g].item_type.is_gear_symbol() {
                let mut gears: Vec<usize> = Vec::new();
                let mut i: usize = 0;
                while i < items.len()
                    invariant
                        i <= items.len(),
                        g < items.len(),
                        gears@ == numbers_near(items@, g as int, i as int),
                    decreases items.len() - i,
                {
                    match items[i].item_type {
                        ItemType::Number(v) => {
                            if items[i].near(&items[g]) {
                                gears.push(v);
                            }
                        },
                        _ => {},
                    }
                    i += 1;
                }
                if gears.len() == 2 {
                    let next = match gears[0].checked_mul(gears[1]) {
                        Some(p) => sum.checked_add(p),
                        None => None,
                    };
                    match next {
                        Some(s) => {
                            sum = s;
                        },
                        None => {
                            proof {
                                lemma_adjacent_grows(items@, g + 1, items@.len() as int);
                            }
                            return None;
                        },
                    }
                }
            }
            g += 1;
        }
        Some(sum)
    }
}

// ----- reading the plan -----
/// The pattern of an item between dots: some figures, or one character that
/// is neither a dot nor a figure.
pub open spec fn item_pattern() -> Seq<char> {
    "\\.*(:?(?<num>[0-9]+|[^.0-9])\\.*)?"@
}

/// The matches of the item pattern that have caught an item.
pub open spec fn caught(caps: Seq<Seq<Option<Span>>>, n: int) -> Seq<Span>
    decreases n,
{
    if n <= 0 {
        Seq::<Span>::empty()
    } else {
        let rest = caught(caps, n - 1);
        if caps[n - 1].len() > 2 && caps[n - 1][2] is Some {
            rest.push(caps[n - 1][2].unwrap())
        } else {
            rest
        }
    }
}

/// The item `it` is what the span of line `idx` holds.
pub open spec fn is_item(line: Seq<u8>, idx: usize, span: Span, it: Item) -> bool {
    let text = line.subrange(span.0 as int, span.1 as int);
    &&& it.x == span.0
    &&& it.y == idx
    &&& it.len == span.1 - span.0
    &&& match it.item_type {
        ItemType::Number(d) => unsigned_value(text) == Some(d as nat),
        ItemType::Symbol(t) => bytes_of(t@) == text && match unsigned_value(text) {
            Some(v) => v > usize::MAX,
            None => true,
        },
    }
}

/// The items are what the matches of the item pattern have caught in the line.
pub open spec fn are_items(line: Seq<u8>, idx: usize, caps: Seq<Seq<Option<Span>>>, items: Seq<Item>) -> bool {
    let spans = caught(caps, caps.len() as int);
    &&& items.len() == spans.len()
    &&& forall|i: int| 0 <= i < spans.len() ==> is_item(line, idx, #[trigger] spans[i], items[i])
}

/// Every span of the line holds a number that fits, or text.
pub open spec fn all_text(line: Seq<u8>, spans: Seq<Span>) -> bool {
    forall|i: int|
        0 <= i < spans.len() ==> readable(
            line.subrange((#[trigger] spans[i]).0 as int, spans[i].1 as int),
        )
}

/// Where the items of a line are read, every span holds a number or text.
pub proof fn lemma_items_readable(
    line: Seq<u8>,
    idx: usize,
    caps: Seq<Seq<Option<Span>>>,
    items: Seq<Item>,
)
    requires
        are_items(line, idx, caps, items),
    ensures
        all_text(line, caught(caps, caps.len() as int)),
{
    let spans = caught(caps, caps.len() as int);
    assert forall|i: int| 0 <= i < spans.len() implies readable(
        line.subrange((#[trigger] spans[i]).0 as int, spans[i].1 as int),
    ) by {
        assert(is_item(line, idx, spans[i], items[i]));
        match items[i].item_type {
            ItemType::Number(_) => {},
            ItemType::Symbol(t) => {
                vstd::utf8::encode_utf8_valid_utf8(t@);
            },
        }
    }
}

impl Day3 {
    /// Makes items of what the matches of the item pattern have caught in
    /// the line `idx`; nothing where a symbol is no text.
    pub fn items_from_captures(line: &[u8], idx: usize, caps: &Vec<Vec<Option<Span>>>) -> (r: Option<
        Vec<Item>,
    >)
        requires
            forall|i: int| 0 <= i < caps.len() ==> spans_in(#[trigger] caps[i]@, line@.len()),
        ensures
            match r {
                Some(items) => are_items(
                    line@,
                    idx,
                    caps@.map_values(|c: Vec<Option<Span>>| c@),
                    items@,
                ),
                None => !all_text(
                    line@,
                    caught(caps@.map_values(|c: Vec<Option<Span>>| c@), caps.len() as int),
                ),
            },
    {
        let ghost cs = caps@.map_values(|c: Vec<Option<Span>>| c@);
        let mut items: Vec<Item> = Vec::new();
        let mut i: usize = 0;
        while i < caps.len()
            invariant
                i <= caps.len(),
                cs == caps@.map_values(|c: Vec<Option<Span>>| c@),
                forall|k: int| 0 <= k < caps.len() ==> spans_in(#[trigger] caps[k]@, line@.len()),
                items.len() == caught(cs, i as int).len(),
                forall|k: int|
                    0 <= k < items.len() ==> is_item(
                        line@,
                        idx,
                        #[trigger] caught(cs, i as int)[k],
                        items[k],
                    ),
            decreases caps.len() - i,
        {
            let c = &caps[i];
            proof {
                assert(cs[i as int] == c@);
            }
            if c.len() > 2 {
                match c[2] {
                    Some((a, b)) => {
                        proof {
                            assert(spans_in(c@, line@.len()));
                            assert(c@[2] == Some((a, b)));
                        }
                        let text = slice_subrange(line, a, b);
                        match ItemType::from_bytes(text) {
                            Some(item_type) => {
                                let ghost before = caught(cs, i as int);
                                items.push(Item { x: a, y: idx, len: b - a, item_type });
                                proof {
                                    let now = caught(cs, i + 1);
                                    assert(now =~= before.push((a, b)));
                                    assert forall|k: int| 0 <= k < items.len() implies is_item(
                                        line@,
                                        idx,
                                        #[trigger] now[k],
                                        items[k],
                                    ) by {
                                        if k < before.len() {
                                            assert(now[k] == before[k]);
                                        }
                                    }
                                }
                            },
                            None => {
                                proof {
                                    let now = caught(cs, i + 1);
                                    assert(now[now.len() - 1] == (a, b));
                                    lemma_caught_grows(cs, i + 1, caps.len() as int);
                                    let all = caught(cs, caps.len() as int);
                                    assert(all[now.len() - 1] == (a, b));
                                }
                                return None;
                            },
                        }
                    },
                    None => {},
                }
            }
            i += 1;
        }
        Some(items)
    }

    /// The items of the line `idx` of the plan.
    pub fn find_items(line: &str, idx: usize) -> (r: Option<Vec<Item>>)
        ensures
            match r {
                Some(items) => all_captures(item_pattern(), line@) is Some && are_items(
                    line.spec_bytes(),
                    idx,
                    all_captures(item_pattern(), line@).unwrap(),
                    items@,
                ),
                None => match all_captures(item_pattern(), line@) {
                    Some(caps) => !all_text(line.spec_bytes(), caught(caps, caps.len() as int)),
                    None => true,
                },
            },
    {
        match captures_iter("\\.*(:?(?<num>[0-9]+|[^.0-9])\\.*)?", line) {
            Some(caps) => Day3::items_from_captures(line.as_bytes(), idx, &caps),
            None => None,
        }
    }
}

proof fn lemma_caught_grows(caps: Seq<Seq<Option<Span>>>, i: int, n: int)
    requires
        0 <= i <= n,
    ensures
        caught(caps, i).len() <= caught(caps, n).len(),
        forall|k: int| 0 <= k < caught(caps, i).len() ==> caught(caps, n)[k] == caught(caps, i)[k],
    decreases n - i,
{
    if i < n {
        lemma_caught_grows(caps, i, n - 1);
    }
}

// ----- the answers -----
/// The items of the line can be read.
pub open spec fn line_fine(line: Seq<u8>) -> bool {
    &&& vstd::utf8::valid_utf8(line)
    &&& match all_captures(item_pattern(), text_of(line)) {
        Some(caps) => all_text(line, caught(caps, caps.len() as int)),
        None => false,
    }
}

/// The items of every line can be read.
pub open spec fn plan_fine(ls: Seq<Seq<u8>>) -> bool {
    forall|i: int| 0 <= i < ls.len() ==> line_fine(#[trigger] ls[i])
}

/// The items are those of the line `idx`.
pub open spec fn line_items(line: Seq<u8>, idx: usize, items: Seq<Item>) -> bool {
    match all_captures(item_pattern(), text_of(line)) {
        Some(caps) => are_items(line, idx, caps, items),
        None => false,
    }
}

/// The items are those of the lines, line by line: those of the line `i`
/// stand from the place `cuts[i]` up to the place `cuts[i + 1]`.
pub open spec fn plan_items(ls: Seq<Seq<u8>>, items: Seq<Item>, cuts: Seq<int>) -> bool {
    &&& cuts.len() == ls.len() + 1
    &&& cuts[0] == 0
    &&& cuts[ls.len() as int] == items.len()
    &&& forall|i: int|
        0 <= i < ls.len() ==> 0 <= cuts[i] <= cuts[i + 1] <= items.len() && line_items(
            #[trigger] ls[i],
            i as usize,
            items.subrange(cuts[i], cuts[i + 1]),
        )
}

/// The number that a part asks for.
pub open spec fn total(part: int, items: Seq<Item>) -> nat {
    if part == 1 {
        adjacent_sum(items, items.len() as int)
    } else {
        gear_sum(items, items.len() as int)
    }
}

/// `r` is what the part gives for the items.
pub open spec fn is_total(part: int, items: Seq<Item>, r: Result<String, PuzzleError>) -> bool {
    if total(part, items) <= usize::MAX {
        r is Ok && r.unwrap()@ == decimal(total(part, items))
    } else {
        r == Err::<String, PuzzleError>(PuzzleError::Overflow)
    }
}

/// `r` is the answer of a part: the sum of the numbers near a symbol, or
/// the sum of the ratios of the gears.
pub open spec fn is_answer(input: Option<String>, part: int, r: Result<String, PuzzleError>) -> bool {
    match input {
        None => r == Err::<String, PuzzleError>(PuzzleError::MissingInput),
        Some(text) => {
            let ls = lines(bytes_of(text@));
            if !plan_fine(ls) {
                r == Err::<String, PuzzleError>(PuzzleError::Parse(ParseError::Malformed))
            } else {
                exists|items: Seq<Item>, cuts: Seq<int>|
                    #[trigger] plan_items(ls, items, cuts) && is_total(part, items, r)
            }
        },
    }
}

fn run_part(input: Option<String>, part: u8) -> (r: Result<String, PuzzleError>)
    requires
        part == 1 || part == 2,
    ensures
        is_answer(input, part as int, r),
{
    let text = match input {
        Some(t) => t,
        None => {
            return Err(PuzzleError::MissingInput);
        },
    };
    let rows = split_lines(string_bytes(&text));
    let ghost ls = lines(bytes_of(text@));
    let mut items: Vec<Item> = Vec::new();
    let ghost mut cuts: Seq<int> = seq![0int];
    let mut idx: usize = 0;
    while idx < rows.len()
        invariant
            idx <= rows.len(),
            rows_view(rows@) == ls,
            ls == lines(bytes_of(text@)),
            ls.len() == rows.len(),
            input == Some(text),
            cuts.len() == idx + 1,
            cuts[0] == 0,
            cuts[idx as int] == items.len(),
            forall|i: int| 0 <= i < idx ==> line_fine(#[trigger] ls[i]),
            forall|i: int| 0 <= i < idx ==> 0 <= #[trigger] cuts[i] <= cuts[i + 1] <= items.len(),
            forall|i: int|
                0 <= i < idx ==> line_items(
                    #[trigger] ls[i],
                    i as usize,
                    items@.subrange(cuts[i], cuts[i + 1]),
                ),
        decreases rows.len() - idx,
    {
        proof {
            assert(ls[idx as int] == rows@[idx as int]@);
        }
        let line = match string_of(rows[idx].as_slice()) {
            Some(l) => l,
            None => {
                proof {
                    assert(!line_fine(ls[idx as int]));
                    assert(!plan_fine(ls));
                }
                return Err(PuzzleError::Parse(ParseError::Malformed));
            },
        };
        let mut found = match Day3::find_items(line.as_str(), idx) {
            Some(f) => f,
            None => {
                proof {
                    assert(!line_fine(ls[idx as int]));
                    assert(!plan_fine(ls));
                }
                return Err(PuzzleError::Parse(ParseError::Malformed));
            },
        };
        let ghost before = items@;
        let ghost added = found@;
        let ghost old_cuts = cuts;
        items.append(&mut found);
        proof {
            cuts = cuts.push(items.len() as int);
            assert(items@ == before + added);
            assert(items@.subrange(cuts[idx as int], cuts[idx + 1]) =~= added);
            lemma_items_readable(
                ls[idx as int],
                idx,
                all_captures(item_pattern(), line@).unwrap(),
                added,
            );
            assert(line_fine(ls[idx as int]));
            assert forall|i: int| 0 <= i < idx + 1 implies 0 <= #[trigger] cuts[i] <= cuts[i + 1]
                <= items.len() by {
                if i < idx {
                    assert(0 <= old_cuts[i] <= old_cuts[i + 1] <= before.len());
                }
            }
            assert forall|i: int| 0 <= i < idx + 1 implies line_items(
                #[trigger] ls[i],
                i as usize,
                items@.subrange(cuts[i], cuts[i + 1]),
            ) by {
                if i < idx {
                    assert(0 <= old_cuts[i] <= old_cuts[i + 1] <= before.len());
                    assert(cuts[i] == old_cuts[i] && cuts[i + 1] == old_cuts[i + 1]);
                    assert(items@.subrange(cuts[i], cuts[i + 1]) =~= before.subrange(
                        old_cuts[i],
                        old_cuts[i + 1],
                    ));
                }
            }
        }
        idx += 1;
    }
    let ghost all = items@;
    let sum = if part == 1 {
        Day3::find_adjacent(items)
    } else {
        Day3::find_gears(items)
    };
    let r = match sum {
        Some(v) => Ok(decimal_string(v as u128)),
        None => Err(PuzzleError::Overflow),
    };
    proof {
        assert forall|i: int| 0 <= i < ls.len() implies 0 <= cuts[i] <= cuts[i + 1] <= all.len()
            && line_items(#[trigger] ls[i], i as usize, all.subrange(cuts[i], cuts[i + 1])) by {
            assert(0 <= cuts[i] <= cuts[i + 1] <= all.len());
        }
        assert(plan_fine(ls));
        assert(plan_items(ls, all, cuts));
        assert(is_total(part as int, all, r));
    }
    r
}

impl AdventOfCode for Day3 {
    fn day(&self) -> (d: u8)
        ensures
            d == 3,
    {
        3
    }

    fn run1(&mut self, input: Option<String>) -> (r: Result<String, PuzzleError>)
        ensures
            is_answer(input, 1, r),
    {
        run_part(input, 1)
    }

    fn run2(&mut self, input: Option<String>) -> (r: Result<String, PuzzleError>)
        ensures
            is_answer(input, 2, r),
    {
        run_part(input, 2)
    }
}

} // verus!
