//! Scratchcards: what the cards win, and how many cards they win.

use crate::errors::{ParseError, PuzzleError};
use crate::pattern::{Span, captures, first_captures, spans_in};
use crate::text::{
    bytes_of, copy_bytes, decimal, decimal_string, lines, nats, numbers, numbers_ok, parse_numbers,
    parse_usize, rows_view, split_lines, string_bytes, strings_of, text_of, unsigned_value,
};
use crate::traits::AdventOfCode;
use vstd::prelude::*;
use vstd::slice::slice_subrange;
use vstd::string::*;

verus! {

/// A card: its number, the numbers drawn, the numbers bet, and how many of
/// the bet are among the drawn, once that has been counted.
pub struct Draw {
    pub id: usize,
    pub draw: Vec<usize>,
    pub bet: Vec<usize>,
    pub matches: Option<usize>,
}

pub struct Lottery {
    pub draws: Vec<Draw>,
}

/// How many of the first `n` numbers bet are among the numbers drawn.
pub open spec fn match_count(draw: Seq<usize>, bet: Seq<usize>, n: int) -> nat
    decreases n,
{
    if n <= 0 {
        0
    } else {
        match_count(draw, bet, n - 1) + if draw.contains(bet[n - 1]) {
            1nat
        } else {
            0nat
        }
    }
}

pub open spec fn two_to(n: nat) -> nat
    decreases n,
{
    if n == 0 {
        1
    } else {
        2 * two_to((n - 1) as nat)
    }
}

proof fn lemma_two_to_grows(a: nat, b: nat)
    requires
        a <= b,
    ensures
        two_to(a) <= two_to(b),
        two_to(a) >= 1,
    decreases b,
{
    if a < b {
        lemma_two_to_grows(a, (b - 1) as nat);
    } else if a > 0 {
        lemma_two_to_grows((a - 1) as nat, (a - 1) as nat);
    }
}

/// What a card with `m` matches wins: 1 for the first match, doubled for each further one.
pub open spec fn prize(m: nat) -> nat {
    two_to(m) / 2
}

fn is_drawn(draw: &Vec<usize>, b: usize) -> (r: bool)
    ensures
        r == draw@.contains(b),
{
    let mut i: usize = 0;
    while i < draw.len()
        invariant
            i <= draw.len(),
            forall|k: int| 0 <= k < i ==> draw@[k] != b,
        decreases draw.len() - i,
    {
        if draw[i] == b {
            return true;
        }
        i += 1;
    }
    false
}

impl Draw {
    /// How many of the numbers bet are among the numbers drawn.
    pub open spec fn count(&self) -> nat {
        match_count(self.draw@, self.bet@, self.bet@.len() as int)
    }

    /// What the card wins, if twice that fits a `usize`.
    pub fn winnings(&self) -> (r: Option<usize>)
        ensures
            match r {
                Some(w) => w == prize(self.count()) && two_to(self.count()) <= usize::MAX,
                None => two_to(self.count()) > usize::MAX,
            },
    {
        let mut a: usize = 1;
        let mut i: usize = 0;
        while i < self.bet.len()
            invariant
                i <= self.bet.len(),
                a == two_to(match_count(self.draw@, self.bet@, i as int)),
            decreases self.bet.len() - i,
        {
            if is_drawn(&self.draw, self.bet[i]) {
                match a.checked_mul(2) {
                    Some(x) => {
                        a = x;
                    },
                    None => {
                        proof {
                            lemma_count_grows(self.draw@, self.bet@, i + 1, self.bet@.len() as int);
                            lemma_two_to_grows(
                                match_count(self.draw@, self.bet@, i + 1),
                                self.count(),
                            );
                        }
                        return None;
                    },
                }
            }
            i += 1;
        }
        Some(a / 2)
    }

    /// How many of the numbers bet are among the numbers drawn; counted once and then kept.
    pub fn matches(&mut self) -> (m: usize)
        ensures
            final(self).id == old(self).id,
            final(self).draw == old(self).draw,
            final(self).bet == old(self).bet,
            match old(self).matches {
                Some(kept) => m == kept && final(self).matches == old(self).matches,
                None => m == old(self).count() && final(self).matches == Some(m),
            },
    {
        match self.matches {
            Some(m) => m,
            None => {
                let mut m: usize = 0;
                let mut i: usize = 0;
                while i < self.bet.len()
                    invariant
                        i <= self.bet.len(),
                        m <= i,
                        m == match_count(self.draw@, self.bet@, i as int),
                    decreases self.bet.len() - i,
                {
                    if is_drawn(&self.draw, self.bet[i]) {
                        m += 1;
                    }
                    i += 1;
                }
                self.matches = Some(m);
                m
            },
        }
    }
}

proof fn lemma_count_grows(draw: Seq<usize>, bet: Seq<usize>, i: int, n: int)
    requires
        0 <= i <= n,
    ensures
        match_count(draw, bet, i) <= match_count(draw, bet, n),
    decreases n - i,
{
    if i < n {
        lemma_count_grows(draw, bet, i, n - 1);
    }
}

/// The sum of what the first `n` cards win, if each prize and the sum fit a `usize`.
pub open spec fn prizes_to(draws: Seq<Draw>, n: int) -> Option<nat>
    decreases n,
{
    if n <= 0 {
        Some(0)
    } else {
        match prizes_to(draws, n - 1) {
            Some(s) => if two_to(draws[n - 1].count()) <= usize::MAX && s + prize(
                draws[n - 1].count(),
            ) <= usize::MAX {
                Some(s + prize(draws[n - 1].count()))
            } else {
                None
            },
            None => None,
        }
    }
}

proof fn lemma_prizes_fail(draws: Seq<Draw>, i: int, n: int)
    requires
        0 <= i <= n,
        prizes_to(draws, i) is None,
    ensures
        prizes_to(draws, n) is None,
    decreases n - i,
{
    if i < n {
        lemma_prizes_fail(draws, i, n - 1);
    }
}

/// The cards after the first `m` cards behind the card `id` have each won
/// as many copies as there are of that card; nothing where one of them is
/// missing or the copies do not fit a `usize`.
pub open spec fn spread(copies: Seq<usize>, id: int, m: int) -> Option<Seq<usize>>
    decreases m,
{
    if m <= 0 {
        Some(copies)
    } else {
        match spread(copies, id, m - 1) {
            Some(c) => if 1 <= id && id + m - 1 < c.len() && c[id + m - 1] + c[id - 1]
                <= usize::MAX {
                Some(c.update(id + m - 1, (c[id + m - 1] + c[id - 1]) as usize))
            } else {
                None
            },
            None => None,
        }
    }
}

/// The copies of each card after the first `n` cards have been scratched.
pub open spec fn copies_after(draws: Seq<Draw>, n: int) -> Option<Seq<usize>>
    decreases n,
{
    if n <= 0 {
        Some(Seq::new(draws.len(), |i: int| 1usize))
    } else {
        match copies_after(draws, n - 1) {
            Some(c) => spread(
                c,
                draws[n - 1].id as int,
                match draws[n - 1].matches {
                    Some(kept) => kept as int,
                    None => draws[n - 1].count() as int,
                },
            ),
            None => None,
        }
    }
}

proof fn lemma_spread_fail(copies: Seq<usize>, id: int, i: int, m: int)
    requires
        0 <= i <= m,
        spread(copies, id, i) is None,
    ensures
        spread(copies, id, m) is None,
    decreases m - i,
{
    if i < m {
        lemma_spread_fail(copies, id, i, m - 1);
    }
}

proof fn lemma_copies_fail(draws: Seq<Draw>, i: int, n: int)
    requires
        0 <= i <= n,
        copies_after(draws, i) is None,
    ensures
        copies_after(draws, n) is None,
    decreases n - i,
{
    if i < n {
        lemma_copies_fail(draws, i, n - 1);
    }
}

impl Lottery {
    /// What the cards win in all.
    pub fn winnings(&self) -> (r: Option<usize>)
        ensures
            match r {
                Some(w) => prizes_to(self.draws@, self.draws@.len() as int) == Some(w as nat),
                None => prizes_to(self.draws@, self.draws@.len() as int) is None,
            },
    {
        let mut sum: usize = 0;
        let mut i: usize = 0;
        while i < self.draws.len()
            invariant
                i <= self.draws.len(),
                prizes_to(self.draws@, i as int) == Some(sum as nat),
            decreases self.draws.len() - i,
        {
            let next = match self.draws[i].winnings() {
                Some(w) => sum.checked_add(w),
                None => None,
            };
            match next {
                Some(s) => {
                    sum = s;
                },
                None => {
                    proof {
                        assert(prizes_to(self.draws@, i + 1) is None);
                        lemma_prizes_fail(self.draws@, i + 1, self.draws@.len() as int);
                    }
                    return None;
                },
            }
            i += 1;
        }
        Some(sum)
    }

    /// How many cards there are in the end, where each card wins a copy of as
    /// many of the cards behind it as it has matches.
    pub fn winnings2(&mut self) -> (r: Option<usize>)
        ensures
            final(self).draws@.len() == old(self).draws@.len(),
            match r {
                Some(w) => copies_after(old(self).draws@, old(self).draws@.len() as int) is Some
                    && w == crate::numbers::sum(
                    copies_after(old(self).draws@, old(self).draws@.len() as int).unwrap(),
                ),
                None => match copies_after(old(self).draws@, old(self).draws@.len() as int) {
                    Some(c) => crate::numbers::sum(c) > usize::MAX,
                    None => true,
                },
            },
    {
        let n = self.draws.len();
        let mut copies: Vec<usize> = Vec::new();
        let mut k: usize = 0;
        while k < n
            invariant
                k <= n,
                copies.len() == k,
                forall|j: int| 0 <= j < k ==> copies@[j] == 1,
            decreases n - k,
        {
            copies.push(1);
            k += 1;
        }
        let ghost start = old(self).draws@;
        proof {
            assert(copies@ =~= Seq::new(start.len(), |i: int| 1usize));
        }
        let mut d: usize = 0;
        while d < n
            invariant
                d <= n,
                n == self.draws.len(),
                n == start.len(),
                start == old(self).draws@,
                copies.len() == n,
                copies_after(start, d as int) == Some(copies@),
                forall|j: int| d <= j < n ==> self.draws@[j] == start[j],
            decreases n - d,
        {
            let ghost before = copies@;
            let ghost card = start[d as int];
            let m = self.draws[d].matches();
            let id = self.draws[d].id;
            proof {
                assert(m == match card.matches {
                    Some(kept) => kept as int,
                    None => card.count() as int,
                });
                assert(id == card.id);
            }
            let mut i: usize = 0;
            while i < m
                invariant
                    i <= m,
                    copies.len() == n,
                    n == start.len(),
                    n == self.draws.len(),
                    start == old(self).draws@,
                    d < n,
                    spread(before, id as int, i as int) == Some(copies@),
                    copies_after(start, d as int) == Some(before),
                    card == start[d as int],
                    id == card.id,
                    m == match card.matches {
                        Some(kept) => kept as int,
                        None => card.count() as int,
                    },
                decreases m - i,
            {
                let to = match id.checked_add(i) {
                    Some(t) => t,
                    None => {
                        proof {
                            assert(spread(before, id as int, i + 1) is None);
                            lemma_spread_fail(before, id as int, i + 1, m as int);
                            assert(copies_after(start, d + 1) is None);
                            lemma_copies_fail(start, d + 1, n as int);
                        }
                        return None;
                    },
                };
                if id < 1 || to >= n {
                    proof {
                        assert(spread(before, id as int, i + 1) is None);
                        lemma_spread_fail(before, id as int, i + 1, m as int);
                        assert(copies_after(start, d + 1) is None);
                        lemma_copies_fail(start, d + 1, n as int);
                    }
                    return None;
                }
                match copies[to].checked_add(copies[id - 1]) {
                    Some(c) => {
                        copies[to] = c;
                    },
                    None => {
                        proof {
                            assert(spread(before, id as int, i + 1) is None);
                            lemma_spread_fail(before, id as int, i + 1, m as int);
                            assert(copies_after(start, d + 1) is None);
                            lemma_copies_fail(start, d + 1, n as int);
                        }
                        return None;
                    },
                }
                i += 1;
            }
            d += 1;
        }
        crate::numbers::sum_of(&copies)
    }
}

// ----- reading cards -----
/// The pattern of a card: the word "Card", its number, a colon, the numbers
/// drawn, a bar, and the numbers bet.
pub open spec fn card_pattern() -> Seq<char> {
    "^Card\\s*(?<id>\\d+): (?<draw>[^|]+)\\|(?<bet>[^|]+)$"@
}

/// The bytes of the group `i`.
pub open spec fn group(text: Seq<u8>, caps: Seq<Option<Span>>, i: int) -> Seq<u8> {
    text.subrange(caps[i].unwrap().0 as int, caps[i].unwrap().1 as int)
}

/// The captures are those of a card that is written well: three groups, a
/// number that fits, and two lists of such numbers.
pub open spec fn card_ok(text: Seq<u8>, caps: Seq<Option<Span>>) -> bool {
    &&& caps.len() >= 4
    &&& caps[1] is Some && caps[2] is Some && caps[3] is Some
    &&& unsigned_value(group(text, caps, 1)) is Some
    &&& unsigned_value(group(text, caps, 1)).unwrap() <= usize::MAX
    &&& numbers_ok(group(text, caps, 2))
    &&& numbers_ok(group(text, caps, 3))
}

/// The card `d` is what the captures hold.
pub open spec fn is_card(text: Seq<u8>, caps: Seq<Option<Span>>, d: Draw) -> bool {
    &&& d.id == unsigned_value(group(text, caps, 1)).unwrap()
    &&& nats(d.draw@) == numbers(group(text, caps, 2))
    &&& nats(d.bet@) == numbers(group(text, caps, 3))
    &&& d.matches is None
}

/// A copy of the bytes of a span.
fn span_bytes(text: &[u8], caps: &Vec<Option<Span>>, i: usize) -> (r: Vec<u8>)
    requires
        i < caps.len(),
        caps@[i as int] is Some,
        spans_in(caps@, text@.len()),
    ensures
        r@ == group(text@, caps@, i as int),
{
    match caps[i] {
        Some((a, b)) => copy_bytes(slice_subrange(text, a, b)),
        None => Vec::new(),
    }
}

impl Draw {
    /// Makes a card of what the pattern of a card has captured in `text`.
    pub fn from_captures(text: &[u8], caps: &Vec<Option<Span>>) -> (r: Result<Draw, ParseError>)
        requires
            spans_in(caps@, text@.len()),
        ensures
            match r {
                Ok(d) => card_ok(text@, caps@) && is_card(text@, caps@, d),
                Err(e) => e == ParseError::Malformed && !card_ok(text@, caps@),
            },
    {
        if caps.len() < 4 {
            return Err(ParseError::Malformed);
        }
        if caps[1].is_none() || caps[2].is_none() || caps[3].is_none() {
            return Err(ParseError::Malformed);
        }
        let id_text = span_bytes(text, caps, 1);
        let draw_text = span_bytes(text, caps, 2);
        let bet_text = span_bytes(text, caps, 3);
        let id = match parse_usize(id_text.as_slice()) {
            Some(v) => v,
            None => {
                return Err(ParseError::Malformed);
            },
        };
        let draw = match parse_numbers(draw_text.as_slice()) {
            Some(v) => v,
            None => {
                return Err(ParseError::Malformed);
            },
        };
        let bet = match parse_numbers(bet_text.as_slice()) {
            Some(v) => v,
            None => {
                return Err(ParseError::Malformed);
            },
        };
        Ok(Draw { matches: None, id, draw, bet })
    }

    /// Reads a card from a line such as `Card 1: 41 48 | 83 86 48`.
    pub fn from_str(s: &str) -> (r: Result<Draw, ParseError>)
        ensures
            match r {
                Ok(d) => match first_captures(card_pattern(), s@) {
                    Some(Some(caps)) => card_ok(s.spec_bytes(), caps) && is_card(
                        s.spec_bytes(),
                        caps,
                        d,
                    ),
                    _ => false,
                },
                Err(e) => e == ParseError::Malformed && match first_captures(card_pattern(), s@) {
                    Some(Some(caps)) => !card_ok(s.spec_bytes(), caps),
                    _ => true,
                },
            },
    {
        match captures("^Card\\s*(?<id>\\d+): (?<draw>[^|]+)\\|(?<bet>[^|]+)$", s) {
            Some(Some(caps)) => Draw::from_captures(s.as_bytes(), &caps),
            _ => Err(ParseError::Malformed),
        }
    }
}

/// The card `d` is what the line writes.
pub open spec fn is_line(line: Seq<char>, d: Draw) -> bool {
    match first_captures(card_pattern(), line) {
        Some(Some(caps)) => card_ok(bytes_of(line), caps) && is_card(bytes_of(line), caps, d),
        _ => false,
    }
}

/// The line writes a card.
pub open spec fn line_ok(line: Seq<char>) -> bool {
    match first_captures(card_pattern(), line) {
        Some(Some(caps)) => card_ok(bytes_of(line), caps),
        _ => false,
    }
}

impl Lottery {
    /// The cards of the lines.
    pub fn from_lines(rows: &Vec<String>) -> (r: Result<Lottery, ParseError>)
        ensures
            match r {
                Ok(l) => {
                    &&& l.draws@.len() == rows@.len()
                    &&& forall|i: int| 0 <= i < rows@.len() ==> is_line((#[trigger] rows@[i])@, l.draws@[i])
                },
                Err(e) => e == ParseError::Malformed && exists|i: int|
                    0 <= i < rows@.len() && !line_ok((#[trigger] rows@[i])@),
            },
    {
        let mut draws: Vec<Draw> = Vec::new();
        let mut i: usize = 0;
        while i < rows.len()
            invariant
                i <= rows.len(),
                draws.len() == i,
                forall|k: int| 0 <= k < i ==> is_line((#[trigger] rows@[k])@, draws@[k]),
            decreases rows.len() - i,
        {
            let line = rows[i].as_str();
            match Draw::from_str(line) {
                Ok(d) => {
                    draws.push(d);
                },
                Err(e) => {
                    proof {
                        assert(!line_ok(rows@[i as int]@));
                    }
                    return Err(e);
                },
            }
            i += 1;
        }
        Ok(Lottery { draws })
    }
}

// ----- the answers -----
/// Every line writes a card.
pub open spec fn cards_fine(ls: Seq<Seq<u8>>) -> bool {
    forall|i: int|
        0 <= i < ls.len() ==> vstd::utf8::valid_utf8(#[trigger] ls[i]) && line_ok(text_of(ls[i]))
}

/// The cards are what the lines write.
pub open spec fn are_cards(ls: Seq<Seq<u8>>, draws: Seq<Draw>) -> bool {
    &&& draws.len() == ls.len()
    &&& forall|i: int| 0 <= i < ls.len() ==> is_line(text_of(#[trigger] ls[i]), draws[i])
}

/// `r` is what the part gives for the cards: what they win, or how many
/// there are in the end; an error where that is beyond a `usize`.
pub open spec fn is_prize(part: int, draws: Seq<Draw>, r: Result<String, PuzzleError>) -> bool {
    let won = if part == 1 {
        prizes_to(draws, draws.len() as int)
    } else {
        match copies_after(draws, draws.len() as int) {
            Some(c) => if crate::numbers::sum(c) <= usize::MAX {
                Some(crate::numbers::sum(c))
            } else {
                None
            },
            None => None,
        }
    };
    match won {
        Some(w) => r is Ok && r.unwrap()@ == decimal(w),
        None => r == Err::<String, PuzzleError>(PuzzleError::Overflow),
    }
}

/// `r` is the answer of a part.
pub open spec fn is_answer(input: Option<String>, part: int, r: Result<String, PuzzleError>) -> bool {
    match input {
        None => r == Err::<String, PuzzleError>(PuzzleError::MissingInput),
        Some(text) => {
            let ls = lines(bytes_of(text@));
            if !cards_fine(ls) {
                r == Err::<String, PuzzleError>(PuzzleError::Parse(ParseError::Malformed))
            } else {
                exists|draws: Seq<Draw>| #[trigger] are_cards(ls, draws) && is_prize(part, draws, r)
            }
        },
    }
}

fn run_part(input: Option<String>, part: u8) -> (r: Result<String, PuzzleError>)
    requires
        part == 1 || part == 2,
    ensures
        is_answer(input, part as int, r),
{
    let text = match input {
        Some(t) => t,
        None => {
            return Err(PuzzleError::MissingInput);
        },
    };
    let rows = split_lines(string_bytes(&text));
    let ghost ls = lines(bytes_of(text@));
    assert(ls.len() == rows.len());
    assert forall|i: int| 0 <= i < rows.len() implies (#[trigger] rows[i])@ == ls[i] by {
        assert(rows_view(rows@)[i] == ls[i]);
    }
    let strings = match strings_of(&rows) {
        Some(v) => v,
        None => {
            proof {
                let i = choose|i: int| 0 <= i < rows.len() && !vstd::utf8::valid_utf8(#[trigger] rows[i]@);
                assert(!vstd::utf8::valid_utf8(ls[i]));
                assert(!cards_fine(ls));
            }
            return Err(PuzzleError::Parse(ParseError::Malformed));
        },
    };
    let mut lottery = match Lottery::from_lines(&strings) {
        Ok(l) => l,
        Err(e) => {
            proof {
                let i = choose|i: int| 0 <= i < strings@.len() && !line_ok((#[trigger] strings@[i])@);
                assert(strings[i]@ == text_of(rows[i]@));
                assert(!line_ok(text_of(ls[i])));
                assert(!cards_fine(ls));
            }
            return Err(PuzzleError::Parse(e));
        },
    };
    let ghost draws = lottery.draws@;
    proof {
        assert forall|i: int| 0 <= i < ls.len() implies vstd::utf8::valid_utf8(#[trigger] ls[i])
            && line_ok(text_of(ls[i])) by {
            assert(rows[i]@ == ls[i]);
            assert(strings[i]@ == text_of(rows[i]@));
            assert(is_line(strings@[i]@, draws[i]));
        }
        assert forall|i: int| 0 <= i < ls.len() implies is_line(
            text_of(#[trigger] ls[i]),
            draws[i],
        ) by {
            assert(rows[i]@ == ls[i]);
            assert(strings[i]@ == text_of(rows[i]@));
            assert(is_line(strings@[i]@, draws[i]));
        }
        assert(are_cards(ls, draws));
    }
    let won = if part == 1 {
        lottery.winnings()
    } else {
        lottery.winnings2()
    };
    let r = match won {
        Some(w) => Ok(decimal_string(w as u128)),
        None => Err(PuzzleError::Overflow),
    };
    proof {
        assert(is_prize(part as int, draws, r));
    }
    r
}

pub struct Day4;

impl AdventOfCode for Day4 {
    fn day(&self) -> (d: u8)
        ensures
            d == 4,
    {
        4
    }

    fn run1(&mut self, input: Option<String>) -> (r: Result<String, PuzzleError>)
        ensures
            is_answer(input, 1, r),
    {
        run_part(input, 1)
    }

    fn run2(&mut self, input: Option<String>) -> (r: Result<String, PuzzleError>)
        ensures
            is_answer(input, 2, r),
    {
        run_part(input, 2)
    }
}

} // verus!
