//! Camel cards: hands of five cards, ranked by their type and then card by card.

use crate::errors::{ParseError, PuzzleError};
use crate::text::{
    bytes_of, decimal, decimal_string, lines, parse_usize, rows_view, split_lines, split_once,
    split_once_byte, string_bytes, unsigned_value,
};
use crate::traits::AdventOfCode;
use vstd::prelude::*;

verus! {

/// A card, and the run in which it is played: in run 1 the `J` is a joker and the lowest card.
#[derive(Clone, Copy, Debug, PartialEq, Eq, Structural)]
pub struct Card {
    pub card: char,
    pub run: usize,
}

/// The cards from the lowest to the highest, as they rank in a run.
pub open spec fn card_order(run: int) -> Seq<char> {
    if run == 0 {
        seq!['2', '3', '4', '5', '6', '7', '8', '9', 'T', 'J', 'Q', 'K', 'A']
    } else {
        seq!['J', '2', '3', '4', '5', '6', '7', '8', '9', 'T', 'Q', 'K', 'A']
    }
}

/// The rank of a card in a run, 0 to 12, or 13 for a character that is no card.
pub open spec fn rank_of(card: char, run: int, k: int) -> int
    decreases 13 - k,
{
    if k < 0 || k >= 13 {
        13
    } else if card_order(run)[k] == card {
        k
    } else {
        rank_of(card, run, k + 1)
    }
}

fn card_at(run: usize, k: usize) -> (c: char)
    requires
        k < 13,
    ensures
        c == card_order(if run == 0 {
            0int
        } else {
            1int
        })[k as int],
{
    if run == 0 {
        if k == 0 {
            '2'
        } else if k == 1 {
            '3'
        } else if k == 2 {
            '4'
        } else if k == 3 {
            '5'
        } else if k == 4 {
            '6'
        } else if k == 5 {
            '7'
        } else if k == 6 {
            '8'
        } else if k == 7 {
            '9'
        } else if k == 8 {
            'T'
        } else if k == 9 {
            'J'
        } else if k == 10 {
            'Q'
        } else if k == 11 {
            'K'
        } else {
            'A'
        }
    } else {
        if k == 0 {
            'J'
        } else if k == 1 {
            '2'
        } else if k == 2 {
            '3'
        } else if k == 3 {
            '4'
        } else if k == 4 {
            '5'
        } else if k == 5 {
            '6'
        } else if k == 6 {
            '7'
        } else if k == 7 {
            '8'
        } else if k == 8 {
            '9'
        } else if k == 9 {
            'T'
        } else if k == 10 {
            'Q'
        } else if k == 11 {
            'K'
        } else {
            'A'
        }
    }
}

impl Card {
    /// The run as the order of the cards knows it: every run but the first has the joker.
    pub open spec fn order_run(&self) -> int {
        if self.run == 0 {
            0
        } else {
            1
        }
    }

    /// The rank of the card in its run, 0 to 12.
    pub open spec fn id(&self) -> int {
        rank_of(self.card, self.order_run(), 0)
    }

    /// The card is one of the thirteen.
    pub open spec fn wf(&self) -> bool {
        self.id() < 13
    }

    /// The rank of the card in its run, if it is a card.
    pub fn card_id(&self) -> (r: Option<usize>)
        ensures
            match r {
                Some(k) => k == self.id() && k < 13,
                None => self.id() == 13,
            },
    {
        let mut k: usize = 0;
        while k < 13
            invariant
                k <= 13,
                self.id() == rank_of(self.card, self.order_run(), k as int),
            decreases 13 - k,
        {
            if card_at(self.run, k) == self.card {
                return Some(k);
            }
            k += 1;
        }
        None
    }
}

#[derive(Clone, Copy, Debug, PartialEq, Eq, Structural)]
pub enum HandType {
    /// No type at all: the cards are not five.
    Nothing,
    HighCard,
    OnePair,
    TwoPair,
    ThreeOfAKind,
    FullHouse,
    FourOfAKind,
    FiveOfAKind,
}

impl HandType {
    /// The strength of the type, 0 to 7.
    pub open spec fn strength(&self) -> int {
        match *self {
            HandType::Nothing => 0,
            HandType::HighCard => 1,
            HandType::OnePair => 2,
            HandType::TwoPair => 3,
            HandType::ThreeOfAKind => 4,
            HandType::FullHouse => 5,
            HandType::FourOfAKind => 6,
            HandType::FiveOfAKind => 7,
        }
    }

    pub fn strength_of(&self) -> (s: u8)
        ensures
            s == self.strength(),
    {
        match self {
            HandType::Nothing => 0,
            HandType::HighCard => 1,
            HandType::OnePair => 2,
            HandType::TwoPair => 3,
            HandType::ThreeOfAKind => 4,
            HandType::FullHouse => 5,
            HandType::FourOfAKind => 6,
            HandType::FiveOfAKind => 7,
        }
    }
}

/// How many of the first `n` counts are `v`.
pub open spec fn times(counts: Seq<u8>, v: u8, n: int) -> nat
    decreases n,
{
    if n <= 0 {
        0
    } else {
        times(counts, v, n - 1) + if counts[n - 1] == v {
            1nat
        } else {
            0nat
        }
    }
}

/// The type of a hand with these counts of each card.
pub open spec fn type_of_counts(counts: Seq<u8>) -> HandType {
    if times(counts, 5, 13) == 1 {
        HandType::FiveOfAKind
    } else if times(counts, 4, 13) == 1 {
        HandType::FourOfAKind
    } else if times(counts, 3, 13) == 1 && times(counts, 2, 13) == 1 {
        HandType::FullHouse
    } else if times(counts, 3, 13) == 1 {
        HandType::ThreeOfAKind
    } else if times(counts, 2, 13) == 2 {
        HandType::TwoPair
    } else if times(counts, 2, 13) == 1 {
        HandType::OnePair
    } else if times(counts, 1, 13) == 5 {
        HandType::HighCard
    } else {
        HandType::Nothing
    }
}

fn count_of(counts: &[u8; 13], v: u8) -> (n: usize)
    ensures
        n == times(counts@, v, 13),
{
    let mut n: usize = 0;
    let mut i: usize = 0;
    while i < 13
        invariant
            i <= 13,
            n <= i,
            n == times(counts@, v, i as int),
        decreases 13 - i,
    {
        if counts[i] == v {
            n += 1;
        }
        i += 1;
    }
    n
}

/// How often the card of rank `k` is among the first `n` cards.
pub open spec fn held(cards: Seq<Card>, k: int, n: int) -> nat
    decreases n,
{
    if n <= 0 {
        0
    } else {
        held(cards, k, n - 1) + if cards[n - 1].id() == k {
            1nat
        } else {
            0nat
        }
    }
}

/// The counts of each card of a hand.
pub open spec fn counts_of(cards: Seq<Card>) -> Seq<u8> {
    Seq::new(13, |k: int| held(cards, k, cards.len() as int) as u8)
}

/// The counts with the jokers played as the card of rank `c`.
pub open spec fn with_jokers(counts: Seq<u8>, c: int) -> Seq<u8> {
    counts.update(0, 0).update(c, (counts[c] + counts[0]) as u8)
}

/// The strongest type that the jokers make, played as one of the cards
/// of the ranks below `c` that the hand holds.
pub open spec fn best_with_jokers(counts: Seq<u8>, c: int) -> HandType
    decreases c,
{
    if c <= 1 {
        HandType::Nothing
    } else {
        let rest = best_with_jokers(counts, c - 1);
        if counts[c - 1] > 0 {
            let here = type_of_counts(with_jokers(counts, c - 1));
            if here.strength() > rest.strength() {
                here
            } else {
                rest
            }
        } else {
            rest
        }
    }
}

/// The type of a hand in a run: in every run but the first the jokers are
/// played as the card that makes the hand strongest.
pub open spec fn type_of(cards: Seq<Card>, run: int) -> HandType {
    let counts = counts_of(cards);
    if run == 0 {
        type_of_counts(counts)
    } else if counts[0] == 5 {
        HandType::FiveOfAKind
    } else if counts[0] == 0 {
        type_of_counts(counts)
    } else {
        best_with_jokers(counts, 13)
    }
}

/// A hand: its cards, its bet, its run and its type.
#[derive(Debug)]
pub struct Hand {
    pub cards: Vec<Card>,
    pub bet: usize,
    pub run: usize,
    pub hand_type: HandType,
}

proof fn lemma_held_bound(cards: Seq<Card>, k: int, n: int)
    requires
        0 <= n,
    ensures
        held(cards, k, n) <= n,
    decreases n,
{
    if n > 0 {
        lemma_held_bound(cards, k, n - 1);
    }
}

impl Hand {
    /// The type of a hand with these counts of each card.
    pub fn hand_type_cards(counts: &[u8; 13]) -> (t: HandType)
        ensures
            t == type_of_counts(counts@),
    {
        if count_of(counts, 5) == 1 {
            HandType::FiveOfAKind
        } else if count_of(counts, 4) == 1 {
            HandType::FourOfAKind
        } else if count_of(counts, 3) == 1 && count_of(counts, 2) == 1 {
            HandType::FullHouse
        } else if count_of(counts, 3) == 1 {
            HandType::ThreeOfAKind
        } else if count_of(counts, 2) == 2 {
            HandType::TwoPair
        } else if count_of(counts, 2) == 1 {
            HandType::OnePair
        } else if count_of(counts, 1) == 5 {
            HandType::HighCard
        } else {
            HandType::Nothing
        }
    }

    /// The type of a hand of cards in a run.
    pub fn hand_type(cards: &Vec<Card>, run: usize) -> (t: HandType)
        requires
            cards.len() <= 127,
            forall|i: int| 0 <= i < cards.len() ==> (#[trigger] cards[i]).wf(),
        ensures
            t == type_of(cards@, if run == 0 {
                0int
            } else {
                1int
            }),
    {
        let mut counts: [u8; 13] = [0; 13];
        let mut i: usize = 0;
        while i < cards.len()
            invariant
                i <= cards.len(),
                cards.len() <= 127,
                forall|j: int| 0 <= j < cards.len() ==> (#[trigger] cards[j]).wf(),
                forall|k: int| 0 <= k < 13 ==> #[trigger] counts@[k] == held(cards@, k, i as int),
            decreases cards.len() - i,
        {
            proof {
                assert(cards[i as int].wf());
            }
            match cards[i].card_id() {
                Some(k) => {
                    proof {
                        lemma_held_bound(cards@, k as int, i as int);
                    }
                    let ghost before = counts@;
                    counts[k] = counts[k] + 1;
                    proof {
                        assert forall|j: int| 0 <= j < 13 implies #[trigger] counts@[j] == held(
                            cards@,
                            j,
                            i + 1,
                        ) by {
                            assert(before[j] == held(cards@, j, i as int));
                        }
                    }
                },
                None => {},
            }
            i += 1;
        }
        proof {
            assert forall|k: int| 0 <= k < 13 implies #[trigger] counts@[k] == counts_of(cards@)[k] by {
                lemma_held_bound(cards@, k, cards@.len() as int);
            }
            assert(counts@ =~= counts_of(cards@));
        }
        if run == 0 {
            return Hand::hand_type_cards(&counts);
        }
        let jokers = counts[0];
        if jokers == 5 {
            return HandType::FiveOfAKind;
        }
        if jokers == 0 {
            return Hand::hand_type_cards(&counts);
        }
        let ghost all = counts@;
        proof {
            assert forall|k: int| 0 <= k < 13 implies #[trigger] all[k] <= 127 by {
                lemma_held_bound(cards@, k, cards@.len() as int);
                assert(all[k] == counts_of(cards@)[k]);
            }
        }
        counts[0] = 0;
        let mut max = HandType::Nothing;
        let mut c: usize = 1;
        while c < 13
            invariant
                1 <= c <= 13,
                all.len() == 13,
                jokers == all[0],
                counts@ == all.update(0, 0),
                forall|k: int| 0 <= k < 13 ==> #[trigger] all[k] <= 127,
                max == best_with_jokers(all, c as int),
            decreases 13 - c,
        {
            if counts[c] > 0 {
                let ghost before = counts@;
                counts[c] = counts[c] + jokers;
                proof {
                    assert(counts@ =~= with_jokers(all, c as int));
                }
                let here = Hand::hand_type_cards(&counts);
                if here.strength_of() > max.strength_of() {
                    max = here;
                }
                counts[c] = counts[c] - jokers;
                proof {
                    assert(counts@ =~= all.update(0, 0));
                }
            }
            c += 1;
        }
        max
    }
}

// ----- reading hands -----
/// The card that a byte writes, if it writes one.
pub open spec fn byte_card(b: u8) -> Option<char> {
    if b == 50 {
        Some('2')
    } else if b == 51 {
        Some('3')
    } else if b == 52 {
        Some('4')
    } else if b == 53 {
        Some('5')
    } else if b == 54 {
        Some('6')
    } else if b == 55 {
        Some('7')
    } else if b == 56 {
        Some('8')
    } else if b == 57 {
        Some('9')
    } else if b == 84 {
        Some('T')
    } else if b == 74 {
        Some('J')
    } else if b == 81 {
        Some('Q')
    } else if b == 75 {
        Some('K')
    } else if b == 65 {
        Some('A')
    } else {
        None
    }
}

fn card_of_byte(b: u8) -> (r: Option<char>)
    ensures
        r == byte_card(b),
{
    if b == 50 {
        Some('2')
    } else if b == 51 {
        Some('3')
    } else if b == 52 {
        Some('4')
    } else if b == 53 {
        Some('5')
    } else if b == 54 {
        Some('6')
    } else if b == 55 {
        Some('7')
    } else if b == 56 {
        Some('8')
    } else if b == 57 {
        Some('9')
    } else if b == 84 {
        Some('T')
    } else if b == 74 {
        Some('J')
    } else if b == 81 {
        Some('Q')
    } else if b == 75 {
        Some('K')
    } else if b == 65 {
        Some('A')
    } else {
        None
    }
}

proof fn lemma_card_ranks(b: u8, run: int)
    requires
        byte_card(b) is Some,
        run == 0 || run == 1,
    ensures
        rank_of(byte_card(b).unwrap(), run, 0) < 13,
{
    reveal_with_fuel(rank_of, 14);
}

/// A line writes a hand: five cards, a space, and a bet that fits.
pub open spec fn hand_ok(line: Seq<u8>) -> bool {
    match split_once(line, 32) {
        Some((cards, bet)) => {
            &&& cards.len() == 5
            &&& forall|i: int| 0 <= i < 5 ==> byte_card(#[trigger] cards[i]) is Some
            &&& unsigned_value(bet) is Some
            &&& unsigned_value(bet).unwrap() <= usize::MAX
        },
        None => false,
    }
}

/// The hand is what the line writes, played in the run.
pub open spec fn is_hand(line: Seq<u8>, run: usize, h: Hand) -> bool {
    let cards = split_once(line, 32).unwrap().0;
    let bet = split_once(line, 32).unwrap().1;
    &&& h.run == run
    &&& h.bet == unsigned_value(bet).unwrap()
    &&& h.cards@.len() == 5
    &&& forall|i: int|
        0 <= i < 5 ==> (#[trigger] h.cards@[i]) == (Card {
            card: byte_card(cards[i]).unwrap(),
            run,
        })
    &&& h.hand_type == type_of(h.cards@, if run == 0 {
        0int
    } else {
        1int
    })
    &&& h.wf()
}

impl Hand {
    /// The hand has five cards, each one of the thirteen.
    pub open spec fn wf(&self) -> bool {
        &&& self.cards@.len() == 5
        &&& forall|i: int| 0 <= i < 5 ==> (#[trigger] self.cards@[i]).wf()
    }

    /// Reads a hand from a line such as `32T3K 765`.
    pub fn from_bytes(s: &[u8], run: usize) -> (r: Result<Hand, ParseError>)
        ensures
            match r {
                Ok(h) => hand_ok(s@) && is_hand(s@, run, h),
                Err(e) => e == ParseError::Malformed && !hand_ok(s@),
            },
    {
        let (cards_str, bet_str) = match split_once_byte(s, 32) {
            Some(p) => p,
            None => {
                return Err(ParseError::Malformed);
            },
        };
        if cards_str.len() != 5 {
            return Err(ParseError::Malformed);
        }
        let mut cards: Vec<Card> = Vec::new();
        let mut i: usize = 0;
        while i < 5
            invariant
                i <= 5,
                cards_str.len() == 5,
                cards.len() == i,
                cards_str@ == split_once(s@, 32).unwrap().0,
                split_once(s@, 32) is Some,
                forall|k: int| 0 <= k < i ==> byte_card(#[trigger] cards_str@[k]) is Some,
                forall|k: int|
                    0 <= k < i ==> (#[trigger] cards@[k]) == (Card {
                        card: byte_card(cards_str@[k]).unwrap(),
                        run,
                    }) && cards@[k].wf(),
            decreases 5 - i,
        {
            match card_of_byte(cards_str[i]) {
                Some(card) => {
                    proof {
                        lemma_card_ranks(cards_str@[i as int], if run == 0 {
                            0
                        } else {
                            1
                        });
                    }
                    cards.push(Card { card, run });
                },
                None => {
                    return Err(ParseError::Malformed);
                },
            }
            i += 1;
        }
        let bet = match parse_usize(bet_str.as_slice()) {
            Some(b) => b,
            None => {
                return Err(ParseError::Malformed);
            },
        };
        let hand_type = Hand::hand_type(&cards, run);
        Ok(Hand { cards, bet, run, hand_type })
    }

    /// The hand is weaker than the other: by its type, and among hands of
    /// one type by the first card in which they differ.
    pub open spec fn weaker(&self, other: &Hand) -> bool {
        hand_less(*self, *other, 0)
    }

    /// The hand is as strong as the other.
    pub open spec fn like(&self, other: &Hand) -> bool {
        &&& self.hand_type.strength() == other.hand_type.strength()
        &&& forall|i: int| 0 <= i < 5 ==> (#[trigger] self.cards@[i]).id() == other.cards@[i].id()
    }

    /// How the hand stands to the other: -1 where it is weaker, 0 where they
    /// are as strong as each other, 1 where it is stronger.
    pub fn stands_to(&self, other: &Hand) -> (r: i8)
        requires
            self.wf(),
            other.wf(),
        ensures
            r == -1 <==> self.weaker(other),
            r == 0 <==> self.like(other),
            -1 <= r <= 1,
    {
        let a = self.hand_type.strength_of();
        let b = other.hand_type.strength_of();
        if a != b {
            return if a < b {
                -1
            } else {
                1
            };
        }
        let mut i: usize = 0;
        while i < 5
            invariant
                i <= 5,
                self.wf(),
                other.wf(),
                self.hand_type.strength() == other.hand_type.strength(),
                forall|k: int| 0 <= k < i ==> (#[trigger] self.cards@[k]).id() == other.cards@[k].id(),
                hand_less(*self, *other, 0) == cards_less(self.cards@, other.cards@, i as int),
            decreases 5 - i,
        {
            proof {
                assert(self.cards@[i as int].wf());
                assert(other.cards@[i as int].wf());
            }
            let x = match self.cards[i].card_id() {
                Some(v) => v,
                None => 0,
            };
            let y = match other.cards[i].card_id() {
                Some(v) => v,
                None => 0,
            };
            if x != y {
                return if x < y {
                    -1
                } else {
                    1
                };
            }
            i += 1;
        }
        0
    }
}

/// The first hand is weaker than the second.
pub open spec fn hand_less(a: Hand, b: Hand, from: int) -> bool {
    if a.hand_type.strength() != b.hand_type.strength() {
        a.hand_type.strength() < b.hand_type.strength()
    } else {
        cards_less(a.cards@, b.cards@, from)
    }
}

/// From the card `i` on, the first cards in which the hands differ are lower in the first hand.
pub open spec fn cards_less(a: Seq<Card>, b: Seq<Card>, i: int) -> bool
    decreases 5 - i,
{
    if i < 0 || i >= 5 {
        false
    } else if a[i].id() != b[i].id() {
        a[i].id() < b[i].id()
    } else {
        cards_less(a, b, i + 1)
    }
}

/// How many of the first `n` hands are weaker than the hand `i`, or as
/// strong and before it.
pub open spec fn below(hands: Seq<Hand>, i: int, n: int) -> nat
    decreases n,
{
    if n <= 0 {
        0
    } else {
        below(hands, i, n - 1) + if hands[n - 1].weaker(&hands[i]) || (n - 1 < i && hands[n
            - 1].like(&hands[i])) {
            1nat
        } else {
            0nat
        }
    }
}

/// The sum of the bets of the first `n` hands, each times the rank of its
/// hand: the place that the hand takes when the hands are put in order, the
/// weakest first, and hands that are as strong as each other stay as they were.
pub open spec fn winnings_to(hands: Seq<Hand>, n: int) -> nat
    decreases n,
{
    if n <= 0 {
        0
    } else {
        winnings_to(hands, n - 1) + (hands[n - 1].bet as nat) * (below(
            hands,
            n - 1,
            hands.len() as int,
        ) + 1)
    }
}

proof fn lemma_winnings_grow(hands: Seq<Hand>, i: int, n: int)
    requires
        0 <= i <= n,
    ensures
        winnings_to(hands, i) <= winnings_to(hands, n),
    decreases n - i,
{
    if i < n {
        lemma_winnings_grow(hands, i, n - 1);
        assert(hands[n - 1].bet * (below(hands, n - 1, hands.len() as int) + 1) >= 0)
            by (nonlinear_arith)
            requires
                hands[n - 1].bet >= 0,
                below(hands, n - 1, hands.len() as int) >= 0,
        ;
    }
}

/// The winnings of the hands, if they fit a `usize`.
pub fn total_winnings(hands: &Vec<Hand>) -> (r: Option<usize>)
    requires
        forall|i: int| 0 <= i < hands.len() ==> (#[trigger] hands[i]).wf(),
    ensures
        match r {
            Some(w) => w == winnings_to(hands@, hands@.len() as int),
            None => winnings_to(hands@, hands@.len() as int) > usize::MAX,
        },
{
    let n = hands.len();
    let mut total: usize = 0;
    let mut i: usize = 0;
    while i < n
        invariant
            i <= n,
            n == hands.len(),
            forall|k: int| 0 <= k < hands.len() ==> (#[trigger] hands[k]).wf(),
            total == winnings_to(hands@, i as int),
        decreases n - i,
    {
        let mut rank: usize = 0;
        let mut j: usize = 0;
        while j < n
            invariant
                j <= n,
                i < n,
                n == hands.len(),
                forall|k: int| 0 <= k < hands.len() ==> (#[trigger] hands[k]).wf(),
                rank == below(hands@, i as int, j as int),
                rank <= j,
            decreases n - j,
        {
            proof {
                assert(hands[j as int].wf());
                assert(hands[i as int].wf());
            }
            let c = hands[j].stands_to(&hands[i]);
            if c == -1 || (j < i && c == 0) {
                rank += 1;
            }
            j += 1;
        }
        let place = rank as u128 + 1;
        let bet = hands[i].bet as u128;
        assert(bet * place <= 0xffff_ffff_ffff_ffff * 0x1_0000_0000_0000_0000) by (nonlinear_arith)
            requires
                0 <= bet <= 0xffff_ffff_ffff_ffff,
                0 <= place <= 0x1_0000_0000_0000_0000,
        ;
        let won = bet * place;
        proof {
            lemma_winnings_grow(hands@, i + 1, n as int);
            assert(winnings_to(hands@, i + 1) == total + won);
        }
        if won > usize::MAX as u128 || total as u128 + won > usize::MAX as u128 {
            return None;
        }
        total = total + won as usize;
        i += 1;
    }
    Some(total)
}

/// Every line writes a hand.
pub open spec fn input_ok(ls: Seq<Seq<u8>>) -> bool {
    forall|i: int| 0 <= i < ls.len() ==> hand_ok(#[trigger] ls[i])
}

/// The hands are what the lines write, played in the run.
pub open spec fn are_hands(ls: Seq<Seq<u8>>, run: usize, hands: Seq<Hand>) -> bool {
    &&& hands.len() == ls.len()
    &&& forall|i: int| 0 <= i < ls.len() ==> is_hand(#[trigger] ls[i], run, hands[i])
}

/// What a part answers to an input: the winnings of the hands, in the
/// second part with jokers, or why there is no answer.
pub open spec fn is_answer(input: Option<String>, part: int, r: Result<String, PuzzleError>) -> bool {
    match input {
        None => r == Err::<String, PuzzleError>(PuzzleError::MissingInput),
        Some(text) => {
            let ls = lines(bytes_of(text@));
            if !input_ok(ls) {
                r == Err::<String, PuzzleError>(PuzzleError::Parse(ParseError::Malformed))
            } else {
                exists|hands: Seq<Hand>|
                    {
                        &&& #[trigger] are_hands(ls, (part - 1) as usize, hands)
                        &&& if winnings_to(hands, hands.len() as int) <= usize::MAX {
                            r is Ok && r.unwrap()@ == decimal(
                                winnings_to(hands, hands.len() as int),
                            )
                        } else {
                            r == Err::<String, PuzzleError>(PuzzleError::Overflow)
                        }
                    }
            }
        },
    }
}

fn run_part(input: Option<String>, part: u8) -> (r: Result<String, PuzzleError>)
    requires
        part == 1 || part == 2,
    ensures
        is_answer(input, part as int, r),
{
    let text = match input {
        Some(t) => t,
        None => {
            return Err(PuzzleError::MissingInput);
        },
    };
    let rows = split_lines(string_bytes(&text));
    let ghost ls = lines(bytes_of(text@));
    let run: usize = (part - 1) as usize;
    let mut hands: Vec<Hand> = Vec::new();
    let mut i: usize = 0;
    proof {
        assert(ls.len() == rows.len());
    }
    while i < rows.len()
        invariant
            i <= rows.len(),
            rows_view(rows@) == ls,
            ls == lines(bytes_of(text@)),
            ls.len() == rows.len(),
            input == Some(text),
            run == part - 1,
            hands.len() == i,
            forall|k: int| 0 <= k < i ==> hand_ok(#[trigger] ls[k]),
            forall|k: int| 0 <= k < i ==> is_hand(#[trigger] ls[k], run, hands[k]),
        decreases rows.len() - i,
    {
        proof {
            assert(ls[i as int] == rows@[i as int]@);
        }
        match Hand::from_bytes(rows[i].as_slice(), run) {
            Ok(h) => {
                hands.push(h);
            },
            Err(e) => {
                return Err(PuzzleError::Parse(e));
            },
        }
        i += 1;
    }
    proof {
        assert(are_hands(ls, run, hands@));
        assert forall|k: int| 0 <= k < hands.len() implies (#[trigger] hands[k]).wf() by {
            assert(is_hand(ls[k], run, hands[k]));
        }
    }
    match total_winnings(&hands) {
        Some(w) => Ok(decimal_string(w as u128)),
        None => Err(PuzzleError::Overflow),
    }
}

pub struct Day7;

impl AdventOfCode for Day7 {
    fn day(&self) -> (d: u8)
        ensures
            d == 7,
    {
        7
    }

    fn run1(&mut self, input: Option<String>) -> (r: Result<String, PuzzleError>)
        ensures
            is_answer(input, 1, r),
    {
        run_part(input, 1)
    }

    fn run2(&mut self, input: Option<String>) -> (r: Result<String, PuzzleError>)
        ensures
            is_answer(input, 2, r),
    {
        run_part(input, 2)
    }
}

} // verus!
