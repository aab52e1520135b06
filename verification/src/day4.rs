use crate::sums::{lemma_total_item, lemma_total_prefix, lemma_total_step, total};
use crate::text::{
    chars_of, lines, numbers, parse_numbers, parse_unsigned, split_lines, split_once,
    split_once_on, split_words, unsigned, views, words,
};
use std::collections::BTreeSet;
use vstd::arithmetic::power2::*;
use vstd::bits::{lemma_u32_pow2_no_overflow, lemma_u32_shl_is_mul};
use vstd::prelude::*;
use vstd::std_specs::btree::*;
use vstd::std_specs::iter::IteratorSpec;

verus! {

broadcast use group_btree_axioms;

/// A scratch card: its number, the numbers picked on it, and the numbers
/// that win.
#[derive(Debug)]
pub struct Card {
    pub number: u32,
    pub picks: BTreeSet<u32>,
    pub winners: BTreeSet<u32>,
}

/// What a card is, as mathematical sets.
pub struct CardModel {
    pub number: u32,
    pub picks: Set<u32>,
    pub winners: Set<u32>,
}

impl CardModel {
    /// How many of the picked numbers are winning numbers.
    pub open spec fn matches(&self) -> nat {
        self.picks.intersect(self.winners).len()
    }
}

impl View for Card {
    type V = CardModel;

    open spec fn view(&self) -> CardModel {
        CardModel { number: self.number, picks: self.picks@, winners: self.winners@ }
    }
}

/// The card that a line of the form `Card <N>: <winning> | <picked>`
/// describes. The card's number is the second word before the first colon;
/// the first `|` after that colon parts the winning numbers from the picked
/// ones, each a list of numbers with white space between them.
pub open spec fn card_of_line(line: Seq<char>) -> Option<CardModel> {
    match split_once(line, ':') {
        None => None,
        Some((head, tail)) => {
            let names = words(head);
            if names.len() < 2 {
                None
            } else {
                match (unsigned(names[1]), split_once(tail, '|')) {
                    (Some(number), Some((left, right))) => match (numbers(left), numbers(right)) {
                        (Some(winners), Some(picks)) => Some(
                            CardModel {
                                number,
                                picks: picks.to_set(),
                                winners: winners.to_set(),
                            },
                        ),
                        _ => None,
                    },
                    _ => None,
                }
            }
        },
    }
}

/// The cards that the lines of `input` describe, where each line describes
/// one.
pub open spec fn deck_of(input: Seq<char>) -> Option<Seq<CardModel>> {
    let rows = lines(input);
    if forall|i: int| 0 <= i < rows.len() ==> (#[trigger] card_of_line(rows[i])) is Some {
        Some(rows.map_values(|row: Seq<char>| card_of_line(row).unwrap()))
    } else {
        None
    }
}

/// The models of the cards of `cards`, in order.
pub open spec fn models(cards: Seq<Card>) -> Seq<CardModel> {
    cards.map_values(|c: Card| c@)
}

/// What a card with `k` matches is worth: nothing for none, one point for
/// the first match and twice as much for each match after it.
pub open spec fn points(k: nat) -> nat {
    if k == 0 {
        0
    } else {
        pow2((k - 1) as nat)
    }
}

/// What each card of `cards` is worth.
pub open spec fn scores(cards: Seq<CardModel>) -> Seq<nat> {
    cards.map_values(|c: CardModel| points(c.matches()))
}

/// How many matches each card of `cards` has.
pub open spec fn win_counts(cards: Seq<CardModel>) -> Seq<nat> {
    cards.map_values(|c: CardModel| c.matches())
}

/// How many copies of card `j` there are once the cards before `upto` have
/// handed out theirs: the card itself, and for each card `i` before both `j`
/// and `upto` whose matches reach as far as `j`, as many as card `i` has in
/// the end.
pub open spec fn held(wins: Seq<nat>, j: int, upto: int) -> nat
    decreases j, upto,
{
    if upto <= 0 || j < 0 {
        1
    } else {
        let i = upto - 1;
        held(wins, j, i) + if i < j && i < wins.len() && j <= i + wins[i] {
            held(wins, i, i)
        } else {
            0
        }
    }
}

/// How many copies of each card there are in the end, for a deck whose
/// cards have `wins` matches.
pub open spec fn copies(wins: Seq<nat>) -> Seq<nat> {
    Seq::new(wins.len(), |j: int| held(wins, j, j))
}

/// The sum of what the cards of `input` are worth, where every line
/// describes a card and the sum fits.
pub open spec fn part1_answer(input: Seq<char>) -> Option<u32> {
    match deck_of(input) {
        None => None,
        Some(cards) => if total(scores(cards)) <= u32::MAX {
            Some(total(scores(cards)) as u32)
        } else {
            None
        },
    }
}

/// The number of cards held in the end, where every line of `input`
/// describes a card and that number fits.
pub open spec fn part2_answer(input: Seq<char>) -> Option<u32> {
    match deck_of(input) {
        None => None,
        Some(cards) => if total(copies(win_counts(cards))) <= u32::MAX {
            Some(total(copies(win_counts(cards))) as u32)
        } else {
            None
        },
    }
}

/// The items of `v` as natural numbers.
pub open spec fn nats(v: Seq<usize>) -> Seq<nat> {
    v.map_values(|k: usize| k as nat)
}

/// Handing out more cards never takes copies away.
pub proof fn lemma_held_grows(wins: Seq<nat>, j: int, a: int, b: int)
    requires
        a <= b,
    ensures
        held(wins, j, a) <= held(wins, j, b),
    decreases b - a,
{
    if a < b {
        lemma_held_grows(wins, j, a, b - 1);
        if b <= 0 || j < 0 {
            assert(held(wins, j, b) == 1);
            assert(held(wins, j, b - 1) == 1);
        }
    }
}

/// How many items of `q` belong to `w`.
pub open spec fn hits(q: Seq<u32>, w: Set<u32>) -> nat
    decreases q.len(),
{
    if q.len() == 0 {
        0
    } else {
        hits(q.drop_last(), w) + if w.contains(q.last()) {
            1nat
        } else {
            0nat
        }
    }
}

/// Counting the items of a duplicate-free sequence that belong to `w` counts
/// the common elements of the two sets.
pub proof fn lemma_hits(q: Seq<u32>, w: Set<u32>)
    requires
        q.no_duplicates(),
    ensures
        q.to_set().finite(),
        q.to_set().intersect(w).finite(),
        hits(q, w) == q.to_set().intersect(w).len(),
    decreases q.len(),
{
    vstd::seq_lib::seq_to_set_is_finite(q);
    if q.len() == 0 {
        assert(q.to_set().intersect(w) =~= Set::empty());
    } else {
        let t = q.drop_last();
        let x = q.last();
        lemma_hits(t, w);
        assert(!t.to_set().contains(x)) by {
            if t.to_set().contains(x) {
                let j = choose|j: int| 0 <= j < t.len() && t[j] == x;
                assert(q[j] == q[q.len() - 1]);
            }
        }
        assert(q.to_set() =~= t.to_set().insert(x)) by {
            assert forall|v: u32| q.to_set().contains(v) implies t.to_set().insert(x).contains(
                v,
            ) by {
                let j = choose|j: int| 0 <= j < q.len() && q[j] == v;
                if j < t.len() {
                    assert(t[j] == v);
                }
            }
            assert forall|v: u32| t.to_set().insert(x).contains(v) implies q.to_set().contains(
                v,
            ) by {
                if v == x {
                    assert(q[q.len() - 1] == v);
                } else {
                    let j = choose|j: int| 0 <= j < t.len() && t[j] == v;
                    assert(q[j] == v);
                }
            }
        }
        if w.contains(x) {
            assert(q.to_set().intersect(w) =~= t.to_set().intersect(w).insert(x));
        } else {
            assert(q.to_set().intersect(w) =~= t.to_set().intersect(w));
        }
    }
}

/// The set that holds the items of `v`.
fn set_of(v: &Vec<u32>) -> (r: BTreeSet<u32>)
    ensures
        r@ == v@.to_set(),
{
    let mut r: BTreeSet<u32> = BTreeSet::new();
    let mut i: usize = 0;
    assert(v@.take(0).to_set() =~= Set::<u32>::empty());
    while i < v.len()
        invariant
            i <= v.len(),
            r@ == v@.take(i as int).to_set(),
        decreases v.len() - i,
    {
        r.insert(v[i]);
        proof {
            let a = v@.take(i as int);
            let b = v@.take(i + 1);
            assert(b =~= a.push(v@[i as int]));
            assert(b.to_set() =~= a.to_set().insert(v@[i as int])) by {
                assert forall|x: u32| b.to_set().contains(x) implies a.to_set().insert(
                    v@[i as int],
                ).contains(x) by {
                    let j = choose|j: int| 0 <= j < b.len() && b[j] == x;
                    if j < a.len() {
                        assert(a[j] == x);
                    }
                }
                assert forall|x: u32| a.to_set().insert(v@[i as int]).contains(
                    x,
                ) implies b.to_set().contains(x) by {
                    if a.to_set().contains(x) {
                        let j = choose|j: int| 0 <= j < a.len() && a[j] == x;
                        assert(b[j] == x);
                    } else {
                        assert(b[i as int] == x);
                    }
                }
            }
        }
        i += 1;
    }
    assert(v@.take(v.len() as int) =~= v@);
    r
}

/// Reads one card from the characters of a line.
fn card_from_chars(line: &Vec<char>) -> (r: Option<Card>)
    ensures
        match r {
            Some(card) => card_of_line(line@) == Some(card@),
            None => card_of_line(line@) is None,
        },
{
    let (head, tail) = match split_once_on(line, ':') {
        Some(pair) => pair,
        None => {
            return None;
        },
    };
    let names = split_words(&head);
    if names.len() < 2 {
        return None;
    }
    assert(views(names@)[1] == names@[1]@);
    let number = match parse_unsigned(&names[1]) {
        Some(n) => n,
        None => {
            return None;
        },
    };
    let (left, right) = match split_once_on(&tail, '|') {
        Some(pair) => pair,
        None => {
            return None;
        },
    };
    let winners = match parse_numbers(&left) {
        Some(v) => v,
        None => {
            return None;
        },
    };
    let picks = match parse_numbers(&right) {
        Some(v) => v,
        None => {
            return None;
        },
    };
    Some(Card { number, picks: set_of(&picks), winners: set_of(&winners) })
}

/// Reads the cards of `input`, one from each line.
fn deck_from_chars(input: &Vec<char>) -> (r: Option<Vec<Card>>)
    ensures
        match r {
            Some(cards) => deck_of(input@) == Some(models(cards@)),
            None => deck_of(input@) is None,
        },
{
    let rows = split_lines(input);
    let mut cards: Vec<Card> = Vec::new();
    let mut i: usize = 0;
    while i < rows.len()
        invariant
            i <= rows.len(),
            views(rows@) == lines(input@),
            cards.len() == i,
            forall|j: int|
                0 <= j < i ==> card_of_line(#[trigger] lines(input@)[j]) == Some(cards@[j]@),
        decreases rows.len() - i,
    {
        assert(views(rows@)[i as int] == rows@[i as int]@);
        match card_from_chars(&rows[i]) {
            Some(card) => {
                cards.push(card);
            },
            None => {
                return None;
            },
        }
        i += 1;
    }
    proof {
        assert(views(rows@).len() == rows.len());
        assert(models(cards@) =~= lines(input@).map_values(
            |row: Seq<char>| card_of_line(row).unwrap(),
        ));
    }
    Some(cards)
}

impl Card {

    /// Reads a card from a line, where the line describes one.
    pub fn try_from_input_line(line: &str) -> (r: Option<Card>)
        ensures
            match r {
                Some(card) => card_of_line(line@) == Some(card@),
                None => card_of_line(line@) is None,
            },
    {
        let chars = chars_of(line);
        card_from_chars(&chars)
    }

    /// Reads a card from a line that describes one.
    pub fn from_input_line(line: &str) -> (card: Card)
        requires
            card_of_line(line@) is Some,
        ensures
            card_of_line(line@) == Some(card@),
    {
        Card::try_from_input_line(line).unwrap()
    }

    /// How many of the picked numbers are winning numbers; where that count
    /// is beyond `u32`, its low 32 bits.
    pub fn num_winners(&self) -> (k: u32)
        ensures
            k == self@.matches() as u32,
    {
        #[verifier::truncate]
        (self.count_winners() as u32)
    }

    /// How many of the picked numbers are winning numbers.
    pub fn count_winners(&self) -> (k: usize)
        ensures
            k == self@.matches(),
    {
        let mut k: usize = 0;
        let ghost q = spec_btree_keys_iter(&self.picks).remaining().unref();
        assert(q.len() == spec_btree_set_len(&self.picks));
        for p in it: self.picks.iter()
            invariant
                it.seq().unref() == q,
                q.to_set() == self.picks@,
                q.no_duplicates(),
                k == hits(q.take(it.index() as int), self.winners@),
                k <= it.index() <= q.len() <= usize::MAX,
        {
            let ghost i = it.index() as int;
            proof {
                assert(q.take(i + 1).drop_last() =~= q.take(i));
            }
            if self.winners.contains(p) {
                k += 1;
            }
        }
        proof {
            assert(q.take(q.len() as int) =~= q);
            lemma_hits(q, self.winners@);
        }
        k
    }
}

/// What a card with `k` matches is worth, where that fits in `u32`.
pub fn points_for(k: usize) -> (r: Option<u32>)
    ensures
        r == if points(k as nat) <= u32::MAX {
            Some(points(k as nat) as u32)
        } else {
            None
        },
{
    proof {
        lemma2_to64();
    }
    if k == 0 {
        Some(0)
    } else if k > 32 {
        proof {
            if k > 33 {
                lemma_pow2_strictly_increases(32, (k - 1) as nat);
            }
        }
        None
    } else {
        let shift: u32 = (k - 1) as u32;
        proof {
            lemma_u32_pow2_no_overflow(shift as nat);
            lemma_u32_shl_is_mul(1u32, shift);
        }
        Some(1u32 << shift)
    }
}

/// The number of cards held in the end for a deck whose cards have `wins`
/// matches, where that number fits in `u32`.
pub fn cascade(wins: &Vec<usize>) -> (r: Option<u32>)
    ensures
        r == if total(copies(nats(wins@))) <= u32::MAX {
            Some(total(copies(nats(wins@))) as u32)
        } else {
            None
        },
{
    let n = wins.len();
    let ghost w = nats(wins@);
    let ghost fin = copies(w);
    let mut have: Vec<u32> = Vec::new();
    while have.len() < n
        invariant
            have.len() <= n,
            forall|j: int| 0 <= j < have.len() ==> have@[j] == 1,
        decreases n - have.len(),
    {
        have.push(1);
    }
    let mut idx: usize = 0;
    while idx < n
        invariant
            n == wins.len(),
            w == nats(wins@),
            fin == copies(w),
            have.len() == n,
            idx <= n,
            forall|j: int|
                0 <= j < n ==> #[trigger] have@[j] == held(
                    w,
                    j,
                    if j <= idx {
                        j
                    } else {
                        idx as int
                    },
                ),
        decreases n - idx,
    {
        let amount = have[idx];
        let k = wins[idx];
        let end: usize = if k >= n - idx - 1 {
            n
        } else {
            idx + 1 + k
        };
        let mut t: usize = idx + 1;
        while t < end
            invariant
                n == wins.len(),
                w == nats(wins@),
                fin == copies(w),
                have.len() == n,
                idx < n,
                idx + 1 <= t <= end <= n,
                end <= idx + 1 + k,
                k == wins@[idx as int],
                amount == held(w, idx as int, idx as int),
                forall|j: int|
                    0 <= j < n ==> #[trigger] have@[j] == held(
                        w,
                        j,
                        if j <= idx {
                            j
                        } else if j < t {
                            idx + 1
                        } else {
                            idx as int
                        },
                    ),
            decreases end - t,
        {
            let wide: u64 = have[t] as u64 + amount as u64;
            proof {
                assert(w[idx as int] == k as nat);
                assert(held(w, t as int, idx + 1) == held(w, t as int, idx as int) + held(
                    w,
                    idx as int,
                    idx as int,
                ));
            }
            if wide > u32::MAX as u64 {
                proof {
                    lemma_held_grows(w, t as int, idx + 1, t as int);
                    assert(fin[t as int] == held(w, t as int, t as int));
                    lemma_total_item(fin, t as int);
                }
                return None;
            }
            have.set(t, wide as u32);
            t += 1;
        }
        proof {
            assert(w[idx as int] == k as nat);
            assert forall|j: int| 0 <= j < n implies #[trigger] have@[j] == held(
                w,
                j,
                if j <= idx + 1 {
                    j
                } else {
                    idx + 1
                },
            ) by {
                if j >= end && j > idx {
                    assert(held(w, j, idx + 1) == held(w, j, idx as int));
                }
            }
        }
        idx += 1;
    }
    let mut sum: u32 = 0;
    let mut i: usize = 0;
    while i < n
        invariant
            w == nats(wins@),
            fin == copies(w),
            w.len() == n,
            have.len() == n,
            i <= n,
            forall|j: int| 0 <= j < n ==> #[trigger] have@[j] == fin[j],
            sum == total(fin.take(i as int)),
        decreases n - i,
    {
        let wide: u64 = sum as u64 + have[i] as u64;
        proof {
            lemma_total_step(fin, i as int);
            lemma_total_prefix(fin, i + 1);
        }
        if wide > u32::MAX as u64 {
            return None;
        }
        sum = wide as u32;
        i += 1;
    }
    proof {
        assert(fin.take(n as int) =~= fin);
    }
    Some(sum)
}

/// The sum of what the cards of `input` are worth, one card to a line; none
/// where a line describes no card or the sum is beyond `u32`.
pub fn try_part1(input: String) -> (r: Option<u32>)
    ensures
        r == part1_answer(input@),
{
    let chars = chars_of(input.as_str());
    let cards = match deck_from_chars(&chars) {
        Some(cards) => cards,
        None => {
            return None;
        },
    };
    let ghost worth = scores(models(cards@));
    let mut score: u32 = 0;
    let mut i: usize = 0;
    while i < cards.len()
        invariant
            i <= cards.len(),
            deck_of(input@) == Some(models(cards@)),
            worth == scores(models(cards@)),
            score == total(worth.take(i as int)),
        decreases cards.len() - i,
    {
        proof {
            lemma_total_step(worth, i as int);
            lemma_total_prefix(worth, i + 1);
            lemma_total_item(worth, i as int);
        }
        let k = cards[i].count_winners();
        let wide: u64 = match points_for(k) {
            Some(p) => score as u64 + p as u64,
            None => {
                return None;
            },
        };
        if wide > u32::MAX as u64 {
            return None;
        }
        score = wide as u32;
        i += 1;
    }
    proof {
        assert(worth.take(cards.len() as int) =~= worth);
    }
    Some(score)
}

/// The sum of what the cards of `input` are worth, one card to a line.
pub fn part1(input: String) -> (score: u32)
    requires
        part1_answer(input@) is Some,
    ensures
        part1_answer(input@) == Some(score),
{
    try_part1(input).unwrap()
}

/// The number of cards held in the end, where each card with `k` matches
/// hands out, for each copy of it, one copy of each of the `k` cards after
/// it; none where a line describes no card or the number is beyond `u32`.
pub fn try_part2(input: String) -> (r: Option<u32>)
    ensures
        r == part2_answer(input@),
{
    let chars = chars_of(input.as_str());
    let cards = match deck_from_chars(&chars) {
        Some(cards) => cards,
        None => {
            return None;
        },
    };
    let mut wins: Vec<usize> = Vec::new();
    let mut i: usize = 0;
    while i < cards.len()
        invariant
            i <= cards.len(),
            wins.len() == i,
            forall|j: int| 0 <= j < i ==> wins@[j] == (#[trigger] cards@[j])@.matches(),
        decreases cards.len() - i,
    {
        wins.push(cards[i].count_winners());
        i += 1;
    }
    proof {
        assert(nats(wins@) =~= win_counts(models(cards@)));
    }
    cascade(&wins)
}

/// The number of cards held in the end.
pub fn part2(input: String) -> (count: u32)
    requires
        part2_answer(input@) is Some,
    ensures
        part2_answer(input@) == Some(count),
{
    try_part2(input).unwrap()
}

} // verus!
