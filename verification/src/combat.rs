//! A card game for two: each round both players show their top card and the
//! higher card takes both.
use crate::text::{chars_equal, chars_of, parse_u32, unsigned_value};
use std::collections::VecDeque;
use vstd::prelude::*;

verus! {

pub type Card = u32;

/// The cards of one player, the top card first.
pub struct PlayerHand {
    pub cards: VecDeque<Card>,
}

/// The two hands.
pub struct GameState {
    pub p1: PlayerHand,
    pub p2: PlayerHand,
}

/// Why the description of a game cannot be read.
#[derive(Debug, Clone, Copy, PartialEq, Eq, Structural)]
pub enum DeckError {
    /// The line with this number, counted from 0, is no card.
    BadCard(usize),
}

/// The score of a hand: the bottom card counts once, the card above it
/// twice, and so on to the top card, which counts as often as the hand has
/// cards.
pub open spec fn score_of(cards: Seq<Card>) -> nat
    decreases cards.len(),
{
    if cards.len() == 0 {
        0
    } else {
        cards.len() * (cards[0] as nat) + score_of(cards.drop_first())
    }
}

/// Whether a line opens the list of cards of a player, and of which.
pub open spec fn player_header(line: Seq<char>) -> Option<i32> {
    if line == "Player 1:"@ {
        Some(1i32)
    } else if line == "Player 2:"@ {
        Some(2i32)
    } else {
        None
    }
}

/// What the first `n` lines say about the deck of the player `who`: which
/// player the lines are about at the end, and the cards of `who` that they
/// gave, or the first line that should be a card of `who` and is none.
/// Empty lines are passed over.
pub open spec fn deck_after(who: i32, lines: Seq<Seq<char>>, n: int) -> Result<
    (i32, Seq<Card>),
    DeckError,
>
    decreases n,
{
    if n <= 0 {
        Ok((0i32, Seq::empty()))
    } else {
        match deck_after(who, lines, n - 1) {
            Err(e) => Err(e),
            Ok((player, cards)) => {
                let line = lines[n - 1];
                if line.len() == 0 {
                    Ok((player, cards))
                } else if player_header(line) is Some {
                    Ok((player_header(line)->0, cards))
                } else if player != who {
                    Ok((player, cards))
                } else {
                    match unsigned_value(line, 0xffff_ffff) {
                        Some(v) => Ok((player, cards.push(v as u32))),
                        None => Err(DeckError::BadCard((n - 1) as usize)),
                    }
                }
            },
        }
    }
}

/// The characters of each line.
pub open spec fn lines_of(lines: Seq<String>) -> Seq<Seq<char>> {
    Seq::new(lines.len(), |i: int| lines[i]@)
}

/// Reads the deck of the player `who` from the lines of a description: the
/// cards that follow the header `Player <who>:`, one on each line, up to the
/// header of the other player.
pub fn get_deck(who: i32, lines: &Vec<String>) -> (r: Result<VecDeque<Card>, DeckError>)
    ensures
        r is Ok <==> deck_after(who, lines_of(lines@), lines.len() as int) is Ok,
        r matches Ok(cards) ==> cards@ == deck_after(who, lines_of(lines@), lines.len() as int)->Ok_0.1,
        r matches Err(e) ==> deck_after(who, lines_of(lines@), lines.len() as int) == Err::<
            (i32, Seq<Card>),
            DeckError,
        >(e),
{
    let mut result: VecDeque<Card> = VecDeque::new();
    let mut player: i32 = 0;
    let mut i: usize = 0;
    let ghost all = lines_of(lines@);
    while i < lines.len()
        invariant
            0 <= i <= lines.len(),
            all == lines_of(lines@),
            deck_after(who, all, i as int) == Ok::<(i32, Seq<Card>), DeckError>((player, result@)),
        decreases lines.len() - i,
    {
        let line = lines[i].as_str();
        assert(all[i as int] == line@);
        let chars = chars_of(line);
        if chars.len() > 0 {
            if chars_equal(&chars, "Player 1:") {
                player = 1;
            } else if chars_equal(&chars, "Player 2:") {
                player = 2;
            } else if player == who {
                match parse_u32(line) {
                    Some(n) => {
                        result.push_back(n);
                    },
                    None => {
                        proof {
                            lemma_deck_error_sticks(who, all, i + 1, lines.len() as int);
                        }
                        return Err(DeckError::BadCard(i));
                    },
                }
            }
        }
        i += 1;
    }
    Ok(result)
}

/// Once a line was found to be no card, the lines after it change nothing.
pub proof fn lemma_deck_error_sticks(who: i32, lines: Seq<Seq<char>>, n: int, m: int)
    requires
        0 <= n <= m,
        deck_after(who, lines, n) is Err,
    ensures
        deck_after(who, lines, m) == deck_after(who, lines, n),
    decreases m - n,
{
    if n < m {
        lemma_deck_error_sticks(who, lines, n, m - 1);
    }
}

impl PlayerHand {
    /// The cards, the top card first.
    pub open spec fn view(&self) -> Seq<Card> {
        self.cards@
    }

    /// The hand of the player `who` as the lines of a description give it.
    pub fn new(who: i32, config_lines: &Vec<String>) -> (r: Result<PlayerHand, DeckError>)
        ensures
            r is Ok <==> deck_after(who, lines_of(config_lines@), config_lines.len() as int) is Ok,
            r matches Ok(hand) ==> hand@ == deck_after(
                who,
                lines_of(config_lines@),
                config_lines.len() as int,
            )->Ok_0.1,
            r matches Err(e) ==> deck_after(who, lines_of(config_lines@), config_lines.len() as int)
                == Err::<(i32, Seq<Card>), DeckError>(e),
    {
        match get_deck(who, config_lines) {
            Ok(cards) => Ok(PlayerHand { cards }),
            Err(e) => Err(e),
        }
    }

    /// The score of the hand.
    pub fn score(&self) -> (r: usize)
        requires
            score_of(self@) <= usize::MAX,
        ensures
            r == score_of(self@),
    {
        let n = self.cards.len();
        let mut total: usize = 0;
        let mut i: usize = n;
        proof {
            assert(self@.skip(n as int) =~= Seq::<Card>::empty());
        }
        while i > 0
            invariant
                0 <= i <= n,
                n == self@.len(),
                total == score_of(self@.skip(i as int)),
                score_of(self@) <= usize::MAX,
            decreases i,
        {
            i -= 1;
            proof {
                assert(self@.skip(i as int).drop_first() =~= self@.skip(i + 1));
                assert(self@.skip(i as int)[0] == self@[i as int]);
                lemma_score_of_tail(self@, i as int);
                assert((n - i) * (self@[i as int] as nat) >= 0) by (nonlinear_arith)
                    requires
                        n - i >= 0,
                ;
            }
            let card = self.cards[i] as usize;
            total = total + (n - i) * card;
        }
        assert(self@.skip(0) =~= self@);
        total
    }

    /// Takes the top card from the hand.
    pub fn play_next_card(&mut self) -> (r: Card)
        requires
            old(self)@.len() > 0,
        ensures
            r == old(self)@[0],
            final(self)@ == old(self)@.drop_first(),
    {
        match self.cards.pop_front() {
            Some(card) => {
                assert(self@ =~= old(self)@.drop_first());
                card
            },
            None => 0,
        }
    }

    /// Puts two cards under the hand, `first` above `second`.
    pub fn win_cards(&mut self, first: Card, second: Card)
        ensures
            final(self)@ == old(self)@.push(first).push(second),
    {
        self.cards.push_back(first);
        self.cards.push_back(second);
    }

    /// Keeps the top `max_cards` cards, or all if there are fewer.
    pub fn truncate(&mut self, max_cards: usize)
        ensures
            final(self)@ == (if max_cards <= old(self)@.len() {
                old(self)@.take(max_cards as int)
            } else {
                old(self)@
            }),
    {
        self.cards.truncate(max_cards);
    }

    /// The number of cards.
    pub fn num_cards(&self) -> (r: usize)
        ensures
            r == self@.len(),
    {
        self.cards.len()
    }

    /// Whether the hand has no card.
    pub fn is_empty(&self) -> (r: bool)
        ensures
            r == (self@.len() == 0),
    {
        self.cards.len() == 0
    }
}

/// The score of the whole hand is at least the score of any of its tails.
pub proof fn lemma_score_of_tail(cards: Seq<Card>, i: int)
    requires
        0 <= i <= cards.len(),
    ensures
        score_of(cards.skip(i)) <= score_of(cards),
    decreases i,
{
    if i == 0 {
        assert(cards.skip(0) =~= cards);
    } else {
        lemma_score_of_tail(cards, i - 1);
        assert(cards.skip(i - 1).drop_first() =~= cards.skip(i));
        assert(cards.skip(i - 1).len() * (cards.skip(i - 1)[0] as nat) >= 0) by (nonlinear_arith);
    }
}

impl GameState {
    /// The two hands as the lines of a description give them.  A bad card of
    /// the first player is reported before one of the second.
    pub fn new(lines: &Vec<String>) -> (r: Result<GameState, DeckError>)
        ensures
            r is Ok <==> deck_after(1, lines_of(lines@), lines.len() as int) is Ok && deck_after(
                2,
                lines_of(lines@),
                lines.len() as int,
            ) is Ok,
            r matches Ok(game) ==> game.p1@ == deck_after(
                1,
                lines_of(lines@),
                lines.len() as int,
            )->Ok_0.1 && game.p2@ == deck_after(2, lines_of(lines@), lines.len() as int)->Ok_0.1,
            r matches Err(e) ==> (if deck_after(1, lines_of(lines@), lines.len() as int) is Err {
                deck_after(1, lines_of(lines@), lines.len() as int)
            } else {
                deck_after(2, lines_of(lines@), lines.len() as int)
            }) == Err::<(i32, Seq<Card>), DeckError>(e),
    {
        let p1 = match PlayerHand::new(1, lines) {
            Ok(hand) => hand,
            Err(e) => {
                return Err(e);
            },
        };
        let p2 = match PlayerHand::new(2, lines) {
            Ok(hand) => hand,
            Err(e) => {
                return Err(e);
            },
        };
        Ok(GameState { p1, p2 })
    }

    /// Cuts the hands down to at most `p1max` and `p2max` cards.
    pub fn truncate_hands(&mut self, p1max: usize, p2max: usize)
        ensures
            final(self).p1@ == (if p1max <= old(self).p1@.len() {
                old(self).p1@.take(p1max as int)
            } else {
                old(self).p1@
            }),
            final(self).p2@ == (if p2max <= old(self).p2@.len() {
                old(self).p2@.take(p2max as int)
            } else {
                old(self).p2@
            }),
    {
        self.p1.truncate(p1max);
        self.p2.truncate(p2max);
    }

    /// The number of cards in the game.
    pub fn total_card_count(&self) -> (r: usize)
        requires
            self.p1@.len() + self.p2@.len() <= usize::MAX,
        ensures
            r == self.p1@.len() + self.p2@.len(),
    {
        self.p1.num_cards() + self.p2.num_cards()
    }

    /// The score of player 1 or 2.
    pub fn score(&self, who: i32) -> (r: usize)
        requires
            who == 1 || who == 2,
            who == 1 ==> score_of(self.p1@) <= usize::MAX,
            who == 2 ==> score_of(self.p2@) <= usize::MAX,
        ensures
            r == (if who == 1 {
                score_of(self.p1@)
            } else {
                score_of(self.p2@)
            }),
    {
        if who == 1 {
            self.p1.score()
        } else {
            self.p2.score()
        }
    }

    /// The winner and the winner's score, once one hand is empty; `None`
    /// while both players hold cards.
    pub fn game_result(&self) -> (r: Option<(i32, usize)>)
        requires
            self.p1@.len() > 0 || self.p2@.len() > 0,
            score_of(self.p1@) <= usize::MAX,
            score_of(self.p2@) <= usize::MAX,
        ensures
            r == (if self.p1@.len() == 0 {
                Some((2i32, score_of(self.p2@) as usize))
            } else if self.p2@.len() == 0 {
                Some((1i32, score_of(self.p1@) as usize))
            } else {
                None
            }),
    {
        if self.p1.is_empty() {
            Some((2, self.p2.score()))
        } else if self.p2.is_empty() {
            Some((1, self.p1.score()))
        } else {
            None
        }
    }

    /// Plays one round: both players show their top card, and the player
    /// with the higher card puts both under the own hand, the own card first;
    /// on equal cards player 1 takes them.  Tells whether the game is over.
    pub fn play_one_basic_round(&mut self, round: i32) -> (r: bool)
        requires
            old(self).p1@.len() > 0,
            old(self).p2@.len() > 0,
        ensures
            old(self).p2@[0] > old(self).p1@[0] ==> final(self).p1@ == old(self).p1@.drop_first()
                && final(self).p2@ == old(self).p2@.drop_first().push(old(self).p2@[0]).push(
                old(self).p1@[0],
            ),
            old(self).p2@[0] <= old(self).p1@[0] ==> final(self).p2@ == old(self).p2@.drop_first()
                && final(self).p1@ == old(self).p1@.drop_first().push(old(self).p1@[0]).push(
                old(self).p2@[0],
            ),
            r == (final(self).p1@.len() == 0 || final(self).p2@.len() == 0),
    {
        let c1 = self.p1.play_next_card();
        let c2 = self.p2.play_next_card();
        if c2 > c1 {
            self.p2.win_cards(c2, c1);
        } else {
            self.p1.win_cards(c1, c2);
        }
        self.p1.is_empty() || self.p2.is_empty()
    }
}

/// The two hands after one round.
pub open spec fn after_round(p1: Seq<Card>, p2: Seq<Card>) -> (Seq<Card>, Seq<Card>) {
    if p2[0] > p1[0] {
        (p1.drop_first(), p2.drop_first().push(p2[0]).push(p1[0]))
    } else {
        (p1.drop_first().push(p1[0]).push(p2[0]), p2.drop_first())
    }
}

/// The two hands after play went on until a hand was empty, but for no more
/// than `rounds` rounds.
pub open spec fn played(p1: Seq<Card>, p2: Seq<Card>, rounds: nat) -> (Seq<Card>, Seq<Card>)
    decreases rounds,
{
    if rounds == 0 || p1.len() == 0 || p2.len() == 0 {
        (p1, p2)
    } else {
        played(after_round(p1, p2).0, after_round(p1, p2).1, (rounds - 1) as nat)
    }
}

impl GameState {
    /// Plays rounds until one hand is empty, but no more than `max_rounds`
    /// rounds: it is not known whether every game ends.  Tells the winner,
    /// or `None` when both players still hold cards.
    pub fn play_basic(&mut self, max_rounds: usize) -> (r: Option<i32>)
        ensures
            (final(self).p1@, final(self).p2@) == played(
                old(self).p1@,
                old(self).p2@,
                max_rounds as nat,
            ),
            r == (if final(self).p1@.len() == 0 && final(self).p2@.len() > 0 {
                Some(2i32)
            } else if final(self).p2@.len() == 0 && final(self).p1@.len() > 0 {
                Some(1i32)
            } else {
                None
            }),
    {
        let mut round: usize = 0;
        while round < max_rounds && !self.p1.is_empty() && !self.p2.is_empty()
            invariant
                0 <= round <= max_rounds,
                played(old(self).p1@, old(self).p2@, max_rounds as nat) == played(
                    self.p1@,
                    self.p2@,
                    (max_rounds - round) as nat,
                ),
            decreases max_rounds - round,
        {
            self.play_one_basic_round(0);
            round += 1;
        }
        if self.p1.is_empty() && !self.p2.is_empty() {
            Some(2)
        } else if self.p2.is_empty() && !self.p1.is_empty() {
            Some(1)
        } else {
            None
        }
    }
}

/// How a game with games inside it ends.
pub struct Outcome {
    /// The winner; `None` when the rounds that were allowed did not
    /// suffice.
    pub winner: Option<i32>,
    /// The hand of the first player at the end.
    pub p1: Seq<Card>,
    /// The hand of the second player at the end.
    pub p2: Seq<Card>,
    /// The rounds that are still allowed.
    pub rounds_left: nat,
}

/// The game with games inside it: when the two hands stood like this before
/// in the same game, player 1 wins the game.  Else both show their top card.
/// If each holds at least as many cards as the own card says, the round goes
/// to the winner of a new game that is played with that many of the next
/// cards of each; else to the higher card.  The winner of the round puts
/// both cards under the own hand, the own card first.  A hand without cards
/// has lost.  Every round, in this game and in the games inside it, takes one
/// of the rounds that are allowed.
pub open spec fn recursive_game(
    p1: Seq<Card>,
    p2: Seq<Card>,
    seen: Seq<(Seq<Card>, Seq<Card>)>,
    rounds: nat,
) -> Outcome
    decreases rounds,
{
    if seen.contains((p1, p2)) {
        Outcome { winner: Some(1i32), p1, p2, rounds_left: rounds }
    } else if rounds == 0 {
        Outcome { winner: None, p1, p2, rounds_left: 0 }
    } else {
        let c1 = p1[0];
        let c2 = p2[0];
        let r1 = p1.drop_first();
        let r2 = p2.drop_first();
        let inside = c1 <= r1.len() && c2 <= r2.len();
        let sub = recursive_game(
            r1.take(c1 as int),
            r2.take(c2 as int),
            Seq::empty(),
            (rounds - 1) as nat,
        );
        let left = if inside && sub.rounds_left < rounds - 1 {
            sub.rounds_left
        } else {
            (rounds - 1) as nat
        };
        if inside && sub.winner is None {
            Outcome { winner: None, p1: r1, p2: r2, rounds_left: left }
        } else {
            let first_wins = if inside {
                sub.winner == Some(1i32)
            } else {
                c2 <= c1
            };
            let n1 = if first_wins {
                r1.push(c1).push(c2)
            } else {
                r1
            };
            let n2 = if first_wins {
                r2
            } else {
                r2.push(c2).push(c1)
            };
            if n1.len() == 0 {
                Outcome { winner: Some(2i32), p1: n1, p2: n2, rounds_left: left }
            } else if n2.len() == 0 {
                Outcome { winner: Some(1i32), p1: n1, p2: n2, rounds_left: left }
            } else {
                recursive_game(n1, n2, seen.push((p1, p2)), left)
            }
        }
    }
}

/// Whether every card of a hand is at least 1.
pub open spec fn cards_count(hand: Seq<Card>) -> bool {
    forall|i: int| 0 <= i < hand.len() ==> #[trigger] hand[i] >= 1
}

/// The cards of a hand as a vector.
fn cards_of(hand: &PlayerHand) -> (r: Vec<Card>)
    ensures
        r@ == hand@,
{
    let mut out: Vec<Card> = Vec::new();
    let mut i: usize = 0;
    while i < hand.cards.len()
        invariant
            0 <= i <= hand@.len(),
            out@ == hand@.take(i as int),
        decreases hand@.len() - i,
    {
        out.push(hand.cards[i]);
        assert(out@ =~= hand@.take(i + 1));
        i += 1;
    }
    assert(hand@.take(hand@.len() as int) =~= hand@);
    out
}

/// The first `n` cards of a hand as a hand.
fn top_cards(hand: &PlayerHand, n: usize) -> (r: PlayerHand)
    requires
        n <= hand@.len(),
    ensures
        r@ == hand@.take(n as int),
{
    let mut out: std::collections::VecDeque<Card> = std::collections::VecDeque::new();
    let mut i: usize = 0;
    while i < n
        invariant
            0 <= i <= n <= hand@.len(),
            out@ == hand@.take(i as int),
        decreases n - i,
    {
        out.push_back(hand.cards[i]);
        assert(out@ =~= hand@.take(i + 1));
        i += 1;
    }
    PlayerHand { cards: out }
}

/// Whether two vectors hold the same cards.
fn same_cards(a: &Vec<Card>, b: &Vec<Card>) -> (r: bool)
    ensures
        r == (a@ == b@),
{
    if a.len() != b.len() {
        return false;
    }
    let mut i: usize = 0;
    while i < a.len()
        invariant
            0 <= i <= a@.len(),
            a@.len() == b@.len(),
            forall|k: int| 0 <= k < i ==> a@[k] == b@[k],
        decreases a@.len() - i,
    {
        if a[i] != b[i] {
            return false;
        }
        i += 1;
    }
    assert(a@ =~= b@);
    true
}

/// The hands that were seen, as sequences.
pub open spec fn seen_view(seen: Seq<(Vec<Card>, Vec<Card>)>) -> Seq<(Seq<Card>, Seq<Card>)> {
    Seq::new(seen.len(), |i: int| (seen[i].0@, seen[i].1@))
}

/// Whether the two hands were seen.
fn was_seen(seen: &Vec<(Vec<Card>, Vec<Card>)>, h1: &Vec<Card>, h2: &Vec<Card>) -> (r: bool)
    ensures
        r == seen_view(seen@).contains((h1@, h2@)),
{
    let mut k: usize = 0;
    while k < seen.len()
        invariant
            0 <= k <= seen@.len(),
            forall|j: int| 0 <= j < k ==> #[trigger] seen_view(seen@)[j] != (h1@, h2@),
        decreases seen@.len() - k,
    {
        if same_cards(&seen[k].0, h1) && same_cards(&seen[k].1, h2) {
            assert(seen_view(seen@)[k as int] == (h1@, h2@));
            return true;
        }
        assert(seen_view(seen@)[k as int] != (h1@, h2@));
        k += 1;
    }
    false
}

impl GameState {
    /// Plays the game with games inside it, for no more than `max_rounds`
    /// rounds in all: it is not proved here that every game ends.  Every
    /// game that is begun inside is counted in `game_counter`, which starts
    /// anew after the greatest number.  Gives the winner and the rounds that
    /// are left, or no winner when the rounds did not suffice.
    pub fn play_recursive(&mut self, game_counter: &mut usize, max_rounds: usize) -> (r: (
        Option<i32>,
        usize,
    ))
        requires
            old(self).p1@.len() > 0,
            old(self).p2@.len() > 0,
            cards_count(old(self).p1@),
            cards_count(old(self).p2@),
        ensures
            r.0 == recursive_game(old(self).p1@, old(self).p2@, Seq::empty(), max_rounds as nat).winner,
            r.1 == recursive_game(
                old(self).p1@,
                old(self).p2@,
                Seq::empty(),
                max_rounds as nat,
            ).rounds_left,
            final(self).p1@ == recursive_game(
                old(self).p1@,
                old(self).p2@,
                Seq::empty(),
                max_rounds as nat,
            ).p1,
            final(self).p2@ == recursive_game(
                old(self).p1@,
                old(self).p2@,
                Seq::empty(),
                max_rounds as nat,
            ).p2,
            r.1 <= max_rounds,
            cards_count(final(self).p1@),
            cards_count(final(self).p2@),
        decreases max_rounds,
    {
        let mut previous_states: Vec<(Vec<Card>, Vec<Card>)> = Vec::new();
        let mut rounds = max_rounds;
        let ghost whole = recursive_game(
            old(self).p1@,
            old(self).p2@,
            Seq::empty(),
            max_rounds as nat,
        );
        proof {
            assert(seen_view(previous_states@) =~= Seq::<(Seq<Card>, Seq<Card>)>::empty());
        }
        loop
            invariant
                self.p1@.len() > 0,
                self.p2@.len() > 0,
                cards_count(self.p1@),
                cards_count(self.p2@),
                rounds <= max_rounds,
                whole == recursive_game(
                    old(self).p1@,
                    old(self).p2@,
                    Seq::empty(),
                    max_rounds as nat,
                ),
                whole == recursive_game(
                    self.p1@,
                    self.p2@,
                    seen_view(previous_states@),
                    rounds as nat,
                ),
            decreases rounds,
        {
            let h1 = cards_of(&self.p1);
            let h2 = cards_of(&self.p2);
            if was_seen(&previous_states, &h1, &h2) {
                return (Some(1), rounds);
            }
            if rounds == 0 {
                return (None, 0);
            }
            let ghost before_seen = seen_view(previous_states@);
            let ghost p1 = self.p1@;
            let ghost p2 = self.p2@;
            previous_states.push((h1, h2));
            proof {
                assert(seen_view(previous_states@) =~= before_seen.push((p1, p2)));
            }
            let c1 = self.p1.play_next_card();
            let c2 = self.p2.play_next_card();
            proof {
                assert(c1 == p1[0] && c2 == p2[0]);
                assert(c1 >= 1 && c2 >= 1);
                assert forall|i: int| 0 <= i < self.p1@.len() implies #[trigger] self.p1@[i]
                    >= 1 by {
                    assert(self.p1@[i] == p1[i + 1]);
                }
                assert forall|i: int| 0 <= i < self.p2@.len() implies #[trigger] self.p2@[i]
                    >= 1 by {
                    assert(self.p2@[i] == p2[i + 1]);
                }
            }
            let n1 = self.p1.num_cards();
            let n2 = self.p2.num_cards();
            let recurse = (c1 as u64) <= (n1 as u64) && (c2 as u64) <= (n2 as u64);
            let first_wins: bool;
            let left: usize;
            if recurse {
                let mut subgame = GameState {
                    p1: top_cards(&self.p1, c1 as usize),
                    p2: top_cards(&self.p2, c2 as usize),
                };
                proof {
                    assert forall|i: int| 0 <= i < subgame.p1@.len() implies #[trigger] subgame.p1@[i]
                        >= 1 by {
                        assert(subgame.p1@[i] == self.p1@[i]);
                    }
                    assert forall|i: int| 0 <= i < subgame.p2@.len() implies #[trigger] subgame.p2@[i]
                        >= 1 by {
                        assert(subgame.p2@[i] == self.p2@[i]);
                    }
                }
                *game_counter = game_counter.wrapping_add(1);
                let (winner, sub_left) = subgame.play_recursive(game_counter, rounds - 1);
                left = if sub_left < rounds - 1 {
                    sub_left
                } else {
                    rounds - 1
                };
                match winner {
                    None => {
                        return (None, left);
                    },
                    Some(w) => {
                        first_wins = w == 1;
                    },
                }
            } else {
                first_wins = c2 <= c1;
                left = rounds - 1;
            }
            if first_wins {
                self.p1.win_cards(c1, c2);
            } else {
                self.p2.win_cards(c2, c1);
            }
            rounds = left;
            if self.p1.is_empty() {
                return (Some(2), rounds);
            }
            if self.p2.is_empty() {
                return (Some(1), rounds);
            }
        }
    }
}

} // verus!
