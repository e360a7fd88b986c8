//! Rock, paper, scissors, played after a strategy guide.

use crate::sums::{bounded, checked_total, total};
use crate::text::{same_text, split_at_first, split_once_str};
use vstd::prelude::*;

verus! {

#[derive(Debug, Clone, Copy, PartialEq, Eq, Structural)]
pub enum Hand {
    Rock,
    Paper,
    Scissors,
}

#[derive(Debug, Clone, Copy, PartialEq, Eq, Structural)]
pub enum Strategy {
    Lose,
    Draw,
    Win,
}

/// A text that names no hand.
#[derive(Debug)]
pub struct HandInvalidErr {
    pub msg: String,
}

/// A text that names no strategy.
#[derive(Debug)]
pub struct StrategyInvalidErr {
    pub msg: String,
}

impl HandInvalidErr {
    /// The message shown to a user.
    pub fn to_text(&self) -> (text: String)
        ensures
            text@ == "Could not convert to Hand : "@ + self.msg@,
    {
        let mut text = "Could not convert to Hand : ".to_owned();
        vstd::string::StringExecFns::append(&mut text, self.msg.as_str());
        text
    }
}

impl StrategyInvalidErr {
    /// The message shown to a user.
    pub fn to_text(&self) -> (text: String)
        ensures
            text@ == "Could not convert to Strategy: "@ + self.msg@,
    {
        let mut text = "Could not convert to Strategy: ".to_owned();
        vstd::string::StringExecFns::append(&mut text, self.msg.as_str());
        text
    }
}

impl Hand {
    /// The hand that a letter stands for: `A`, `B`, `C` on the opponent's
    /// side and `X`, `Y`, `Z` on the player's.
    pub open spec fn of_letter(s: Seq<char>) -> Option<Hand> {
        if s == "A"@ || s == "X"@ {
            Some(Hand::Rock)
        } else if s == "B"@ || s == "Y"@ {
            Some(Hand::Paper)
        } else if s == "C"@ || s == "Z"@ {
            Some(Hand::Scissors)
        } else {
            None
        }
    }

    /// The hand that this one defeats.
    pub open spec fn beats(self) -> Hand {
        match self {
            Hand::Rock => Hand::Scissors,
            Hand::Paper => Hand::Rock,
            Hand::Scissors => Hand::Paper,
        }
    }

    /// What a hand is worth by itself.
    pub open spec fn worth(self) -> nat {
        match self {
            Hand::Rock => 1,
            Hand::Paper => 2,
            Hand::Scissors => 3,
        }
    }

    /// The letter of this hand on the opponent's side.
    pub fn as_str(&self) -> (s: &'static str)
        ensures
            Hand::of_letter(s@) == Some(*self),
            s@ == "A"@ || s@ == "B"@ || s@ == "C"@,
    {
        proof {
            reveal_strlit("A");
            reveal_strlit("B");
            reveal_strlit("C");
            reveal_strlit("X");
            reveal_strlit("Y");
            reveal_strlit("Z");
            assert("A"@[0] == 'A' && "B"@[0] == 'B' && "C"@[0] == 'C');
            assert("X"@[0] == 'X' && "Y"@[0] == 'Y' && "Z"@[0] == 'Z');
        }
        match self {
            Hand::Rock => "A",
            Hand::Paper => "B",
            Hand::Scissors => "C",
        }
    }

    /// Reads a hand from its letter.
    pub fn from_str(input: &str) -> (r: Result<Hand, HandInvalidErr>)
        ensures
            match r {
                Ok(hand) => Hand::of_letter(input@) == Some(hand),
                Err(e) => Hand::of_letter(input@) is None && e.msg@ == input@,
            },
    {
        if same_text(input, "A") || same_text(input, "X") {
            Ok(Hand::Rock)
        } else if same_text(input, "B") || same_text(input, "Y") {
            Ok(Hand::Paper)
        } else if same_text(input, "C") || same_text(input, "Z") {
            Ok(Hand::Scissors)
        } else {
            Err(HandInvalidErr { msg: input.to_owned() })
        }
    }
}

impl Strategy {
    /// The strategy that a letter stands for.
    pub open spec fn of_letter(s: Seq<char>) -> Option<Strategy> {
        if s == "X"@ {
            Some(Strategy::Lose)
        } else if s == "Y"@ {
            Some(Strategy::Draw)
        } else if s == "Z"@ {
            Some(Strategy::Win)
        } else {
            None
        }
    }

    /// The letter of this strategy.
    pub fn as_str(&self) -> (s: &'static str)
        ensures
            Strategy::of_letter(s@) == Some(*self),
    {
        proof {
            reveal_strlit("X");
            reveal_strlit("Y");
            reveal_strlit("Z");
            assert("X"@[0] == 'X' && "Y"@[0] == 'Y' && "Z"@[0] == 'Z');
        }
        match self {
            Strategy::Lose => "X",
            Strategy::Draw => "Y",
            Strategy::Win => "Z",
        }
    }

    /// Reads a strategy from its letter.
    pub fn from_str(input: &str) -> (r: Result<Strategy, StrategyInvalidErr>)
        ensures
            match r {
                Ok(strategy) => Strategy::of_letter(input@) == Some(strategy),
                Err(e) => Strategy::of_letter(input@) is None && e.msg@ == input@,
            },
    {
        if same_text(input, "X") {
            Ok(Strategy::Lose)
        } else if same_text(input, "Y") {
            Ok(Strategy::Draw)
        } else if same_text(input, "Z") {
            Ok(Strategy::Win)
        } else {
            Err(StrategyInvalidErr { msg: input.to_owned() })
        }
    }
}

/// The hand that reaches `strategy` against `opponent_hand`.
pub open spec fn hand_for(opponent_hand: Hand, strategy: Strategy) -> Hand {
    match strategy {
        Strategy::Lose => opponent_hand.beats(),
        Strategy::Draw => opponent_hand,
        Strategy::Win => opponent_hand.beats().beats(),
    }
}

/// What a round is worth to the player: the hand played, and 0, 3 or 6 for
/// a round lost, drawn or won.
pub open spec fn round_score(opponent_hand: Hand, player_hand: Hand) -> nat {
    player_hand.worth() + if player_hand.beats() == opponent_hand {
        6nat
    } else if player_hand == opponent_hand {
        3nat
    } else {
        0nat
    }
}

/// Picks the hand that loses, draws or wins against the opponent's, as the
/// strategy asks.
pub fn strategy_to_hand(opponent_hand: Hand, strategy: Strategy) -> (hand: Hand)
    ensures
        hand == hand_for(opponent_hand, strategy),
{
    match strategy {
        Strategy::Lose => match opponent_hand {
            Hand::Rock => Hand::Scissors,
            Hand::Paper => Hand::Rock,
            Hand::Scissors => Hand::Paper,
        },
        Strategy::Draw => opponent_hand,
        Strategy::Win => match opponent_hand {
            Hand::Rock => Hand::Paper,
            Hand::Paper => Hand::Scissors,
            Hand::Scissors => Hand::Rock,
        },
    }
}

/// The player's score for one round.
pub fn rock_paper_scissors(opponent_hand: Hand, player_hand: Hand) -> (score: u32)
    ensures
        score == round_score(opponent_hand, player_hand),
{
    let op_idx = hand_index(&opponent_hand);
    let pl_idx = hand_index(&player_hand);
    let score_matrix: [[u32; 3]; 3] = [[4, 1, 7], [8, 5, 2], [3, 9, 6]];
    score_matrix[pl_idx][op_idx]
}

/// Position of a hand in the score table.
pub fn hand_index(hand: &Hand) -> (i: usize)
    ensures
        i == hand.worth() - 1,
{
    match hand {
        Hand::Rock => 0,
        Hand::Paper => 1,
        Hand::Scissors => 2,
    }
}

/// The score of a round in which both letters name hands.
pub open spec fn hands_score(a: Seq<char>, b: Seq<char>) -> Option<u32> {
    match (Hand::of_letter(a), Hand::of_letter(b)) {
        (Some(x), Some(y)) => Some(round_score(x, y) as u32),
        _ => None,
    }
}

/// The score of a round in which the second letter names a strategy.
pub open spec fn strategy_score(a: Seq<char>, b: Seq<char>) -> Option<u32> {
    match (Hand::of_letter(a), Strategy::of_letter(b)) {
        (Some(x), Some(y)) => Some(round_score(x, hand_for(x, y)) as u32),
        _ => None,
    }
}

/// Scores a round, reading both letters as hands.
pub fn score_as_hands(a: &str, b: &str) -> (r: Option<u32>)
    ensures
        r == hands_score(a@, b@),
{
    match (Hand::from_str(a), Hand::from_str(b)) {
        (Ok(x), Ok(y)) => Some(rock_paper_scissors(x, y)),
        _ => None,
    }
}

/// Scores a round, reading the second letter as a strategy.
pub fn score_as_strategy(a: &str, b: &str) -> (r: Option<u32>)
    ensures
        r == strategy_score(a@, b@),
{
    match (Hand::from_str(a), Strategy::from_str(b)) {
        (Ok(x), Ok(y)) => Some(rock_paper_scissors(x, strategy_to_hand(x, y))),
        _ => None,
    }
}

/// Whether `score` is what `f` may give for a line: the line is split at
/// its first blank; a line without a blank scores nothing.
pub open spec fn scored_by<F: Fn(&str, &str) -> Option<u32>>(f: F, line: Seq<char>, score: Option<u32>) -> bool {
    match split_at_first(line, ' ') {
        Some((a, b)) => exists|x: &str, y: &str| x@ == a && y@ == b && #[trigger] call_ensures(f, (x, y), score),
        None => score == Some(0u32),
    }
}

/// Whether `scores` holds, line by line, what `f` may give.
pub open spec fn all_scored_by<F: Fn(&str, &str) -> Option<u32>>(
    f: F,
    lines: Seq<String>,
    scores: Seq<Option<u32>>,
) -> bool {
    &&& scores.len() == lines.len()
    &&& forall|i: int| 0 <= i < lines.len() ==> #[trigger] scored_by(f, lines[i]@, scores[i])
}

/// Adds up the scores that `score_func` gives to the rounds, one on each
/// line. `None` if a round has no score or the sum leaves 32 bits.
pub fn run_strategy<F: Fn(&str, &str) -> Option<u32>>(lines: &Vec<String>, score_func: F) -> (r: Option<u32>)
    requires
        forall|x: &str, y: &str| #[trigger] call_requires(score_func, (x, y)),
    ensures
        exists|scores: Seq<Option<u32>>| #[trigger]
            all_scored_by(score_func, lines@, scores) && r == bounded(total(scores)),
{
    let mut scores: Vec<Option<u32>> = Vec::new();
    let mut i: usize = 0;
    while i < lines.len()
        invariant
            i <= lines.len(),
            forall|x: &str, y: &str| #[trigger] call_requires(score_func, (x, y)),
            all_scored_by(score_func, lines@.take(i as int), scores@),
        decreases lines.len() - i,
    {
        let ghost before = scores@;
        let score = match split_once_str(lines[i].as_str(), ' ') {
            Some((op_hand, strat)) => score_func(op_hand, strat),
            None => Some(0),
        };
        scores.push(score);
        proof {
            assert(scored_by(score_func, lines@[i as int]@, score));
            assert forall|j: int| 0 <= j < i + 1 implies #[trigger] scored_by(
                score_func,
                lines@.take(i + 1)[j]@,
                scores@[j],
            ) by {
                if j < i {
                    assert(scored_by(score_func, lines@.take(i as int)[j]@, before[j]));
                }
            }
        }
        i += 1;
    }
    proof {
        assert(lines@.take(i as int) =~= lines@);
    }
    checked_total(&scores)
}

/// The score of each line when both letters are read as hands.
pub open spec fn hands_scores(lines: Seq<String>) -> Seq<Option<u32>> {
    Seq::new(
        lines.len(),
        |i: int|
            match split_at_first(lines[i]@, ' ') {
                Some((a, b)) => hands_score(a, b),
                None => Some(0u32),
            },
    )
}

/// The score of each line when the second letter is read as a strategy.
pub open spec fn strategy_scores(lines: Seq<String>) -> Seq<Option<u32>> {
    Seq::new(
        lines.len(),
        |i: int|
            match split_at_first(lines[i]@, ' ') {
                Some((a, b)) => strategy_score(a, b),
                None => Some(0u32),
            },
    )
}

/// The total when the guide is read as naming two hands.
pub fn incorrect_score(lines: &Vec<String>) -> (r: Option<u32>)
    ensures
        r == bounded(total(hands_scores(lines@))),
{
    let r = run_strategy(lines, score_as_hands);
    proof {
        let scores = choose|scores: Seq<Option<u32>>| #[trigger]
            all_scored_by(score_as_hands, lines@, scores) && r == bounded(total(scores));
        assert forall|i: int| 0 <= i < lines.len() implies scores[i] == hands_scores(lines@)[i] by {
            assert(scored_by(score_as_hands, lines@[i]@, scores[i]));
        }
        assert(scores =~= hands_scores(lines@));
    }
    r
}

/// The total when the guide is read as naming a hand and a strategy.
pub fn correct_score(lines: &Vec<String>) -> (r: Option<u32>)
    ensures
        r == bounded(total(strategy_scores(lines@))),
{
    let r = run_strategy(lines, score_as_strategy);
    proof {
        let scores = choose|scores: Seq<Option<u32>>| #[trigger]
            all_scored_by(score_as_strategy, lines@, scores) && r == bounded(total(scores));
        assert forall|i: int| 0 <= i < lines.len() implies scores[i] == strategy_scores(lines@)[i] by {
            assert(scored_by(score_as_strategy, lines@[i]@, scores[i]));
        }
        assert(scores =~= strategy_scores(lines@));
    }
    r
}

} // verus!
