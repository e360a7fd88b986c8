//! Monkeys that throw items to each other, and how busy each of them is.

use crate::text::{chars_of, is_text, parse_u128, parse_usize, split_whitespace, texts, unsigned_literal, words_of};
use vstd::prelude::*;

verus! {

/// The greatest common divisor, after Euclid.
pub open spec fn spec_gcd(a: nat, b: nat) -> nat
    decreases a,
{
    if a == 0 {
        b
    } else {
        spec_gcd(b % a, a)
    }
}

/// Whether `d` divides `n`.
pub open spec fn divides(d: nat, n: nat) -> bool {
    exists|k: int| n == #[trigger] (d * k)
}

/// What Euclid finds divides both numbers, and every number that divides
/// both divides it.
pub proof fn lemma_gcd_is_greatest(a: nat, b: nat)
    ensures
        divides(spec_gcd(a, b), a),
        divides(spec_gcd(a, b), b),
        forall|d: nat| divides(d, a) && divides(d, b) ==> #[trigger] divides(d, spec_gcd(a, b)),
    decreases a,
{
    let g = spec_gcd(a, b);
    if a == 0 {
        assert(a == g * 0);
        assert(b == g * 1);
    } else {
        let r = b % a;
        let q = b / a;
        lemma_gcd_is_greatest(r, a);
        vstd::arithmetic::div_mod::lemma_fundamental_div_mod(b as int, a as int);
        let k1 = choose|k: int| r == #[trigger] (g * k);
        let k2 = choose|k: int| a == #[trigger] (g * k);
        assert(b == g * (k2 * q + k1)) by (nonlinear_arith)
            requires
                b == a * q + r,
                r == g * k1,
                a == g * k2,
        ;
        assert forall|d: nat| divides(d, a) && divides(d, b) implies #[trigger] divides(d, g) by {
            let j1 = choose|k: int| a == #[trigger] (d * k);
            let j2 = choose|k: int| b == #[trigger] (d * k);
            assert(r == d * (j2 - j1 * q)) by (nonlinear_arith)
                requires
                    b == a * q + r,
                    a == d * j1,
                    b == d * j2,
            ;
            assert(divides(d, r));
        }
    }
}

/// The greatest common divisor of `a` and `b`.
pub fn gcd(a: u128, b: u128) -> (r: u128)
    ensures
        r == spec_gcd(a as nat, b as nat),
    decreases a,
{
    if a == 0 {
        return b;
    }
    gcd(b % a, a)
}

/// The least common multiple of `a` and `b`; `None` if both are zero or
/// the product of the two leaves 128 bits.
pub fn lcd(a: u128, b: u128) -> (r: Option<u128>)
    ensures
        match r {
            Some(m) => spec_gcd(a as nat, b as nat) > 0 && a * b <= u128::MAX && m == (a * b) / (spec_gcd(
                a as nat,
                b as nat,
            ) as int),
            None => spec_gcd(a as nat, b as nat) == 0 || a * b > u128::MAX,
        },
{
    let g = gcd(a, b);
    if g == 0 {
        return None;
    }
    match a.checked_mul(b) {
        Some(product) => Some(product / g),
        None => None,
    }
}

/// What a monkey does to the worry level of an item; `None` stands for the
/// old level itself.
#[derive(Clone, Copy, Debug, PartialEq, Eq, Structural)]
pub enum Operation {
    Add(Option<u128>),
    Mul(Option<u128>),
}

/// How the worry is kept in check after an inspection.
#[derive(Clone, Copy, Debug, PartialEq, Eq, Structural)]
pub enum Relief {
    /// The level is divided by three.
    DivideByThree,
    /// The level is taken modulo the number, which is not zero.
    Modulo(u128),
}

pub struct Monkey {
    pub items: Vec<u128>,
    pub op: Operation,
    pub divisor: u128,
    pub true_targ: usize,
    pub false_targ: usize,
    pub inspect_count: u128,
}

/// Mathematical model of a [`Monkey`].
pub struct MonkeyView {
    pub items: Seq<u128>,
    pub op: Operation,
    pub divisor: u128,
    pub true_targ: usize,
    pub false_targ: usize,
    pub inspect_count: u128,
}

impl View for Monkey {
    type V = MonkeyView;

    open spec fn view(&self) -> MonkeyView {
        MonkeyView {
            items: self.items@,
            op: self.op,
            divisor: self.divisor,
            true_targ: self.true_targ,
            false_targ: self.false_targ,
            inspect_count: self.inspect_count,
        }
    }
}

/// How often a monkey has inspected an item.
#[derive(Clone, Copy, Debug, PartialEq, Eq, Structural)]
pub struct Score {
    pub score: u128,
    pub id: usize,
}

/// The models of a troop of monkeys.
pub open spec fn troop(monkeys: Seq<Monkey>) -> Seq<MonkeyView> {
    Seq::new(monkeys.len(), |i: int| monkeys[i]@)
}

/// The worry level after an operation, without bound.
pub open spec fn operated(op: Operation, old: u128) -> nat {
    match op {
        Operation::Add(Some(n)) => (old + n) as nat,
        Operation::Add(None) => (old + old) as nat,
        Operation::Mul(Some(n)) => (old * n) as nat,
        Operation::Mul(None) => (old * old) as nat,
    }
}

/// The worry level after the relief.
pub open spec fn relieved(relief: Relief, worry: u128) -> u128 {
    match relief {
        Relief::DivideByThree => worry / 3,
        Relief::Modulo(div) => if div == 0 {
            worry
        } else {
            worry % div
        },
    }
}

/// What an inspection of the last item does: the new level of the item and
/// the monkey that gets it. `None` if the monkey holds no item, its divisor
/// is zero, the relief is a modulus of zero, or a number leaves 128 bits.
pub open spec fn inspection(monkey: MonkeyView, relief: Relief) -> Option<(u128, usize)> {
    if monkey.items.len() == 0 || monkey.divisor == 0 || relief == Relief::Modulo(0) || operated(
        monkey.op,
        monkey.items.last(),
    ) > u128::MAX || monkey.inspect_count == u128::MAX {
        None
    } else {
        let item = relieved(relief, operated(monkey.op, monkey.items.last()) as u128);
        Some(
            (
                item,
                if item % monkey.divisor == 0 {
                    monkey.true_targ
                } else {
                    monkey.false_targ
                },
            ),
        )
    }
}

/// A monkey after it has inspected and thrown its last item.
pub open spec fn after_throw(monkey: MonkeyView) -> MonkeyView {
    MonkeyView {
        items: monkey.items.drop_last(),
        op: monkey.op,
        divisor: monkey.divisor,
        true_targ: monkey.true_targ,
        false_targ: monkey.false_targ,
        inspect_count: (monkey.inspect_count + 1) as u128,
    }
}

/// A monkey after it has caught an item.
pub open spec fn after_catch(monkey: MonkeyView, item: u128) -> MonkeyView {
    MonkeyView {
        items: monkey.items.push(item),
        op: monkey.op,
        divisor: monkey.divisor,
        true_targ: monkey.true_targ,
        false_targ: monkey.false_targ,
        inspect_count: monkey.inspect_count,
    }
}

/// The troop after monkey `m` has thrown its last item; `None` if the
/// inspection fails or the item would go to no monkey or to `m` itself.
pub open spec fn thrown(monkeys: Seq<MonkeyView>, m: int, relief: Relief) -> Option<Seq<MonkeyView>> {
    match inspection(monkeys[m], relief) {
        Some((item, target)) => if target < monkeys.len() && target != m {
            Some(
                monkeys.update(m, after_throw(monkeys[m])).update(
                    target as int,
                    after_catch(monkeys[target as int], item),
                ),
            )
        } else {
            None
        },
        None => None,
    }
}

/// The troop after monkey `m` has thrown all its items, the last first.
pub open spec fn after_turn(monkeys: Seq<MonkeyView>, m: int, relief: Relief) -> Option<Seq<MonkeyView>>
    decreases monkeys[m].items.len(),
{
    if m < 0 || m >= monkeys.len() {
        None
    } else if monkeys[m].items.len() == 0 {
        Some(monkeys)
    } else {
        match thrown(monkeys, m, relief) {
            Some(next) => after_turn(next, m, relief),
            None => None,
        }
    }
}

/// The troop after the first `m` monkeys have had their turn.
pub open spec fn after_turns(monkeys: Seq<MonkeyView>, m: int, relief: Relief) -> Option<Seq<MonkeyView>>
    decreases m,
{
    if m <= 0 {
        Some(monkeys)
    } else {
        match after_turns(monkeys, m - 1, relief) {
            Some(now) => after_turn(now, m - 1, relief),
            None => None,
        }
    }
}

/// The troop after `rounds` rounds, in each of which every monkey has its
/// turn.
pub open spec fn after_rounds(monkeys: Seq<MonkeyView>, rounds: int, relief: Relief) -> Option<Seq<MonkeyView>>
    decreases rounds,
{
    if rounds <= 0 {
        Some(monkeys)
    } else {
        match after_rounds(monkeys, rounds - 1, relief) {
            Some(now) => after_turns(now, now.len() as int, relief),
            None => None,
        }
    }
}

impl Monkey {
    /// A monkey that holds nothing and has inspected nothing.
    pub fn new() -> (monkey: Monkey)
        ensures
            monkey@ == (MonkeyView {
                items: Seq::empty(),
                op: Operation::Add(None),
                divisor: 0,
                true_targ: 0,
                false_targ: 0,
                inspect_count: 0,
            }),
    {
        Monkey {
            items: Vec::new(),
            op: Operation::Add(None),
            divisor: 0,
            true_targ: 0,
            false_targ: 0,
            inspect_count: 0,
        }
    }

    /// The worry level after this monkey's operation; `None` if it leaves
    /// 128 bits.
    pub fn operation(&self, old: u128) -> (r: Option<u128>)
        ensures
            r == if operated(self.op, old) <= u128::MAX {
                Some(operated(self.op, old) as u128)
            } else {
                None
            },
    {
        match self.op {
            Operation::Add(n) => match n {
                Some(n) => old.checked_add(n),
                None => old.checked_add(old),
            },
            Operation::Mul(n) => match n {
                Some(n) => old.checked_mul(n),
                None => old.checked_mul(old),
            },
        }
    }

    /// Inspects the last item: takes it, counts the inspection, changes the
    /// worry level and picks the monkey that gets the item. If that is not
    /// possible, nothing changes.
    pub fn inspect(&mut self, relief: Relief) -> (r: Option<(u128, usize)>)
        ensures
            r == inspection(old(self)@, relief),
            r is Some ==> final(self)@ == after_throw(old(self)@),
            r is None ==> final(self)@ == old(self)@,
    {
        if self.items.len() == 0 || self.divisor == 0 || self.inspect_count == u128::MAX {
            return None;
        }
        match relief {
            Relief::Modulo(div) => {
                if div == 0 {
                    return None;
                }
            },
            Relief::DivideByThree => {},
        }
        let old_level = self.items[self.items.len() - 1];
        let mut item = match self.operation(old_level) {
            Some(level) => level,
            None => {
                return None;
            },
        };
        self.items.pop();
        self.inspect_count += 1;
        item = match relief {
            Relief::DivideByThree => item / 3,
            Relief::Modulo(div) => item % div,
        };
        let target_monkey = if item % self.divisor == 0 {
            self.true_targ
        } else {
            self.false_targ
        };
        Some((item, target_monkey))
    }
}

/// Lets monkey `m` throw all its items. `None`, with the troop as the
/// failed throw found it, if a throw is not possible.
fn take_turn(monkeys: &mut Vec<Monkey>, m: usize, relief: Relief) -> (done: bool)
    requires
        m < old(monkeys).len(),
    ensures
        final(monkeys).len() == old(monkeys).len(),
        done ==> after_turn(troop(old(monkeys)@), m as int, relief) == Some(troop(final(monkeys)@)),
        !done ==> after_turn(troop(old(monkeys)@), m as int, relief) is None,
{
    while monkeys[m].items.len() > 0
        invariant
            m < monkeys.len(),
            monkeys.len() == old(monkeys).len(),
            after_turn(troop(monkeys@), m as int, relief) == after_turn(troop(old(monkeys)@), m as int, relief),
        decreases monkeys@[m as int].items@.len(),
    {
        let ghost before = troop(monkeys@);
        assert(before[m as int] == monkeys@[m as int]@);
        match monkeys[m].inspect(relief) {
            Some((item, target)) => {
                if target >= monkeys.len() || target == m {
                    return false;
                }
                let ghost now = troop(monkeys@);
                assert(now[target as int] == monkeys@[target as int]@);
                monkeys[target].items.push(item);
                proof {
                    let goal = thrown(before, m as int, relief)->0;
                    assert forall|i: int| 0 <= i < monkeys.len() implies troop(monkeys@)[i] == goal[i] by {
                        if i != m && i != target {
                            assert(troop(monkeys@)[i] == before[i]);
                        }
                    }
                    assert(troop(monkeys@) =~= goal);
                }
            },
            None => {
                return false;
            },
        }
    }
    proof {
        assert(troop(monkeys@)[m as int] == monkeys@[m as int]@);
    }
    true
}

/// Whether `a` comes before `b` in a list of scores: it has the higher
/// score or, with the same score, the higher number.
pub open spec fn outranks(a: Score, b: Score) -> bool {
    a.score > b.score || (a.score == b.score && a.id >= b.id)
}

/// Whether the scores are listed from the best on.
pub open spec fn ranked(scores: Seq<Score>) -> bool {
    forall|i: int, j: int| 0 <= i < j < scores.len() ==> outranks(scores[i], scores[j])
}

fn rank(scores: &mut Vec<Score>, score: Score)
    requires
        ranked(old(scores)@),
    ensures
        ranked(final(scores)@),
        final(scores)@.to_multiset() == old(scores)@.to_multiset().insert(score),
{
    let mut at: usize = 0;
    while at < scores.len() && (scores[at].score > score.score || (scores[at].score == score.score && scores[at].id
        >= score.id))
        invariant
            at <= scores.len(),
            *scores == *old(scores),
            forall|i: int| 0 <= i < at ==> outranks(scores@[i], score),
        decreases scores.len() - at,
    {
        at += 1;
    }
    proof {
        vstd::seq_lib::to_multiset_insert(scores@, at as int, score);
        assert forall|i: int, j: int| 0 <= i < j < scores@.insert(at as int, score).len() implies outranks(
            scores@.insert(at as int, score)[i],
            scores@.insert(at as int, score)[j],
        ) by {
            let longer = scores@.insert(at as int, score);
            if i < at && j < at {
                assert(longer[i] == scores@[i] && longer[j] == scores@[j]);
            } else if i < at && j == at {
            } else if i < at {
                assert(longer[j] == scores@[j - 1]);
            } else if i == at {
                assert(longer[j] == scores@[j - 1]);
                assert(!outranks(scores@[at as int], score));
                assert(outranks(scores@[at as int], scores@[j - 1]) || j - 1 == at);
            } else {
                assert(longer[i] == scores@[i - 1] && longer[j] == scores@[j - 1]);
            }
        }
    }
    scores.insert(at, score);
}

/// The number of inspections of every monkey.
pub open spec fn scores_of(monkeys: Seq<MonkeyView>) -> Seq<Score> {
    Seq::new(monkeys.len(), |i: int| Score { score: monkeys[i].inspect_count, id: i as usize })
}

/// Lists how often each monkey has inspected an item, the busiest first.
pub fn highscore(monkeys: &Vec<Monkey>) -> (scores: Vec<Score>)
    ensures
        ranked(scores@),
        scores@.to_multiset() == scores_of(troop(monkeys@)).to_multiset(),
{
    let mut scores: Vec<Score> = Vec::new();
    let mut i: usize = 0;
    proof {
        assert(scores_of(troop(monkeys@)).take(0) =~= Seq::<Score>::empty());
    }
    while i < monkeys.len()
        invariant
            i <= monkeys.len(),
            ranked(scores@),
            scores@.to_multiset() == scores_of(troop(monkeys@)).take(i as int).to_multiset(),
        decreases monkeys.len() - i,
    {
        let score = Score { id: i, score: monkeys[i].inspect_count };
        proof {
            let all = scores_of(troop(monkeys@));
            assert(all.take(i + 1) =~= all.take(i as int).push(score));
            vstd::seq_lib::to_multiset_build(all.take(i as int), score);
        }
        rank(&mut scores, score);
        i += 1;
    }
    proof {
        let all = scores_of(troop(monkeys@));
        assert(all.take(i as int) =~= all);
    }
    scores
}

/// The level of monkey business: the numbers of inspections of the two
/// busiest monkeys, multiplied. `None` if there are fewer than two scores
/// or the product leaves 128 bits.
pub fn monkeybusiness(highscore: &Vec<Score>) -> (r: Option<u128>)
    ensures
        r == if highscore.len() >= 2 && highscore[0].score * highscore[1].score <= u128::MAX {
            Some((highscore[0].score * highscore[1].score) as u128)
        } else {
            None
        },
{
    if highscore.len() < 2 {
        return None;
    }
    highscore[0].score.checked_mul(highscore[1].score)
}


/// `s[..k]` without its commas.
pub open spec fn without_commas(s: Seq<char>, k: int) -> Seq<char>
    decreases k,
{
    if k <= 0 || k > s.len() {
        Seq::empty()
    } else if s[k - 1] == ',' {
        without_commas(s, k - 1)
    } else {
        without_commas(s, k - 1).push(s[k - 1])
    }
}

/// A number of 128 bits, read from a decimal literal.
pub open spec fn level_of(word: Seq<char>) -> Option<u128> {
    match unsigned_literal(word) {
        Some(n) => if n <= u128::MAX {
            Some(n as u128)
        } else {
            None
        },
        None => None,
    }
}

/// A number that fits in a `usize`, read from a decimal literal.
pub open spec fn index_of_word(word: Seq<char>) -> Option<usize> {
    match unsigned_literal(word) {
        Some(n) => if n <= usize::MAX {
            Some(n as usize)
        } else {
            None
        },
        None => None,
    }
}

/// The worry level that a word of a list of items denotes; the commas
/// between the items are left out.
pub open spec fn item_of(word: Seq<char>) -> Option<u128> {
    level_of(without_commas(word, word.len() as int))
}

/// `items` with the levels that `words[from..k]` denote appended; `None`
/// if one of the words denotes no level.
pub open spec fn with_items(items: Seq<u128>, words: Seq<Seq<char>>, from: int, k: int) -> Option<Seq<u128>>
    decreases k - from,
{
    if k <= from {
        Some(items)
    } else {
        match (with_items(items, words, from, k - 1), item_of(words[k - 1])) {
            (Some(so_far), Some(item)) => Some(so_far.push(item)),
            _ => None,
        }
    }
}

/// The operation that three words like `old * 19` describe: the second
/// is `+` or `*`, and a third that is no number stands for the old level.
pub open spec fn operation_of(sign: Seq<char>, operand: Seq<char>) -> Option<Operation> {
    if sign == "+"@ {
        Some(Operation::Add(level_of(operand)))
    } else if sign == "*"@ {
        Some(Operation::Mul(level_of(operand)))
    } else {
        None
    }
}

/// A monkey with other items.
pub open spec fn holding(monkey: MonkeyView, items: Seq<u128>) -> MonkeyView {
    MonkeyView {
        items,
        op: monkey.op,
        divisor: monkey.divisor,
        true_targ: monkey.true_targ,
        false_targ: monkey.false_targ,
        inspect_count: monkey.inspect_count,
    }
}

/// A monkey with another operation.
pub open spec fn operating(monkey: MonkeyView, op: Operation) -> MonkeyView {
    MonkeyView {
        items: monkey.items,
        op,
        divisor: monkey.divisor,
        true_targ: monkey.true_targ,
        false_targ: monkey.false_targ,
        inspect_count: monkey.inspect_count,
    }
}

/// A monkey with another divisor.
pub open spec fn testing(monkey: MonkeyView, divisor: u128) -> MonkeyView {
    MonkeyView {
        items: monkey.items,
        op: monkey.op,
        divisor,
        true_targ: monkey.true_targ,
        false_targ: monkey.false_targ,
        inspect_count: monkey.inspect_count,
    }
}

/// A monkey with another target for one outcome of its test.
pub open spec fn aiming(monkey: MonkeyView, cond: Seq<char>, target: usize) -> Option<MonkeyView> {
    if cond == "true:"@ {
        Some(
            MonkeyView {
                items: monkey.items,
                op: monkey.op,
                divisor: monkey.divisor,
                true_targ: target,
                false_targ: monkey.false_targ,
                inspect_count: monkey.inspect_count,
            },
        )
    } else if cond == "false:"@ {
        Some(
            MonkeyView {
                items: monkey.items,
                op: monkey.op,
                divisor: monkey.divisor,
                true_targ: monkey.true_targ,
                false_targ: target,
                inspect_count: monkey.inspect_count,
            },
        )
    } else {
        None
    }
}

/// What a line of the notes says about the last monkey.
pub open spec fn noted(monkey: MonkeyView, parts: Seq<Seq<char>>) -> Option<MonkeyView> {
    if parts[0] == "Starting"@ {
        match with_items(monkey.items, parts, 2, parts.len() as int) {
            Some(items) => Some(holding(monkey, items)),
            None => None,
        }
    } else if parts[0] == "Operation:"@ {
        if parts.len() == 6 {
            match operation_of(parts[4], parts[5]) {
                Some(op) => Some(operating(monkey, op)),
                None => None,
            }
        } else {
            None
        }
    } else if parts[0] == "Test:"@ {
        if parts.len() >= 4 {
            match level_of(parts[3]) {
                Some(divisor) => Some(testing(monkey, divisor)),
                None => None,
            }
        } else {
            None
        }
    } else if parts[0] == "If"@ {
        if parts.len() >= 6 {
            match index_of_word(parts[5]) {
                Some(target) => aiming(monkey, parts[1], target),
                None => None,
            }
        } else {
            None
        }
    } else {
        None
    }
}

/// A monkey as [`Monkey::new`] makes it.
pub open spec fn blank() -> MonkeyView {
    MonkeyView {
        items: Seq::empty(),
        op: Operation::Add(None),
        divisor: 0,
        true_targ: 0,
        false_targ: 0,
        inspect_count: 0,
    }
}

/// The troop after one more line of the notes: a line that starts with
/// `Monkey` adds a monkey, any other line says something about the last
/// one. `None` if the line has fewer than two words or says nothing that
/// is understood.
pub open spec fn line_noted(monkeys: Seq<MonkeyView>, line: Seq<char>) -> Option<Seq<MonkeyView>> {
    let parts = words_of(line);
    if parts.len() < 2 {
        None
    } else if parts[0] == "Monkey"@ {
        Some(monkeys.push(blank()))
    } else if monkeys.len() == 0 {
        None
    } else {
        match noted(monkeys.last(), parts) {
            Some(monkey) => Some(monkeys.drop_last().push(monkey)),
            None => None,
        }
    }
}

/// The troop that the first `k` lines of the notes describe; empty lines
/// are passed over.
pub open spec fn monkeys_of(lines: Seq<String>, k: int) -> Option<Seq<MonkeyView>>
    decreases k,
{
    if k <= 0 {
        Some(Seq::empty())
    } else {
        match monkeys_of(lines, k - 1) {
            Some(monkeys) => if lines[k - 1]@.len() == 0 {
                Some(monkeys)
            } else {
                line_noted(monkeys, lines[k - 1]@)
            },
            None => None,
        }
    }
}

proof fn lemma_monkeys_fail(lines: Seq<String>, k: int, n: int)
    requires
        0 <= k <= n,
        monkeys_of(lines, k) is None,
    ensures
        monkeys_of(lines, n) is None,
    decreases n - k,
{
    if k < n {
        lemma_monkeys_fail(lines, k, n - 1);
    }
}

fn parse_item(word: &Vec<char>) -> (r: Option<u128>)
    ensures
        r == item_of(word@),
{
    let mut digits: Vec<char> = Vec::new();
    let mut k: usize = 0;
    while k < word.len()
        invariant
            k <= word.len(),
            digits@ == without_commas(word@, k as int),
        decreases word.len() - k,
    {
        if word[k] != ',' {
            digits.push(word[k]);
        }
        k += 1;
    }
    parse_u128(&digits)
}

impl Monkey {
    /// Appends the items that `words[from..]` list. If one of the words
    /// denotes no level, the monkey holds what it held before.
    pub fn parse_items(&mut self, words: &Vec<Vec<char>>, from: usize) -> (done: bool)
        ensures
            done ==> with_items(old(self)@.items, texts(words@), from as int, words.len() as int) == Some(
                final(self)@.items,
            ) && final(self)@ == holding(old(self)@, final(self)@.items),
            !done ==> with_items(old(self)@.items, texts(words@), from as int, words.len() as int) is None && final(self)@ == old(self)@,
    {
        let mut items: Vec<u128> = Vec::new();
        let mut i: usize = 0;
        while i < self.items.len()
            invariant
                i <= self.items.len(),
                *self == *old(self),
                items@ == self.items@.take(i as int),
            decreases self.items.len() - i,
        {
            items.push(self.items[i]);
            proof {
                assert(self.items@.take(i + 1) =~= self.items@.take(i as int).push(self.items@[i as int]));
            }
            i += 1;
        }
        proof {
            assert(self.items@.take(i as int) =~= self.items@);
        }
        let mut k: usize = from;
        while k < words.len()
            invariant
                *self == *old(self),
                from <= k <= words.len() || (words.len() < from && k == from),
                with_items(self.items@, texts(words@), from as int, k as int) == Some(items@),
            decreases words.len() - k,
        {
            assert(texts(words@)[k as int] == words@[k as int]@);
            match parse_item(&words[k]) {
                Some(item) => {
                    items.push(item);
                },
                None => {
                    proof {
                        lemma_items_fail(self.items@, texts(words@), from as int, k as int + 1, words.len() as int);
                    }
                    return false;
                },
            }
            k += 1;
        }
        proof {
            if words.len() < from {
                assert(with_items(self.items@, texts(words@), from as int, words.len() as int) == Some(items@));
            }
        }
        self.items = items;
        true
    }

    /// Sets the operation that `sign` and `operand` describe. If they
    /// describe none, nothing changes.
    pub fn parse_operation(&mut self, sign: &Vec<char>, operand: &Vec<char>) -> (done: bool)
        ensures
            done ==> (operation_of(sign@, operand@) matches Some(op) && final(self)@ == operating(old(self)@, op)),
            !done ==> operation_of(sign@, operand@) is None && final(self)@ == old(self)@,
    {
        if is_text(sign, "+") {
            self.op = Operation::Add(parse_u128(operand));
            true
        } else if is_text(sign, "*") {
            self.op = Operation::Mul(parse_u128(operand));
            true
        } else {
            false
        }
    }

    /// Sets the monkey that gets an item when the test turns out as `cond`
    /// says. If `cond` or `target` is not understood, nothing changes.
    pub fn parse_target(&mut self, cond: &Vec<char>, target: &Vec<char>) -> (done: bool)
        ensures
            done ==> (index_of_word(target@) matches Some(t) && aiming(old(self)@, cond@, t) == Some(
                final(self)@,
            )),
            !done ==> (index_of_word(target@) matches Some(t) ==> aiming(old(self)@, cond@, t) is None) && final(self)@ == old(self)@,
    {
        let t = match parse_usize(target) {
            Some(t) => t,
            None => {
                return false;
            },
        };
        if is_text(cond, "true:") {
            self.true_targ = t;
            true
        } else if is_text(cond, "false:") {
            self.false_targ = t;
            true
        } else {
            false
        }
    }
}

proof fn lemma_items_fail(items: Seq<u128>, words: Seq<Seq<char>>, from: int, k: int, n: int)
    requires
        from <= k <= n,
        with_items(items, words, from, k) is None,
    ensures
        with_items(items, words, from, n) is None,
    decreases n - k,
{
    if k < n {
        lemma_items_fail(items, words, from, k, n - 1);
    }
}

/// Notes what a line says about a monkey. If the line is not understood,
/// nothing changes.
fn note(monkey: &mut Monkey, parts: &Vec<Vec<char>>) -> (done: bool)
    requires
        parts.len() >= 2,
    ensures
        done ==> noted(old(monkey)@, texts(parts@)) == Some(final(monkey)@),
        !done ==> noted(old(monkey)@, texts(parts@)) is None && final(monkey)@ == old(monkey)@,
{
    proof {
        assert(texts(parts@)[0] == parts@[0]@);
        assert(texts(parts@)[1] == parts@[1]@);
        if parts.len() >= 4 {
            assert(texts(parts@)[3] == parts@[3]@);
        }
        if parts.len() >= 6 {
            assert(texts(parts@)[4] == parts@[4]@);
            assert(texts(parts@)[5] == parts@[5]@);
        }
        reveal_strlit("Starting");
        reveal_strlit("Operation:");
        reveal_strlit("Test:");
        reveal_strlit("If");
    }
    if is_text(&parts[0], "Starting") {
        monkey.parse_items(parts, 2)
    } else if is_text(&parts[0], "Operation:") {
        if parts.len() == 6 {
            monkey.parse_operation(&parts[4], &parts[5])
        } else {
            false
        }
    } else if is_text(&parts[0], "Test:") {
        if parts.len() >= 4 {
            match parse_u128(&parts[3]) {
                Some(divisor) => {
                    monkey.divisor = divisor;
                    true
                },
                None => false,
            }
        } else {
            false
        }
    } else if is_text(&parts[0], "If") {
        if parts.len() >= 6 {
            monkey.parse_target(&parts[1], &parts[5])
        } else {
            false
        }
    } else {
        false
    }
}

/// Reads the notes about the monkeys. `None` if a line that is not empty
/// is not understood.
pub fn parse_monkeys(lines: &Vec<String>) -> (r: Option<Vec<Monkey>>)
    ensures
        match r {
            Some(monkeys) => monkeys_of(lines@, lines.len() as int) == Some(troop(monkeys@)),
            None => monkeys_of(lines@, lines.len() as int) is None,
        },
{
    let mut monkeys: Vec<Monkey> = Vec::new();
    let mut k: usize = 0;
    proof {
        assert(troop(monkeys@) =~= Seq::<MonkeyView>::empty());
    }
    while k < lines.len()
        invariant
            k <= lines.len(),
            monkeys_of(lines@, k as int) == Some(troop(monkeys@)),
        decreases lines.len() - k,
    {
        let chars = chars_of(lines[k].as_str());
        if chars.len() > 0 {
            let parts = split_whitespace(&chars);
            let ghost before = troop(monkeys@);
            let mut understood = parts.len() >= 2;
            if understood {
                assert(texts(parts@)[0] == parts@[0]@);
                if is_text(&parts[0], "Monkey") {
                    monkeys.push(Monkey::new());
                    proof {
                        assert(troop(monkeys@) =~= before.push(blank()));
                    }
                } else if monkeys.len() == 0 {
                    understood = false;
                } else {
                    let last = monkeys.len() - 1;
                    assert(before.last() == monkeys@[last as int]@);
                    understood = note(&mut monkeys[last], &parts);
                    proof {
                        if understood {
                            assert(troop(monkeys@) =~= before.drop_last().push(monkeys@[last as int]@));
                        }
                    }
                }
            }
            if !understood {
                proof {
                    lemma_monkeys_fail(lines@, k as int + 1, lines.len() as int);
                }
                return None;
            }
        }
        k += 1;
    }
    Some(monkeys)
}

/// The least common multiple as far as 128 bits hold it.
pub open spec fn spec_lcd(a: u128, b: u128) -> Option<u128> {
    if spec_gcd(a as nat, b as nat) > 0 && a * b <= u128::MAX {
        Some(((a * b) / (spec_gcd(a as nat, b as nat) as int)) as u128)
    } else {
        None
    }
}

/// The least common multiple of the divisors of the first `k` monkeys, of
/// which there are at least two.
pub open spec fn common_multiple(monkeys: Seq<MonkeyView>, k: int) -> Option<u128>
    decreases k,
{
    if k < 2 || k > monkeys.len() {
        None
    } else if k == 2 {
        spec_lcd(monkeys[0].divisor, monkeys[1].divisor)
    } else {
        match common_multiple(monkeys, k - 1) {
            Some(div) => spec_lcd(div, monkeys[k - 1].divisor),
            None => None,
        }
    }
}

/// The relief that a game is played with.
pub open spec fn relief_for(monkeys: Seq<MonkeyView>, worry_div_3: bool) -> Option<Relief> {
    if worry_div_3 {
        Some(Relief::DivideByThree)
    } else {
        match common_multiple(monkeys, monkeys.len() as int) {
            Some(div) => Some(Relief::Modulo(div)),
            None => None,
        }
    }
}

/// The troop at the end of a game that the notes describe.
pub open spec fn game_end(lines: Seq<String>, rounds: int, worry_div_3: bool) -> Option<Seq<MonkeyView>> {
    match monkeys_of(lines, lines.len() as int) {
        Some(monkeys) => match relief_for(monkeys, worry_div_3) {
            Some(relief) => after_rounds(monkeys, rounds, relief),
            None => None,
        },
        None => None,
    }
}

fn pick_relief(monkeys: &Vec<Monkey>, worry_div_3: bool) -> (r: Option<Relief>)
    ensures
        r == relief_for(troop(monkeys@), worry_div_3),
{
    if worry_div_3 {
        return Some(Relief::DivideByThree);
    }
    if monkeys.len() < 2 {
        return None;
    }
    let ghost all = troop(monkeys@);
    assert(all[0] == monkeys@[0]@ && all[1] == monkeys@[1]@);
    let mut div = match lcd(monkeys[0].divisor, monkeys[1].divisor) {
        Some(div) => div,
        None => {
            proof {
                lemma_multiple_fails(all, 2, all.len() as int);
            }
            return None;
        },
    };
    let mut k: usize = 2;
    while k < monkeys.len()
        invariant
            2 <= k <= monkeys.len(),
            !worry_div_3,
            all == troop(monkeys@),
            common_multiple(all, k as int) == Some(div),
        decreases monkeys.len() - k,
    {
        assert(all[k as int] == monkeys@[k as int]@);
        div = match lcd(div, monkeys[k].divisor) {
            Some(div) => div,
            None => {
                proof {
                    assert(spec_lcd(div, all[k as int].divisor) is None);
                    assert(common_multiple(all, k as int + 1) is None);
                    lemma_multiple_fails(all, k as int + 1, all.len() as int);
                }
                return None;
            },
        };
        k += 1;
    }
    Some(Relief::Modulo(div))
}

proof fn lemma_multiple_fails(monkeys: Seq<MonkeyView>, k: int, n: int)
    requires
        2 <= k <= n <= monkeys.len(),
        common_multiple(monkeys, k) is None,
    ensures
        common_multiple(monkeys, n) is None,
    decreases n - k,
{
    if k < n {
        lemma_multiple_fails(monkeys, k, n - 1);
    }
}

proof fn lemma_turns_fail(monkeys: Seq<MonkeyView>, k: int, n: int, relief: Relief)
    requires
        0 <= k <= n,
        after_turns(monkeys, k, relief) is None,
    ensures
        after_turns(monkeys, n, relief) is None,
    decreases n - k,
{
    if k < n {
        lemma_turns_fail(monkeys, k, n - 1, relief);
    }
}

proof fn lemma_rounds_fail(monkeys: Seq<MonkeyView>, k: int, n: int, relief: Relief)
    requires
        0 <= k <= n,
        after_rounds(monkeys, k, relief) is None,
    ensures
        after_rounds(monkeys, n, relief) is None,
    decreases n - k,
{
    if k < n {
        lemma_rounds_fail(monkeys, k, n - 1, relief);
    }
}

/// Plays the game that the notes describe for the given number of rounds
/// and lists how often each monkey has inspected an item, the busiest
/// first. `None` if the notes are not understood, no relief can be had, or
/// a throw is not possible.
pub fn play_monkey_keepaway(lines: &Vec<String>, rounds: usize, worry_div_3: bool) -> (r: Option<Vec<Score>>)
    ensures
        match r {
            Some(scores) => game_end(lines@, rounds as int, worry_div_3) matches Some(end) && ranked(scores@)
                && scores@.to_multiset() == scores_of(end).to_multiset(),
            None => game_end(lines@, rounds as int, worry_div_3) is None,
        },
{
    let mut monkeys = match parse_monkeys(lines) {
        Some(monkeys) => monkeys,
        None => {
            return None;
        },
    };
    let relief = match pick_relief(&monkeys, worry_div_3) {
        Some(relief) => relief,
        None => {
            return None;
        },
    };
    let ghost start = troop(monkeys@);
    let mut round: usize = 0;
    while round < rounds
        invariant
            round <= rounds,
            monkeys_of(lines@, lines.len() as int) == Some(start),
            relief_for(start, worry_div_3) == Some(relief),
            after_rounds(start, round as int, relief) == Some(troop(monkeys@)),
        decreases rounds - round,
    {
        let ghost round_start = troop(monkeys@);
        let mut m: usize = 0;
        while m < monkeys.len()
            invariant
                m <= monkeys.len(),
                round < rounds,
                monkeys_of(lines@, lines.len() as int) == Some(start),
                relief_for(start, worry_div_3) == Some(relief),
                monkeys.len() == round_start.len(),
                after_rounds(start, round as int, relief) == Some(round_start),
                after_turns(round_start, m as int, relief) == Some(troop(monkeys@)),
            decreases monkeys.len() - m,
        {
            if !take_turn(&mut monkeys, m, relief) {
                proof {
                    assert(after_turns(round_start, m as int + 1, relief) is None);
                    lemma_turns_fail(round_start, m as int + 1, round_start.len() as int, relief);
                    assert(after_rounds(start, round as int + 1, relief) is None);
                    lemma_rounds_fail(start, round as int + 1, rounds as int, relief);
                }
                return None;
            }
            m += 1;
        }
        round += 1;
    }
    Some(highscore(&monkeys))
}


/// Number of items that the first `k` monkeys hold.
pub open spec fn items_in(monkeys: Seq<MonkeyView>, k: int) -> int
    decreases k,
{
    if k <= 0 {
        0
    } else {
        items_in(monkeys, k - 1) + monkeys[k - 1].items.len()
    }
}

/// Number of inspections that the first `k` monkeys have made.
pub open spec fn inspections_in(monkeys: Seq<MonkeyView>, k: int) -> int
    decreases k,
{
    if k <= 0 {
        0
    } else {
        inspections_in(monkeys, k - 1) + monkeys[k - 1].inspect_count
    }
}

proof fn lemma_sums_after_change(a: Seq<MonkeyView>, b: Seq<MonkeyView>, i: int, k: int)
    requires
        a.len() == b.len(),
        0 <= i < a.len(),
        0 <= k <= a.len(),
        forall|j: int| 0 <= j < a.len() && j != i ==> a[j] == b[j],
    ensures
        items_in(b, k) == items_in(a, k) + if i < k {
            b[i].items.len() - a[i].items.len()
        } else {
            0
        },
        inspections_in(b, k) == inspections_in(a, k) + if i < k {
            b[i].inspect_count - a[i].inspect_count
        } else {
            0
        },
    decreases k,
{
    if k > 0 {
        lemma_sums_after_change(a, b, i, k - 1);
    }
}

/// What a throw does to the numbers: one inspection more, the same items
/// in all, one item less for the monkey that throws and none less for any
/// other.
proof fn lemma_throw_counts(monkeys: Seq<MonkeyView>, m: int, relief: Relief)
    requires
        0 <= m < monkeys.len(),
        thrown(monkeys, m, relief) is Some,
    ensures
        ({
            let next = thrown(monkeys, m, relief)->0;
            let n = monkeys.len() as int;
            &&& next.len() == monkeys.len()
            &&& items_in(next, n) == items_in(monkeys, n)
            &&& inspections_in(next, n) == inspections_in(monkeys, n) + 1
            &&& next[m].items.len() == monkeys[m].items.len() - 1
            &&& forall|j: int| 0 <= j < n && j != m ==> monkeys[j].items.len() <= #[trigger] next[j].items.len()
        }),
{
    let (item, target) = inspection(monkeys[m], relief)->0;
    let n = monkeys.len() as int;
    let mid = monkeys.update(m, after_throw(monkeys[m]));
    let next = mid.update(target as int, after_catch(mid[target as int], item));
    assert(next == thrown(monkeys, m, relief)->0);
    lemma_sums_after_change(monkeys, mid, m, n);
    lemma_sums_after_change(mid, next, target as int, n);
}

/// What a turn does to the numbers: the monkey inspects every item that it
/// holds, and no other monkey loses one.
proof fn lemma_turn_counts(monkeys: Seq<MonkeyView>, m: int, relief: Relief)
    requires
        0 <= m < monkeys.len(),
        after_turn(monkeys, m, relief) is Some,
    ensures
        ({
            let end = after_turn(monkeys, m, relief)->0;
            let n = monkeys.len() as int;
            &&& end.len() == monkeys.len()
            &&& items_in(end, n) == items_in(monkeys, n)
            &&& inspections_in(end, n) == inspections_in(monkeys, n) + monkeys[m].items.len()
            &&& forall|j: int| 0 <= j < n && j != m ==> monkeys[j].items.len() <= #[trigger] end[j].items.len()
        }),
    decreases monkeys[m].items.len(),
{
    if monkeys[m].items.len() > 0 {
        let next = thrown(monkeys, m, relief)->0;
        lemma_throw_counts(monkeys, m, relief);
        lemma_turn_counts(next, m, relief);
        let end = after_turn(next, m, relief)->0;
        assert forall|j: int| 0 <= j < monkeys.len() && j != m implies monkeys[j].items.len() <= #[trigger] end[
            j
        ].items.len() by {
            assert(monkeys[j].items.len() <= next[j].items.len());
        }
    }
}

/// What the turns of the first `m` monkeys do to the numbers: each of
/// them has inspected at least the items with which it began.
proof fn lemma_turns_counts(monkeys: Seq<MonkeyView>, m: int, relief: Relief)
    requires
        0 <= m <= monkeys.len(),
        after_turns(monkeys, m, relief) is Some,
    ensures
        ({
            let now = after_turns(monkeys, m, relief)->0;
            let n = monkeys.len() as int;
            &&& now.len() == monkeys.len()
            &&& items_in(now, n) == items_in(monkeys, n)
            &&& inspections_in(now, n) >= inspections_in(monkeys, n) + items_in(monkeys, m)
            &&& forall|j: int| m <= j < n ==> monkeys[j].items.len() <= #[trigger] now[j].items.len()
        }),
    decreases m,
{
    if m > 0 {
        let prev = after_turns(monkeys, m - 1, relief)->0;
        lemma_turns_counts(monkeys, m - 1, relief);
        lemma_turn_counts(prev, m - 1, relief);
        let now = after_turn(prev, m - 1, relief)->0;
        assert(monkeys[m - 1].items.len() <= prev[m - 1].items.len());
        assert forall|j: int| m <= j < monkeys.len() implies monkeys[j].items.len() <= #[trigger] now[j].items.len() by {
            assert(monkeys[j].items.len() <= prev[j].items.len());
            assert(prev[j].items.len() <= now[j].items.len());
        }
    }
}

/// In every round every item is inspected at least once: after `rounds`
/// rounds the inspections of all monkeys add up to at least `rounds` times
/// the number of items, and no item is lost.
pub proof fn lemma_every_item_is_inspected(monkeys: Seq<MonkeyView>, rounds: int, relief: Relief)
    requires
        0 <= rounds,
        after_rounds(monkeys, rounds, relief) is Some,
    ensures
        ({
            let end = after_rounds(monkeys, rounds, relief)->0;
            let n = monkeys.len() as int;
            &&& end.len() == monkeys.len()
            &&& items_in(end, n) == items_in(monkeys, n)
            &&& inspections_in(end, n) >= inspections_in(monkeys, n) + rounds * items_in(monkeys, n)
        }),
    decreases rounds,
{
    let n = monkeys.len() as int;
    if rounds > 0 {
        let prev = after_rounds(monkeys, rounds - 1, relief)->0;
        lemma_every_item_is_inspected(monkeys, rounds - 1, relief);
        lemma_turns_counts(prev, n, relief);
        assert(rounds * items_in(monkeys, n) == (rounds - 1) * items_in(monkeys, n) + items_in(monkeys, n))
            by (nonlinear_arith);
    } else {
        assert(rounds * items_in(monkeys, n) == 0) by (nonlinear_arith)
            requires
                rounds == 0,
        ;
    }
}

} // verus!
