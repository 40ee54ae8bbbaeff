//! Results of the bets: settling a pick against the winner of its game, keeping the results, and
//! stamping them on the lines of the record.

use vstd::prelude::*;
use vstd::slice::slice_subrange;

use crate::bets::{law_profit_is_in_proportion, ml_in_range, ml_win_amount, win_fraction};
use crate::numbers::read_i32;
use crate::odds_page::{pair_views, string_view};
use crate::records::{
    pick_ml, pick_ml_from_block, pick_team, pick_team_from_block, pick_team_readable,
};
use crate::summary::{game_winner_name, summary_fits, winner_in, SUMMARY_LIMIT};
use crate::text::{
    chars_of, contains, copy_of, extend_str, find, find_text, is_space, join, join_texts,
    lemma_find_from, lines, lines_of, occurs_at, starts_with, string_of, strings, text_contains,
    text_starts_with, texts, trim, trim_end, trim_end_of,
};
use crate::text_facts::lemma_trim_end;

verus! {

/// A bet that is decided: whether it was won, and the profit on $100 as a fraction, which is 0
/// where it was lost or the moneyline cannot be read.
pub struct Settlement {
    pub won: bool,
    pub gain: (u32, u32),
}

impl View for Settlement {
    type V = (bool, (int, int));

    open spec fn view(&self) -> (bool, (int, int)) {
        (self.won, (self.gain.0 as int, self.gain.1 as int))
    }
}

/// The winner is the team that was picked; either name may be cut short.
pub open spec fn same_team(winner: Seq<char>, team: Seq<char>) -> bool {
    starts_with(winner, team) || starts_with(team, winner)
}

/// How the pick of a block ends where `winner` won its game: whether it is won, and the profit
/// on $100 as a fraction.
pub open spec fn settled(block: Seq<char>, winner: Seq<char>) -> Option<(bool, (int, int))> {
    match (pick_team(block), pick_ml(block)) {
        (Some(team), Some(ml)) => if same_team(winner, team) {
            match win_fraction(ml) {
                Some(f) => Some((true, f)),
                None => Some((true, (0, 1))),
            }
        } else {
            Some((false, (0, 1)))
        },
        _ => None,
    }
}

/// The pick of a block can be settled.
pub open spec fn can_settle(block: Seq<char>, winner: Seq<char>) -> bool {
    &&& pick_team_readable(block)
    &&& (pick_team(block) matches Some(team) && pick_ml(block) matches Some(ml) && same_team(
        winner,
        team,
    )) ==> ml_in_range(pick_ml(block)->0)
}

/// Where the result of an earlier run starts in a line.
pub open spec fn tag_start(line: Seq<char>) -> Option<int> {
    match find(line, " WON "@) {
        Some(p) => Some(p),
        None => find(line, " LOST "@),
    }
}

/// A line without the result of an earlier run and the white space before it.
pub open spec fn untagged(line: Seq<char>) -> Seq<char> {
    match tag_start(line) {
        Some(p) => trim_end(line.take(p)),
        None => trim_end(line),
    }
}

/// A line with the result of its bet, where it is a pick.
pub open spec fn stamped_line(line: Seq<char>, tag: Seq<char>) -> Seq<char> {
    if contains(line, "PICK"@) {
        untagged(line) + " "@ + tag
    } else {
        line
    }
}

/// The lines of a block with the result of the bet.
pub open spec fn stamped_lines(ls: Seq<Seq<char>>, tag: Seq<char>) -> Seq<Seq<char>> {
    ls.map_values(|l: Seq<char>| stamped_line(l, tag))
}

/// A block with the result of its bet on each pick.
pub open spec fn stamped(block: Seq<char>, tag: Seq<char>) -> Seq<char> {
    join(stamped_lines(lines(block), tag), "\n"@)
}

/// The result of a bet as it is stamped; `amount` is the profit in dollars with two decimals.
pub open spec fn result_tag(won: bool, amount: Seq<char>) -> Seq<char> {
    if won {
        "WON +$"@ + amount
    } else {
        "LOST -$100.00"@
    }
}

/// Settles the pick of a block where `winner` won its game.
pub fn settle(block: &str, winner: &str) -> (r: Option<Settlement>)
    requires
        can_settle(block@, winner@),
    ensures
        match r {
            Some(s) => settled(block@, winner@) == Some(s@) && s.gain.1 > 0,
            None => settled(block@, winner@) is None,
        },
{
    let team = match pick_team_from_block(block) {
        Some(t) => chars_of(t.as_str()),
        None => return None,
    };
    let ml = match pick_ml_from_block(block) {
        Some(m) => m,
        None => return None,
    };
    let winning = chars_of(winner);
    if text_starts_with(&winning, &team) || text_starts_with(&team, &winning) {
        match ml_win_amount(ml.as_str()) {
            Some(gain) => Some(Settlement { won: true, gain }),
            None => Some(Settlement { won: true, gain: (0, 1) }),
        }
    } else {
        Some(Settlement { won: false, gain: (0, 1) })
    }
}

/// Tells whether the pick of a block can be settled.
pub fn settleable(block: &str, winner: &str) -> (r: bool)
    ensures
        r == can_settle(block@, winner@),
{
    if !crate::records::pick_team_fits(block) {
        return false;
    }
    let team = match pick_team_from_block(block) {
        Some(t) => chars_of(t.as_str()),
        None => return true,
    };
    let ml = match pick_ml_from_block(block) {
        Some(m) => m,
        None => return true,
    };
    let winning = chars_of(winner);
    if text_starts_with(&winning, &team) || text_starts_with(&team, &winning) {
        crate::bets::ml_fits(ml.as_str())
    } else {
        true
    }
}

/// What the summary of its game says of a bet.
pub enum BetCheck {
    /// The game is not decided, or the pick cannot be read.
    Open,
    /// The bet is won or lost.
    Decided(Settlement),
    /// The summary is too long, the line of the pick cannot be cut, or its moneyline cannot be
    /// negated.
    Unreadable,
}

/// Settles the pick of a block by the summary of its game.
pub fn check_bet(block: &str, summary: &str) -> (r: BetCheck)
    ensures
        match r {
            BetCheck::Open => can_decide(block@, Some(summary@)) && decided(
                block@,
                Some(summary@),
            ) is None,
            BetCheck::Decided(s) => can_decide(block@, Some(summary@)) && decided(
                block@,
                Some(summary@),
            ) == Some(s@) && s.gain.1 > 0,
            BetCheck::Unreadable => !can_decide(block@, Some(summary@)),
        },
{
    if !summary_fits(summary) {
        return BetCheck::Unreadable;
    }
    let winner = match game_winner_name(summary) {
        Some(w) => w,
        None => return BetCheck::Open,
    };
    if !settleable(block, winner.as_str()) {
        return BetCheck::Unreadable;
    }
    match settle(block, winner.as_str()) {
        Some(s) => BetCheck::Decided(s),
        None => BetCheck::Open,
    }
}

/// How the pick of a block ends by the summary of its game, where there is one and the game is
/// decided.
pub open spec fn decided(block: Seq<char>, summary: Option<Seq<char>>) -> Option<
    (bool, (int, int)),
> {
    match summary {
        Some(text) => match winner_in(text) {
            Some(winner) => settled(block, winner),
            None => None,
        },
        None => None,
    }
}

/// The summary of a game can be read, where there is one, and the pick of a block can be settled by
/// it, where it decides the game.
pub open spec fn can_decide(block: Seq<char>, summary: Option<Seq<char>>) -> bool {
    summary matches Some(text) ==> text.len() <= SUMMARY_LIMIT && (winner_in(text) matches Some(
        winner,
    ) ==> can_settle(block, winner))
}

/// The addresses of the bets that are decided, in order, and how each ends.
pub open spec fn decided_bets(
    due: Seq<(Seq<char>, Seq<char>)>,
    summaries: Seq<Option<Seq<char>>>,
) -> Seq<(Seq<char>, (bool, (int, int)))>
    decreases due.len(),
{
    if due.len() == 0 {
        Seq::empty()
    } else {
        let before = decided_bets(due.drop_last(), summaries);
        match decided(due.last().1, summaries[due.len() - 1]) {
            Some(end) => before.push((due.last().0, end)),
            None => before,
        }
    }
}

/// The contents of a list of texts that may be missing.
pub open spec fn summary_views(v: Seq<Option<String>>) -> Seq<Option<Seq<char>>> {
    v.map_values(|s: Option<String>| string_view(s))
}

/// The contents of a list of settled bets.
pub open spec fn settlement_views(v: Seq<(String, Settlement)>) -> Seq<
    (Seq<char>, (bool, (int, int))),
> {
    v.map_values(|b: (String, Settlement)| (b.0@, b.1@))
}

/// Settles the bets that are due, each given by its address and its lines, by the summaries of
/// their games: those that are decided, in order, or nothing where one cannot be settled.
pub fn settle_due(due: &Vec<(String, String)>, summaries: &Vec<Option<String>>) -> (r: Option<
    Vec<(String, Settlement)>,
>)
    requires
        due@.len() == summaries@.len(),
    ensures
        match r {
            Some(v) => {
                &&& settlement_views(v@) == decided_bets(
                    pair_views(due@),
                    summary_views(summaries@),
                )
                &&& forall|i: int| 0 <= i < v@.len() ==> (#[trigger] v@[i]).1.gain.1 > 0
                &&& forall|i: int|
                    0 <= i < due@.len() ==> can_decide(
                        (#[trigger] pair_views(due@)[i]).1,
                        summary_views(summaries@)[i],
                    )
            },
            None => exists|i: int|
                0 <= i < due@.len() && !can_decide(
                    (#[trigger] pair_views(due@)[i]).1,
                    summary_views(summaries@)[i],
                ),
        },
{
    let ghost bets = pair_views(due@);
    let ghost texts = summary_views(summaries@);
    let mut out: Vec<(String, Settlement)> = Vec::new();
    assert(settlement_views(out@) =~= decided_bets(bets.take(0), texts));
    for i in 0..due.len()
        invariant
            due@.len() == summaries@.len(),
            bets == pair_views(due@),
            texts == summary_views(summaries@),
            settlement_views(out@) == decided_bets(bets.take(i as int), texts),
            forall|j: int| 0 <= j < out@.len() ==> (#[trigger] out@[j]).1.gain.1 > 0,
            forall|j: int| 0 <= j < i ==> can_decide((#[trigger] bets[j]).1, texts[j]),
    {
        assert(bets.take(i + 1).drop_last() =~= bets.take(i as int));
        assert(bets.take(i + 1).last() == bets[i as int]);
        assert(bets[i as int].1 == due@[i as int].1@);
        assert(texts[i as int] == string_view(summaries@[i as int]));
        if let Some(text) = &summaries[i] {
            match check_bet(due[i].1.as_str(), text.as_str()) {
                BetCheck::Open => {},
                BetCheck::Unreadable => {
                    assert(!can_decide(bets[i as int].1, texts[i as int]));
                    return None;
                },
                BetCheck::Decided(s) => {
                    let ghost was = out@;
                    let ghost shown = s@;
                    out.push((due[i].0.clone(), s));
                    assert(settlement_views(out@) =~= settlement_views(was).push(
                        (bets[i as int].0, shown),
                    ));
                },
            }
        }
    }
    assert(bets.take(bets.len() as int) =~= bets);
    Some(out)
}

/// A bet is settled where it is due and the summary of its game decides it, and only there.
pub proof fn law_decided_bets_are_due(
    due: Seq<(Seq<char>, Seq<char>)>,
    summaries: Seq<Option<Seq<char>>>,
    url: Seq<char>,
    end: (bool, (int, int)),
)
    ensures
        decided_bets(due, summaries).contains((url, end)) <==> exists|i: int|
            0 <= i < due.len() && (#[trigger] due[i]).0 == url && decided(due[i].1, summaries[i])
                == Some(end),
    decreases due.len(),
{
    if due.len() > 0 {
        let d = due.drop_last();
        law_decided_bets_are_due(d, summaries, url, end);
        let before = decided_bets(d, summaries);
        let now = decided_bets(due, summaries);
        let n = d.len() as int;
        if now.contains((url, end)) {
            let k = now.index_of((url, end));
            if k < before.len() {
                assert(before[k] == (url, end));
                let i = choose|i: int|
                    0 <= i < d.len() && (#[trigger] d[i]).0 == url && decided(d[i].1, summaries[i])
                        == Some(end);
                assert(due[i] == d[i]);
            } else {
                assert(due[n].0 == url);
            }
        }
        if exists|i: int|
            0 <= i < due.len() && (#[trigger] due[i]).0 == url && decided(due[i].1, summaries[i])
                == Some(end) {
            let i = choose|i: int|
                0 <= i < due.len() && (#[trigger] due[i]).0 == url && decided(
                    due[i].1,
                    summaries[i],
                ) == Some(end);
            if i < n {
                assert(d[i] == due[i]);
                let k = before.index_of((url, end));
                assert(now[k] == (url, end));
            } else {
                assert(now[now.len() - 1] == (url, end));
            }
        }
    }
}

fn untag(line: &[char]) -> (r: &[char])
    ensures
        r@ == untagged(line@),
{
    let won = chars_of(" WON ");
    let lost = chars_of(" LOST ");
    let start: Option<usize> = match find_text(line, &won) {
        Some(p) => Some(p),
        None => find_text(line, &lost),
    };
    match start {
        Some(p) => {
            assert(line@.subrange(0, p as int) =~= line@.take(p as int));
            trim_end_of(slice_subrange(line, 0, p))
        },
        None => trim_end_of(line),
    }
}

/// A block with the result of its bet on each pick. A result that an earlier run left there is
/// replaced.
pub fn stamp_block(block: &str, tag: &str) -> (r: String)
    ensures
        r@ == stamped(block@, tag@),
{
    let cs = chars_of(block);
    let ls = lines_of(&cs);
    let word = chars_of("PICK");
    let ghost all = stamped_lines(lines(block@), tag@);
    let mut out: Vec<Vec<char>> = Vec::new();
    assert(texts(out@) =~= all.take(0));
    for i in 0..ls.len()
        invariant
            word@ == "PICK"@,
            texts(ls@) == lines(block@),
            all == stamped_lines(lines(block@), tag@),
            texts(out@) == all.take(i as int),
    {
        assert(lines(block@)[i as int] == ls@[i as int]@);
        let line: Vec<char> = if text_contains(&ls[i], &word) {
            let mut l = copy_of(untag(&ls[i]));
            extend_str(&mut l, " ");
            extend_str(&mut l, tag);
            l
        } else {
            copy_of(&ls[i])
        };
        let ghost was = out@;
        let ghost one = line@;
        out.push(line);
        assert(one == all[i as int]);
        assert(texts(out@) =~= texts(was).push(one));
        assert(all.take(i + 1) =~= all.take(i as int).push(all[i as int]));
    }
    assert(all.len() == ls@.len());
    assert(all.take(all.len() as int) =~= all);
    string_of(&join_texts(&out, &chars_of("\n")))
}

/// The result of a bet as it is stamped.
pub fn tag_text(won: bool, amount: &str) -> (r: String)
    ensures
        r@ == result_tag(won, amount@),
{
    if won {
        let mut out = chars_of("WON +$");
        extend_str(&mut out, amount);
        string_of(&out)
    } else {
        "LOST -$100.00".to_string()
    }
}

/// The result of one bet: whether it was won, the profit on $100 as a fraction, and that profit
/// in dollars with two decimals.
pub struct BetResult {
    pub won: bool,
    pub gain: (u32, u32),
    pub amount: String,
}

pub struct BetResultView {
    pub won: bool,
    pub gain: (int, int),
    pub amount: Seq<char>,
}

impl View for BetResult {
    type V = BetResultView;

    open spec fn view(&self) -> BetResultView {
        BetResultView {
            won: self.won,
            gain: (self.gain.0 as int, self.gain.1 as int),
            amount: self.amount@,
        }
    }
}

/// The results of the bets by the address of their game, one for each address.
pub struct ResultBook {
    entries: Vec<(String, BetResult)>,
}

/// The position of the last entry with the given address.
spec fn position(entries: Seq<(String, BetResult)>, url: Seq<char>) -> Option<int>
    decreases entries.len(),
{
    if entries.len() == 0 {
        None
    } else if entries.last().0@ == url {
        Some(entries.len() - 1)
    } else {
        position(entries.drop_last(), url)
    }
}

proof fn lemma_position(entries: Seq<(String, BetResult)>, url: Seq<char>)
    ensures
        match position(entries, url) {
            Some(p) => 0 <= p < entries.len() && entries[p].0@ == url,
            None => forall|i: int| 0 <= i < entries.len() ==> (#[trigger] entries[i]).0@ != url,
        },
    decreases entries.len(),
{
    if entries.len() > 0 && entries.last().0@ != url {
        lemma_position(entries.drop_last(), url);
        if position(entries.drop_last(), url) is None {
            assert forall|i: int| 0 <= i < entries.len() implies (#[trigger] entries[i]).0@
                != url by {
                if i < entries.len() - 1 {
                    assert(entries.drop_last()[i] == entries[i]);
                }
            }
        }
    }
}

impl View for ResultBook {
    type V = Map<Seq<char>, BetResultView>;

    closed spec fn view(&self) -> Map<Seq<char>, BetResultView> {
        Map::new(
            |url: Seq<char>| position(self.entries@, url) is Some,
            |url: Seq<char>| self.entries@[position(self.entries@, url)->0].1@,
        )
    }
}

/// The addresses of the bets that were won, or of those that were lost.
pub open spec fn urls_with(results: Map<Seq<char>, BetResultView>, won: bool) -> Set<Seq<char>> {
    results.dom().filter(|url: Seq<char>| results[url].won == won)
}

impl ResultBook {
    /// No address occurs twice.
    pub closed spec fn wf(&self) -> bool {
        forall|i: int, j: int|
            0 <= i < j < self.entries@.len() ==> (#[trigger] self.entries@[i]).0@ != (
            #[trigger] self.entries@[j]).0@
    }

    proof fn lemma_entry(&self, i: int)
        requires
            self.wf(),
            0 <= i < self.entries@.len(),
        ensures
            self@.dom().contains(self.entries@[i].0@),
            self@[self.entries@[i].0@] == self.entries@[i].1@,
    {
        let url = self.entries@[i].0@;
        lemma_position(self.entries@, url);
        let p = position(self.entries@, url)->0;
        assert(p == i);
    }

    pub fn new() -> (r: ResultBook)
        ensures
            r.wf(),
            r@ == Map::<Seq<char>, BetResultView>::empty(),
    {
        let r = ResultBook { entries: Vec::new() };
        assert(r@ =~= Map::<Seq<char>, BetResultView>::empty());
        r
    }

    fn find(&self, url: &str) -> (r: Option<usize>)
        requires
            self.wf(),
        ensures
            match r {
                Some(i) => i < self.entries@.len() && self.entries@[i as int].0@ == url@
                    && self@.dom().contains(url@) && self@[url@] == self.entries@[i as int].1@,
                None => !self@.dom().contains(url@) && (forall|i: int|
                    0 <= i < self.entries@.len() ==> (#[trigger] self.entries@[i]).0@ != url@),
            },
    {
        let wanted = chars_of(url);
        for i in 0..self.entries.len()
            invariant
                self.wf(),
                wanted@ == url@,
                forall|j: int| 0 <= j < i ==> (#[trigger] self.entries@[j]).0@ != url@,
        {
            if crate::text::text_eq(&chars_of(self.entries[i].0.as_str()), &wanted) {
                proof {
                    self.lemma_entry(i as int);
                }
                return Some(i);
            }
        }
        proof {
            lemma_position(self.entries@, url@);
        }
        None
    }

    /// Keeps the result of a bet; an earlier result for the same address is replaced.
    pub fn insert(&mut self, url: String, result: BetResult)
        requires
            old(self).wf(),
        ensures
            final(self).wf(),
            final(self)@ == old(self)@.insert(url@, result@),
    {
        let ghost before = self.entries@;
        let ghost key = url@;
        let ghost value = result@;
        match self.find(url.as_str()) {
            Some(i) => {
                self.entries.set(i, (url, result));
                proof {
                    assert(self.wf());
                    let now = self@;
                    let expected = old(self)@.insert(key, value);
                    assert forall|u: Seq<char>|
                        (#[trigger] now.dom().contains(u) <==> expected.dom().contains(u)) && (
                        now.dom().contains(u) ==> now[u] == expected[u]) by {
                        lemma_position(self.entries@, u);
                        lemma_position(before, u);
                        if u == key {
                            self.lemma_entry(i as int);
                        } else {
                            if let Some(p) = position(self.entries@, u) {
                                assert(before[p] == self.entries@[p]);
                                self.lemma_entry(p);
                                old(self).lemma_entry(p);
                            }
                            if let Some(p) = position(before, u) {
                                assert(before[p] == self.entries@[p]);
                            }
                        }
                    }
                    assert(now.dom() =~= expected.dom());
                    assert(now =~= expected);
                }
            },
            None => {
                self.entries.push((url, result));
                proof {
                    assert(self.wf());
                    assert(self.entries@.drop_last() =~= before);
                    let now = self@;
                    let expected = old(self)@.insert(key, value);
                    assert forall|u: Seq<char>|
                        (#[trigger] now.dom().contains(u) <==> expected.dom().contains(u)) && (
                        now.dom().contains(u) ==> now[u] == expected[u]) by {
                        lemma_position(before, u);
                    }
                    assert(now.dom() =~= expected.dom());
                    assert(now =~= expected);
                }
            },
        }
    }

    /// The result of the bet on a game.
    pub fn get(&self, url: &str) -> (r: Option<&BetResult>)
        requires
            self.wf(),
        ensures
            match r {
                Some(b) => self@.dom().contains(url@) && self@[url@] == b@,
                None => !self@.dom().contains(url@),
            },
    {
        match self.find(url) {
            Some(i) => Some(&self.entries[i].1),
            None => None,
        }
    }

    /// The results, each with the address of its game.
    pub fn results(&self) -> (r: &Vec<(String, BetResult)>)
        requires
            self.wf(),
        ensures
            forall|i: int, j: int|
                0 <= i < j < r@.len() ==> (#[trigger] r@[i]).0@ != (#[trigger] r@[j]).0@,
            forall|i: int|
                0 <= i < r@.len() ==> self@.dom().contains((#[trigger] r@[i]).0@)
                    && self@[r@[i].0@] == r@[i].1@,
            forall|url: Seq<char>| #[trigger]
                self@.dom().contains(url) ==> exists|i: int|
                    0 <= i < r@.len() && (#[trigger] r@[i]).0@ == url,
    {
        proof {
            assert forall|i: int| 0 <= i < self.entries@.len() implies self@.dom().contains(
                (#[trigger] self.entries@[i]).0@,
            ) && self@[self.entries@[i].0@] == self.entries@[i].1@ by {
                self.lemma_entry(i);
            }
            assert forall|url: Seq<char>| #[trigger] self@.dom().contains(url) implies exists|
                i: int,
            |
                0 <= i < self.entries@.len() && (#[trigger] self.entries@[i]).0@ == url by {
                lemma_position(self.entries@, url);
            }
        }
        &self.entries
    }

    /// How many bets were won and how many were lost.
    pub fn tally(&self) -> (r: (usize, usize))
        requires
            self.wf(),
        ensures
            urls_with(self@, true).finite(),
            urls_with(self@, false).finite(),
            r.0 == urls_with(self@, true).len(),
            r.1 == urls_with(self@, false).len(),
            r.0 + r.1 == self@.dom().len(),
    {
        let mut won: usize = 0;
        let mut lost: usize = 0;
        let ghost mut win_urls: Set<Seq<char>> = Set::empty();
        let ghost mut loss_urls: Set<Seq<char>> = Set::empty();
        for i in 0..self.entries.len()
            invariant
                self.wf(),
                win_urls.finite(),
                loss_urls.finite(),
                won == win_urls.len(),
                lost == loss_urls.len(),
                won + lost == i,
                forall|u: Seq<char>| #[trigger]
                    win_urls.contains(u) <==> exists|j: int|
                        0 <= j < i && (#[trigger] self.entries@[j]).0@ == u
                            && self.entries@[j].1.won,
                forall|u: Seq<char>| #[trigger]
                    loss_urls.contains(u) <==> exists|j: int|
                        0 <= j < i && (#[trigger] self.entries@[j]).0@ == u
                            && !self.entries@[j].1.won,
        {
            let ghost url = self.entries@[i as int].0@;
            assert(!win_urls.contains(url));
            assert(!loss_urls.contains(url));
            if self.entries[i].1.won {
                won = won + 1;
                proof {
                    win_urls = win_urls.insert(url);
                }
            } else {
                lost = lost + 1;
                proof {
                    loss_urls = loss_urls.insert(url);
                }
            }
        }
        proof {
            assert forall|u: Seq<char>| win_urls.contains(u) <==> urls_with(
                self@,
                true,
            ).contains(u) by {
                lemma_position(self.entries@, u);
                if let Some(p) = position(self.entries@, u) {
                    self.lemma_entry(p);
                }
            }
            assert forall|u: Seq<char>| loss_urls.contains(u) <==> urls_with(
                self@,
                false,
            ).contains(u) by {
                lemma_position(self.entries@, u);
                if let Some(p) = position(self.entries@, u) {
                    self.lemma_entry(p);
                }
            }
            assert(win_urls =~= urls_with(self@, true));
            assert(loss_urls =~= urls_with(self@, false));
            assert(win_urls + loss_urls =~= self@.dom());
            assert(win_urls.disjoint(loss_urls));
            vstd::set_lib::lemma_set_disjoint_lens(win_urls, loss_urls);
        }
        (won, lost)
    }
}

/// The results of settled bets by the address of their game: each is kept with its amount, in
/// order, so that of several with one address the last one stays.
pub open spec fn settled_book(
    settled: Seq<(Seq<char>, (bool, (int, int)))>,
    amounts: Seq<Seq<char>>,
) -> Map<Seq<char>, BetResultView>
    decreases settled.len(),
{
    if settled.len() == 0 {
        Map::empty()
    } else {
        let (url, (won, gain)) = settled.last();
        let amount = amounts[settled.len() - 1];
        settled_book(settled.drop_last(), amounts).insert(url, BetResultView { won, gain, amount })
    }
}

/// The book of the settled bets; `amounts` are their profits in dollars with two decimals.
pub fn book_of(settled: Vec<(String, Settlement)>, amounts: Vec<String>) -> (r: ResultBook)
    requires
        settled@.len() == amounts@.len(),
    ensures
        r.wf(),
        r@ == settled_book(settlement_views(settled@), strings(amounts@)),
{
    let ghost bets = settlement_views(settled@);
    let ghost shown = strings(amounts@);
    let mut book = ResultBook::new();
    for i in 0..settled.len()
        invariant
            settled@.len() == amounts@.len(),
            bets == settlement_views(settled@),
            shown == strings(amounts@),
            book.wf(),
            book@ == settled_book(bets.take(i as int), shown),
    {
        assert(bets.take(i + 1).drop_last() =~= bets.take(i as int));
        assert(bets.take(i + 1).last() == bets[i as int]);
        assert(shown[i as int] == amounts@[i as int]@);
        let s = &settled[i].1;
        let result = BetResult { won: s.won, gain: s.gain, amount: amounts[i].clone() };
        book.insert(settled[i].0.clone(), result);
    }
    assert(bets.take(bets.len() as int) =~= bets);
    book
}

/// A bet that can be read is settled, and it is won exactly where no character tells the winner
/// from the team, as far as the shorter of the two names goes. A lost bet gains nothing. A won bet
/// gains its moneyline where that is a positive number; where it is a negative number `n`, the gain
/// times `-n` is 10000.
pub proof fn law_bet_goes_by_the_whole_names(
    block: Seq<char>,
    winner: Seq<char>,
    team: Seq<char>,
    ml: Seq<char>,
)
    requires
        pick_team(block) == Some(team),
        pick_ml(block) == Some(ml),
    ensures
        settled(block, winner) matches Some((won, (p, q))) && {
            &&& won <==> forall|i: int|
                0 <= i < winner.len() && i < team.len() ==> #[trigger] winner[i] == team[i]
            &&& q > 0
            &&& !won ==> p == 0
            &&& won ==> match read_i32(trim(ml)) {
                Some(n) => {
                    &&& n > 0 ==> p == n * q
                    &&& n < 0 ==> p * (-n) == 100 * 100 * q
                    &&& n == 0 ==> p == 0
                },
                None => p == 0,
            }
        },
{
    law_profit_is_in_proportion(ml);
    let same = forall|i: int|
        0 <= i < winner.len() && i < team.len() ==> #[trigger] winner[i] == team[i];
    if same {
        if team.len() <= winner.len() {
            assert(winner.subrange(0, team.len() as int) =~= team);
        } else {
            assert(team.subrange(0, winner.len() as int) =~= winner);
        }
    }
    if same_team(winner, team) {
        assert forall|i: int| 0 <= i < winner.len() && i < team.len() implies #[trigger] winner[i]
            == team[i] by {
            if starts_with(winner, team) {
                assert(winner.subrange(0, team.len() as int)[i] == winner[i]);
            } else {
                assert(team.subrange(0, winner.len() as int)[i] == team[i]);
            }
        }
    }
}

/// A bet is left open where its team or its moneyline cannot be read, and only there.
pub proof fn law_unreadable_bets_stay_open(block: Seq<char>, winner: Seq<char>)
    ensures
        settled(block, winner) is None <==> pick_team(block) is None || pick_ml(block) is None,
{
}

/// The bets that are decided come in the order in which they are due: what a longer list adds
/// stands behind what the shorter one gave.
pub proof fn law_decided_bets_keep_their_order(
    a: Seq<(Seq<char>, Seq<char>)>,
    b: Seq<(Seq<char>, Seq<char>)>,
    first: Seq<Option<Seq<char>>>,
    second: Seq<Option<Seq<char>>>,
)
    requires
        a.len() == first.len(),
        b.len() == second.len(),
    ensures
        decided_bets(a + b, first + second) == decided_bets(a, first) + decided_bets(b, second),
    decreases b.len(),
{
    if b.len() == 0 {
        assert(a + b =~= a);
        assert(first + second =~= first);
        assert(decided_bets(a, first) + decided_bets(b, second) =~= decided_bets(a, first));
    } else {
        let d = b.drop_last();
        let s = second.drop_last();
        law_decided_bets_keep_their_order(a, d, first, s);
        assert((a + b).drop_last() =~= a + d);
        lemma_later_summaries(d, second, s);
        lemma_later_summaries(a + d, first + second, first + s);
        assert((first + second)[a.len() + b.len() - 1] == second[b.len() - 1]);
        assert(decided_bets(a + b, first + second) =~= decided_bets(a, first) + decided_bets(
            b,
            second,
        ));
    }
}

/// A summary that belongs to no bet of the list does not matter.
proof fn lemma_later_summaries(
    due: Seq<(Seq<char>, Seq<char>)>,
    x: Seq<Option<Seq<char>>>,
    y: Seq<Option<Seq<char>>>,
)
    requires
        due.len() <= x.len(),
        due.len() <= y.len(),
        forall|i: int| 0 <= i < due.len() ==> x[i] == y[i],
    ensures
        decided_bets(due, x) == decided_bets(due, y),
    decreases due.len(),
{
    if due.len() > 0 {
        lemma_later_summaries(due.drop_last(), x, y);
    }
}

/// The book holds a result for each address that was settled, and no other.
pub proof fn law_book_holds_the_settled_bets(
    settled: Seq<(Seq<char>, (bool, (int, int)))>,
    amounts: Seq<Seq<char>>,
    url: Seq<char>,
)
    ensures
        settled_book(settled, amounts).dom().contains(url) <==> exists|i: int|
            0 <= i < settled.len() && (#[trigger] settled[i]).0 == url,
    decreases settled.len(),
{
    if settled.len() > 0 {
        let d = settled.drop_last();
        let n = d.len() as int;
        law_book_holds_the_settled_bets(d, amounts, url);
        if settled_book(d, amounts).dom().contains(url) {
            let i = choose|i: int| 0 <= i < d.len() && (#[trigger] d[i]).0 == url;
            assert(settled[i].0 == url);
        }
        if settled[n].0 != url && (exists|i: int|
            0 <= i < settled.len() && (#[trigger] settled[i]).0 == url) {
            let i = choose|i: int| 0 <= i < settled.len() && (#[trigger] settled[i]).0 == url;
            assert(d[i].0 == url);
        }
    }
}

/// Of several results for one address the book keeps the last one, with its amount.
pub proof fn law_book_keeps_the_last_result(
    settled: Seq<(Seq<char>, (bool, (int, int)))>,
    amounts: Seq<Seq<char>>,
    i: int,
)
    requires
        0 <= i < settled.len(),
        forall|j: int| i < j < settled.len() ==> (#[trigger] settled[j]).0 != settled[i].0,
    ensures
        ({
            let kept = settled_book(settled, amounts)[settled[i].0];
            &&& kept.won == settled[i].1.0
            &&& kept.gain == settled[i].1.1
            &&& kept.amount == amounts[i]
        }),
    decreases settled.len(),
{
    let d = settled.drop_last();
    let n = d.len() as int;
    if i < n {
        assert(settled[n].0 != settled[i].0);
        assert forall|j: int| i < j < d.len() implies (#[trigger] d[j]).0 != d[i].0 by {
            assert(settled[j].0 != settled[i].0);
        }
        law_book_keeps_the_last_result(d, amounts, i);
    }
}

/// Every result of the book counts as won or as lost, and as one of them only.
pub proof fn law_results_are_won_or_lost(results: Map<Seq<char>, BetResultView>, url: Seq<char>)
    ensures
        urls_with(results, true).contains(url) <==> results.dom().contains(url) && results[url].won,
        urls_with(results, false).contains(url) <==> results.dom().contains(url)
            && !results[url].won,
{
}

/// The tag of a won bet is read as such by its first word and ends with the amount; the tag of a
/// lost bet names the stake.
pub proof fn law_tags_tell_the_result(amount: Seq<char>)
    ensures
        result_tag(true, amount).len() == 6 + amount.len(),
        result_tag(true, amount).take(6) == "WON +$"@,
        result_tag(true, amount).skip(6) == amount,
        result_tag(false, amount) == "LOST -$100.00"@,
{
    reveal_strlit("WON +$");
    assert(result_tag(true, amount).take(6) =~= "WON +$"@);
    assert(result_tag(true, amount).skip(6) =~= amount);
}

/// A pick that bears no result yet keeps its whole line but the white space at its end, and the tag
/// follows after a blank. What is no pick stays as it is.
pub proof fn law_first_stamp_follows_the_line(line: Seq<char>, tag: Seq<char>)
    requires
        forall|i: int| !occurs_at(line, i, " WON "@) && !occurs_at(line, i, " LOST "@),
    ensures
        (exists|i: int| occurs_at(line, i, "PICK"@)) ==> ({
            let kept = stamped_line(line, tag).len() - 1 - tag.len();
            &&& 0 <= kept <= line.len()
            &&& stamped_line(line, tag) == line.take(kept) + seq![' '] + tag
            &&& forall|i: int| kept <= i < line.len() ==> is_space(#[trigger] line[i])
            &&& kept > 0 ==> !is_space(line[kept - 1])
        }),
        !(exists|i: int| occurs_at(line, i, "PICK"@)) ==> stamped_line(line, tag) == line,
{
    reveal_strlit(" ");
    assert(" "@ =~= seq![' ']);
    lemma_find_from(line, " WON "@, 0);
    lemma_find_from(line, " LOST "@, 0);
    lemma_trim_end(line);
    let kept = trim_end(line).len() as int;
    if contains(line, "PICK"@) {
        assert(untagged(line) == line.take(kept));
        assert forall|i: int| kept <= i < line.len() implies is_space(#[trigger] line[i]) by {
            assert(is_space(line.skip(kept)[i - kept]));
        }
    }
}

/// A summary settles a bet by the winner that it names, and leaves it open where it names none; so
/// does a game without a summary.
pub proof fn law_summary_names_the_winner(block: Seq<char>, summary: Seq<char>)
    ensures
        winner_in(summary) matches Some(winner) ==> decided(block, Some(summary)) == settled(
            block,
            winner,
        ),
        winner_in(summary) is None ==> decided(block, Some(summary)) is None,
        decided(block, None) is None,
{
}

/// Every pick whose line can be cut can be settled, whoever won, but for a moneyline that is the
/// least number of 32 bits.
pub proof fn law_bets_can_be_settled(block: Seq<char>, winner: Seq<char>)
    requires
        pick_team_readable(block),
        pick_ml(block) matches Some(ml) ==> read_i32(trim(ml)) != Some(-0x8000_0000int),
    ensures
        can_settle(block, winner),
        can_decide(block, None),
        forall|summary: Seq<char>|
            summary.len() <= 0x7fff_ffff ==> #[trigger] can_decide(block, Some(summary)),
{
    assert forall|summary: Seq<char>| summary.len() <= 0x7fff_ffff implies #[trigger] can_decide(
        block,
        Some(summary),
    ) by {
        if let Some(w) = winner_in(summary) {
            assert(can_settle(block, w));
        }
    }
}

/// A pick that bears a result is cut at the first place where a result that was won stands, or, if
/// there is none, at the first where one that was lost does. The white space before it goes too,
/// and the new tag follows after a blank.
pub proof fn law_result_is_cut_at_its_mark(line: Seq<char>, tag: Seq<char>, p: int)
    requires
        exists|i: int| occurs_at(line, i, "PICK"@),
        0 <= p,
        ({
            ||| occurs_at(line, p, " WON "@) && (forall|i: int|
                0 <= i < p ==> !#[trigger] occurs_at(line, i, " WON "@))
            ||| occurs_at(line, p, " LOST "@) && (forall|i: int|
                0 <= i < p ==> !#[trigger] occurs_at(line, i, " LOST "@)) && (forall|i: int|
                !#[trigger] occurs_at(line, i, " WON "@))
        }),
    ensures
        ({
            let kept = stamped_line(line, tag).len() - 1 - tag.len();
            &&& 0 <= kept <= p
            &&& stamped_line(line, tag) == line.take(kept) + seq![' '] + tag
            &&& forall|i: int| kept <= i < p ==> is_space(#[trigger] line[i])
            &&& kept > 0 ==> !is_space(line[kept - 1])
        }),
{
    reveal_strlit(" ");
    assert(" "@ =~= seq![' ']);
    lemma_find_from(line, " WON "@, 0);
    lemma_find_from(line, " LOST "@, 0);
    assert(tag_start(line) == Some(p));
    let head = line.take(p);
    lemma_trim_end(head);
    let kept = trim_end(head).len() as int;
    assert(head.take(kept) =~= line.take(kept));
    assert forall|i: int| kept <= i < p implies is_space(#[trigger] line[i]) by {
        assert(is_space(head.skip(kept)[i - kept]));
    }
}

} // verus!
