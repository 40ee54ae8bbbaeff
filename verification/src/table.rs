//! The table of the day's games.

use vstd::prelude::*;

use crate::model::{game_views, Game, GameView};
use crate::numbers::{is_digit, lemma_show_nat, push_nat, show_nat};
use crate::picking::{is_plain_game, lemma_row_words, lemma_rows};
use crate::records::{away_row, home_row, names_fit, push_away_row, push_home_row, push_row, row};
use crate::text::{extend_str, lines, string_of, words};
use crate::text_facts::{lemma_lines_concat, lemma_one_line, lemma_one_word, no_cr_end};

verus! {

/// The width of the rules of the table.
pub const RULE_WIDTH: usize = 68;

pub open spec fn rule() -> Seq<char> {
    Seq::new(RULE_WIDTH as nat, |i: int| '-')
}

/// A game in the table: its time, its two rows and a rule.
pub open spec fn table_entry(game: GameView) -> Seq<char> {
    "  "@ + game.time + "\n"@ + away_row(game) + "\n"@ + home_row(game) + "\n"@ + rule() + "\n"@
}

pub open spec fn table_entries(games: Seq<GameView>) -> Seq<char>
    decreases games.len(),
{
    if games.len() == 0 {
        Seq::empty()
    } else {
        table_entries(games.drop_last()) + table_entry(games.last())
    }
}

/// The head of the table.
pub open spec fn table_head() -> Seq<char> {
    "\n"@ + rule() + "\n"@ + row("Team"@, "ML"@, "Pred%"@, "EV"@) + "\n"@ + rule() + "\n"@
}

/// The table of the games, and their number.
pub open spec fn games_table(games: Seq<GameView>) -> Seq<char> {
    if games.len() == 0 {
        "No games found.\n"@
    } else {
        table_head() + table_entries(games) + "\n"@ + show_nat(games.len() as int)
            + " game(s)\n\n"@
    }
}

fn push_rule(out: &mut Vec<char>)
    ensures
        final(out)@ == old(out)@ + rule(),
{
    let ghost start = out@;
    for i in 0..RULE_WIDTH
        invariant
            i <= RULE_WIDTH,
            out@ =~= start + rule().take(i as int),
    {
        out.push('-');
    }
    assert(rule().take(RULE_WIDTH as int) =~= rule());
}

fn push_entry(out: &mut Vec<char>, game: &Game)
    requires
        names_fit(game@),
    ensures
        final(out)@ == old(out)@ + table_entry(game@),
{
    extend_str(out, "  ");
    extend_str(out, game.time.as_str());
    extend_str(out, "\n");
    push_away_row(out, game);
    extend_str(out, "\n");
    push_home_row(out, game);
    extend_str(out, "\n");
    push_rule(out);
    extend_str(out, "\n");
    assert(out@ =~= old(out)@ + table_entry(game@));
}

fn push_head(out: &mut Vec<char>)
    ensures
        final(out)@ == old(out)@ + table_head(),
{
    extend_str(out, "\n");
    push_rule(out);
    extend_str(out, "\n");
    push_row(out, "Team", "ML", "Pred%", "EV");
    extend_str(out, "\n");
    push_rule(out);
    extend_str(out, "\n");
    assert(out@ =~= old(out)@ + table_head());
}

/// The table of the day's games, as it is printed.
pub fn render_games(games: &Vec<Game>) -> (r: String)
    requires
        forall|i: int| 0 <= i < games@.len() ==> names_fit((#[trigger] games@[i])@),
    ensures
        r@ == games_table(game_views(games@)),
{
    if games.len() == 0 {
        return "No games found.\n".to_string();
    }
    let ghost all = game_views(games@);
    let mut out: Vec<char> = Vec::new();
    push_head(&mut out);
    assert(out@ =~= table_head() + table_entries(all.take(0)));
    for i in 0..games.len()
        invariant
            forall|i: int| 0 <= i < games@.len() ==> names_fit((#[trigger] games@[i])@),
            all == game_views(games@),
            out@ == table_head() + table_entries(all.take(i as int)),
    {
        assert(all.take(i + 1).drop_last() =~= all.take(i as int));
        assert(all.take(i + 1).last() == games@[i as int]@);
        push_entry(&mut out, &games[i]);
        assert(out@ =~= table_head() + table_entries(all.take(i + 1)));
    }
    assert(all.take(all.len() as int) =~= all);
    extend_str(&mut out, "\n");
    push_nat(&mut out, games.len() as u64);
    extend_str(&mut out, " game(s)\n\n");
    string_of(&out)
}

/// The entries of two lists of games are those of the first followed by those of the second, and
/// one game has one entry.
pub proof fn law_entries_follow_the_list(a: Seq<GameView>, b: Seq<GameView>)
    ensures
        table_entries(a + b) == table_entries(a) + table_entries(b),
        a.len() == 1 ==> table_entries(a) == table_entry(a[0]),
        a.len() == 0 ==> table_entries(a) == Seq::<char>::empty(),
    decreases b.len(),
{
    if a.len() == 1 {
        assert(a.drop_last() =~= Seq::<GameView>::empty());
        assert(table_entries(Seq::<GameView>::empty()) =~= Seq::<char>::empty());
        assert(table_entries(a) =~= table_entry(a[0]));
    }
    if b.len() == 0 {
        assert(a + b =~= a);
        assert(table_entries(a) + table_entries(b) =~= table_entries(a));
    } else {
        law_entries_follow_the_list(a, b.drop_last());
        assert((a + b).drop_last() =~= a + b.drop_last());
        assert(table_entries(a + b) =~= table_entries(a) + table_entries(b));
    }
}

/// A game whose time and rows are one line each.
pub open spec fn is_table_game(game: GameView) -> bool {
    is_plain_game(game) && names_fit(game) && !game.time.contains('\n') && no_cr_end(game.time)
}

/// The entry of a game is four lines: its time, the row of the away team, the row of the home team
/// and a rule of 68 dashes.
pub proof fn law_entry_is_four_lines(game: GameView)
    requires
        is_table_game(game),
    ensures
        ({
            let ls = lines(table_entry(game));
            &&& ls.len() == 4
            &&& ls[0] == seq![' ', ' '] + game.time
            &&& ls[1] == away_row(game)
            &&& ls[2] == home_row(game)
            &&& ls[3].len() == 68
            &&& forall|i: int| 0 <= i < 68 ==> #[trigger] ls[3][i] == '-'
        }),
        table_entry(game).last() == '\n',
        table_entry(game).len() > 0,
{
    reveal_strlit("  ");
    reveal_strlit("\n");
    let time = "  "@ + game.time;
    assert("  "@ =~= seq![' ', ' ']);
    lemma_rows(game);
    assert forall|i: int| 0 <= i < time.len() implies time[i] != '\n' by {
        if i >= 2 {
            assert(game.time.contains(game.time[i - 2]));
        }
    }
    lemma_rule();
    let a = time.push('\n');
    let b = away_row(game).push('\n');
    let c = home_row(game).push('\n');
    let d = rule().push('\n');
    assert(table_entry(game) =~= a + (b + (c + d)));
    lemma_one_line(time);
    lemma_one_line(away_row(game));
    lemma_one_line(home_row(game));
    lemma_one_line(rule());
    lemma_lines_concat(c, d);
    lemma_lines_concat(b, c + d);
    lemma_lines_concat(a, b + (c + d));
}

proof fn lemma_rule()
    ensures
        rule().len() == 68,
        !rule().contains('\n'),
        no_cr_end(rule()),
        forall|i: int| 0 <= i < 68 ==> #[trigger] rule()[i] == '-',
{
}

/// The table of some games has four lines above them, four for each, and three below: line `k` of
/// game `i` is line `k` of its entry, and the second line below tells how many games there are.
pub proof fn law_table_lists_every_game(games: Seq<GameView>, i: int, k: int)
    requires
        games.len() > 0,
        forall|j: int| 0 <= j < games.len() ==> is_table_game(#[trigger] games[j]),
        0 <= i < games.len(),
        0 <= k < 4,
    ensures
        ({
            let ls = lines(games_table(games));
            let n = games.len() as int;
            &&& ls.len() == 4 + 4 * n + 3
            &&& ls[4 + 4 * i + k] == lines(table_entry(games[i]))[k]
            &&& ls[4 + 4 * n + 1] == show_nat(n) + " game(s)"@
        }),
{
    let n = games.len() as int;
    let tail = "\n"@ + show_nat(n) + " game(s)\n\n"@;
    lemma_head_lines();
    lemma_entry_lines(games, i, k);
    lemma_count_lines(n);
    lemma_stacked(table_head(), table_entries(games), tail, 4 * i + k);
    assert(games_table(games) =~= table_head() + (table_entries(games) + tail));
}

/// The lines of three texts on top of each other.
proof fn lemma_stacked(a: Seq<char>, b: Seq<char>, c: Seq<char>, j: int)
    requires
        a.len() > 0,
        a.last() == '\n',
        b.len() > 0,
        b.last() == '\n',
        0 <= j < lines(b).len(),
        lines(c).len() > 1,
    ensures
        ({
            let ls = lines(a + (b + c));
            let n = (lines(a).len() + lines(b).len()) as int;
            &&& ls.len() == n + lines(c).len()
            &&& ls[lines(a).len() + j] == lines(b)[j]
            &&& ls[n + 1] == lines(c)[1]
        }),
{
    lemma_lines_concat(b, c);
    lemma_lines_concat(a, b + c);
}

/// The lines of the entries: four for each game.
proof fn lemma_entry_lines(games: Seq<GameView>, i: int, k: int)
    requires
        games.len() > 0,
        forall|j: int| 0 <= j < games.len() ==> is_table_game(#[trigger] games[j]),
        0 <= i < games.len(),
        0 <= k < 4,
    ensures
        table_entries(games).len() > 0,
        table_entries(games).last() == '\n',
        lines(table_entries(games)).len() == 4 * games.len(),
        lines(table_entries(games))[4 * i + k] == lines(table_entry(games[i]))[k],
    decreases games.len(),
{
    let d = games.drop_last();
    let one = table_entry(games.last());
    let n = d.len() as int;
    law_entry_is_four_lines(games[n]);
    if n == 0 {
        assert(table_entries(d) =~= Seq::<char>::empty());
        assert(table_entries(games) =~= one);
    } else {
        assert forall|j: int| 0 <= j < d.len() implies is_table_game(#[trigger] d[j]) by {
            assert(is_table_game(games[j]));
        }
        if i < n {
            lemma_entry_lines(d, i, k);
            assert(d[i] == games[i]);
        } else {
            lemma_entry_lines(d, 0, 0);
        }
        lemma_lines_concat(table_entries(d), one);
    }
}

/// The head is four lines: an empty one, a rule, the names of the columns and a rule.
proof fn lemma_head_lines()
    ensures
        lines(table_head()).len() == 4,
        lines(table_head())[0] == Seq::<char>::empty(),
        lines(table_head())[1] == rule(),
        lines(table_head())[2] == row("Team"@, "ML"@, "Pred%"@, "EV"@),
        lines(table_head())[3] == rule(),
        table_head().len() > 0,
        table_head().last() == '\n',
{
    reveal_strlit("\n");
    reveal_strlit("Team");
    reveal_strlit("ML");
    reveal_strlit("Pred%");
    reveal_strlit("EV");
    reveal_strlit(" ");
    let r = row("Team"@, "ML"@, "Pred%"@, "EV"@);
    let none = Seq::<char>::empty();
    lemma_rule();
    assert(r.last() == 'V');
    assert(!r.contains('\n'));
    lemma_one_line(none);
    lemma_one_line(rule());
    lemma_one_line(r);
    let a = none.push('\n');
    let b = rule().push('\n');
    let c = r.push('\n');
    assert(table_head() =~= a + (b + (c + b)));
    lemma_lines_concat(c, b);
    lemma_lines_concat(b, c + b);
    lemma_lines_concat(a, b + (c + b));
}

/// The lines below the games: their number, with an empty line before and after.
proof fn lemma_count_lines(n: int)
    requires
        n >= 0,
    ensures
        ({
            let ls = lines("\n"@ + show_nat(n) + " game(s)\n\n"@);
            ls.len() == 3 && ls[1] == show_nat(n) + " game(s)"@
        }),
{
    reveal_strlit("\n");
    reveal_strlit(" game(s)\n\n");
    reveal_strlit(" game(s)");
    let none = Seq::<char>::empty();
    let count = show_nat(n) + " game(s)"@;
    lemma_show_nat(n);
    assert forall|i: int| 0 <= i < count.len() implies count[i] != '\n' by {
        if i < show_nat(n).len() {
            assert(is_digit(show_nat(n)[i]));
        }
    }
    lemma_one_line(none);
    lemma_one_line(count);
    let a = none.push('\n');
    let b = count.push('\n');
    assert("\n"@ + show_nat(n) + " game(s)\n\n"@ =~= a + (b + a));
    lemma_lines_concat(b, a);
    lemma_lines_concat(a, b + a);
}

/// The table of some games starts with an empty line, a rule of 68 dashes, the names of the four
/// columns and another such rule.
pub proof fn law_table_names_its_columns(games: Seq<GameView>)
    requires
        games.len() > 0,
    ensures
        ({
            let ls = lines(games_table(games));
            &&& ls.len() >= 4
            &&& ls[0].len() == 0
            &&& ls[1].len() == 68 && ls[3] == ls[1]
            &&& forall|i: int| 0 <= i < 68 ==> #[trigger] ls[1][i] == '-'
            &&& words(ls[2]) == seq!["Team"@, "ML"@, "Pred%"@, "EV"@]
        }),
{
    let n = show_nat(games.len() as int);
    lemma_head_lines();
    lemma_front_lines(table_head(), table_entries(games), "\n"@, n, " game(s)\n\n"@);
    lemma_rule();
    lemma_column_words();
}

/// The lines of a text that ends a line stand in front of those of what follows it.
proof fn lemma_front_lines(
    a: Seq<char>,
    b: Seq<char>,
    c: Seq<char>,
    d: Seq<char>,
    e: Seq<char>,
)
    requires
        a.len() > 0 ==> a.last() == '\n',
    ensures
        lines(a + b + c + d + e).len() >= lines(a).len(),
        forall|i: int|
            0 <= i < lines(a).len() ==> #[trigger] lines(a + b + c + d + e)[i] == lines(a)[i],
{
    assert(a + b + c + d + e =~= a + (b + c + d + e));
    lemma_lines_concat(a, b + c + d + e);
}

proof fn lemma_column_words()
    ensures
        words(row("Team"@, "ML"@, "Pred%"@, "EV"@)) == seq!["Team"@, "ML"@, "Pred%"@, "EV"@],
{
    reveal_strlit("Team");
    reveal_strlit("ML");
    reveal_strlit("Pred%");
    reveal_strlit("EV");
    lemma_row_words("Team"@, "ML"@, "Pred%"@, "EV"@);
    lemma_one_word("Team"@);
    lemma_one_word("ML"@);
    lemma_one_word("Pred%"@);
    lemma_one_word("EV"@);
    let all = seq!["Team"@, "ML"@, "Pred%"@, "EV"@];
    assert(seq!["Team"@] + (seq!["ML"@] + (seq!["Pred%"@] + seq!["EV"@])) =~= all);
}

} // verus!
