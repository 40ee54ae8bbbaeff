//! The result of a game: its address, and who won according to its summary.

use vstd::prelude::*;
use vstd::slice::slice_subrange;

use crate::text::{
    chars_of, contains, extend_str, find, find_text, lemma_find_from, lemma_find_is, occurs_at,
    string_of,
};

verus! {

/// What stands in an address after `/gameId/`, up to the next slash.
pub open spec fn game_id(url: Seq<char>) -> Option<Seq<char>> {
    match find(url, "/gameId/"@) {
        None => None,
        Some(p) => {
            let rest = url.skip(p + "/gameId/"@.len());
            match find(rest, seq!['/']) {
                Some(e) => Some(rest.take(e)),
                None => Some(rest),
            }
        },
    }
}

/// "/nba/game/_/gameId/401810786/..." -> "401810786"
pub fn extract_game_id(url: &str) -> (r: Option<&str>)
    ensures
        match r {
            Some(id) => game_id(url@) == Some(id@),
            None => game_id(url@) is None,
        },
{
    let cs = chars_of(url);
    let mark = chars_of("/gameId/");
    let slash: [char; 1] = ['/'];
    assert(slash@ =~= seq!['/']);
    let n: usize = cs.len();
    match find_text(&cs, &mark) {
        None => None,
        Some(p) => {
            let start: usize = p + mark.len();
            let ghost tail = url@.skip(start as int);
            let rest = slice_subrange(&cs, start, n);
            assert(rest@ =~= tail);
            let end: usize = match find_text(rest, &slash) {
                Some(e) => start + e,
                None => n,
            };
            assert(url@.subrange(start as int, end as int) =~= tail.take(end - start));
            assert(tail.take(tail.len() as int) =~= tail);
            Some(url.substring_char(start, end))
        },
    }
}

/// The address of the summary of a game.
pub open spec fn summary_address(game_id: Seq<char>) -> Seq<char> {
    "https://site.api.espn.com/apis/site/v2/sports/basketball/nba/summary?event="@ + game_id
}

/// The address of the summary of a game.
pub fn summary_url(game_id: &str) -> (r: String)
    ensures
        r@ == summary_address(game_id@),
{
    let mut out = chars_of(
        "https://site.api.espn.com/apis/site/v2/sports/basketball/nba/summary?event=",
    );
    extend_str(&mut out, game_id);
    string_of(&out)
}

/// One step down in a JSON document: to the member of an object or to the item of an array.
pub enum JsonStep {
    Key(Seq<char>),
    Item(int),
}

/// What stands at one place of a JSON document. An array is known by its length; members and items
/// stand at places of their own.
pub enum JsonNode {
    Null,
    Bool(bool),
    Number,
    Text(Seq<char>),
    List(int),
    Object,
}

/// The type of a JSON value of the crate `serde_json`.
#[verifier::external_type_specification]
#[verifier::external_body]
pub struct ExValue(serde_json::Value);

/// What a JSON value holds: each of its places, given by the steps that lead to it, and what
/// stands there.
pub uninterp spec fn json_contents(v: serde_json::Value) -> Map<Seq<JsonStep>, JsonNode>;

/// What the JSON text `text` holds, as `serde_json::from_str` reads it; nothing where it is no
/// JSON text.
pub uninterp spec fn json_document(text: Seq<char>) -> Option<Map<Seq<JsonStep>, JsonNode>>;

/// What stands at the top of a document.
pub open spec fn json_top(doc: Map<Seq<JsonStep>, JsonNode>) -> JsonNode {
    doc[Seq::empty()]
}

/// The document below one step.
pub open spec fn json_below(
    doc: Map<Seq<JsonStep>, JsonNode>,
    step: JsonStep,
) -> Map<Seq<JsonStep>, JsonNode> {
    Map::new(
        |path: Seq<JsonStep>| doc.dom().contains(seq![step] + path),
        |path: Seq<JsonStep>| doc[seq![step] + path],
    )
}

pub open spec fn json_null() -> Map<Seq<JsonStep>, JsonNode> {
    Map::empty().insert(Seq::empty(), JsonNode::Null)
}

/// The member of an object with the given key; `null` where there is none.
pub open spec fn json_member(
    doc: Map<Seq<JsonStep>, JsonNode>,
    key: Seq<char>,
) -> Map<Seq<JsonStep>, JsonNode> {
    if doc.dom().contains(seq![JsonStep::Key(key)]) {
        json_below(doc, JsonStep::Key(key))
    } else {
        json_null()
    }
}

pub open spec fn json_bool(doc: Map<Seq<JsonStep>, JsonNode>) -> Option<bool> {
    match json_top(doc) {
        JsonNode::Bool(b) => Some(b),
        _ => None,
    }
}

pub open spec fn json_text(doc: Map<Seq<JsonStep>, JsonNode>) -> Option<Seq<char>> {
    match json_top(doc) {
        JsonNode::Text(t) => Some(t),
        _ => None,
    }
}

/// The most characters that a summary may have to be read.
pub const SUMMARY_LIMIT: usize = 0x7fff_ffff;

/// Tells whether a summary is short enough to be read.
pub fn summary_fits(json: &str) -> (r: bool)
    ensures
        r == (json@.len() <= SUMMARY_LIMIT),
{
    chars_of(json).len() <= SUMMARY_LIMIT
}

/// `serde_json::from_str`, for a value of any kind.
///
/// Claimed: whether the text is read, and what the value then holds, depends on the text alone. The
/// digits of a long number are counted in a signed number of 32 bits without a check, so texts that
/// could hold more of them are left out.
#[verifier::external_body]
fn parse_json(text: &str) -> (r: Option<serde_json::Value>)
    requires
        text@.len() <= SUMMARY_LIMIT,
    ensures
        match r {
            Some(v) => json_document(text@) == Some(json_contents(v)),
            None => json_document(text@) is None,
        },
{
    serde_json::from_str(text).ok()
}

/// The index operator of `serde_json::Value` with a string.
///
/// Claimed: the result is the member with that key where the value is an object that has it, else
/// `null`.
#[verifier::external_body]
fn member<'a>(v: &'a serde_json::Value, key: &str) -> (r: &'a serde_json::Value)
    ensures
        json_contents(*r) == json_member(json_contents(*v), key@),
{
    &v[key]
}

/// `serde_json::Value::get` with a number.
///
/// Claimed: the result is the item at that position where the value is an array that has it, else
/// nothing.
#[verifier::external_body]
fn item(v: &serde_json::Value, index: usize) -> (r: Option<&serde_json::Value>)
    ensures
        match r {
            Some(i) => json_contents(*v).dom().contains(seq![JsonStep::Item(index as int)])
                && json_contents(*i) == json_below(json_contents(*v), JsonStep::Item(index as int)),
            None => !json_contents(*v).dom().contains(seq![JsonStep::Item(index as int)]),
        },
{
    v.get(index)
}

/// `serde_json::Value::as_bool`.
///
/// Claimed: the result is the truth value that the value is, or nothing where it is of another
/// kind.
pub assume_specification[ serde_json::Value::as_bool ](v: &serde_json::Value) -> (r: Option<bool>)
    ensures
        r == json_bool(json_contents(*v)),
;

/// `serde_json::Value::as_str`.
///
/// Claimed: the result is the string that the value is, or nothing where it is of another kind.
pub assume_specification[ serde_json::Value::as_str ](v: &serde_json::Value) -> (r: Option<&str>)
    ensures
        match r {
            Some(t) => json_text(json_contents(*v)) == Some(t@),
            None => json_text(json_contents(*v)) is None,
        },
;

/// `serde_json::Value::as_array`.
///
/// Claimed: the result is the items of the array that the value is, in order, or nothing where the
/// value is of another kind.
pub assume_specification[ serde_json::Value::as_array ](v: &serde_json::Value) -> (r: Option<
    &Vec<serde_json::Value>,
>)
    ensures
        match r {
            Some(items) => json_top(json_contents(*v)) == JsonNode::List(items@.len() as int) && (
            forall|i: int|
                0 <= i < items@.len() ==> json_contents(#[trigger] items@[i]) == json_below(
                    json_contents(*v),
                    JsonStep::Item(i),
                )),
            None => !(json_top(json_contents(*v)) is List),
        },
;

/// One of the two teams of a game: whether it is marked as the winner, and its name.
pub struct Competitor {
    pub winner: Option<bool>,
    pub name: Option<String>,
}

/// A game in a summary: whether it is marked as completed, and its teams.
pub struct Competition {
    pub completed: Option<bool>,
    pub competitors: Option<Vec<Competitor>>,
}

pub struct CompetitorView {
    pub winner: Option<bool>,
    pub name: Option<Seq<char>>,
}

pub struct CompetitionView {
    pub completed: Option<bool>,
    pub competitors: Option<Seq<CompetitorView>>,
}

impl View for Competitor {
    type V = CompetitorView;

    open spec fn view(&self) -> CompetitorView {
        CompetitorView {
            winner: self.winner,
            name: match self.name {
                Some(n) => Some(n@),
                None => None,
            },
        }
    }
}

impl View for Competition {
    type V = CompetitionView;

    open spec fn view(&self) -> CompetitionView {
        CompetitionView {
            completed: self.completed,
            competitors: match self.competitors {
                Some(v) => Some(competitor_views(v@)),
                None => None,
            },
        }
    }
}

/// The contents of a list of teams.
pub open spec fn competitor_views(v: Seq<Competitor>) -> Seq<CompetitorView> {
    v.map_values(|c: Competitor| c@)
}

/// The team that a JSON value describes.
pub open spec fn competitor_in(doc: Map<Seq<JsonStep>, JsonNode>) -> CompetitorView {
    CompetitorView {
        winner: json_bool(json_member(doc, "winner"@)),
        name: json_text(json_member(json_member(doc, "team"@), "displayName"@)),
    }
}

/// The game that a JSON value describes.
pub open spec fn competition_in(doc: Map<Seq<JsonStep>, JsonNode>) -> CompetitionView {
    let teams = json_member(doc, "competitors"@);
    CompetitionView {
        completed: json_bool(
            json_member(json_member(json_member(doc, "status"@), "type"@), "completed"@),
        ),
        competitors: match json_top(teams) {
            JsonNode::List(n) => Some(
                Seq::new(n as nat, |i: int| competitor_in(json_below(teams, JsonStep::Item(i)))),
            ),
            _ => None,
        },
    }
}

/// The first game of a summary.
pub open spec fn first_competition(doc: Map<Seq<JsonStep>, JsonNode>) -> Option<CompetitionView> {
    let games = json_member(json_member(doc, "header"@), "competitions"@);
    if games.dom().contains(seq![JsonStep::Item(0)]) {
        Some(competition_in(json_below(games, JsonStep::Item(0))))
    } else {
        None
    }
}

/// The name of the first team, from position `i` on, that is marked as the winner.
pub open spec fn winner_from(teams: Seq<CompetitorView>, i: int) -> Option<Seq<char>>
    decreases teams.len() - i,
{
    if i >= teams.len() {
        None
    } else if teams[i].winner == Some(true) {
        teams[i].name
    } else {
        winner_from(teams, i + 1)
    }
}

/// The name of the team that won a game; nothing while the game is not completed.
pub open spec fn winner_of(game: CompetitionView) -> Option<Seq<char>> {
    if game.completed == Some(true) {
        match game.competitors {
            Some(teams) => winner_from(teams, 0),
            None => None,
        }
    } else {
        None
    }
}

/// The name of the team that won the game of a summary.
pub open spec fn summary_winner(doc: Map<Seq<JsonStep>, JsonNode>) -> Option<Seq<char>> {
    match first_competition(doc) {
        Some(game) => winner_of(game),
        None => None,
    }
}

/// The name of the team that won the game of a summary, given as text.
pub open spec fn winner_in(summary: Seq<char>) -> Option<Seq<char>> {
    match json_document(summary) {
        Some(doc) => summary_winner(doc),
        None => None,
    }
}

/// The address at which the result of a game is looked up, where the address of the game holds its
/// number.
pub open spec fn result_address(game_url: Seq<char>) -> Option<Seq<char>> {
    match game_id(game_url) {
        Some(id) => Some(summary_address(id)),
        None => None,
    }
}

fn read_competitor(v: &serde_json::Value) -> (r: Competitor)
    ensures
        r@ == competitor_in(json_contents(*v)),
{
    Competitor {
        winner: member(v, "winner").as_bool(),
        name: match member(member(v, "team"), "displayName").as_str() {
            Some(t) => Some(t.to_string()),
            None => None,
        },
    }
}

fn read_competition(v: &serde_json::Value) -> (r: Competition)
    ensures
        r@ == competition_in(json_contents(*v)),
{
    let kind = member(member(v, "status"), "type");
    let completed: Option<bool> = member(kind, "completed").as_bool();
    let teams = member(v, "competitors");
    let ghost doc = json_contents(*teams);
    let competitors: Option<Vec<Competitor>> = match teams.as_array() {
        Some(items) => {
            let ghost all = Seq::new(
                items@.len(),
                |i: int| competitor_in(json_below(doc, JsonStep::Item(i))),
            );
            let mut out: Vec<Competitor> = Vec::new();
            assert(competitor_views(out@) =~= all.take(0));
            for i in 0..items.len()
                invariant
                    all == Seq::new(
                        items@.len(),
                        |i: int| competitor_in(json_below(doc, JsonStep::Item(i))),
                    ),
                    forall|i: int|
                        0 <= i < items@.len() ==> json_contents(#[trigger] items@[i])
                            == json_below(doc, JsonStep::Item(i)),
                    competitor_views(out@) == all.take(i as int),
            {
                let one = read_competitor(&items[i]);
                let ghost was = out@;
                let ghost shown = one@;
                out.push(one);
                assert(shown == all[i as int]);
                assert(competitor_views(out@) =~= competitor_views(was).push(shown));
                assert(all.take(i + 1) =~= all.take(i as int).push(all[i as int]));
            }
            assert(all.take(all.len() as int) =~= all);
            Some(out)
        },
        None => None,
    };
    Competition { completed, competitors }
}

/// The name of the team that won a game; nothing while the game is not completed.
pub fn winner_name(game: &Competition) -> (r: Option<String>)
    ensures
        match r {
            Some(n) => winner_of(game@) == Some(n@),
            None => winner_of(game@) is None,
        },
{
    match game.completed {
        Some(true) => {},
        _ => return None,
    }
    let teams: &Vec<Competitor> = match &game.competitors {
        Some(v) => v,
        None => return None,
    };
    let ghost all = competitor_views(teams@);
    let mut i: usize = 0;
    while i < teams.len()
        invariant
            all == competitor_views(teams@),
            winner_of(game@) == winner_from(all, i as int),
        decreases teams@.len() - i,
    {
        assert(all[i as int] == teams@[i as int]@);
        if let Some(true) = teams[i].winner {
            return match &teams[i].name {
                Some(n) => Some(n.clone()),
                None => None,
            };
        }
        i = i + 1;
    }
    assert(all.len() == teams@.len());
    None
}

/// The game of a summary that has been read.
pub fn summary_competition(summary: &serde_json::Value) -> (r: Option<Competition>)
    ensures
        match r {
            Some(c) => first_competition(json_contents(*summary)) == Some(c@),
            None => first_competition(json_contents(*summary)) is None,
        },
{
    match item(member(member(summary, "header"), "competitions"), 0) {
        Some(game) => Some(read_competition(game)),
        None => None,
    }
}

/// The display name of the team that won, read from the summary of a game; nothing where the game
/// is not finished yet or the text is no summary.
pub fn game_winner_name(json: &str) -> (r: Option<String>)
    requires
        json@.len() <= SUMMARY_LIMIT,
    ensures
        match r {
            Some(n) => winner_in(json@) == Some(n@),
            None => winner_in(json@) is None,
        },
{
    let summary = match parse_json(json) {
        Some(v) => v,
        None => return None,
    };
    match summary_competition(&summary) {
        Some(game) => winner_name(&game),
        None => None,
    }
}

/// The address at which the result of a game is looked up.
pub fn result_url(game_url: &str) -> (r: Option<String>)
    ensures
        match r {
            Some(u) => result_address(game_url@) == Some(u@),
            None => result_address(game_url@) is None,
        },
{
    match extract_game_id(game_url) {
        Some(id) => Some(summary_url(id)),
        None => None,
    }
}

proof fn lemma_winner_from(teams: Seq<CompetitorView>, i: int)
    requires
        0 <= i,
    ensures
        winner_from(teams, i) matches Some(name) ==> exists|j: int|
            i <= j < teams.len() && (#[trigger] teams[j]).winner == Some(true) && teams[j].name
                == Some(name),
    decreases teams.len() - i,
{
    if i < teams.len() && teams[i].winner != Some(true) {
        lemma_winner_from(teams, i + 1);
    }
}

/// A winner is named only of a completed game, and it is a team that is marked as the winner.
pub proof fn law_winner_is_marked(game: CompetitionView, name: Seq<char>)
    requires
        winner_of(game) == Some(name),
    ensures
        game.completed == Some(true),
        game.competitors matches Some(teams) && exists|j: int|
            0 <= j < teams.len() && (#[trigger] teams[j]).winner == Some(true) && teams[j].name
                == Some(name),
{
    lemma_winner_from(game.competitors->0, 0);
}

/// The number of a game is what stands between `/gameId/` and the next slash.
pub proof fn law_game_id_stands_after_its_mark(before: Seq<char>, id: Seq<char>, after: Seq<char>)
    requires
        !contains(before + "/"@, "/gameId/"@),
        !id.contains('/'),
        after.len() == 0 || after[0] == '/',
    ensures
        game_id(before + "/gameId/"@ + id + after) == Some(id),
{
    reveal_strlit("/");
    reveal_strlit("/gameId/");
    let mark = "/gameId/"@;
    let url = before + mark + id + after;
    let n = before.len() as int;
    assert(url.subrange(n, n + 8) =~= mark);
    assert forall|j: int| 0 <= j < n implies !occurs_at(url, j, mark) by {
        if occurs_at(url, j, mark) {
            if j + 8 <= n + 1 {
                assert((before + "/"@).subrange(j, j + 8) =~= url.subrange(j, j + 8));
                assert(occurs_at(before + "/"@, j, mark));
            } else {
                assert(url.subrange(j, j + 8)[n - j] == url[n]);
                assert(mark[n - j] == '/');
            }
        }
    }
    lemma_find_is(url, mark, 0, n);
    let rest = url.skip(n + 8);
    assert(rest =~= id + after);
    let slash = seq!['/'];
    assert forall|j: int| 0 <= j < id.len() implies !occurs_at(rest, j, slash) by {
        if occurs_at(rest, j, slash) {
            assert(rest.subrange(j, j + 1)[0] == rest[j]);
            assert(id[j] == '/');
        }
    }
    if after.len() > 0 {
        assert(rest.subrange(id.len() as int, id.len() as int + 1) =~= slash);
        lemma_find_is(rest, slash, 0, id.len() as int);
        assert(rest.take(id.len() as int) =~= id);
    } else {
        assert(rest =~= id);
        lemma_find_from(rest, slash, 0);
    }
}

/// The first team that is marked as the winner of a completed game is the winner, however many
/// teams stand before it. A game that is not completed, or of which no team is marked, has none.
pub proof fn law_marked_team_wins(game: CompetitionView, teams: Seq<CompetitorView>, j: int)
    requires
        game.competitors == Some(teams),
        0 <= j <= teams.len(),
        forall|i: int| 0 <= i < j ==> (#[trigger] teams[i]).winner != Some(true),
        j < teams.len() ==> teams[j].winner == Some(true),
    ensures
        game.completed == Some(true) && j < teams.len() ==> winner_of(game) == teams[j].name,
        game.completed != Some(true) || j == teams.len() ==> winner_of(game) is None,
{
    lemma_first_marked(teams, 0, j);
}

proof fn lemma_first_marked(teams: Seq<CompetitorView>, i: int, j: int)
    requires
        0 <= i <= j <= teams.len(),
        forall|k: int| i <= k < j ==> (#[trigger] teams[k]).winner != Some(true),
        j < teams.len() ==> teams[j].winner == Some(true),
    ensures
        j < teams.len() ==> winner_from(teams, i) == teams[j].name,
        j == teams.len() ==> winner_from(teams, i) is None,
    decreases j - i,
{
    if i < j {
        assert(teams[i].winner != Some(true));
        lemma_first_marked(teams, i + 1, j);
    }
}

/// The winner of a summary is named where the first game of its header is completed and team `j` of
/// it is the first that is marked as the winner, by the name that the summary gives that team.
pub proof fn law_winner_is_named_in_the_summary(
    doc: Map<Seq<JsonStep>, JsonNode>,
    n: int,
    j: int,
)
    requires
        ({
            let games = json_member(json_member(doc, "header"@), "competitions"@);
            let game = json_below(games, JsonStep::Item(0));
            let teams = json_member(game, "competitors"@);
            let kind = json_member(json_member(game, "status"@), "type"@);
            &&& games.dom().contains(seq![JsonStep::Item(0)])
            &&& json_top(json_member(kind, "completed"@)) == JsonNode::Bool(true)
            &&& 0 <= j < n
            &&& json_top(teams) == JsonNode::List(n)
            &&& forall|i: int|
                0 <= i < n ==> (json_top(
                    json_member(#[trigger] json_below(teams, JsonStep::Item(i)), "winner"@),
                ) == JsonNode::Bool(true) <==> i == j)
        }),
    ensures
        ({
            let games = json_member(json_member(doc, "header"@), "competitions"@);
            let teams = json_member(json_below(games, JsonStep::Item(0)), "competitors"@);
            let team = json_member(json_below(teams, JsonStep::Item(j)), "team"@);
            summary_winner(doc) == match json_top(json_member(team, "displayName"@)) {
                JsonNode::Text(name) => Some(name),
                _ => None,
            }
        }),
{
    let game = first_competition(doc)->0;
    let teams = game.competitors->0;
    let games = json_member(json_member(doc, "header"@), "competitions"@);
    let list = json_member(json_below(games, JsonStep::Item(0)), "competitors"@);
    assert(teams.len() == n);
    assert forall|i: int| 0 <= i < j implies (#[trigger] teams[i]).winner != Some(true) by {
        assert(teams[i] == competitor_in(json_below(list, JsonStep::Item(i))));
    }
    assert(teams[j] == competitor_in(json_below(list, JsonStep::Item(j))));
    law_marked_team_wins(game, teams, j);
}

/// An address without the mark of a number has no number, and so nothing is looked up for it; the
/// number of another ends what is looked up.
pub proof fn law_results_are_looked_up_by_number(url: Seq<char>)
    ensures
        (forall|i: int| !occurs_at(url, i, "/gameId/"@)) ==> game_id(url) is None
            && result_address(url) is None,
        game_id(url) matches Some(id) ==> result_address(url) matches Some(address) && {
            &&& address.len() >= id.len()
            &&& address.skip(address.len() - id.len()) == id
            &&& address.take(address.len() - id.len())
                == "https://site.api.espn.com/apis/site/v2/sports/basketball/nba/summary?event="@
        },
{
    lemma_find_from(url, "/gameId/"@, 0);
    if let Some(id) = game_id(url) {
        let address = summary_address(id);
        let n = address.len() - id.len();
        assert(address.skip(n) =~= id);
        assert(address.take(n)
            =~= "https://site.api.espn.com/apis/site/v2/sports/basketball/nba/summary?event="@);
    }
}

/// A text that is no JSON, or that has no game in its header, names no winner; any other names the
/// winner of what it holds.
pub proof fn law_winner_of_a_text(text: Seq<char>)
    ensures
        json_document(text) is None ==> winner_in(text) is None,
        json_document(text) matches Some(doc) ==> winner_in(text) == summary_winner(doc) && (!(
        json_member(json_member(doc, "header"@), "competitions"@).dom().contains(
            seq![JsonStep::Item(0)],
        )) ==> winner_in(text) is None),
{
}

} // verus!
