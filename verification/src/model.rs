//! The games of the day and what is known of them.

use vstd::prelude::*;

verus! {

/// A team and its moneyline.
pub struct TeamOdds {
    pub name: String,
    pub moneyline: String,
}

/// The expected value of a bet of $100: the bits of the binary64 number, and the number as text
/// with its sign and one decimal.
pub struct Ev {
    pub bits: u64,
    pub text: String,
}

/// What the matchup predictor says of a team: its chance to win as text with one decimal, and the
/// expected value of a bet on it where the moneyline can be read.
pub struct Forecast {
    pub percent: String,
    pub ev: Option<Ev>,
}

pub struct Game {
    pub away: TeamOdds,
    pub home: TeamOdds,
    pub game_url: String,
    pub time: String,
    pub away_predictor: Option<Forecast>,
    pub home_predictor: Option<Forecast>,
}

pub struct TeamOddsView {
    pub name: Seq<char>,
    pub moneyline: Seq<char>,
}

pub struct EvView {
    pub bits: u64,
    pub text: Seq<char>,
}

pub struct ForecastView {
    pub percent: Seq<char>,
    pub ev: Option<EvView>,
}

pub struct GameView {
    pub away: TeamOddsView,
    pub home: TeamOddsView,
    pub game_url: Seq<char>,
    pub time: Seq<char>,
    pub away_predictor: Option<ForecastView>,
    pub home_predictor: Option<ForecastView>,
}

impl View for TeamOdds {
    type V = TeamOddsView;

    open spec fn view(&self) -> TeamOddsView {
        TeamOddsView { name: self.name@, moneyline: self.moneyline@ }
    }
}

impl View for Ev {
    type V = EvView;

    open spec fn view(&self) -> EvView {
        EvView { bits: self.bits, text: self.text@ }
    }
}

impl View for Forecast {
    type V = ForecastView;

    open spec fn view(&self) -> ForecastView {
        ForecastView {
            percent: self.percent@,
            ev: match self.ev {
                Some(ev) => Some(ev@),
                None => None,
            },
        }
    }
}

/// What is known of a forecast that may be missing.
pub open spec fn forecast_view(f: Option<Forecast>) -> Option<ForecastView> {
    match f {
        Some(f) => Some(f@),
        None => None,
    }
}

impl View for Game {
    type V = GameView;

    open spec fn view(&self) -> GameView {
        GameView {
            away: self.away@,
            home: self.home@,
            game_url: self.game_url@,
            time: self.time@,
            away_predictor: forecast_view(self.away_predictor),
            home_predictor: forecast_view(self.home_predictor),
        }
    }
}

/// What is known of each game of a list.
pub open spec fn game_views(games: Seq<Game>) -> Seq<GameView> {
    games.map_values(|g: Game| g@)
}

} // verus!
