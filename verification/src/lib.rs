pub mod answers;
pub mod bets;
pub mod bytes;
pub mod calendar;
pub mod grouping;
pub mod ledger;
pub mod model;
pub mod names;
pub mod numbers;
pub mod odds_page;
pub mod picking;
pub mod picks_file;
pub mod predictor;
pub mod reading;
pub mod records;
pub mod reruns;
pub mod results;
pub mod round_trip;
pub mod schedule;
pub mod stamping;
pub mod summary;
pub mod table;
pub mod text;
pub mod text_facts;
