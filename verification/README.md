# nba_odds

Scrapes ESPN's NBA odds page, reads ESPN's matchup predictor for each game, shows the expected
value of each moneyline bet, and keeps a file of the games and of the picks among them.

A bet on an away team is a pick where its expected value on $100 is from 8.1 to 19.9. Bets on home
teams are shown but never picked. The results of picks of the last 14 days are looked up on each
run and stamped on their lines.

## Layout

- `src/` is the library, verified with Verus.
  - `text`, `bytes`, `numbers`: strings as sequences of characters, UTF-8 lengths, decimal numbers.
    `text_facts` holds what the laws need of them.
  - `calendar`, `schedule`: dates, day numbers, Eastern time, the starting time of a game.
  - `names`, `odds_page`: the games that the odds page lists.
  - `predictor`: the chances that a game page shows.
  - `bets`, `model`, `records`, `table`: what a bet pays, games, their two rows, the printed table.
  - `summary`, `results`: who won a game, how a pick is settled, the results by game.
  - `ledger`, `picks_file`: reading the picks file, bringing it up to date, writing it.
  - `picking`, `stamping`, `grouping`, `reading`, `round_trip`, `reruns`, `answers`: the laws on
    picks, on stamped results, on the order of the file, on what is read from any file and what is
    read back from one that was written, and on running again with the same answers.
- `app/` is the program around it: arguments, HTTP, files, the clock and floating-point numbers.
- `tests/` runs the library.

Floating-point numbers stand in the library as their bits and as text; their arithmetic is in
`app/`. Where a function would have to cut a text inside a character or leave the range of a number,
its `requires` leaves the input out, and a function beside it tells whether the input is fine.
