# fulgurobot

A Discord bot that takes bets on live Go games. Users hold shells
("coquillages"), stake them on the colour they expect to win, and the pot of
a game is shared among the winners when its result is announced.

## Layout

- `src/` is the library, verified with Verus:
  - `models` — the rows of the three tables (users, bets, games);
  - `store` — the betting database and every operation on it, with the laws
    that tie them together (a trade moves shells, a cancelled game gives every
    stake back, ...);
  - `state` — the betting state of each announced game and the slots of the
    announced games;
  - `commands` — what each chat command decides, from the bot's state and
    the database to the new state and the reply;
  - `restore` — rebuilding the bot's state from the database at start;
  - `kgs`, `protocol` — the client of the KGS Go server and the reading of
    its answers.
- `tests/` runs the library on concrete values.
- `app/` is the program around it: the Discord client, the SQLite tables the
  database is loaded from and saved to, timers, and the HTTP exchanges with
  the KGS server.
