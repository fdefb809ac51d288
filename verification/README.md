# nine29_bot

The verified core of a Discord bot that keeps score of a daily ritual:
members post `929` in one channel during the trigger minute (9:42 or
10:42, four hours behind UTC) and earn points, with streaks and a
leaderboard.

- `src/` is the library, proved with Verus: text handling (`text`), the
  settings (`config`), the clock (`clock`, over chrono), participation and
  the counting window (`participation`), the leaderboard (`leaderboard`)
  and paging through it (`navigation`).
- `tests/` runs the library on concrete values.
- `app/` is the bot itself: Discord (poise/serenity), MongoDB (mongodm) and
  the clock-watching loop, calling the library for every decision.
