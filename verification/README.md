# qc_balance

Team balancing for a Quake Champions Discord community, written in Verus.

The library (`src/`) holds the rules of the bot, each with a contract that
Verus proves:

- `game_mode`, `db`, `name_order`: the game modes, the table of registered
  players with its quake-name index, and the order names are listed in.
- `balancing`, `balancing_laws`, `combinations`, `ordering`, `listing`: team
  splits, the weighted and hybrid-draft allocations, lobby sizes, and what
  holds of every split they produce.
- `lobbies`, `players`, `replies`: dividing a hub into lobbies of balanced
  teams, the players as the team builders see them, and the text of the
  `/balance` and `/divide` replies.
- `backup`: the GitHub backup's base64 content turned back into bytes.
- `commands`, `components`, `custom_id`, `codec`, `discord`, `pubobot`,
  `config`, `invocation`, `text`: slash commands and who may run them,
  button presses and the ids buttons carry, mentions, pubobot
  announcements, and the audit log's text.

Scores are held in billionths of a point (`SCORE_SCALE`).

`app/` is the Discord bot around the library: the gateway, HTTP, the cache,
the JSON file and the fetch and upload of the GitHub backup.
