# spacecases

A Discord bot for CS2 case unboxing, trading and a small economy, with its
logic verified by Verus.

- `src/` is the verified library:
  - `text`: currency formatting, title case, item-name normalization, trimming.
  - `trie`: a prefix trie of words with a bounded prefix search.
  - `data`: the game data (skins, stickers, containers) and the tables built
    from it.
  - `embed`: embed contents (quality colours, item embeds, standard messages).
  - `commands`: what each command answers, given what the database and the
    user answered; the confirmation flow of account deletion and reset.
  - `bot`: the rotating status, the welcome-message fallbacks, event handling.
- `app/` is the bot itself: Discord (poise/serenity), PostgreSQL (sqlx), the
  HTTP fetch of the game data, and the loops that drive the library's
  decisions.
- `tests/` exercises the library.
