# international_elo

Player search for a table-tennis ratings service, written in Verus.

- `src/` is the verified library:
  - `text.rs`: Unicode white space, trimming, splitting into words, digit
    checks, byte prefixes, and lower-casing (through `str::to_lowercase`).
  - `query.rs`: turns the raw `q` parameter into a plan: rejected (length
    outside 3..=32 bytes), an id search (all digits) or a name search over
    lower-cased words.
  - `hits.rs`: posting lists, query hits and the laws that tie them to the
    players' name tokens.
  - `index.rs`: the search index (member-id map and inverted name index),
    exact and prefix id search, the ranked name lookup, and the players left
    for a full scan.
  - `scoring.rs`: how a query token relates to a name token (exact, prefix
    with its extra bytes, fuzzy, or too short).
  - `response.rs`: the response envelope shared by the services.
- `app/` is the Cloudflare Worker: it embeds the player list, parses it with
  `serde_json`, answers HTTP requests, and does the floating-point scoring
  (Jaro-Winkler from `strsim`) on top of the library.
- `tests/` exercises the library on a small player list.
