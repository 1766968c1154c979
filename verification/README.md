# eve_logs

Tailing of EVE Online chatlogs (UTF-16 LE) and gamelogs (UTF-8): appended
chunks are decoded into complete lines, lines are parsed into location
changes, alerts and combat hits, and these update a live per-character
state that preview windows read.

The library in `src/` is verified with Verus:

- `text`: whitespace trimming, ASCII case-insensitive search, HTML stripping.
- `decode`: chunk decoding with a carry-over buffer, and the laws that
  reading data in two chunks gives what reading it at once gives, for
  gamelogs (UTF-8) and for chatlogs (UTF-16 LE), each without the splits
  on which it fails.
- `parse`: the line parser and the cheap pre-filter.
- `names`: an insertion-ordered map keyed by character name.
- `state`: the live state (systems, alerts, incoming-hit flash) and the
  hits kept for the DPS window.
- `paths`: log settings and the choice of log directories.
- `identify`: the `Listener:` header and the newest log per character.
- `tail`: the tailer's decisions: poll pacing, rescans, read positions,
  events, and the location clock.

`app/` holds what runs around it: directory discovery and file reads, the
clock, the polling thread, and the DPS rates, which are floating point.
