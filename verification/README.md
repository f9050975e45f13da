# bahmod

Watches the listings of an auction house for configured items and reports the
cheapest matching offers, either over a TCP stream or into a game chat via JNI.

- `src/` is the verified library:
  - `text` — character-level text operations (substring test, `_` to space,
    ASCII upper case, decimal writing and parsing, line-end stripping);
  - `items` — the watch list and the `add`/`del` commands that change it;
  - `auction` — reading a page's JSON text into the listings it holds, and
    the selection of those that match the watch list;
  - `report` — the cheapest finding per item, the report text, and the
    round-to-round decision of what to show and what to send.
- `app/` is the program around it: HTTP fetching, the configuration file and
  the commands in JSON, threads, the TCP stream and the JNI entry points.
