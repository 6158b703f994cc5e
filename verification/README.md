# auto_follow

Replay followers: they look for new full replays of the events that a subscriber follows and
download them, one per check. Following is opt-in, search results are only candidates, and the
subscriber's access is still checked with the recording's manifest.

- `src/` is the library, verified with Verus: the rules on titles, dates, event keys and files, the
  searches, and a check as a state machine that says what it wants done (`Poll::action`) and is
  told what came of it (`Poll::advance`).
- `tests/` runs the library.
- `app/` is the program around it: the timer, the network, the files and the stored form of the
  state.

What is proved of every check, whatever the world answers:

- it downloads at most one recording, and only after the configuration, the manifest's access, the
  files on disk and the running downloads were looked at in that order (`guarantees`);
- it downloads only complete recordings of what the settings ask for (`offers`);
- with *Include available* off, the first check of a series downloads nothing (`first_checks`), and
  no numbered UFC event from before the watermark is downloaded later (`watermark`);
- it searches for a bounded span of numbers (`span`), and it ends (`ending`).
