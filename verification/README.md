# cutler

Declarative management of macOS user defaults, with its decisions verified by Verus.

- `src/` is the library. Each command's logic is a function from plain values to
  plain values with a contract: reading the `[set]` section into domains
  (`domains`), the desired and stored renderings of values (`config`), what `apply`
  writes and records (`apply`, `snapshot`, `batch`), what `unapply` restores or
  removes (`unapply`), what `status` reports (`status`), what `reset` deletes
  (`reset`), the Homebrew comparison, install plan and the reading of Homebrew's
  listings (`brew`), the release version read from GitHub's answer, version checks and
  self-update decisions (`update`), the notes around deleting a key and which effects
  a dry run leaves out (`executor`), and the log lines (`logging`). Public proof
  functions state the laws that hold across these functions.
- `app/` is the program: command-line parsing, the configuration and snapshot files,
  the defaults system, Homebrew and network calls.
- `tests/` runs the library on concrete values.
