# qmlgreetd

The logic of a greetd greeter's transport process, verified with Verus.

`src/` is the library. Each public function carries a contract over a
mathematical model of its inputs and results, and Verus proves it:

- `auth::machine`: the login state machine between the user interface and
  greetd, with the laws it keeps (at most one cancellation acknowledgement
  outstanding, refused commands change nothing, a cancelled session's
  acknowledgement is never taken for a successful login).
- `exec`: splitting a desktop entry's `Exec` line, and quoting arguments for
  the shell, with the proof that the shell reads a quoted argument back
  unchanged.
- `enumerate`: users from the password database, sessions from desktop
  entries, both in the order the login screen lists them.
- `state`: the remembered last user and sessions.
- `transport`: greetd's length-prefixed framing, and the relay's decision
  for each input.
- `mock`: the scripted stand-in for greetd used during development.
- `text`: the character-level helpers that the parsers share.

`app/` is the program around it: command-line handling, sockets, threads,
files, and the JSON encoding of messages.
