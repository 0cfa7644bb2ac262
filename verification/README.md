# calisto

A runtime for Ruby programs. A daemon boots a pinned CRuby once and forks it for
every program, so that programs start at once. Linux only.

The logic is a library that is verified with [Verus](https://github.com/verus-lang/verus):
every function states what it returns for every input, and the statement is
proved. The program around it does what only a program can do: files, sockets,
processes, and the calls into the interpreter and the databases.

## Layout

- `src/` is the verified library.
  - `text`, `number`, `utf8` and `path`: strings, numbers, bytes and paths.
  - `appconfig`: `calisto.toml`, `.env`, and the directories of an
    application's daemons.
  - `runtime`: which Ruby is used, and how daemons are started and stopped.
  - `protocol`: commands, requests and replies on the daemon's socket, and the
    messages that carry descriptors.
  - `base64`: the encoding of the fields of a request.
  - `daemon`: how a daemon boots, and its table of connections.
  - `child`: what a forked child does, step by step.
  - `commands`: the arguments, decisions and reports of each command.
  - `shims`: the Ruby files that are written into the runtime directory.
  - `hash`: SHA-256, BLAKE3 and xxHash64.
  - `native`: Base64, URL and HTML escaping for Ruby programs.
  - `ruby`: the interpreter's library, its symbols and its words.
  - `pg` and `sqlite`: values and errors of the two databases.
- `tests/` runs the library on concrete values.
- `app/` is the program.

## What is stated

Contracts speak of mathematical models: a text is a sequence of characters, a
configuration file is what its lines say one after the other, a command is what
the received bytes hold so far. Properties of several functions are public proof
functions whose names begin with `law_`: that a request arrives as it was sent,
that an encoding is decoded to what was encoded, that a command that has been
cut waits for the rest, that daemons of different versions do not meet, that no
other version of Ruby is used than the one that is asked for, that `init`
overwrites nothing unless it is told to.

Three facts about the standard library are taken without proof: that
`String::push` appends a character, that `String::from_utf8_lossy` decodes valid
UTF-8 and depends on its bytes alone, and that the `Debug` format of a string
depends on that string alone.
