# disko

A disk usage explorer: what is full, what is using the space, and where to look next.

`src/` is the library, verified with Verus. It holds everything that decides something: how a tree
of sizes is built, searched, corrected and compared; what grew and which directory owns the growth;
which directories are caches and whether they can be brought back; what may be deleted and in what
order; durations, sizes and percentages in words; the state of the interface and what every key does
to it; and every line of every screen.

`app/` is the program around it. It reads directories and mount tables, unlinks files, stores
snapshots as JSON, starts threads, parses the command line and draws on the terminal. Whatever it
finds it hands to the library as plain values, and it does what the library asks for next.

`tests/` runs the library on concrete trees, screens and key presses.

## How the library is laid out

- `path`, `strings`, `order`, `decimal`, `double`: bytes, text, stable sorting, and the arithmetic of
  doubles on integers.
- `tree`, `scan`, `diff`, `history`, `categories`, `mounts`: the data.
- `size`, `timefmt`, `text`, `bar`, `palette`, `canvas`, `braille`, `radial`, `chart`: how it looks.
- `model`, `app`, `keys`, `views`: the interface as a state machine. What it cannot do itself it puts
  into a queue of requests, in order.
- `screen`, `overview`, `explorer`, `details`, `footer`, `picker`, `scanning`, `confirm`: its screens,
  line by line.
- `deletion`, `commands`, `report`, `output`, `cli`, `clipboard`, `file_manager`: what is done and
  printed.

Text is matched byte for byte: a contract such as `text@ == humanized(seconds)` fixes every character.
Fractions are doubles held as a mantissa and a power of two, so that a bar or a percentage is the one
that double arithmetic gives. Angles and square roots are left to `app/`.
