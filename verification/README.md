# thermal_printer

A Discord bot that prints the messages of a server on an ESC/POS receipt
printer. The library in `src/` holds the logic, verified with Verus; `app/`
holds the bot itself (Discord client, USB printer, downloads).

- `instruction`: the instructions a print job is made of.
- `markdown`: Discord markdown as plain values, parsed with `discord-markdown`.
- `render`: markdown and message metadata to instructions; mention lookups are
  requested from the caller and consumed in order.
- `codeblock`: the framed layout of code blocks on a 48-column roll.
- `job`: instructions to printer commands; text is split into characters and
  emoji are printed as Twemoji images.
- `text`: small string helpers.

Laws proved about the library include: every job ends with a cut, ending a job
with an explicit cut prints the same, printing text is compositional, ASCII text
is written character by character, rendering turns each style off as often as
it turns it on and never leaves a style on that was not on before (so a message
printed from plain printing ends in plain printing), and a short line of code
is printed as it is inside its frame.
