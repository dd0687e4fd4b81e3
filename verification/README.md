# fast_mail_parser

A parser for `.eml` messages with four views of a message: the full parse
(bodies decoded to text, attachments decoded), metadata (the envelope and an
attachment inventory, nothing decoded), lazy (bodies decoded, attachments kept
where they sit and decoded on demand) and the MIME tree. A parse that had to
repair something records a warning instead of failing, and strict mode turns
any warning into an error.

`mailparse` reads the header block and the MIME structure. What it reads is
named in `src/bridge.rs`: a part of its parse is identified by the bytes
parsed and its path from the root, and each accessor's result is a name over
those. Every public parse states its result over the model read from exactly
those names, so a parse owes success wherever `mailparse` accepts the bytes
and nothing on the way fails, and everything the library decides after that is
verified with Verus.

- `src/` is the library. `src/laws.rs` states what holds across the views of
  one read message: metadata and lazy mode agree with the full parse, every
  tree mode builds the same tree, the warning list is empty exactly when
  nothing was repaired, the repair is idempotent. `src/agree.rs` carries these
  to the public calls themselves: two reads of one buffer say the same, so two
  parses of one payload agree, metadata and lazy mode succeed wherever the full
  parse does and agree with it, the tree modes build the same tree, every
  attachment of the full parse is a body in the tree, and a
  repaired payload parses as its repair does.
- `tests/` exercises the library on concrete messages.
- `app/` is the Python extension module around it (PyO3): argument handling,
  Python objects, exceptions, and running a batch on several threads.
