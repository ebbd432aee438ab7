# iks

An XML parser library for Jabber/XMPP and general XML processing, with
its behaviour stated in contracts and proved with Verus.

- `src/` is the verified library: the memory arena (`arena`), the SAX
  parser automaton and its handler interface (`parser`, `location`,
  `handler`), the element tree and its
  cursors (`tree`, `document`), the document builder and parser
  (`doc_parser`), parsing in blocks (`blocks`), XML escaping (`entities`),
  XPath (`xpath`), Jabber addresses (`jid`), the XMPP stream parser and
  client protocol state machine (`stream`, `protocol`, `client`) and the
  statistics of the `ikslint` tool (`lint`).
- `tests/` runs the library on concrete inputs.
- `app/` holds what is not verified: the thread-shared cursor, the
  blocking XMPP client over TCP and TLS, and the command line tools
  `ikslint`, `ikspath` and `iksjab`.
