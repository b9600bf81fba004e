# eyeron

A verified reader for Notation3 documents and RDF message logs, written in Verus.

- `parser::parse_n3` reads a document: prefixes, a base, facts and rules.
- `parser::parse_rdf_message_log` reads a log of messages with `MESSAGE` lines between them and
  gives its replay: a stream with an envelope for each message and, for each message that says
  something, a graph that names the formula of its triples.
- `parser::is_rdf_message_log` tells whether a text is such a log.

## Layout

| module | contents |
| --- | --- |
| `text` | text as a sequence of characters: white space, lines, numerals |
| `error` | the error type |
| `ast`, `prefixes` | terms, triples, rules, documents and the prefixes they declare |
| `token`, `lexer` | tokens, and how a text is split into them |
| `show` | how tokens and terms appear in messages |
| `grammar`, `halting` | what tokens say, as a mathematical function, and where reading them stops |
| `parser` | the reader, proved to compute that function |
| `message_log` | message logs and their replay |
| `headway`, `labels`, `locality`, `moving`, `joining`, `braces` | how reading moves along the tokens |
| `reading_laws`, `queries` | what holds of reading |
| `spelling`, `writing`, `abbreviations` | how facts and rules are written, and that they are read back |
| `replay_laws`, `marking`, `owning` | what holds of message logs |

The position of an error is the index of a character in the text.

Three facts about the standard library are taken on trust, each stated where it is used: what
`String::push` and `char::from_u32` do, and that the `Debug` format of a string depends on nothing
but the string.
