# json_parser

A small JSON reader in Verus: a lexer that cuts text into tokens, a parser
that builds a value tree from the tokens, and a printer that writes a value
back as text. Every step is verified against a mathematical model of what it
computes.

- `src/value.rs`: tokens, values, errors, and their models.
- `src/lexer.rs`: the lexer (`Lexer`, `tokenize`) and the specification of
  each of its steps over the input's bytes.
- `src/parser.rs`: the parser (`Parser`, `parse`) and its specification over
  token sequences.
- `src/display.rs`: the printer (`display`) and the text it writes.
- `src/text.rs`: the standard-library text calls that the rest relies on.
- `src/laws.rs`: what holds of the three together: the parser reads back a
  value from its tokens and accepts nothing else, a value is read the same
  whatever tokens follow it, and the printed text of a value reads back as
  the same value when its strings and keys are ASCII without a double quote
  or a backslash and its numbers are number texts (a minus sign or a digit
  first, then digits with at most one point, at least one digit in all).
- `src/joining.rs`: tokenizing two texts joined by a space gives the two
  token lists joined.
- `app/`: a small program that runs the pipeline on sample texts. Numbers are
  held in the library as their decimal text; the program reads them as
  `f64` and writes them back.
