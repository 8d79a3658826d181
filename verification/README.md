# pwconv

Converts password-strength assessment records between two text formats:
"linescore" (one `label|score|entropy_bits|crack_time` line per record,
with `\` and `|` backslash-escaped) and a JSON array of objects with the
same four fields. A score must be an integer from 0 to 4 and an entropy a
finite number of bits from 0 to 1024.

## Layout

- `src/` is the verified library (Verus):
  - `text.rs`: decimal numerals, `u8` parsing, Unicode white space, the
    splitting of text into lines, UTF-8 widths;
  - `record.rs`: `Record`, `Entropy`, `Record::new` and
    `check_unique_labels`;
  - `linescore.rs`: escaping, field splitting, reading and writing the
    linescore format, and its round-trip laws;
  - `json.rs`: the JSON cursor (`Parser`), reading and writing the JSON
    format;
  - `json_roundtrip.rs`: the proof that what the JSON writer writes reads
    back;
  - `linescore_concat.rs`: the proof that two linescore texts read one
    after the other give their records one after the other.
- `app/main.rs` is the command-line program: arguments, files and the
  console, and the floating-point reading of numbers.
- `tests/` holds the tests.

Reading is done in two steps. `scan` reads a document and records the text
of each number (`json::number_texts` lists them); the caller turns those
texts into values (floating point, which the library does not handle) and
hands them to `parse`, which builds the records and reports the first
problem in document order. In JSON, a score arrives as a number: the caller
gives the byte that the value converts to (`as u8`) and whether the value
is exactly that byte, and `parse` refuses any score that is not a whole
number from 0 to 4: one whose byte is above 4 is reported by that byte,
any other by the number as written.
