# email_format

Header fields of Internet messages (RFC 5322 section 3.6): each field type
parses itself from the front of a byte slice, writes itself out, and can be
built from its parts or from the bytes of its value.  Everything in `src/` is
verified with Verus.

- `src/scan.rs`: byte classes, runs of bytes, CR LF, case-insensitive names.
- `src/lexical.rs`, `src/datetime.rs`, `src/address.rs`: the grammar of field
  values (white space and comments, atoms, quoted strings, phrases,
  unstructured text, dates, addresses, message identifiers, trace tokens,
  paths, field names), each rule a spec function with a scanner proved to
  compute it.
- `src/types.rs`: the values fields are made of; each keeps the bytes its
  rule matched.
- `src/field.rs`: what the fields share: names, the name-value-CR LF frame,
  repeated values.
- `src/headers.rs`: the fields, and the laws that tie parsing to streaming
  (`Field`, `Reproducible`).
- `app/lib.rs`: writing fields to an `std::io::Write`, and as text.
