# propfile

A verified library for the property files in which a role-playing game
keeps its saved state, and a small editor around it.

- `src/varint.rs`: seven-bit length prefixes.
- `src/le.rs`: four-byte little-endian integers (through `byteorder`).
- `src/text.rs`: UTF-8 decoding, comma-separated lists, unsigned decimals.
- `src/property.rs`: property values and the ordered map of properties.
- `src/format.rs`: reading and writing the file format.
- `src/roundtrip.rs`: the proof that what is written reads back.
- `src/reading.rs`: what reading a whole file gives, record by record.
- `src/xml_tree.rs`: a plain XML tree (parsed by RustyXML) and the reads
  made of it.
- `src/skills.rs`: the skill table read from the game's XML skill list.
- `src/member.rs`: edits of a party member and the validation before a save.
- `app/`: the editor's dialog (IUP), file access and the floating-point
  grade computation.
