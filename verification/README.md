# txt_to_xml_parser

A verified library that turns a line-based, pipe-separated record format
(`P|firstname|lastname`, `T|mobile|landline`, `A|street|city|zip`,
`F|name|born`) into nested XML, salvaging what it can and reporting every
row that breaks the grammar.

- `src/text.rs`: white space, splitting, line breaking, decimal numbers.
- `src/grammar.rs`: the row types and their lookup.
- `src/tree.rs`: the element tree and its rendering as indented XML.
- `src/builder.rs`: the tree builder, its step-by-step specification, and `parse`.
- `src/laws.rs`: properties of the whole, proved over those specifications.
- `app/main.rs`: the command-line program (reads a file or stdin, prints the XML
  and the report).
