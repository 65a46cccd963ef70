# mecrab_builder

Tooling for MeCab-format Japanese morphological dictionaries, written in
Verus: every function under `src/` carries a contract that Verus proves.

- **Binary dictionary images**: `sys.dic` (double-array trie, token table,
  feature pool), `matrix.bin`, `char.bin` and `unk.dic` writers, with the
  byte layouts stated as spec functions and the lookup law proved over them:
  a walk of the double array finds exactly the stored keys, with their
  values (`sysdic_writer`, `double_array`, `trie`, `matrix_writer`,
  `char_writer`, `le_bytes`).
- **Source compilation**: parsers for `char.def`, `unk.def`, `matrix.def`
  and lexicon CSV, and the decoding of their charsets (`dict_compile`,
  `scan`, `lex`, `decode`); CSV records and (gzipped) text files read from
  their bytes (`records`).
- **Semantic enrichment**: reading Wikidata entities, Wikipedia abstracts,
  DBpedia N-Triples and RDF/XML ontologies, and merging the URIs found for
  each surface into the dictionary rows (`wikidata_entry`, `wikipedia`,
  `ntriples`, `dbpedia_scan`, `rdf_import`, `ontology`, `semantic_merge`,
  `csv_export`).
- **Subword vocabulary**: byte-pair-encoding training and encoding, with the
  merge sequence defined as a spec function (`bpe`, `bpe_state`,
  `vocab_ids`, `subword`).
- **Front-end text**: output formats, diagnostics for unknown words, partial
  parse input, editor positions (`output_format`, `diagnostics`,
  `parse_input`, `lsp_text`, `colors`, `corpus`, `paths`, `dict_paths`).

`app/` is the `kizame` command line: it reads and writes files, computes the
floating-point confidences of the surface index, and calls the library for
everything else. `tests/` exercises the library on concrete inputs.

Outside crates: `byteorder`, `encoding_rs`, `csv` and `flate2` are called
from the library through small trusted wrappers whose contracts state what
their documentation promises (`le_bytes`, `decode`, `records`); `clap`,
`dirs`, `serde` and `serde_json` are used by the command line only.
