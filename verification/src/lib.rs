//! Builders for MeCab-format binary dictionaries and the text tooling around them.

pub mod char_writer;
pub mod error;
pub mod le_bytes;
pub mod text;
pub mod matrix_writer;
pub mod lex;
pub mod trie;
pub mod double_array;
pub mod sysdic_writer;
pub mod synthetic;
pub mod scan;
pub mod dict_compile;
pub mod decode;
pub mod lsp_text;
pub mod parse_input;
pub mod ntriples;
pub mod paths;
pub mod ontology;
pub mod colors;
pub mod subword;
pub mod bpe;
pub mod bpe_state;
pub mod vocab_ids;
pub mod wikipedia;
pub mod corpus;
pub mod wikidata_entry;
pub mod output_format;
pub mod diagnostics;
pub mod dict_paths;
pub mod rdf_import;
pub mod dbpedia_scan;
pub mod semantic_merge;
pub mod csv_export;
pub mod records;
