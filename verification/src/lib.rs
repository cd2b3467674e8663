//! A library for splitting large XML documents into many small fragment files
//! and reassembling the byte-faithful original later.
//!
//! The heart of the library is an ordered tree model ([`node::Node`]) that
//! keeps every feature needed for lossless round-tripping: attributes,
//! comments, CDATA blocks, text that trails a comment, element order and the
//! document declaration.  A parser builds the tree from markup text, a
//! normalizer drops insignificant whitespace, a serializer prints the tree
//! back, and the decomposition and merge engines split and rejoin documents.

pub mod chars;
pub mod decompose;
pub mod escape;
pub mod extract;
pub mod json;
pub mod lexer;
pub mod merge;
pub mod multi_level;
pub mod node;
pub mod normalize;
pub mod parser;
pub mod paths;
pub mod reassemble;
pub mod render;
pub mod text;
pub mod unique_id;

pub use decompose::BuildDisassembledFilesOptions;
pub use decompose::DisassemblyPlan;
pub use decompose::FragmentPlan;
pub use decompose::plan_disassembly;
pub use extract::extract_xml_declaration_from_raw;
pub use extract::extract_xmlns_from_raw;
pub use merge::extract_root_attributes;
pub use merge::merge_xml_elements;
pub use merge::reorder_root_keys;
pub use multi_level::MultiLevelConfig;
pub use multi_level::MultiLevelRule;
pub use multi_level::capture_xmlns_from_root;
pub use multi_level::ensure_segment_file_text;
pub use multi_level::extend_multi_level_config;
pub use multi_level::strip_root_and_build_xml;
pub use node::Entry;
pub use node::Node;
pub use normalize::strip_whitespace_text_nodes;
pub use parser::ParseError;
pub use parser::parse_xml_from_str;
pub use parser::parse_xml_with_metadata;
pub use parser::parse_xml_with_cdata;
pub use paths::normalize_path_unix;
pub use paths::path_segment_from_file_pattern;
pub use reassemble::ReassembleXmlFileHandler;
pub use render::build_xml_string;
pub use text::parse_text_value;
pub use unique_id::looks_like_hash;
pub use unique_id::parse_unique_id_element;
