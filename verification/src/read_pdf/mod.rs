pub mod content_extractor;
pub mod object_parser;
pub mod read_pdf_utils;
pub mod xref_utils;
