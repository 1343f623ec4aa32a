//! The data the PDF reader works with, and the command line it is driven by.

use vstd::prelude::*;

verus! {

#[verifier::external_type_specification]
#[verifier::external_body]
pub struct ExPathBuf(std::path::PathBuf);

/// The command line: a pattern, an optional path, and whether to read
/// standard input instead.
pub struct Cli {
    pub pattern: String,
    pub path: Option<std::path::PathBuf>,
    pub stdin: bool,
}

/// The kinds of PDF objects the reader tells apart.
#[derive(PartialEq, Eq, Structural, Debug, Clone, Copy)]
pub enum ObjectType {
    Pages,
    Page,
    Kids,
    Contents,
    Catalog,
    Root,
    Count,
    NA,
}

/// A reference to a PDF object (`<obj_ref> <generation> R`) with what is
/// known of it.
#[derive(Debug, PartialEq)]
pub struct PdfObject {
    pub obj_ref: i64,
    pub generation: i64,
    pub is_ref: bool,
    pub kids: Vec<i64>,
    pub object_type: ObjectType,
}

impl PdfObject {
    /// An object with the given fields; no kids when `kids` is `None`.
    pub fn new(
        obj_ref: i64,
        generation: i64,
        is_ref: bool,
        kids: Option<Vec<i64>>,
        object_type: ObjectType,
    ) -> (res: Self)
        ensures
            res.obj_ref == obj_ref,
            res.generation == generation,
            res.is_ref == is_ref,
            res.kids@ == match kids {
                Some(k) => k@,
                None => Seq::<i64>::empty(),
            },
            res.object_type == object_type,
    {
        let kids = match kids {
            Some(k) => k,
            None => Vec::new(),
        };
        Self { obj_ref, generation, is_ref, kids, object_type }
    }
}

} // verus!
