//! The boundary to the `ini` crate, which tokenizes INI text into sections of
//! key/value pairs. Nothing in this file is proved: each item states what the
//! rest of the library relies on, and says so in its comment.

use vstd::prelude::*;

verus! {

/// `ini::Ini`: a parsed INI document. Nothing inside it is visible to proofs.
#[verifier::external_type_specification]
#[verifier::external_body]
pub struct ExIni(ini::Ini);

/// `ini::Properties`: one section of a parsed document. Nothing inside it is
/// visible to proofs.
#[verifier::external_type_specification]
#[verifier::external_body]
pub struct ExProperties(ini::Properties);

/// `ini::ParseError`: the error with which the `ini` crate rejects a text.
#[verifier::external_type_specification]
#[verifier::external_body]
pub struct ExParseError(ini::ParseError);

/// A section's entries: key and value of each line, in the order of the text.
pub type Entries = Seq<(Seq<char>, Seq<char>)>;

/// What `ini::Ini::load_from_str` makes of a text: `None` where it rejects the
/// text, else the named sections of the document it returns, each with its
/// entries. The parser reads nothing but the text, so the same text always
/// gives the same result. What the result is on a given text is not stated
/// anywhere in this library.
pub uninterp spec fn parsed_sections(text: Seq<char>) -> Option<Map<Seq<char>, Entries>>;

/// The named sections of a document: a name is a key of the map where
/// `ini::Ini::section` finds a section of that name, and stands there for the
/// entries of the section found.
pub uninterp spec fn document_sections(doc: ini::Ini) -> Map<Seq<char>, Entries>;

/// The entries of a section, in the order in which `ini::Properties::iter`
/// hands them out.
pub uninterp spec fn section_entries(section: ini::Properties) -> Entries;

/// The entries that a vector of owned pairs holds.
pub open spec fn entries_view(v: Seq<(String, String)>) -> Entries {
    v.map_values(|e: (String, String)| (e.0@, e.1@))
}

/// Calls `ini::Ini::load_from_str`. The contract only names the result: an
/// error means that `parsed_sections` of the text is `None`, a document means
/// that it is the document's sections.
#[verifier::external_body]
pub(crate) fn load_document(text: &str) -> (res: Result<ini::Ini, ini::ParseError>)
    ensures
        match res {
            Ok(doc) => parsed_sections(text@) == Some(document_sections(doc)),
            Err(_) => parsed_sections(text@) is None,
        },
{
    ini::Ini::load_from_str(text)
}

/// Calls `ini::Ini::section` with the name of a section. The contract claims
/// that a section is found exactly where the name is among
/// `document_sections`, and that the section found holds the entries that
/// stand there.
#[verifier::external_body]
pub(crate) fn find_section<'a>(doc: &'a ini::Ini, name: &str) -> (res: Option<&'a ini::Properties>)
    ensures
        match res {
            Some(section) => document_sections(*doc).contains_key(name@)
                && document_sections(*doc)[name@] == section_entries(*section),
            None => !document_sections(*doc).contains_key(name@),
        },
{
    doc.section(Some(name))
}

/// Calls `ini::Properties::iter` and copies each pair it yields. The contract
/// claims that the pairs come out as `section_entries` lists them.
#[verifier::external_body]
pub(crate) fn list_entries(section: &ini::Properties) -> (res: Vec<(String, String)>)
    ensures
        entries_view(res@) == section_entries(*section),
{
    section.iter().map(|(k, v)| (k.to_string(), v.to_string())).collect()
}

} // verus!
