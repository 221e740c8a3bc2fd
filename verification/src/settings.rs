//! The persisted app settings, and the check that a folder looks like a
//! Grim Dawn save folder.

use std::path::PathBuf;
use vstd::prelude::*;
use vstd::string::*;

use crate::save_parser::{is_character_folder, DirEntryInfo};
use crate::text::starts_with;

verus! {

#[verifier::external_type_specification]
#[verifier::external_body]
pub struct ExPathBuf(PathBuf);

/// Small persisted app config: for now only an optional override of the
/// save folder, for players whose save is not in the default Documents
/// location (redirected Documents, save on another drive). `None` means
/// auto-detection.
#[derive(Debug, Clone)]
pub struct Settings {
    pub save_dir_override: Option<PathBuf>,
}

impl Default for Settings {
    /// No override.
    fn default() -> (r: Settings)
        ensures
            r.save_dir_override is None,
    {
        Settings { save_dir_override: None }
    }
}

/// What listing a candidate save folder gave.
#[derive(Debug, Clone)]
pub enum SaveDirListing {
    /// The path is not a folder.
    NotAFolder,
    /// The folder could not be read; the error's message.
    Unreadable(String),
    /// The folder's readable entries.
    Entries(Vec<DirEntryInfo>),
}

pub open spec fn has_character_folder(es: Seq<DirEntryInfo>) -> bool {
    exists|i: int| 0 <= i < es.len() && is_character_folder(#[trigger] es[i])
}

/// What validating a candidate save folder gives: it must be a readable
/// folder with at least one character subfolder (a folder named `_...`).
pub open spec fn validate_spec(path: Seq<char>, listing: SaveDirListing) -> Result<(), Seq<char>> {
    match listing {
        SaveDirListing::NotAFolder => Err(path + " is not a folder"@),
        SaveDirListing::Unreadable(e) => Err("could not read "@ + path + ": "@ + e@),
        SaveDirListing::Entries(es) => if has_character_folder(es@) {
            Ok(())
        } else {
            Err(
                path
                    + " doesn't look like a Grim Dawn save folder (no character subfolders found \u{2014} expected something like \"_YourCharacterName\" inside it)"@,
            )
        },
    }
}

/// Validates that a folder (shown as `path`) looks like a real Grim Dawn
/// save folder (see `validate_spec`).
pub fn validate_save_dir(path: &str, listing: &SaveDirListing) -> (r: Result<(), String>)
    ensures
        match r {
            Ok(()) => validate_spec(path@, *listing) == Ok::<(), Seq<char>>(()),
            Err(e) => validate_spec(path@, *listing) == Err::<(), Seq<char>>(e@),
        },
{
    match listing {
        SaveDirListing::NotAFolder => {
            let mut m = String::from_str(path);
            m.append(" is not a folder");
            Err(m)
        },
        SaveDirListing::Unreadable(e) => {
            let mut m = String::from_str("could not read ");
            m.append(path);
            m.append(": ");
            m.append(e.as_str());
            Err(m)
        },
        SaveDirListing::Entries(es) => {
            let mut i: usize = 0;
            while i < es.len()
                invariant
                    *listing == SaveDirListing::Entries(*es),
                    0 <= i <= es.len(),
                    forall|k: int| 0 <= k < i ==> !is_character_folder(#[trigger] es@[k]),
                decreases es.len() - i,
            {
                let e = &es[i];
                if e.is_dir {
                    match &e.name {
                        Some(n) => {
                            if starts_with(n.as_str(), '_') {
                                assert(is_character_folder(es@[i as int]));
                                return Ok(());
                            }
                        },
                        None => {},
                    }
                }
                i = i + 1;
            }
            let mut m = String::from_str(path);
            m.append(
                " doesn't look like a Grim Dawn save folder (no character subfolders found \u{2014} expected something like \"_YourCharacterName\" inside it)",
            );
            Err(m)
        },
    }
}

} // verus!
