//! Classification of one file: candidates by file name, then by extension,
//! with content heuristics to settle an ambiguous match.
use linguist_types::LanguageType;
use vstd::prelude::*;

use crate::category::{
    counts, fold_dialect, folded, identities_view, lower_of, should_include_language, Category,
    Identity,
};

verus! {

/// Languages whose listed file names hold the path's file name; `None`
/// where the path has no file name that is valid text.
pub uninterp spec fn filename_matches(path: Seq<char>) -> Option<Seq<(Seq<char>, Category)>>;

/// Languages registered for the longest of the path's extensions that has
/// any; `None` where the path has no file name that is valid text.
pub uninterp spec fn extension_matches(path: Seq<char>) -> Option<Seq<(Seq<char>, Category)>>;

/// Languages that the first matching content heuristic for the path's
/// extensions names; `None` where the heuristics fail.
pub uninterp spec fn heuristic_matches(path: Seq<char>, content: Seq<char>) -> Option<
    Seq<(Seq<char>, Category)>,
>;

/// Whether the path's file name has an extension.
pub uninterp spec fn has_extension(path: Seq<char>) -> bool;

/// Relies on `linguist::detect_language_by_filename`, with its error read
/// as `None`; each result is read as its name and its language type.
#[verifier::external_body]
fn lookup_filename(path: &str) -> (r: Option<Vec<Identity>>)
    ensures
        r is Some == filename_matches(path@) is Some,
        r is Some ==> identities_view(r->0@) == filename_matches(path@)->0,
{
    linguist::detect_language_by_filename(path).ok().map(|v| {
        v.iter().map(|l| Identity {
            name: l.name.to_string(),
            category: match l.definition.language_type {
                LanguageType::Data => Category::Data,
                LanguageType::Programming => Category::Programming,
                LanguageType::Markup => Category::Markup,
                LanguageType::Prose => Category::Prose,
            },
        }).collect()
    })
}

/// Relies on `linguist::detect_language_by_extension`, with its error read
/// as `None`; each result is read as its name and its language type.
#[verifier::external_body]
fn lookup_extension(path: &str) -> (r: Option<Vec<Identity>>)
    ensures
        r is Some == extension_matches(path@) is Some,
        r is Some ==> identities_view(r->0@) == extension_matches(path@)->0,
{
    linguist::detect_language_by_extension(path).ok().map(|v| {
        v.iter().map(|l| Identity {
            name: l.name.to_string(),
            category: match l.definition.language_type {
                LanguageType::Data => Category::Data,
                LanguageType::Programming => Category::Programming,
                LanguageType::Markup => Category::Markup,
                LanguageType::Prose => Category::Prose,
            },
        }).collect()
    })
}

/// Relies on `linguist::disambiguate`, with its error read as `None`; each
/// result is read as its name and its language type.
#[verifier::external_body]
fn lookup_heuristics(path: &str, content: &str) -> (r: Option<Vec<Identity>>)
    ensures
        r is Some == heuristic_matches(path@, content@) is Some,
        r is Some ==> identities_view(r->0@) == heuristic_matches(path@, content@)->0,
{
    linguist::disambiguate(path, content).ok().map(|v| {
        v.iter().map(|l| Identity {
            name: l.name.to_string(),
            category: match l.definition.language_type {
                LanguageType::Data => Category::Data,
                LanguageType::Programming => Category::Programming,
                LanguageType::Markup => Category::Markup,
                LanguageType::Prose => Category::Prose,
            },
        }).collect()
    })
}

/// Relies on `std::path::Path::extension`.
#[verifier::external_body]
fn path_has_extension(path: &str) -> (r: bool)
    ensures
        r == has_extension(path@),
{
    std::path::Path::new(path).extension().is_some()
}

/// The candidates of the first lookup that finds any: by file name, then
/// by extension where the file name has one.
pub open spec fn candidates_of(path: Seq<char>) -> Option<Seq<(Seq<char>, Category)>> {
    if filename_matches(path) is Some && filename_matches(path)->0.len() > 0 {
        filename_matches(path)
    } else if has_extension(path) && extension_matches(path) is Some
        && extension_matches(path)->0.len() > 0 {
        extension_matches(path)
    } else {
        None
    }
}

/// The candidate taken: the first that the heuristics name where the
/// candidates are ambiguous and the heuristics name any, else the first
/// candidate.
pub open spec fn pick(
    candidates: Seq<(Seq<char>, Category)>,
    resolved: Option<Seq<(Seq<char>, Category)>>,
) -> (Seq<char>, Category) {
    if candidates.len() > 1 && resolved is Some && resolved->0.len() > 0 {
        resolved->0[0]
    } else {
        candidates[0]
    }
}

/// What the heuristics give for a content sample, if there is one.
pub open spec fn resolved_for(path: Seq<char>, sample: Option<Seq<char>>) -> Option<
    Seq<(Seq<char>, Category)>,
> {
    match sample {
        Some(content) => heuristic_matches(path, content),
        None => None,
    }
}

pub open spec fn sample_view(sample: Option<&str>) -> Option<Seq<char>> {
    match sample {
        Some(s) => Some(s@),
        None => None,
    }
}

/// The language of a file, after dialect folding, before the policy on
/// what counts.
pub open spec fn detected(path: Seq<char>, sample: Option<Seq<char>>) -> Option<
    (Seq<char>, Category),
> {
    match candidates_of(path) {
        Some(c) => {
            let id = pick(c, resolved_for(path, sample));
            Some(folded(id, lower_of(id.0)))
        },
        None => None,
    }
}

/// The language of a file as it is counted, if it is counted.
pub open spec fn classified(path: Seq<char>, sample: Option<Seq<char>>) -> Option<
    (Seq<char>, Category),
> {
    match detected(path, sample) {
        Some(id) => if counts(id.1, lower_of(id.0)) {
            Some(id)
        } else {
            None
        },
        None => None,
    }
}

pub open spec fn option_identity_view(r: Option<Identity>) -> Option<(Seq<char>, Category)> {
    match r {
        Some(id) => Some(id@),
        None => None,
    }
}

/// Takes one of the candidates found for a file: the first that the
/// heuristics resolved where there are several and `resolved` names any,
/// else the first candidate.
pub fn choose_candidate(candidates: Vec<Identity>, resolved: Option<Vec<Identity>>) -> (r: Identity)
    requires
        candidates@.len() > 0,
    ensures
        r@ == pick(
            identities_view(candidates@),
            match resolved {
                Some(v) => Some(identities_view(v@)),
                None => None,
            },
        ),
{
    let mut candidates = candidates;
    if candidates.len() > 1 {
        match resolved {
            Some(mut v) => {
                if v.len() > 0 {
                    return v.swap_remove(0);
                }
            },
            None => {},
        }
    }
    candidates.swap_remove(0)
}

/// The candidates that the lookups give, from their results: those by file
/// name where there are any, else those by extension where there are any.
/// `by_extension` is `None` where the extension was not looked up.
pub fn first_candidates(by_filename: Option<Vec<Identity>>, by_extension: Option<Vec<Identity>>) -> (r:
    Option<Vec<Identity>>)
    ensures
        option_seq_view(r) == (if option_seq_view(by_filename) is Some && option_seq_view(
            by_filename,
        )->0.len() > 0 {
            option_seq_view(by_filename)
        } else if option_seq_view(by_extension) is Some && option_seq_view(by_extension)->0.len() > 0 {
            option_seq_view(by_extension)
        } else {
            None
        }),
{
    match by_filename {
        Some(v) => {
            if v.len() > 0 {
                return Some(v);
            }
        },
        None => {},
    }
    match by_extension {
        Some(v) => {
            if v.len() > 0 {
                return Some(v);
            }
        },
        None => {},
    }
    None
}

/// The candidates of the first lookup that finds any.
fn candidates_for(path: &str) -> (r: Option<Vec<Identity>>)
    ensures
        option_seq_view(r) == candidates_of(path@),
{
    let by_filename = lookup_filename(path);
    let found = match &by_filename {
        Some(v) => v.len() > 0,
        None => false,
    };
    let by_extension = if !found && path_has_extension(path) {
        lookup_extension(path)
    } else {
        None
    };
    first_candidates(by_filename, by_extension)
}

pub open spec fn option_seq_view(r: Option<Vec<Identity>>) -> Option<Seq<(Seq<char>, Category)>> {
    match r {
        Some(v) => Some(identities_view(v@)),
        None => None,
    }
}

/// Whether classifying the file needs a sample of its content: the lookups
/// by name leave more than one candidate.
pub fn needs_content_sample(path: &str) -> (r: bool)
    ensures
        r == (candidates_of(path@) is Some && candidates_of(path@)->0.len() > 1),
{
    match candidates_for(path) {
        Some(v) => v.len() > 1,
        None => false,
    }
}

/// The language of a file, after dialect folding; `sample` is the start of
/// its content where that could be read as text.
pub fn detect_file_language(path: &str, sample: Option<&str>) -> (r: Option<Identity>)
    ensures
        option_identity_view(r) == detected(path@, sample_view(sample)),
{
    match candidates_for(path) {
        Some(candidates) => {
            let resolved = if candidates.len() > 1 {
                match sample {
                    Some(content) => lookup_heuristics(path, content),
                    None => None,
                }
            } else {
                None
            };
            let id = choose_candidate(candidates, resolved);
            Some(fold_dialect(id))
        },
        None => None,
    }
}

/// The language under which a file is counted, or `None` where it is not
/// counted: unclassified, or of a kind that the report leaves out.
pub fn classify_file(path: &str, sample: Option<&str>) -> (r: Option<Identity>)
    ensures
        option_identity_view(r) == classified(path@, sample_view(sample)),
{
    match detect_file_language(path, sample) {
        Some(id) => {
            if should_include_language(id.name.as_str(), id.category) {
                Some(id)
            } else {
                None
            }
        },
        None => None,
    }
}

} // verus!
