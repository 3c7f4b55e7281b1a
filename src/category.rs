//! Language identities, the policy on which of them count as code, and the
//! folding of dialects into the language that hosts them.
use vstd::prelude::*;

use crate::text::same_name;

verus! {

/// Kind of a language, as the language knowledge base assigns it.
#[derive(Clone, Copy, Debug, PartialEq, Eq, Structural)]
pub enum Category {
    Data,
    Programming,
    Markup,
    Prose,
}

/// A classified language: its canonical name and its kind.
#[derive(Debug)]
pub struct Identity {
    pub name: String,
    pub category: Category,
}

impl View for Identity {
    type V = (Seq<char>, Category);

    open spec fn view(&self) -> (Seq<char>, Category) {
        (self.name@, self.category)
    }
}

/// The views of a sequence of identities, in order.
pub open spec fn identities_view(v: Seq<Identity>) -> Seq<(Seq<char>, Category)> {
    v.map_values(|i: Identity| i@)
}

/// Markup languages that count as hand-written code, by lower-case name.
pub open spec fn is_counted_markup(lower: Seq<char>) -> bool {
    lower == "html"@ || lower == "css"@
}

/// Whether a language of this kind, with this lower-case name, is counted:
/// every programming language, and the listed markup languages.
pub open spec fn counts(category: Category, lower: Seq<char>) -> bool {
    match category {
        Category::Programming => true,
        Category::Markup => is_counted_markup(lower),
        _ => false,
    }
}

/// Dialects reported under the name of their host language, by lower-case
/// name of the dialect.
pub open spec fn host_of(lower: Seq<char>) -> Option<Seq<char>> {
    if lower == "tsx"@ {
        Some("TypeScript"@)
    } else {
        None
    }
}

/// An identity after dialect folding, given its name in lower case.
pub open spec fn folded(id: (Seq<char>, Category), lower: Seq<char>) -> (Seq<char>, Category) {
    match host_of(lower) {
        Some(host) => (host, id.1),
        None => id,
    }
}

/// The name of a string, in lower case.
pub uninterp spec fn lower_of(s: Seq<char>) -> Seq<char>;

/// Relies on `str::to_lowercase`: the result depends on the characters alone.
#[verifier::external_body]
pub(crate) fn lowercase(s: &str) -> (r: String)
    ensures
        r@ == lower_of(s@),
{
    s.to_lowercase()
}

/// Whether a language counts, given its kind and its name in lower case.
pub fn counts_folded(category: Category, lower: &str) -> (r: bool)
    ensures
        r == counts(category, lower@),
{
    match category {
        Category::Programming => true,
        Category::Markup => same_name(lower, "html") || same_name(lower, "css"),
        _ => false,
    }
}

/// Whether a language with this name and kind is counted in a report.
pub fn should_include_language(name: &str, category: Category) -> (r: bool)
    ensures
        r == counts(category, lower_of(name@)),
{
    let lower = lowercase(name);
    counts_folded(category, lower.as_str())
}

/// Renames a dialect to its host language, given the dialect's name in
/// lower case; any other identity is returned as it is.
pub fn fold_dialect_folded(id: Identity, lower: &str) -> (r: Identity)
    ensures
        r@ == folded(id@, lower@),
{
    if same_name(lower, "tsx") {
        Identity { name: "TypeScript".to_string(), category: id.category }
    } else {
        id
    }
}

/// Renames a dialect to its host language.
pub fn fold_dialect(id: Identity) -> (r: Identity)
    ensures
        r@ == folded(id@, lower_of(id.name@)),
{
    let lower = lowercase(id.name.as_str());
    fold_dialect_folded(id, lower.as_str())
}

} // verus!
