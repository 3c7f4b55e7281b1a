use linguisto::aggregate::Aggregate;
use linguisto::category::{
    counts_folded, fold_dialect, fold_dialect_folded, should_include_language, Category, Identity,
};
use linguisto::classify::{
    choose_candidate, classify_file, detect_file_language, first_candidates, needs_content_sample,
};
use linguisto::report::Metric;
use linguisto::scan::{keep_entry, keeps, tally_file};
use linguisto::text::{name_precedes, same_name};

fn id(name: &str, category: Category) -> Identity {
    Identity { name: name.to_string(), category }
}

fn view(r: Option<Identity>) -> Option<(String, Category)> {
    r.map(|i| (i.name, i.category))
}

#[test]
fn directory_scenario_through_classification() {
    let mut agg = Aggregate::new();
    assert!(tally_file(&mut agg, "src/a.rs", Some("fn main() {}\n"), 100));
    assert!(tally_file(&mut agg, "src/b.py", None, 50));
    assert!(!tally_file(&mut agg, "src/c.png", None, 200));
    assert_eq!(agg.total_bytes(), 150);
    let report = agg.build(Metric::Bytes);
    assert_eq!(report.len(), 2);
    assert_eq!((report[0].lang.as_str(), report[0].count, report[0].bytes), ("Rust", 1, 100));
    assert_eq!((report[1].lang.as_str(), report[1].count, report[1].bytes), ("Python", 1, 50));
    assert_eq!((report[0].ratio.part, report[0].ratio.whole), (100, 150));
}

#[test]
fn unambiguous_extension_needs_no_sample() {
    assert!(!needs_content_sample("b.py"));
    assert_eq!(view(classify_file("b.py", None)), Some(("Python".to_string(), Category::Programming)));
}

#[test]
fn ambiguous_extension_uses_sample() {
    assert!(needs_content_sample("a.rs"));
    assert_eq!(
        view(classify_file("a.rs", Some("use std::io;\nfn main() {}\n"))),
        Some(("Rust".to_string(), Category::Programming))
    );
    assert_eq!(
        view(detect_file_language("a.rs", None)),
        Some(("RenderScript".to_string(), Category::Programming))
    );
}

#[test]
fn dialect_folded_into_host() {
    assert_eq!(
        view(classify_file("app.tsx", None)),
        Some(("TypeScript".to_string(), Category::Programming))
    );
    assert_eq!(view(Some(fold_dialect(id("TSX", Category::Programming)))), Some(("TypeScript".to_string(), Category::Programming)));
    assert_eq!(view(Some(fold_dialect_folded(id("Tsx", Category::Programming), "tsx"))).unwrap().0, "TypeScript");
    assert_eq!(view(Some(fold_dialect(id("Rust", Category::Programming)))).unwrap().0, "Rust");
}

#[test]
fn filename_lookup_comes_first() {
    let found = view(detect_file_language("project/Makefile", None));
    assert_eq!(found, Some(("Makefile".to_string(), Category::Programming)));
}

#[test]
fn unclassified_and_excluded_files() {
    assert_eq!(view(classify_file("c.png", None)), None);
    assert_eq!(view(classify_file("noext", None)), None);
    let readme = Some("# Title\n\nSome text.\n");
    assert!(needs_content_sample("README.md"));
    assert_eq!(
        view(detect_file_language("README.md", readme)),
        Some(("Markdown".to_string(), Category::Prose))
    );
    assert_eq!(view(classify_file("README.md", readme)), None);
    assert_eq!(view(classify_file("data.json", None)), None);
    assert_eq!(view(classify_file("style.css", None)), Some(("CSS".to_string(), Category::Markup)));
    assert_eq!(
        view(classify_file("index.html", Some("<!DOCTYPE html>\n<html></html>\n"))),
        Some(("HTML".to_string(), Category::Markup))
    );
}

#[test]
fn inclusion_policy() {
    assert!(should_include_language("Rust", Category::Programming));
    assert!(should_include_language("HTML", Category::Markup));
    assert!(should_include_language("CSS", Category::Markup));
    assert!(!should_include_language("Markdown", Category::Prose));
    assert!(!should_include_language("SVG", Category::Markup));
    assert!(!should_include_language("JSON", Category::Data));
    assert!(counts_folded(Category::Markup, "css"));
    assert!(!counts_folded(Category::Markup, "CSS"));
}

#[test]
fn candidate_choice() {
    let cands = vec![id("A", Category::Programming), id("B", Category::Programming)];
    let resolved = Some(vec![id("B", Category::Programming)]);
    assert_eq!(choose_candidate(cands, resolved).name, "B");
    let cands = vec![id("A", Category::Programming), id("B", Category::Programming)];
    assert_eq!(choose_candidate(cands, Some(vec![])).name, "A");
    let cands = vec![id("A", Category::Programming)];
    assert_eq!(choose_candidate(cands, Some(vec![id("B", Category::Data)])).name, "A");
}

#[test]
fn entries_kept_by_walk() {
    assert!(!keep_entry("node_modules/react/index.js", true));
    assert!(keep_entry("src/main.rs", true));
    assert!(!keep_entry("src", false));
}

#[test]
fn name_order_and_equality() {
    assert!(name_precedes("C", "Go"));
    assert!(name_precedes("Go", "Gol"));
    assert!(!name_precedes("Go", "Go"));
    assert!(!name_precedes("Rust", "Python"));
    assert!(same_name("Rust", "Rust"));
    assert!(!same_name("Rust", "rust"));
}

#[test]
fn first_lookup_with_candidates_wins() {
    let names = |r: Option<Vec<Identity>>| r.map(|v| v.into_iter().map(|i| i.name).collect::<Vec<_>>());
    let by_name = Some(vec![id("Makefile", Category::Programming)]);
    let by_ext = Some(vec![id("C", Category::Programming)]);
    assert_eq!(names(first_candidates(by_name, by_ext)), Some(vec!["Makefile".to_string()]));
    let by_ext = Some(vec![id("C", Category::Programming), id("C++", Category::Programming)]);
    assert_eq!(names(first_candidates(Some(vec![]), by_ext)), Some(vec!["C".to_string(), "C++".to_string()]));
    assert_eq!(names(first_candidates(None, Some(vec![]))), None);
    assert_eq!(names(first_candidates(None, None)), None);
}

#[test]
fn vendored_decision() {
    assert!(keeps(true, Some(false)));
    assert!(keeps(true, None));
    assert!(!keeps(true, Some(true)));
    assert!(!keeps(false, Some(false)));
}

#[test]
fn header_files_are_ambiguous() {
    assert!(needs_content_sample("include/header.h"));
    assert!(!needs_content_sample("Cargo.lock.unknownext"));
}
