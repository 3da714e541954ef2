//! Tests for the sample dataset, the batch loaders over it, and the pure
//! resolver computations.

use dataloader::dataloader::{DataLoader, DispatchResult, LoadStatus};
use dataloader::datamodel::{all_authors, all_books};
use dataloader::loaders::{LoadBooks, LoadSummaries};
use dataloader::schema::{Author, Book, Library};

fn s(t: &str) -> String {
    t.to_string()
}

#[test]
fn dataset_contents() {
    let authors = all_authors();
    assert!(authors.len() == 2);
    assert!(authors[0].name == s("Hermann Hesse") && authors[0].born == s("1877-07-02"));
    assert!(authors[1].name == s("Thomas Mann") && authors[1].born == s("1875-06-06"));

    let books = all_books();
    assert!(books.len() == 3);
    assert!(books[0].title == s("Siddhartha") && books[0].author == s("Hermann Hesse"));
    assert!(books[1].title == s("Das Glasperlenspiel") && books[1].author == s("Hermann Hesse"));
    assert!(books[2].title == s("Zauberberg") && books[2].author == s("Thomas Mann"));
}

#[test]
fn load_books_groups_by_author() {
    let loader = LoadBooks::new(all_books());
    let out = loader.batch(&vec![s("Hermann Hesse"), s("Nobody"), s("Thomas Mann")]);
    assert!(out.len() == 3);

    assert!(out[0].0 == s("Hermann Hesse"));
    let titles: Vec<&String> = out[0].1.iter().map(|b| &b.title).collect();
    assert!(titles == vec![&s("Siddhartha"), &s("Das Glasperlenspiel")]);

    assert!(out[1].0 == s("Nobody"));
    assert!(out[1].1.is_empty());

    assert!(out[2].0 == s("Thomas Mann"));
    assert!(out[2].1.len() == 1 && out[2].1[0].title == s("Zauberberg"));
}

#[test]
fn load_summaries_covers_every_key() {
    let out = LoadSummaries.batch(&vec![s("Siddhartha"), s("Zauberberg")]);
    assert!(out.len() == 2);
    assert!(out[0].0 == s("Siddhartha") && out[0].1 == s("Don\u{2019}t know, read it yourself!"));
    assert!(out[1].0 == s("Zauberberg") && out[1].1 == s("Don\u{2019}t know, read it yourself!"));
}

#[test]
fn library_resolves_authors() {
    let served = Library.authors(&all_authors());
    assert!(served.len() == 2);
    assert!(served[0].name == s("Hermann Hesse") && served[0].born == s("1877-07-02"));
    assert!(served[1].name == s("Thomas Mann") && served[1].born == s("1875-06-06"));
}

#[test]
fn author_resolves_books() {
    let hesse = Author { name: s("Hermann Hesse"), born: s("1877-07-02") };
    let served = hesse.books(&all_books());
    assert!(served.len() == 2);
    assert!(served[0].title == s("Siddhartha"));
    assert!(served[1].title == s("Das Glasperlenspiel"));

    let stranger = Author { name: s("Nobody"), born: s("1900-01-01") };
    assert!(stranger.books(&all_books()).is_empty());
}

#[test]
fn book_resolves_summary() {
    let book = Book { title: s("Siddhartha") };
    assert!(book.summary() == s("Don\u{2019}t know, read it yourself!"));
}

/// The whole sample wired together: a loader over the book fetch resolves
/// a coalesced wave of author keys.
#[test]
fn books_loader_end_to_end() {
    let mut dl = DataLoader::new(LoadBooks::new(all_books()));
    assert!(matches!(dl.load(s("Hermann Hesse"), 1), LoadStatus::Suspended));
    assert!(matches!(dl.load(s("Thomas Mann"), 2), LoadStatus::Suspended));
    match dl.dispatch_once() {
        DispatchResult::Resolved(woken) => assert!(woken == vec![1, 2]),
        DispatchResult::Failed(_, _) => panic!("dispatch failed"),
    }
    let hesse = dl.resolved_value(&s("Hermann Hesse")).expect("resolved");
    assert!(hesse.len() == 2 && hesse[0].title == s("Siddhartha"));
    let mann = dl.resolved_value(&s("Thomas Mann")).expect("resolved");
    assert!(mann.len() == 1 && mann[0].title == s("Zauberberg"));
}
