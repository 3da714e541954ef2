//! The toy author/book dataset that the sample batch loaders serve.

use vstd::prelude::*;

verus! {

/// An author record of the sample dataset.
pub struct Author {
    pub name: String,
    pub born: String,
}

/// A book record of the sample dataset; `author` names the author it
/// belongs to.
pub struct Book {
    pub title: String,
    pub author: String,
}

/// The sample authors.
pub fn all_authors() -> (r: Vec<Author>)
    ensures
        r@.len() == 2,
        r@[0].name@ == "Hermann Hesse"@,
        r@[0].born@ == "1877-07-02"@,
        r@[1].name@ == "Thomas Mann"@,
        r@[1].born@ == "1875-06-06"@,
{
    let mut authors: Vec<Author> = Vec::new();
    authors.push(Author { name: "Hermann Hesse".to_string(), born: "1877-07-02".to_string() });
    authors.push(Author { name: "Thomas Mann".to_string(), born: "1875-06-06".to_string() });
    authors
}

/// The sample books.
pub fn all_books() -> (r: Vec<Book>)
    ensures
        r@.len() == 3,
        r@[0].title@ == "Siddhartha"@ && r@[0].author@ == "Hermann Hesse"@,
        r@[1].title@ == "Das Glasperlenspiel"@ && r@[1].author@ == "Hermann Hesse"@,
        r@[2].title@ == "Zauberberg"@ && r@[2].author@ == "Thomas Mann"@,
{
    let mut books: Vec<Book> = Vec::new();
    books.push(Book { title: "Siddhartha".to_string(), author: "Hermann Hesse".to_string() });
    books.push(Book {
        title: "Das Glasperlenspiel".to_string(),
        author: "Hermann Hesse".to_string(),
    });
    books.push(Book { title: "Zauberberg".to_string(), author: "Thomas Mann".to_string() });
    books
}

} // verus!
