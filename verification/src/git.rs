//! What the vault's history reports: its commits, and the lines of an
//! unstaged diff. Talking to the repository is left to the program.
use vstd::prelude::*;

verus! {

/// A commit of the vault's history.
#[derive(Clone, Debug)]
pub struct GitCommit {
    pub oid: String,
    pub message: String,
    pub author: String,
    pub time: i64,
}

/// The marker a diff line is printed with: `+` for an added line, `-` for
/// a removed one, a space for any other (context, headers).
pub open spec fn diff_marker(origin: char) -> char {
    if origin == '+' {
        '+'
    } else if origin == '-' {
        '-'
    } else {
        ' '
    }
}

/// A line of the unstaged diff: its marker and its text.
pub fn diff_line(origin: char, content: &str) -> (r: String)
    ensures
        r@ == seq![diff_marker(origin)] + content@,
{
    let mut line = String::new();
    let marker = if origin == '+' { '+' } else if origin == '-' { '-' } else { ' ' };
    crate::text::push_char(&mut line, marker);
    crate::text::push_str(&mut line, content);
    line
}

} // verus!
