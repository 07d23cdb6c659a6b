use vstd::prelude::*;

verus! {

/// How a file is handed to the desktop: opened, or shown in its folder.
pub enum OpenKind {
    Open,
    Reveal,
}

/// The arguments of the desktop's `open` command for a file: the path, then
/// `-R` to show the file in its folder rather than open it.
pub fn open_args(path: String, kind: OpenKind) -> (r: Vec<String>)
    ensures
        r@.len() == if kind is Reveal { 2int } else { 1int },
        r@[0] == path,
        kind is Reveal ==> r@[1]@ == "-R"@,
{
    let mut args: Vec<String> = Vec::new();
    args.push(path);
    match kind {
        OpenKind::Reveal => {
            args.push(String::from_str("-R"));
        },
        OpenKind::Open => {},
    }
    args
}

/// Title and body of an error dialog.
pub struct ModalContents {
    pub title: String,
    pub body: String,
}

impl ModalContents {
    pub fn new(title: String, body: String) -> (r: ModalContents)
        ensures
            r.title == title,
            r.body == body,
    {
        ModalContents { title, body }
    }
}

/// An error to be shown to the user: a short headline and its detail.
pub struct Error {
    pub err: String,
    pub detail: String,
}

impl Error {
    pub fn new(err: String, detail: String) -> (r: Error)
        ensures
            r.err == err,
            r.detail == detail,
    {
        Error { err, detail }
    }

    /// The one-line form `"<err>: <detail>"`.
    pub fn message(&self) -> (r: String)
        ensures
            r@ == self.err@ + ": "@ + self.detail@,
    {
        let mut s = self.err.clone();
        s.append(": ");
        s.append(self.detail.as_str());
        s
    }
}

} // verus!
