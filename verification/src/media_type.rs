//! The media type of a file, guessed from its path.

use crate::views::option_view;
use vstd::prelude::*;

verus! {

/// The media type that `mime_guess` puts first for a file at `path`, or nothing if it has none.
pub uninterp spec fn guessed_media_type(path: Seq<char>) -> Option<Seq<char>>;

/// Calls `mime_guess::from_path` and takes the first type of the guess, written out. Trusted: the
/// guess is determined by the path alone. It comes from a fixed table of file extensions, without a
/// look at the disk.
#[verifier::external_body]
pub(crate) fn guess_media_type(path: &str) -> (media_type: Option<String>)
    ensures
        option_view(media_type) == guessed_media_type(path@),
{
    match mime_guess::from_path(path).first() {
        Some(mime) => Some(mime.to_string()),
        None => None,
    }
}

/// Nothing is known of the type of the content of the file at `source`.
#[derive(Debug)]
pub struct UnknownContentType {
    pub source: String,
}

impl View for UnknownContentType {
    type V = Seq<char>;

    open spec fn view(&self) -> Seq<char> {
        self.source@
    }
}

impl UnknownContentType {
    /// The error, in words.
    pub fn message(&self) -> (text: String)
        ensures
            text@ == "Unable to determine content type for '"@ + self@ + "'."@,
            text@ == "Unable to determine content type for '"@ + self.source@ + "'."@,
    {
        "Unable to determine content type for '".to_owned().concat(self.source.as_str()).concat(
            "'.",
        )
    }
}

} // verus!
