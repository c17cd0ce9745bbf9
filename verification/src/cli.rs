//! The arguments of a run, and which action they select.

use vstd::prelude::*;

verus! {

/// The caller-supplied arguments of one run.
pub struct Args {
    /// A master- or media-playlist URL to resolve and fetch.
    pub url: Option<String>,
    /// A local file holding playlist text with absolute references.
    pub file: Option<String>,
    /// A file holding request headers to apply to every request.
    pub headers: Option<String>,
    /// The output directory.
    pub output_dir: Option<String>,
    /// Reassemble an existing output directory without retrieving.
    pub concat: bool,
}

/// What a run does, decided from the arguments.
pub enum Action {
    /// Fetch the playlist at this URL and retrieve its segments.
    FromUrl(String),
    /// Read playlist text from this local file; its references are
    /// treated as already absolute.
    FromFile(String),
    /// Only reassemble the existing output directory.
    ConcatOnly,
    /// Nothing to do.
    NoAction,
}

/// Decide the action, in priority order: a playlist URL wins over a
/// local playlist file, and either wins over bare reassembly; with none
/// of the three, the run does nothing.
pub fn choose_action(args: &Args) -> (r: Action)
    ensures
        match r {
            Action::FromUrl(u) => args.url matches Some(x) && u@ == x@,
            Action::FromFile(f) => args.url is None && (args.file matches Some(x) && f@ == x@),
            Action::ConcatOnly => args.url is None && args.file is None && args.concat,
            Action::NoAction => args.url is None && args.file is None && !args.concat,
        },
{
    match &args.url {
        Some(u) => Action::FromUrl(u.clone()),
        None => match &args.file {
            Some(f) => Action::FromFile(f.clone()),
            None => if args.concat {
                Action::ConcatOnly
            } else {
                Action::NoAction
            },
        },
    }
}

} // verus!
