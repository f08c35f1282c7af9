//! What the library reads of file paths, through `std::path::Path`.

use vstd::prelude::*;

use crate::text::chars_of;

verus! {

/// `std::path::Path`, carried through opaquely: only the wrappers below
/// look inside it.
#[verifier::external_type_specification]
#[verifier::external_body]
pub struct ExPath(std::path::Path);

/// The text of a path, with any invalid UTF-8 replaced, as
/// `Path::to_string_lossy` gives it.
pub uninterp spec fn lossy_text_of(p: &std::path::Path) -> Seq<char>;

/// The last component of a path as text, as `Path::file_name` and
/// `OsStr::to_str` give it: none where there is no file name or it is not
/// valid UTF-8.
pub uninterp spec fn file_name_of(p: &std::path::Path) -> Option<Seq<char>>;

/// Relies on `Path::to_string_lossy`: the path as text.
#[verifier::external_body]
pub(crate) fn path_text(path: &std::path::Path) -> (r: String)
    ensures
        r@ == lossy_text_of(path),
{
    path.to_string_lossy().into_owned()
}

/// Relies on `Path::file_name`: the last component of the path, where there
/// is one, converted to text where it is valid UTF-8.
#[verifier::external_body]
pub(crate) fn path_file_name(path: &std::path::Path) -> (r: Option<&str>)
    ensures
        crate::config::opt_view(r) == file_name_of(path),
{
    match path.file_name() {
        Some(name) => name.to_str(),
        None => None,
    }
}

pub open spec fn workflow_extension(ext: Seq<char>) -> bool {
    ext == seq!['y', 'm', 'l'] || ext == seq!['y', 'a', 'm', 'l']
}

/// Whether a file extension marks a workflow file: `yml` or `yaml`.
pub fn is_workflow_extension(ext: Option<&str>) -> (r: bool)
    ensures
        r == match ext {
            Some(e) => workflow_extension(e@),
            None => false,
        },
{
    match ext {
        Some(e) => {
            let c = chars_of(e);
            let yml = c.len() == 3 && c[0] == 'y' && c[1] == 'm' && c[2] == 'l';
            let yaml = c.len() == 4 && c[0] == 'y' && c[1] == 'a' && c[2] == 'm' && c[3] == 'l';
            assert(yml ==> c@ =~= seq!['y', 'm', 'l']);
            assert(yaml ==> c@ =~= seq!['y', 'a', 'm', 'l']);
            yml || yaml
        },
        None => false,
    }
}

} // verus!
