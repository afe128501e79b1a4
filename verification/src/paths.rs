//! File names: where a report goes when no place is given, and what a new
//! input template is called.

use vstd::prelude::*;
use vstd::string::*;

verus! {

/// What `std::path::Path::with_extension` makes of a path and an extension.
pub uninterp spec fn with_extension(path: Seq<char>, extension: Seq<char>) -> Seq<char>;

/// Whether a text holds a character that separates the parts of a path.
pub open spec fn has_separator(text: Seq<char>) -> bool {
    text.contains('/') || text.contains('\\')
}

/// Calls `std::path::Path::with_extension`, which replaces the extension of
/// the path's file name, or adds one where it has none. Its result is a
/// function of the two texts, which the contract names; nothing more is
/// claimed of it. The call panics on an extension that holds a path
/// separator, so none may be passed.
#[verifier::external_body]
fn replace_extension(path: &str, extension: &str) -> (out: String)
    requires
        !has_separator(extension@),
    ensures
        out@ == with_extension(path@, extension@),
{
    std::path::Path::new(path).with_extension(extension).to_string_lossy().into_owned()
}

/// The extension of a report file.
pub open spec fn report_extension() -> Seq<char> {
    seq!['x', 'l', 's', 'x']
}

/// Where the report is written: the place given, and without one the input's
/// own path with the extension of a report file.
pub fn output_path(input: &str, output: Option<String>) -> (out: String)
    ensures
        out@ == match output {
            Some(given) => given@,
            None => with_extension(input@, report_extension()),
        },
{
    match output {
        Some(given) => given,
        None => {
            proof {
                reveal_strlit("xlsx");
            }
            let extension = "xlsx";
            assert(extension@ =~= report_extension());
            assert(!has_separator(extension@)) by {
                assert forall|i: int| 0 <= i < extension@.len() implies extension@[i] != '/'
                    && extension@[i] != '\\' by {}
            }
            replace_extension(input, extension)
        },
    }
}

/// The ending of the name of an input file.
pub open spec fn csv_suffix() -> Seq<char> {
    seq!['.', 'c', 's', 'v']
}

/// Whether a name ends in the ending of an input file.
pub open spec fn has_csv_suffix(name: Seq<char>) -> bool {
    name.len() >= 4 && name.subrange(name.len() - 4, name.len() as int) == csv_suffix()
}

/// The name of the input template that is made for `filename`: the name
/// itself where it ends in `.csv`, and else the name with that ending added.
pub open spec fn csv_name(filename: Seq<char>) -> Seq<char> {
    if has_csv_suffix(filename) {
        filename
    } else {
        filename + csv_suffix()
    }
}

/// The name under which an input template is made.
pub fn csv_file_name(filename: &str) -> (name: String)
    ensures
        name@ == csv_name(filename@),
{
    let n = filename.unicode_len();
    let ends = n >= 4 && filename.get_char(n - 4) == '.' && filename.get_char(n - 3) == 'c'
        && filename.get_char(n - 2) == 's' && filename.get_char(n - 1) == 'v';
    proof {
        if n >= 4 {
            let tail = filename@.subrange(n - 4, n as int);
            assert(tail[0] == filename@[n - 4]);
            assert(tail[1] == filename@[n - 3]);
            assert(tail[2] == filename@[n - 2]);
            assert(tail[3] == filename@[n - 1]);
            assert(ends ==> tail =~= csv_suffix());
        }
        reveal_strlit(".csv");
        assert(".csv"@ =~= csv_suffix());
    }
    let mut name = String::from_str(filename);
    if !ends {
        name.append(".csv");
    }
    name
}

/// The column titles of an input template: grade, classroom, apartment,
/// dormitory and reason.
pub fn template_header() -> (titles: Vec<String>)
    ensures
        titles.deep_view() == seq!["年级"@, "班级"@, "公寓"@, "宿舍"@, "原因"@],
{
    let mut titles: Vec<String> = Vec::new();
    titles.push(String::from_str("年级"));
    titles.push(String::from_str("班级"));
    titles.push(String::from_str("公寓"));
    titles.push(String::from_str("宿舍"));
    titles.push(String::from_str("原因"));
    assert(titles.deep_view() =~= seq!["年级"@, "班级"@, "公寓"@, "宿舍"@, "原因"@]);
    titles
}

} // verus!
