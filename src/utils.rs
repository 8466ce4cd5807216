use vstd::prelude::*;
use vstd::string::{StrSliceExecFns, StringExecFns};

verus! {

/// `base` and `file` joined by one separator: `file` alone when `base` is empty or `file`
/// is absolute, no separator added when `base` already ends with one.
pub open spec fn path_join(base: Seq<char>, file: Seq<char>) -> Seq<char> {
    if base.len() == 0 || (file.len() > 0 && file[0] == '/') {
        file
    } else if base.last() == '/' {
        base + file
    } else {
        base + seq!['/'] + file
    }
}

/// Joins a directory path and a file or directory name below it.
pub fn join_path(base: &str, file: &str) -> (r: String)
    ensures
        r@ == path_join(base@, file@),
{
    let base_len = base.unicode_len();
    let file_len = file.unicode_len();
    if base_len == 0 || (file_len > 0 && file.get_char(0) == '/') {
        return String::from_str(file);
    }
    let mut r = String::from_str(base);
    if base.get_char(base_len - 1) != '/' {
        r.append("/");
        proof {
            reveal_strlit("/");
        }
    }
    r.append(file);
    r
}

/// The name of the JSON file that holds the record `id`.
pub fn json_filename(id: &str) -> (r: String)
    ensures
        r@ == id@ + ".json"@,
{
    let mut r = String::from_str(id);
    r.append(".json");
    r
}

/// The path of the JSON file that holds the record `id` in the directory `base`.
pub fn build_json_file_path(base: &str, id: &str) -> (r: String)
    ensures
        r@ == path_join(base@, id@ + ".json"@),
{
    let file = json_filename(id);
    join_path(base, file.as_str())
}

/// The name of the log file of the collection `name`.
pub fn bin_filename(name: &str) -> (r: String)
    ensures
        r@ == name@ + ".bin"@,
{
    let mut r = String::from_str(name);
    r.append(".bin");
    r
}

} // verus!
