//! File paths and URLs of the stored playlists, built as text.
use vstd::prelude::*;
use crate::text::concat;

verus! {

/// `base` with `part` joined after it, as `Path::join` does on Unix: an
/// absolute `part` replaces `base`; otherwise a `/` goes between them unless
/// `base` is empty or already ends with one.
pub open spec fn joined(base: Seq<char>, part: Seq<char>) -> Seq<char> {
    if part.len() > 0 && part[0] == '/' {
        part
    } else if base.len() == 0 || base.last() == '/' {
        base + part
    } else {
        base + seq!['/'] + part
    }
}

/// Joins `part` onto the path `base`.
pub fn path_join(base: &str, part: &str) -> (r: String)
    ensures
        r@ == joined(base@, part@),
{
    let part_len = part.unicode_len();
    if part_len > 0 && part.get_char(0) == '/' {
        return part.to_owned();
    }
    let base_len = base.unicode_len();
    if base_len == 0 || base.get_char(base_len - 1) == '/' {
        concat(base, part)
    } else {
        let with_sep = concat(base, "/");
        proof {
            reveal_strlit("/");
        }
        let r = concat(with_sep.as_str(), part);
        proof {
            assert(with_sep@ =~= base@ + seq!['/']);
        }
        r
    }
}

/// The path of the stored collection `collection` under `path`: the file
/// `<collection>.json` there.
pub fn get_collection_path(path: &str, collection: &str) -> (r: String)
    ensures
        r@ == joined(path@, collection@ + ".json"@),
{
    let name = concat(collection, ".json");
    path_join(path, name.as_str())
}

/// The base of the player API URL of an Xtream server, with the credentials.
pub fn get_xtream_stream_url_base(url: &str, username: &str, password: &str) -> (r: String)
    ensures
        r@ == url@ + "/player_api.php?username="@ + username@ + "&password="@ + password@,
{
    let a = concat(url, "/player_api.php?username=");
    let b = concat(a.as_str(), username);
    let c = concat(b.as_str(), "&password=");
    concat(c.as_str(), password)
}

/// The server address and credentials of an Xtream input.
pub struct InputUserInfo {
    pub base_url: String,
    pub username: String,
    pub password: String,
}

/// The player API URL for `action` on the server of an input, where the
/// input has user info.
pub fn get_xtream_player_api_action_url(user_info: Option<&InputUserInfo>, action: &str) -> (r:
    Option<String>)
    ensures
        match user_info {
            Some(u) => r matches Some(s) && s@ == u.base_url@ + "/player_api.php?username="@
                + u.username@ + "&password="@ + u.password@ + "&action="@ + action@,
            None => r is None,
        },
{
    match user_info {
        Some(u) => {
            let base = get_xtream_stream_url_base(
                u.base_url.as_str(),
                u.username.as_str(),
                u.password.as_str(),
            );
            let with_key = concat(base.as_str(), "&action=");
            Some(concat(with_key.as_str(), action))
        },
        None => None,
    }
}

/// The path that `std::path::Path::with_extension` makes of `path` and `ext`.
pub uninterp spec fn path_with_extension(path: Seq<char>, ext: Seq<char>) -> Seq<char>;

/// Calls `std::path::Path::with_extension` on `path` read as a path and
/// gives the result back as text; std panics on an extension that holds a
/// path separator, so such an `ext` is not admitted. The contract only names the result: the
/// rules by which std finds a file name's extension are not restated.
#[verifier::external_body]
fn with_extension(path: &str, ext: &str) -> (r: String)
    requires
        !ext@.contains('/'),
    ensures
        r@ == path_with_extension(path@, ext@),
{
    std::path::Path::new(path).with_extension(ext).to_string_lossy().into_owned()
}

/// The path of the sorted index that belongs to the tree file at `path`:
/// the same path with the extension `idx`.
pub fn get_file_path_for_db_index(path: &str) -> (r: String)
    ensures
        r@ == path_with_extension(path@, "idx"@),
{
    proof {
        reveal_strlit("idx");
        assert(!"idx"@.contains('/')) by {
            if "idx"@.contains('/') {
                let k = choose|k: int| 0 <= k < "idx"@.len() && "idx"@[k] == '/';
            }
        }
    }
    with_extension(path, "idx")
}

/// What `std::path::Path::strip_prefix` gives of `full` without `root`:
/// the rest of the path, or `None` where `root` is not a prefix of it.
pub uninterp spec fn path_strip_prefix(full: Seq<char>, root: Seq<char>) -> Option<Seq<char>>;

/// Calls `std::path::Path::strip_prefix` on the two paths and gives the rest
/// back as text. The contract only names the result: the component rules
/// of std are not restated.
#[verifier::external_body]
fn strip_prefix(full: &str, root: &str) -> (r: Option<String>)
    ensures
        r matches Some(s) ==> path_strip_prefix(full@, root@) == Some(s@),
        r is None ==> path_strip_prefix(full@, root@) is None,
{
    match std::path::Path::new(full).strip_prefix(root) {
        Ok(rest) => Some(rest.to_string_lossy().into_owned()),
        Err(_) => None,
    }
}

/// The path of `full_path` relative to `root_path`, or `full_path` itself
/// where it does not lie under `root_path`.
pub fn get_relative_path_str(full_path: &str, root_path: &str) -> (r: String)
    ensures
        r@ == match path_strip_prefix(full_path@, root_path@) {
            Some(rest) => rest,
            None => full_path@,
        },
{
    match strip_prefix(full_path, root_path) {
        Some(rest) => rest,
        None => full_path.to_owned(),
    }
}

/// What `std::path::Path::file_stem` gives of `path`: the file name without
/// its extension, or `None` where the path has no file name.
pub uninterp spec fn path_file_stem(path: Seq<char>) -> Option<Seq<char>>;

/// Calls `std::path::Path::file_stem` and gives the stem back as text. The
/// contract only names the result: the rules by which std splits a file
/// name are not restated.
#[verifier::external_body]
fn file_stem(path: &str) -> (r: Option<String>)
    ensures
        r matches Some(s) ==> path_file_stem(path@) == Some(s@),
        r is None ==> path_file_stem(path@) is None,
{
    std::path::Path::new(path).file_stem().map(|s| s.to_string_lossy().into_owned())
}

/// The path that `std::path::Path::with_file_name` makes of `path` and `name`.
pub uninterp spec fn path_with_file_name(path: Seq<char>, name: Seq<char>) -> Seq<char>;

/// Calls `std::path::Path::with_file_name` and gives the result back as
/// text. The contract only names the result.
#[verifier::external_body]
fn with_file_name(path: &str, name: &str) -> (r: String)
    ensures
        r@ == path_with_file_name(path@, name@),
{
    std::path::Path::new(path).with_file_name(name).to_string_lossy().into_owned()
}

/// The lock file beside the tree file at `filepath`: in the same directory,
/// named after the file's stem with a dot in front (hidden) and `.lock`
/// behind; where the path has no stem, the path with the extension `lock`.
pub fn lock_path(filepath: &str) -> (r: String)
    ensures
        r@ == match path_file_stem(filepath@) {
            Some(stem) => path_with_file_name(filepath@, seq!['.'] + stem + ".lock"@),
            None => path_with_extension(filepath@, "lock"@),
        },
{
    match file_stem(filepath) {
        Some(stem) => {
            let dotted = concat(".", stem.as_str());
            proof {
                reveal_strlit(".");
            }
            let name = concat(dotted.as_str(), ".lock");
            proof {
                assert(name@ =~= seq!['.'] + stem@ + ".lock"@);
            }
            with_file_name(filepath, name.as_str())
        },
        None => {
            proof {
                reveal_strlit("lock");
                assert(!"lock"@.contains('/')) by {
                    if "lock"@.contains('/') {
                        let k = choose|k: int| 0 <= k < "lock"@.len() && "lock"@[k] == '/';
                    }
                }
            }
            with_extension(filepath, "lock")
        },
    }
}

} // verus!
