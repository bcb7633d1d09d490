//! Loader precedence: which file a dictionary is loaded from.
//!
//! Given a base file path, a serialized-cache sibling (`<name>.ser.gz`) is
//! preferred, then a compressed-source sibling (`<name>.gz`), then the base
//! path itself as raw text. The caller answers the existence questions; the
//! decision itself is pure path arithmetic on plain strings with `/` as the
//! separator.
//!
//! A present cache artifact wins unconditionally: it carries no content or
//! timestamp check, so a stale cache is preferred over an updated source
//! until the artifact is removed. Invalidation is the caller's
//! responsibility.

use vstd::prelude::*;
use vstd::string::StrSliceExecFns;
use vstd::string::StringExecFns;

verus! {

/// The file a dictionary will be loaded from, by precedence: a serialized
/// cache, a compressed source together with the cache path to regenerate,
/// the raw source together with the cache path to regenerate, or nothing.
pub enum DictFile {
    Gz(String, String),
    SerGz(String),
    Raw(String, String),
    NotFound,
}

/// What a build request reports: the base path was found and a build
/// started, no file was found, or the path itself was unusable.
pub enum BuildResult {
    Success,
    FileNotFound,
    PathMalformed,
}

/// The serialized-cache suffix, as characters.
pub open spec fn spec_ser_gz_suffix() -> Seq<char> {
    seq!['.', 's', 'e', 'r', '.', 'g', 'z']
}

/// The compressed-source suffix, as characters.
pub open spec fn spec_gz_suffix() -> Seq<char> {
    seq!['.', 'g', 'z']
}

/// Whether a name ends in the compressed-source suffix.
pub open spec fn spec_has_gz_suffix(s: Seq<char>) -> bool {
    s.len() >= 3 && s[s.len() - 3] == '.' && s[s.len() - 2] == 'g' && s[s.len() - 1] == 'z'
}

/// A name with one compressed-source suffix removed, if it carries one.
pub open spec fn spec_drop_gz(s: Seq<char>) -> Seq<char> {
    if spec_has_gz_suffix(s) {
        s.take(s.len() - 3)
    } else {
        s
    }
}

/// A file name under an optional directory, joined with `/`.
pub open spec fn spec_joined(dir: Option<Seq<char>>, name: Seq<char>) -> Seq<char> {
    match dir {
        Some(d) => d + seq!['/'] + name,
        None => name,
    }
}

/// Index of the last `/`, or `-1` if the path has none.
pub open spec fn spec_last_slash(s: Seq<char>) -> int
    decreases s.len(),
{
    if s.len() == 0 {
        -1
    } else if s.last() == '/' {
        s.len() - 1
    } else {
        spec_last_slash(s.drop_last())
    }
}

/// `spec_last_slash` points at the last separator.
proof fn lemma_last_slash(s: Seq<char>)
    ensures
        -1 <= spec_last_slash(s) < s.len(),
        spec_last_slash(s) >= 0 ==> s[spec_last_slash(s)] == '/',
        forall|j: int| spec_last_slash(s) < j < s.len() ==> s[j] != '/',
    decreases s.len(),
{
    if s.len() > 0 && s.last() != '/' {
        lemma_last_slash(s.drop_last());
        let sub = s.drop_last();
        let i = spec_last_slash(s);
        if i >= 0 {
            assert(s[i] == sub[i]);
        }
        assert forall|j: int| i < j < s.len() implies s[j] != '/' by {
            if j < s.len() - 1 {
                assert(s[j] == sub[j]);
            }
        }
    }
}

/// The directory part of a base path: what stands before the last `/`;
/// absent if there is none.
pub open spec fn spec_dir_of(s: Seq<char>) -> Option<Seq<char>> {
    if spec_last_slash(s) >= 0 {
        Some(s.take(spec_last_slash(s)))
    } else {
        None
    }
}

/// The file-name part of a base path: what stands after the last `/`.
pub open spec fn spec_name_of(s: Seq<char>) -> Seq<char> {
    s.skip(spec_last_slash(s) + 1)
}

/// The serialized-cache sibling path of a base path.
pub open spec fn spec_path_ser_gz(base: Seq<char>) -> Seq<char> {
    spec_joined(spec_dir_of(base), spec_drop_gz(spec_name_of(base)) + spec_ser_gz_suffix())
}

/// The compressed-source sibling path of a base path.
pub open spec fn spec_path_gz(base: Seq<char>) -> Seq<char> {
    spec_joined(spec_dir_of(base), spec_drop_gz(spec_name_of(base)) + spec_gz_suffix())
}

/// Drop one trailing `.gz` from a file name, if it carries one, so that the
/// sibling names are derived from the stem.
pub fn drop_gz_suffix_if_exists(s: String) -> (r: String)
    ensures
        r@ == spec_drop_gz(s@),
{
    let n = s.as_str().unicode_len();
    if n >= 3 && s.as_str().get_char(n - 3) == '.' && s.as_str().get_char(n - 2) == 'g'
        && s.as_str().get_char(n - 1) == 'z' {
        let sub = s.as_str().substring_char(0, n - 3);
        sub.to_owned()
    } else {
        s
    }
}

/// Join a file name under an optional directory with `/`.
fn join_path(dir: &Option<String>, file_name: &String) -> (r: String)
    ensures
        r@ == spec_joined(
            match dir {
                Some(d) => Some(d@),
                None => None,
            },
            file_name@,
        ),
{
    match dir {
        Some(d) => {
            let mut out = d.clone();
            out.append("/");
            out.append(file_name.as_str());
            proof {
                reveal_strlit("/");
                assert("/"@ =~= seq!['/']);
            }
            out
        },
        None => file_name.clone(),
    }
}

/// The serialized-cache sibling: the file name plus `.ser.gz`, under the
/// directory.
pub fn get_path_ser_gz(dir: &Option<String>, file_name: &String) -> (r: String)
    ensures
        r@ == spec_joined(
            match dir {
                Some(d) => Some(d@),
                None => None,
            },
            file_name@ + spec_ser_gz_suffix(),
        ),
{
    let mut name = file_name.clone();
    name.append(".ser.gz");
    proof {
        reveal_strlit(".ser.gz");
        assert(".ser.gz"@ =~= spec_ser_gz_suffix());
    }
    join_path(dir, &name)
}

/// The compressed-source sibling: the file name plus `.gz`, under the
/// directory.
pub fn get_path_gz(dir: &Option<String>, file_name: &String) -> (r: String)
    ensures
        r@ == spec_joined(
            match dir {
                Some(d) => Some(d@),
                None => None,
            },
            file_name@ + spec_gz_suffix(),
        ),
{
    let mut name = file_name.clone();
    name.append(".gz");
    proof {
        reveal_strlit(".gz");
        assert(".gz"@ =~= spec_gz_suffix());
    }
    join_path(dir, &name)
}

/// Choose the file to load from, by precedence: the serialized cache, then
/// the compressed source, then the raw base path. The three flags answer
/// whether each candidate exists as a file; the caller obtains them from
/// the file system. A base path whose file-name part is empty yields
/// not-found.
pub fn get_dict_file_to_load(
    base_path: &String,
    ser_gz_exists: bool,
    gz_exists: bool,
    raw_exists: bool,
) -> (r: DictFile)
    ensures
        ({
            let bv = base_path@;
            if spec_name_of(bv).len() == 0 {
                r is NotFound
            } else if ser_gz_exists {
                r matches DictFile::SerGz(p) && p@ == spec_path_ser_gz(bv)
            } else if gz_exists {
                r matches DictFile::Gz(p, q) && p@ == spec_path_gz(bv) && q@ == spec_path_ser_gz(
                    bv,
                )
            } else if raw_exists {
                r matches DictFile::Raw(p, q) && p@ == bv && q@ == spec_path_ser_gz(bv)
            } else {
                r is NotFound
            }
        }),
{
    let n = base_path.as_str().unicode_len();
    // find the last separator
    let mut k: usize = n;
    while k > 0 && base_path.as_str().get_char(k - 1) != '/'
        invariant
            k <= n,
            n == base_path@.len(),
            forall|j: int| k <= j < n ==> base_path@[j] != '/',
        decreases k,
    {
        k -= 1;
    }
    proof {
        lemma_last_slash(base_path@);
        let ls = spec_last_slash(base_path@);
        assert(ls == k - 1) by {
            if ls < k - 1 {
                assert(base_path@[k - 1] == '/');
            }
            if ls > k - 1 {
                assert(base_path@[ls] != '/');
            }
        }
    }
    let dir: Option<String> = if k > 0 {
        Some(base_path.as_str().substring_char(0, k - 1).to_owned())
    } else {
        None
    };
    let raw_name = base_path.as_str().substring_char(k, n).to_owned();
    if raw_name.as_str().unicode_len() == 0 {
        return DictFile::NotFound;
    }
    let file_name = drop_gz_suffix_if_exists(raw_name);
    let path_ser_gz = get_path_ser_gz(&dir, &file_name);
    if ser_gz_exists {
        return DictFile::SerGz(path_ser_gz);
    }
    if gz_exists {
        let path_gz = get_path_gz(&dir, &file_name);
        return DictFile::Gz(path_gz, path_ser_gz);
    }
    if raw_exists {
        return DictFile::Raw(base_path.clone(), path_ser_gz);
    }
    DictFile::NotFound
}

} // verus!
