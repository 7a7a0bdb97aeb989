//! Paths as plain strings: the store records where each profile file
//! lives, and resolves its default directories under the user's home.

use vstd::prelude::*;
use vstd::string::StringExecFns;

use crate::errors::KubenvError;

verus! {

/// Relies on `home::home_dir`: the home directory the operating system
/// reports for the current user, if any. `None` also stands for a home
/// path that is not valid UTF-8. The result depends on the environment,
/// so nothing more is promised of it.
#[verifier::external_body]
fn home_dir_string() -> (r: Option<String>) {
    match home::home_dir() {
        Some(p) => match p.to_str() {
            Some(s) => Some(s.to_owned()),
            None => None,
        },
        None => None,
    }
}

/// Joins one path component onto a base path with a `/` separator.
pub fn join_path(base: &str, name: &str) -> (r: String)
    ensures
        r@ == base@ + "/"@ + name@,
{
    let mut s = base.to_owned();
    s.append("/");
    s.append(name);
    s
}

/// The default base directory, `<home>/.kube`.
pub fn get_default_kube_dir() -> (r: Result<String, KubenvError>)
    ensures
        match r {
            Ok(p) => exists|h: Seq<char>| p@ == h + "/.kube"@,
            Err(e) => e == KubenvError::DirectoryResolution,
        },
{
    match home_dir_string() {
        Some(h) => {
            let d = join_path(h.as_str(), ".kube");
            proof {
                assert(d@ == h@ + "/"@ + ".kube"@);
                assert(h@ + "/.kube"@ =~= h@ + "/"@ + ".kube"@) by {
                    reveal_strlit("/.kube");
                    reveal_strlit("/");
                    reveal_strlit(".kube");
                }
            }
            Ok(d)
        },
        None => Err(KubenvError::DirectoryResolution),
    }
}

/// The default profile directory, `<home>/.kube/kubenv`.
pub fn get_default_kubenv_dir() -> (r: Result<String, KubenvError>)
    ensures
        match r {
            Ok(p) => exists|h: Seq<char>| p@ == h + "/.kube/kubenv"@,
            Err(e) => e == KubenvError::DirectoryResolution,
        },
{
    match get_default_kube_dir() {
        Ok(kube_dir) => {
            let d = join_path(kube_dir.as_str(), "kubenv");
            proof {
                let h = choose|h: Seq<char>| kube_dir@ == h + "/.kube"@;
                assert(h + "/.kube/kubenv"@ =~= h + "/.kube"@ + "/"@ + "kubenv"@) by {
                    reveal_strlit("/.kube/kubenv");
                    reveal_strlit("/.kube");
                    reveal_strlit("/");
                    reveal_strlit("kubenv");
                }
            }
            Ok(d)
        },
        Err(e) => Err(e),
    }
}

} // verus!
