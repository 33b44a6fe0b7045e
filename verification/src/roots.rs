//! Where a scan may start: the root directory and the user's home.

use vstd::prelude::*;

verus! {

/// A path offered as a place to start a scan, and whether it is a directory.
#[derive(Debug)]
pub struct RootCandidate {
    pub path: String,
    pub is_dir: bool,
}

/// `dirs::home_dir`: the user's home directory, if the system names one.
/// It is read from the environment, so nothing is promised of it.
#[verifier::external_body]
fn home_directory() -> (home: Option<String>) {
    match dirs::home_dir() {
        Some(path) => Some(path.to_string_lossy().into_owned()),
        None => None,
    }
}

/// The paths to offer: the root directory, then `home` if there is one.
pub fn candidates_with(home: Option<String>) -> (paths: Vec<String>)
    ensures
        texts(paths@) == match home {
            Some(home) => seq!["/"@, home@],
            None => seq!["/"@],
        },
{
    let mut paths: Vec<String> = Vec::new();
    paths.push("/".to_owned());
    match home {
        Some(home) => {
            paths.push(home);
        },
        None => {},
    }
    proof {
        assert(texts(paths@) =~= match home {
            Some(home) => seq!["/"@, home@],
            None => seq!["/"@],
        });
    }
    paths
}

/// The paths to offer: the root directory, then the user's home if the
/// system names one.
pub fn root_candidates() -> (paths: Vec<String>)
    ensures
        1 <= paths@.len() <= 2,
        paths@[0]@ == "/"@,
{
    let home = home_directory();
    let paths = candidates_with(home);
    proof {
        assert(texts(paths@).len() == paths@.len());
        assert(texts(paths@)[0] == paths@[0]@);
    }
    paths
}

/// The paths of those of `candidates` that are directories, in their order.
pub open spec fn directories(candidates: Seq<RootCandidate>) -> Seq<Seq<char>>
    decreases candidates.len(),
{
    if candidates.len() == 0 {
        Seq::empty()
    } else if candidates.last().is_dir {
        directories(candidates.drop_last()).push(candidates.last().path@)
    } else {
        directories(candidates.drop_last())
    }
}

/// The texts of a sequence of strings, element by element.
pub open spec fn texts(paths: Seq<String>) -> Seq<Seq<char>> {
    Seq::new(paths.len(), |i: int| paths[i]@)
}

/// The roots that can be scanned: the candidates that are directories.
pub fn list_roots(candidates: Vec<RootCandidate>) -> (roots: Vec<String>)
    ensures
        texts(roots@) == directories(candidates@),
{
    let mut roots: Vec<String> = Vec::new();
    let mut i: usize = 0;
    proof {
        assert(candidates@.take(0) =~= Seq::<RootCandidate>::empty());
        assert(texts(roots@) =~= Seq::<Seq<char>>::empty());
    }
    while i < candidates.len()
        invariant
            i <= candidates.len(),
            texts(roots@) == directories(candidates@.take(i as int)),
        decreases candidates.len() - i,
    {
        proof {
            let now = candidates@.take(i as int + 1);
            assert(now.drop_last() =~= candidates@.take(i as int));
            assert(now.last() == candidates@[i as int]);
        }
        if candidates[i].is_dir {
            let path = candidates[i].path.clone();
            proof {
                assert(texts(roots@.push(path)) =~= texts(roots@).push(path@));
            }
            roots.push(path);
        }
        i = i + 1;
    }
    proof {
        assert(candidates@.take(i as int) =~= candidates@);
    }
    roots
}

} // verus!
