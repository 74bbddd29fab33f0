//! Paths that begin with a tilde.

use vstd::prelude::*;
use vstd::string::{StrSliceExecFns, StringExecFns};

verus! {

/// `path` with a leading `~` replaced by `home`. A path that does not begin
/// with `~` stays as it is, and so does every path where no home is known.
pub open spec fn expanded(path: Seq<char>, home: Option<Seq<char>>) -> Seq<char> {
    match home {
        Some(h) => if path.len() > 0 && path[0] == '~' {
            h + path.skip(1)
        } else {
            path
        },
        None => path,
    }
}

/// Replaces a leading `~` of `path` by the home directory `home`.
pub fn expand_tilde(path: &str, home: Option<&str>) -> (r: String)
    ensures
        r@ == expanded(
            path@,
            match home {
                Some(h) => Some(h@),
                None => None,
            },
        ),
{
    let n = path.unicode_len();
    match home {
        Some(h) => {
            if n > 0 && path.get_char(0) == '~' {
                let mut out = String::from_str(h);
                out.append(path.substring_char(1, n));
                assert(path@.subrange(1, n as int) =~= path@.skip(1));
                out
            } else {
                String::from_str(path)
            }
        },
        None => String::from_str(path),
    }
}

} // verus!
