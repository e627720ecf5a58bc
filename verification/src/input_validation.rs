//! Client-side checks on the registration form's fields.

use vstd::prelude::*;
use vstd::string::StrSliceExecFns;
use vstd::string::StringExecFns;

verus! {

/// A candidate name is acceptable when it is not the reserved internal
/// segment and holds no path separator.
pub fn name(val: String) -> (r: bool)
    ensures
        r == (val@ != "_internal"@ && !val@.contains('/')),
{
    let reserved: String = String::from_str("_internal");
    if val == reserved {
        return false;
    }
    let n = val.as_str().unicode_len();
    let mut i: usize = 0;
    while i < n
        invariant
            i <= n,
            n == val@.len(),
            forall|j: int| 0 <= j < i ==> val@[j] != '/',
        decreases n - i,
    {
        if val.as_str().get_char(i) == '/' {
            proof {
                assert(val@.contains('/'));
            }
            return false;
        }
        i = i + 1;
    }
    proof {
        assert(!val@.contains('/')) by {
            if val@.contains('/') {
                let j = choose|j: int| 0 <= j < val@.len() && val@[j] == '/';
                assert(val@[j] != '/');
            }
        }
    }
    true
}

/// A candidate URL is acceptable when it starts with "http".
pub fn url(val: String) -> (r: bool)
    ensures
        r == (val@.len() >= 4 && val@.subrange(0, 4) == "http"@),
{
    proof {
        reveal_strlit("http");
    }
    let s = val.as_str();
    let n = s.unicode_len();
    if n < 4 {
        return false;
    }
    if s.get_char(0) == 'h' && s.get_char(1) == 't' && s.get_char(2) == 't' && s.get_char(3)
        == 'p' {
        proof {
            assert(val@.subrange(0, 4) =~= "http"@);
        }
        true
    } else {
        proof {
            if val@.subrange(0, 4) == "http"@ {
                assert(val@.subrange(0, 4)[0] == val@[0]);
                assert(val@.subrange(0, 4)[1] == val@[1]);
                assert(val@.subrange(0, 4)[2] == val@[2]);
                assert(val@.subrange(0, 4)[3] == val@[3]);
            }
        }
        false
    }
}

} // verus!
