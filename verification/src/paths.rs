//! Path-name classification for the command surface: whether a path names
//! a module in the human-readable text form, judged by its extension.
use vstd::prelude::*;

use crate::search::find_last;
use vstd::string::StrSliceExecFns;

verus! {

/// Predicate for the last path separator.
pub open spec fn slash_pred() -> spec_fn(char) -> bool {
    |c: char| c == '/'
}

/// Predicate for the last dot.
pub open spec fn dot_pred() -> spec_fn(char) -> bool {
    |c: char| c == '.'
}

/// Where the file name of a path begins: right after the last separator,
/// or at the start when there is none.
pub open spec fn file_name_start(path: Seq<char>) -> int {
    match find_last(path, slash_pred()) {
        Some(i) => i + 1,
        None => 0,
    }
}

/// The path's extension is `wat`: its file name has a dot after its first
/// character, and what follows the last dot is exactly `wat`.  A file name
/// that begins with its only dot has no extension.
pub open spec fn spec_is_wat(path: Seq<char>) -> bool {
    match find_last(path, dot_pred()) {
        Some(d) => d > file_name_start(path) && path.skip(d + 1) == "wat"@,
        None => false,
    }
}

/// Decide whether a path names a text-form module, by extension.
pub fn is_wat(path: &str) -> (r: bool)
    ensures
        r == spec_is_wat(path@),
{
    let n = path.unicode_len();
    let mut last_slash: Option<usize> = None;
    let mut last_dot: Option<usize> = None;
    let mut i: usize = 0;
    while i < n
        invariant
            n == path@.len(),
            0 <= i <= n,
            find_last(path@.take(i as int), slash_pred()) == match last_slash {
                Some(v) => Some(v as int),
                None => None::<int>,
            },
            find_last(path@.take(i as int), dot_pred()) == match last_dot {
                Some(v) => Some(v as int),
                None => None::<int>,
            },
            last_slash matches Some(v) ==> v < i,
            last_dot matches Some(v) ==> v < i,
        decreases n - i,
    {
        let c = path.get_char(i);
        if c == '/' {
            last_slash = Some(i);
        } else if c == '.' {
            last_dot = Some(i);
        }
        proof {
            let pre = path@.take(i as int);
            let cur = path@.take(i as int + 1);
            assert(cur =~= pre.push(path@[i as int]));
            assert(cur.last() == path@[i as int]);
            assert(cur.drop_last() =~= pre);
        }
        i += 1;
    }
    proof {
        assert(path@.take(n as int) =~= path@);
    }
    match last_dot {
        Some(d) => {
            let fstart: usize = match last_slash {
                Some(sl) => sl + 1,
                None => 0,
            };
            if d <= fstart {
                return false;
            }
            // the extension runs from d + 1 to the end; compare it to "wat"
            if n - d - 1 != 3 {
                proof {
                    reveal_strlit("wat");
                    assert(path@.skip(d + 1).len() != "wat"@.len());
                }
                return false;
            }
            let c1 = path.get_char(d + 1);
            let c2 = path.get_char(d + 2);
            let c3 = path.get_char(d + 3);
            proof {
                reveal_strlit("wat");
            }
            if c1 == 'w' && c2 == 'a' && c3 == 't' {
                proof {
                    assert(path@.skip(d + 1 as int) =~= "wat"@);
                }
                true
            } else {
                proof {
                    assert(path@.skip(d + 1 as int) != "wat"@) by {
                        if path@.skip(d + 1 as int) == "wat"@ {
                            assert(path@.skip(d + 1 as int)[0] == 'w');
                            assert(path@.skip(d + 1 as int)[1] == 'a');
                            assert(path@.skip(d + 1 as int)[2] == 't');
                        }
                    }
                }
                false
            }
        },
        None => false,
    }
}

} // verus!
