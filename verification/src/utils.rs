use vstd::prelude::*;
use vstd::string::StrSliceExecFns;
use vstd::string::StringExecFns;
use crate::models::content_view;
use crate::models::path_view;

verus! {

/// A run of `n` space characters.
pub open spec fn spaces(n: nat) -> Seq<char> {
    Seq::new(n, |i: int| ' ')
}

/// Compare two string slices by their character content.
#[verifier::loop_isolation(false)]
pub fn str_eq(a: &str, b: &str) -> (r: bool)
    ensures
        r == (a@ == b@),
{
    let a_len = a.unicode_len();
    let b_len = b.unicode_len();
    if a_len != b_len {
        return false;
    }
    let mut i: usize = 0;
    while i < a_len
        invariant
            0 <= i <= a_len,
            forall|j: int| 0 <= j < i ==> a@[j] == b@[j],
        decreases a_len - i,
    {
        if a.get_char(i) != b.get_char(i) {
            return false;
        }
        i = i + 1;
    }
    proof {
        assert(a@ =~= b@);
    }
    true
}

/// Pad `s` with trailing spaces up to `length` characters, or cut it down
/// to its first `length` characters when it is longer.
#[verifier::loop_isolation(false)]
pub fn right_pad(s: &str, length: usize) -> (r: String)
    ensures
        s@.len() >= length ==> r@ == s@.subrange(0, length as int),
        s@.len() < length ==> r@ == s@ + spaces((length - s@.len()) as nat),
        r@.len() == length,
{
    let n = s.unicode_len();
    if n >= length {
        let t = s.substring_char(0, length);
        t.to_owned()
    } else {
        let mut out = s.to_owned();
        proof {
            assert(s@ + spaces(0) =~= s@);
        }
        let mut i: usize = n;
        while i < length
            invariant
                n <= i <= length,
                out@ == s@ + spaces((i - n) as nat),
            decreases length - i,
        {
            out.append(" ");
            proof {
                reveal_strlit(" ");
                assert(s@ + spaces((i - n) as nat) + " "@ =~= s@ + spaces((i + 1 - n) as nat));
            }
            i = i + 1;
        }
        out
    }
}

/// Pad `s` with leading spaces up to `length` characters, or cut it down
/// to its first `length` characters when it is longer.
#[verifier::loop_isolation(false)]
pub fn left_pad(s: &str, length: usize) -> (r: String)
    ensures
        s@.len() >= length ==> r@ == s@.subrange(0, length as int),
        s@.len() < length ==> r@ == spaces((length - s@.len()) as nat) + s@,
        r@.len() == length,
{
    let n = s.unicode_len();
    if n >= length {
        let t = s.substring_char(0, length);
        t.to_owned()
    } else {
        let mut out = String::new();
        proof {
            assert(out@ =~= spaces(0));
        }
        let mut i: usize = n;
        while i < length
            invariant
                n <= i <= length,
                out@ == spaces((i - n) as nat),
            decreases length - i,
        {
            out.append(" ");
            proof {
                reveal_strlit(" ");
                assert(spaces((i - n) as nat) + " "@ =~= spaces((i + 1 - n) as nat));
            }
            i = i + 1;
        }
        let r = out.concat(s);
        r
    }
}

/// Copy a path, segment by segment.
#[verifier::loop_isolation(false)]
pub fn clone_path(p: &Vec<String>) -> (r: Vec<String>)
    ensures
        path_view(r@) == path_view(p@),
{
    let mut r: Vec<String> = Vec::new();
    let mut i: usize = 0;
    while i < p.len()
        invariant
            0 <= i <= p@.len(),
            r@.len() == i,
            forall|j: int| 0 <= j < i ==> r@[j]@ == p@[j]@,
        decreases p@.len() - i,
    {
        r.push(p[i].clone());
        i = i + 1;
    }
    proof {
        assert(path_view(r@) =~= path_view(p@));
    }
    r
}

/// Copy a file's optional raw bytes.
#[verifier::loop_isolation(false)]
pub fn clone_content(c: &Option<Vec<u8>>) -> (r: Option<Vec<u8>>)
    ensures
        content_view(r) == match c {
            Some(v) => Some(v@),
            None => None,
        },
{
    match c {
        None => None,
        Some(v) => {
            let mut out: Vec<u8> = Vec::new();
            let mut i: usize = 0;
            while i < v.len()
                invariant
                    out@ =~= v@.subrange(0, i as int),
                    0 <= i <= v@.len(),
                decreases v@.len() - i,
            {
                out.push(v[i]);
                proof {
                    assert(out@ =~= v@.subrange(0, i + 1));
                }
                i = i + 1;
            }
            proof {
                assert(out@ =~= v@);
            }
            Some(out)
        },
    }
}

} // verus!
