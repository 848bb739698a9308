use vstd::prelude::*;
use vstd::string::StringSliceAdditionalSpecFns;

verus! {

/// The operating system families that offer a batched multi-message send:
/// Linux, Android, FreeBSD and NetBSD, by the names Rust gives them.
pub open spec fn batch_platform(os: &str) -> bool {
    let b = os.spec_bytes();
    ||| b == "linux".spec_bytes()
    ||| b == "android".spec_bytes()
    ||| b == "freebsd".spec_bytes()
    ||| b == "netbsd".spec_bytes()
}

fn same_bytes(a: &[u8], b: &[u8]) -> (r: bool)
    ensures
        r == (a@ == b@),
{
    if a.len() != b.len() {
        return false;
    }
    let mut i: usize = 0;
    while i < a.len()
        invariant
            a@.len() == b@.len(),
            i <= a@.len(),
            forall|j: int| 0 <= j < i ==> a@[j] == b@[j],
        decreases a@.len() - i,
    {
        if a[i] != b[i] {
            return false;
        }
        i = i + 1;
    }
    proof {
        assert(a@ =~= b@);
    }
    true
}

/// Whether the batched multi-message send can be used on the operating
/// system named `os` (a name as `std::env::consts::OS` gives it).
pub fn detect_sendmmsg(os: &str) -> (r: bool)
    ensures
        r == batch_platform(os),
{
    let b = os.as_bytes();
    same_bytes(b, "linux".as_bytes()) || same_bytes(b, "android".as_bytes())
        || same_bytes(b, "freebsd".as_bytes()) || same_bytes(b, "netbsd".as_bytes())
}

} // verus!
