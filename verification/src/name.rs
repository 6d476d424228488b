use vstd::prelude::*;

verus! {

/// A notification name crosses the foreign boundary as a null-terminated C
/// string, so it is only valid when none of its bytes is zero. A name with an
/// embedded zero byte is a caller programming error and must be rejected
/// before any foreign call is made.
pub open spec fn valid_name(name: Seq<u8>) -> bool {
    forall|i: int| 0 <= i < name.len() ==> name[i] != 0
}

/// Decides `valid_name` for a byte string: true exactly when the name holds
/// no embedded zero byte.
pub fn name_is_valid(name: &[u8]) -> (r: bool)
    ensures
        r == valid_name(name@),
{
    let n = name.len();
    let mut i: usize = 0;
    while i < n
        invariant
            n == name@.len(),
            0 <= i <= n,
            forall|j: int| 0 <= j < i ==> name@[j] != 0,
        decreases n - i,
    {
        if name[i] == 0 {
            return false;
        }
        i += 1;
    }
    true
}

/// Byte-string equality, used to match a posted name against the names of
/// registered subscriptions.
pub fn bytes_eq(a: &[u8], b: &[u8]) -> (r: bool)
    ensures
        r == (a@ == b@),
{
    let n = a.len();
    if n != b.len() {
        return false;
    }
    let mut i: usize = 0;
    while i < n
        invariant
            n == a@.len(),
            n == b@.len(),
            0 <= i <= n,
            forall|j: int| 0 <= j < i ==> a@[j] == b@[j],
        decreases n - i,
    {
        if a[i] != b[i] {
            return false;
        }
        i += 1;
    }
    proof {
        assert(a@ =~= b@);
    }
    true
}

/// An owned copy of a byte string, used when a caller's name has to be
/// kept alongside a subscription.
pub fn copy_bytes(b: &[u8]) -> (r: Vec<u8>)
    ensures
        r@ == b@,
{
    let n = b.len();
    let mut out: Vec<u8> = Vec::new();
    let mut i: usize = 0;
    while i < n
        invariant
            n == b@.len(),
            0 <= i <= n,
            out@ == b@.subrange(0, i as int),
        decreases n - i,
    {
        out.push(b[i]);
        proof {
            assert(out@ =~= b@.subrange(0, i + 1));
        }
        i += 1;
    }
    proof {
        assert(b@.subrange(0, n as int) =~= b@);
    }
    out
}

} // verus!
