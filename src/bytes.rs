use vstd::prelude::*;

verus! {

/// Whether two byte strings are equal.
pub fn bytes_eq(a: &[u8], b: &[u8]) -> (r: bool)
    ensures
        r == (a@ == b@),
{
    if a.len() != b.len() {
        return false;
    }
    let mut i: usize = 0;
    while i < a.len()
        invariant
            a@.len() == b@.len(),
            i <= a@.len(),
            forall|k: int| 0 <= k < i ==> a@[k] == b@[k],
        decreases a.len() - i,
    {
        if a[i] != b[i] {
            return false;
        }
        i += 1;
    }
    assert(a@ =~= b@);
    true
}

/// Appends `b` to `out`.
pub fn push_all(out: &mut Vec<u8>, b: &[u8])
    ensures
        final(out)@ == old(out)@ + b@,
{
    let mut i: usize = 0;
    while i < b.len()
        invariant
            i <= b@.len(),
            out@ == old(out)@ + b@.subrange(0, i as int),
        decreases b.len() - i,
    {
        out.push(b[i]);
        i += 1;
        assert(out@ =~= old(out)@ + b@.subrange(0, i as int));
    }
    assert(b@.subrange(0, b@.len() as int) =~= b@);
}

/// A copy of `b`.
pub fn to_vec(b: &[u8]) -> (r: Vec<u8>)
    ensures
        r@ == b@,
{
    let mut r: Vec<u8> = Vec::new();
    push_all(&mut r, b);
    assert(r@ =~= b@);
    r
}

/// The length of the Unicode white-space character (as `char::is_whitespace`
/// knows it) that starts at `i` of the UTF-8 text `s`; 0 if none does.
pub open spec fn ws_len_at(s: Seq<u8>, i: int) -> int {
    if 0 <= i < s.len() && ((9u8 <= s[i] <= 13u8) || s[i] == 32u8) {
        1
    } else if 0 <= i && i + 1 < s.len() && s[i] == 0xc2u8 && (s[i + 1] == 0x85u8 || s[i + 1]
        == 0xa0u8) {
        2
    } else if 0 <= i && i + 2 < s.len() && ((s[i] == 0xe1u8 && s[i + 1] == 0x9au8 && s[i + 2]
        == 0x80u8) || (s[i] == 0xe2u8 && s[i + 1] == 0x80u8 && ((0x80u8 <= s[i + 2] <= 0x8au8)
        || s[i + 2] == 0xa8u8 || s[i + 2] == 0xa9u8 || s[i + 2] == 0xafu8)) || (s[i] == 0xe2u8
        && s[i + 1] == 0x81u8 && s[i + 2] == 0x9fu8) || (s[i] == 0xe3u8 && s[i + 1] == 0x80u8
        && s[i + 2] == 0x80u8)) {
        3
    } else {
        0
    }
}

/// The length of the white-space character that ends just before `j`, not
/// reaching before `lo`; 0 if none does.
pub open spec fn ws_len_before(s: Seq<u8>, lo: int, j: int) -> int {
    if j - 1 >= lo && ws_len_at(s, j - 1) == 1 {
        1
    } else if j - 2 >= lo && ws_len_at(s, j - 2) == 2 {
        2
    } else if j - 3 >= lo && ws_len_at(s, j - 3) == 3 {
        3
    } else {
        0
    }
}

/// Where `s` starts once the white space from `i` on is passed over.
pub open spec fn trim_lo(s: Seq<u8>, i: int) -> int
    decreases s.len() - i,
{
    if 0 <= i < s.len() && ws_len_at(s, i) > 0 {
        trim_lo(s, i + ws_len_at(s, i))
    } else {
        i
    }
}

/// Where `s` ends once the white space before `j` (down to `lo`) is dropped.
pub open spec fn trim_hi(s: Seq<u8>, lo: int, j: int) -> int
    decreases j - lo,
{
    if j > lo && ws_len_before(s, lo, j) > 0 {
        trim_hi(s, lo, j - ws_len_before(s, lo, j))
    } else {
        j
    }
}

/// `s` without leading and trailing white space.
pub open spec fn trimmed(s: Seq<u8>) -> Seq<u8> {
    let lo = trim_lo(s, 0);
    s.subrange(lo, trim_hi(s, lo, s.len() as int))
}

fn ws_len_at_exec(s: &[u8], i: usize) -> (r: usize)
    requires
        i <= s@.len(),
    ensures
        r == ws_len_at(s@, i as int),
{
    let n = s.len();
    if i < n && ((9u8 <= s[i] && s[i] <= 13u8) || s[i] == 32u8) {
        1
    } else if n - i >= 2 && s[i] == 0xc2u8 && (s[i + 1] == 0x85u8 || s[i + 1] == 0xa0u8) {
        2
    } else if n - i >= 3 && ((s[i] == 0xe1u8 && s[i + 1] == 0x9au8 && s[i + 2] == 0x80u8) || (s[i]
        == 0xe2u8 && s[i + 1] == 0x80u8 && ((0x80u8 <= s[i + 2] && s[i + 2] <= 0x8au8) || s[i + 2]
        == 0xa8u8 || s[i + 2] == 0xa9u8 || s[i + 2] == 0xafu8)) || (s[i] == 0xe2u8 && s[i + 1]
        == 0x81u8 && s[i + 2] == 0x9fu8) || (s[i] == 0xe3u8 && s[i + 1] == 0x80u8 && s[i + 2]
        == 0x80u8)) {
        3
    } else {
        0
    }
}

/// `s` without leading and trailing Unicode white space.
pub fn trim(s: &[u8]) -> (r: &[u8])
    ensures
        r@ == trimmed(s@),
{
    let n = s.len();
    let mut lo: usize = 0;
    loop
        invariant
            lo <= n == s@.len(),
            trim_lo(s@, 0) == trim_lo(s@, lo as int),
        ensures
            lo <= n,
            trim_lo(s@, 0) == lo,
        decreases n - lo,
    {
        if lo >= n {
            break;
        }
        let w = ws_len_at_exec(s, lo);
        if w == 0 {
            break;
        }
        lo += w;
    }
    let mut hi: usize = n;
    loop
        invariant
            lo <= hi <= n == s@.len(),
            trim_lo(s@, 0) == lo,
            trim_hi(s@, lo as int, n as int) == trim_hi(s@, lo as int, hi as int),
        ensures
            lo <= hi <= n,
            trim_lo(s@, 0) == lo,
            trim_hi(s@, lo as int, n as int) == hi,
        decreases hi - lo,
    {
        if hi <= lo {
            break;
        }
        let w = if hi - lo >= 1 && ws_len_at_exec(s, hi - 1) == 1 {
            1
        } else if hi - lo >= 2 && ws_len_at_exec(s, hi - 2) == 2 {
            2
        } else if hi - lo >= 3 && ws_len_at_exec(s, hi - 3) == 3 {
            3
        } else {
            0
        };
        if w == 0 {
            break;
        }
        hi -= w;
    }
    vstd::slice::slice_subrange(s, lo, hi)
}

} // verus!
