use vstd::prelude::*;

verus! {

/// ASCII whitespace: space, tab, line feed, carriage return.
pub open spec fn is_ws(b: u8) -> bool {
    b == 32 || b == 9 || b == 10 || b == 13
}

pub fn ws_byte(b: u8) -> (r: bool)
    ensures
        r == is_ws(b),
{
    b == 32 || b == 9 || b == 10 || b == 13
}

/// Index of the first byte at or after `i` that is not whitespace.
pub open spec fn spec_skip_ws(s: Seq<u8>, i: int) -> int
    decreases s.len() - i,
{
    if 0 <= i < s.len() && is_ws(s[i]) {
        spec_skip_ws(s, i + 1)
    } else {
        i
    }
}

pub fn skip_ws(s: &[u8], i: usize) -> (r: usize)
    requires
        i <= s@.len(),
    ensures
        r == spec_skip_ws(s@, i as int),
        i <= r <= s@.len(),
    decreases s@.len() - i,
{
    if i < s.len() && ws_byte(s[i]) {
        skip_ws(s, i + 1)
    } else {
        i
    }
}

/// Index of the first occurrence of `b` at or after `i`, or the length if none.
pub open spec fn spec_find(s: Seq<u8>, i: int, b: u8) -> int
    decreases s.len() - i,
{
    if 0 <= i < s.len() {
        if s[i] == b {
            i
        } else {
            spec_find(s, i + 1, b)
        }
    } else {
        i
    }
}

pub fn find_byte(s: &[u8], i: usize, b: u8) -> (r: usize)
    requires
        i <= s@.len(),
    ensures
        r == spec_find(s@, i as int, b),
        i <= r <= s@.len(),
    decreases s@.len() - i,
{
    if i < s.len() {
        if s[i] == b {
            i
        } else {
            find_byte(s, i + 1, b)
        }
    } else {
        i
    }
}

/// Start of the first occurrence of the two-byte pattern at or after
/// `i`, or the length if there is none.
pub open spec fn spec_find2(s: Seq<u8>, i: int, b0: u8, b1: u8) -> int
    decreases s.len() - i,
{
    if !(0 <= i && s.len() - i >= 2) {
        s.len() as int
    } else if s[i] == b0 && s[i + 1] == b1 {
        i
    } else {
        spec_find2(s, i + 1, b0, b1)
    }
}

pub fn find2(s: &[u8], i: usize, b0: u8, b1: u8) -> (r: usize)
    requires
        i <= s@.len(),
    ensures
        r == spec_find2(s@, i as int, b0, b1),
        i <= r <= s@.len(),
        r < s@.len() ==> r + 2 <= s@.len(),
    decreases s@.len() - i,
{
    if s.len() - i >= 2 {
        if s[i] == b0 && s[i + 1] == b1 {
            i
        } else {
            find2(s, i + 1, b0, b1)
        }
    } else {
        s.len()
    }
}

/// Start of the first occurrence of the three-byte pattern at or after
/// `i`, or the length if there is none.
pub open spec fn spec_find3(s: Seq<u8>, i: int, b0: u8, b1: u8, b2: u8) -> int
    decreases s.len() - i,
{
    if !(0 <= i && s.len() - i >= 3) {
        s.len() as int
    } else if s[i] == b0 && s[i + 1] == b1 && s[i + 2] == b2 {
        i
    } else {
        spec_find3(s, i + 1, b0, b1, b2)
    }
}

pub fn find3(s: &[u8], i: usize, b0: u8, b1: u8, b2: u8) -> (r: usize)
    requires
        i <= s@.len(),
    ensures
        r == spec_find3(s@, i as int, b0, b1, b2),
        i <= r <= s@.len(),
        r < s@.len() ==> r + 3 <= s@.len(),
    decreases s@.len() - i,
{
    if s.len() - i >= 3 {
        if s[i] == b0 && s[i + 1] == b1 && s[i + 2] == b2 {
            i
        } else {
            find3(s, i + 1, b0, b1, b2)
        }
    } else {
        s.len()
    }
}

/// A copy of `s[a..b]` as a fresh vector.
pub fn sub_vec(s: &[u8], a: usize, b: usize) -> (v: Vec<u8>)
    requires
        a <= b <= s@.len(),
    ensures
        v@ == s@.subrange(a as int, b as int),
{
    let mut v: Vec<u8> = Vec::new();
    let mut k: usize = a;
    while k < b
        invariant
            a <= k <= b <= s@.len(),
            v@ == s@.subrange(a as int, k as int),
        decreases b - k,
    {
        v.push(s[k]);
        proof {
            assert(v@ =~= s@.subrange(a as int, k + 1 as int));
        }
        k = k + 1;
    }
    v
}

pub fn bytes_eq(a: &[u8], b: &[u8]) -> (r: bool)
    ensures
        r == (a@ == b@),
{
    if a.len() != b.len() {
        proof {
            assert(a@.len() != b@.len());
        }
        return false;
    }
    let mut k: usize = 0;
    while k < a.len()
        invariant
            k <= a@.len(),
            a@.len() == b@.len(),
            forall|j: int| 0 <= j < k ==> a@[j] == b@[j],
        decreases a@.len() - k,
    {
        if a[k] != b[k] {
            return false;
        }
        k = k + 1;
    }
    proof {
        assert(a@ =~= b@);
    }
    true
}

/// Compares `s[a..b]` with `s[c..d]` without copying either.
pub fn range_eq(s: &[u8], a: usize, b: usize, c: usize, d: usize) -> (r: bool)
    requires
        a <= b <= s@.len(),
        c <= d <= s@.len(),
    ensures
        r == (s@.subrange(a as int, b as int) == s@.subrange(c as int, d as int)),
{
    if b - a != d - c {
        proof {
            assert(s@.subrange(a as int, b as int).len() != s@.subrange(c as int, d as int).len());
        }
        return false;
    }
    let n = b - a;
    let mut k: usize = 0;
    while k < n
        invariant
            k <= n,
            n == b - a == d - c,
            a <= b <= s@.len(),
            c <= d <= s@.len(),
            s@.subrange(a as int, a + k as int) == s@.subrange(c as int, c + k as int),
        decreases n - k,
    {
        if s[a + k] != s[c + k] {
            proof {
                assert(s@.subrange(a as int, b as int)[k as int] != s@.subrange(
                    c as int,
                    d as int,
                )[k as int]);
            }
            return false;
        }
        proof {
            assert(s@.subrange(a as int, a + (k + 1) as int) =~= s@.subrange(
                c as int,
                c + (k + 1) as int,
            ));
        }
        k = k + 1;
    }
    proof {
        assert(s@.subrange(a as int, b as int) =~= s@.subrange(c as int, d as int));
    }
    true
}

} // verus!
