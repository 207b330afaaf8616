//! Character-level comparisons on string slices.

use vstd::prelude::*;
use vstd::string::*;

verus! {

/// `a` and `b` hold the same characters.
pub fn str_eq(a: &str, b: &str) -> (r: bool)
    ensures
        r == (a@ == b@),
{
    let n = a.unicode_len();
    if n != b.unicode_len() {
        return false;
    }
    let mut i: usize = 0;
    while i < n
        invariant
            n == a@.len(),
            n == b@.len(),
            i <= n,
            forall|j: int| 0 <= j < i ==> a@[j] == b@[j],
        decreases n - i,
    {
        if a.get_char(i) != b.get_char(i) {
            return false;
        }
        i = i + 1;
    }
    assert(a@ =~= b@);
    true
}

/// `a` holds two consecutive `.` characters.
pub open spec fn has_dot_dot(a: Seq<char>) -> bool {
    exists|j: int| 0 <= j && j + 1 < a.len() && #[trigger] dot_dot_at(a, j)
}

pub open spec fn dot_dot_at(a: Seq<char>, j: int) -> bool {
    a[j] == '.' && a[j + 1] == '.'
}

pub fn contains_dot_dot(a: &str) -> (r: bool)
    ensures
        r == has_dot_dot(a@),
{
    let n = a.unicode_len();
    let mut i: usize = 0;
    while n > 0 && i < n - 1
        invariant
            n == a@.len(),
            i <= n,
            forall|j: int| 0 <= j < i && j + 1 < n ==> !#[trigger] dot_dot_at(a@, j),
        decreases n - i,
    {
        if a.get_char(i) == '.' && a.get_char(i + 1) == '.' {
            assert(dot_dot_at(a@, i as int));
            return true;
        }
        i = i + 1;
    }
    false
}

/// `a` begins with the character `c`.
pub fn starts_with_char(a: &str, c: char) -> (r: bool)
    ensures
        r == (a@.len() > 0 && a@[0] == c),
{
    a.unicode_len() > 0 && a.get_char(0) == c
}

} // verus!
