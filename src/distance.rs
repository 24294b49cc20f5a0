//! Positional mismatch count between two strings.

use vstd::prelude::*;
use vstd::string::*;

verus! {

/// Number of positions `i < n` at which `a` and `b` hold different characters.
pub open spec fn count_diff(a: Seq<char>, b: Seq<char>, n: int) -> nat
    decreases n,
{
    if n <= 0 {
        0
    } else {
        count_diff(a, b, n - 1) + if a[n - 1] != b[n - 1] { 1nat } else { 0nat }
    }
}

/// The distance of two character sequences: `None` when their lengths differ,
/// else the number of positions where they differ.
pub open spec fn distance_of(a: Seq<char>, b: Seq<char>) -> Option<nat> {
    if a.len() == b.len() {
        Some(count_diff(a, b, a.len() as int))
    } else {
        None
    }
}

/// Hamming distance of two strings, or `None` when their lengths differ.
pub fn distance(a: &String, b: &String) -> (r: Option<u16>)
    requires
        a@.len() == b@.len() ==> a@.len() <= u16::MAX,
    ensures
        match r {
            Some(d) => distance_of(a@, b@) == Some(d as nat),
            None => distance_of(a@, b@) is None,
        },
{
    let sa = a.as_str();
    let sb = b.as_str();
    let n = sa.unicode_len();
    if n != sb.unicode_len() {
        return None;
    }
    let mut count: u16 = 0;
    let mut i: usize = 0;
    while i < n
        invariant
            sa@ == a@,
            sb@ == b@,
            n == a@.len(),
            n == b@.len(),
            n <= u16::MAX,
            i <= n,
            count as nat == count_diff(a@, b@, i as int),
            count_diff(a@, b@, i as int) <= i,
        decreases n - i,
    {
        if sa.get_char(i) != sb.get_char(i) {
            count = count + 1;
        }
        i = i + 1;
    }
    Some(count)
}

/// The mismatch count never exceeds the number of positions compared.
pub proof fn lemma_count_diff_bounded(a: Seq<char>, b: Seq<char>, n: int)
    requires
        n >= 0,
    ensures
        count_diff(a, b, n) <= n,
    decreases n,
{
    if n > 0 {
        lemma_count_diff_bounded(a, b, n - 1);
    }
}

/// The mismatch count does not depend on the order of its arguments.
pub proof fn lemma_count_diff_symmetric(a: Seq<char>, b: Seq<char>, n: int)
    ensures
        count_diff(a, b, n) == count_diff(b, a, n),
    decreases n,
{
    if n > 0 {
        lemma_count_diff_symmetric(a, b, n - 1);
    }
}

/// The mismatch count over the first `n` positions is zero exactly when
/// the two sequences agree on all of them.
pub proof fn lemma_count_diff_zero(a: Seq<char>, b: Seq<char>, n: int)
    requires
        n >= 0,
    ensures
        count_diff(a, b, n) == 0 <==> forall|i: int| 0 <= i < n ==> a[i] == b[i],
    decreases n,
{
    if n > 0 {
        lemma_count_diff_zero(a, b, n - 1);
    }
}

/// On strings of equal length, the distance is a number no larger than the
/// length, the same in both argument orders, and zero exactly when the
/// strings are equal.
pub proof fn law_distance_equal_lengths(a: Seq<char>, b: Seq<char>)
    requires
        a.len() == b.len(),
    ensures
        distance_of(a, b) == Some(count_diff(a, b, a.len() as int)),
        count_diff(a, b, a.len() as int) <= a.len(),
        distance_of(a, b) == distance_of(b, a),
        distance_of(a, b) == Some(0nat) <==> a == b,
{
    lemma_count_diff_bounded(a, b, a.len() as int);
    lemma_count_diff_symmetric(a, b, a.len() as int);
    lemma_count_diff_zero(a, b, a.len() as int);
    if count_diff(a, b, a.len() as int) == 0 {
        assert(a =~= b);
    }
}

/// On strings of different lengths there is no numeric distance.
pub proof fn law_distance_unequal_lengths(a: Seq<char>, b: Seq<char>)
    requires
        a.len() != b.len(),
    ensures
        distance_of(a, b) is None,
        distance_of(b, a) is None,
{
}

} // verus!
