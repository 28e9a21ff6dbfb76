//! Searching in sequences, and the bridge from `str` to `Vec<char>`.
use vstd::prelude::*;

verus! {

/// The least index at or after `from` at which `s` holds `x`; `s.len()` when
/// there is none.
pub open spec fn first_index<T>(s: Seq<T>, x: T, from: int) -> int
    decreases s.len() - from,
{
    if from < 0 || from >= s.len() {
        s.len() as int
    } else if s[from] == x {
        from
    } else {
        first_index(s, x, from + 1)
    }
}

/// `first_index` lies between `from` and the length, points at `x` when it is
/// below the length, and passes over nothing equal to `x`.
pub proof fn lemma_first_index<T>(s: Seq<T>, x: T, from: int)
    requires
        0 <= from <= s.len(),
    ensures
        from <= first_index(s, x, from) <= s.len(),
        first_index(s, x, from) < s.len() ==> s[first_index(s, x, from)] == x,
        forall|k: int| from <= k < first_index(s, x, from) ==> s[k] != x,
    decreases s.len() - from,
{
    if from < s.len() && s[from] != x {
        lemma_first_index(s, x, from + 1);
    }
}

/// An index that points at `x` (or is the length) and has nothing equal to
/// `x` between `from` and itself is `first_index`.
pub proof fn lemma_first_index_unique<T>(s: Seq<T>, x: T, from: int, at: int)
    requires
        0 <= from <= at <= s.len(),
        at < s.len() ==> s[at] == x,
        forall|k: int| from <= k < at ==> s[k] != x,
    ensures
        first_index(s, x, from) == at,
    decreases at - from,
{
    if from < at {
        lemma_first_index_unique(s, x, from + 1, at);
    }
}

/// `s` holds `x` exactly when `first_index` from the start stays below the
/// length.
pub proof fn lemma_first_index_contains<T>(s: Seq<T>, x: T)
    ensures
        s.contains(x) <==> first_index(s, x, 0) < s.len(),
{
    lemma_first_index(s, x, 0);
    if s.contains(x) {
        let i = choose|i: int| 0 <= i < s.len() && s[i] == x;
        if first_index(s, x, 0) >= s.len() {
            assert(s[i] != x);
        }
    }
}

/// `needle` stands in `hay` at index `at`.
pub open spec fn occurs_at(hay: Seq<char>, needle: Seq<char>, at: int) -> bool {
    &&& 0 <= at
    &&& at + needle.len() <= hay.len()
    &&& hay.subrange(at, at + needle.len()) == needle
}

/// `needle` stands somewhere in `hay`.
pub open spec fn contains_text(hay: Seq<char>, needle: Seq<char>) -> bool {
    exists|at: int| occurs_at(hay, needle, at)
}

/// The characters of a string slice, in order.
pub fn chars_of(s: &str) -> (v: Vec<char>)
    ensures
        v@ == s@,
{
    broadcast use vstd::string::group_string_axioms;

    let mut v: Vec<char> = Vec::new();
    for c in it: s.chars()
        invariant
            it.seq() == s@,
            v@ == it.seq().take(it.index() as int),
    {
        v.push(c);
    }
    v
}

/// The index of the first `c` in `s` at or after `from`, or the length of `s`.
pub fn find_char(s: &Vec<char>, c: char, from: usize) -> (at: usize)
    ensures
        at == first_index(s@, c, from as int),
{
    let mut i: usize = from;
    while i < s.len() && s[i] != c
        invariant
            first_index(s@, c, from as int) == first_index(s@, c, i as int),
        decreases s.len() - i,
    {
        i = i + 1;
    }
    if i > s.len() {
        s.len()
    } else {
        i
    }
}

/// A copy of the characters of `s` from `from` up to, not including, `to`;
/// nothing when that is no range within `s`.
pub fn copy_range(s: &Vec<char>, from: usize, to: usize) -> (out: Vec<char>)
    ensures
        out@ == if from <= to <= s.len() {
            s@.subrange(from as int, to as int)
        } else {
            Seq::empty()
        },
{
    let mut out: Vec<char> = Vec::new();
    if from <= to && to <= s.len() {
        let mut i: usize = from;
        while i < to
            invariant
                from <= i <= to <= s.len(),
                out@ == s@.subrange(from as int, i as int),
            decreases to - i,
        {
            out.push(s[i]);
            i = i + 1;
        }
    }
    out
}

/// Whether `needle` stands in `hay` at index `at`.
pub fn matches_at(hay: &Vec<char>, needle: &Vec<char>, at: usize) -> (hit: bool)
    ensures
        hit == occurs_at(hay@, needle@, at as int),
{
    if needle.len() > hay.len() || at > hay.len() - needle.len() {
        return false;
    }
    let mut k: usize = 0;
    while k < needle.len()
        invariant
            k <= needle.len(),
            at + needle.len() <= hay.len(),
            forall|j: int| 0 <= j < k ==> hay@[at + j] == needle@[j],
        decreases needle.len() - k,
    {
        if hay[at + k] != needle[k] {
            proof {
                let sub = hay@.subrange(at as int, at + needle@.len());
                assert(sub[k as int] == hay@[at + k]);
            }
            return false;
        }
        k = k + 1;
    }
    assert(hay@.subrange(at as int, at + needle@.len()) =~= needle@);
    true
}

/// Whether `needle` stands somewhere in `hay`.
pub fn find_text(hay: &Vec<char>, needle: &Vec<char>) -> (found: bool)
    ensures
        found == contains_text(hay@, needle@),
{
    if needle.len() > hay.len() {
        return false;
    }
    let last: usize = hay.len() - needle.len();
    let mut at: usize = 0;
    loop
        invariant
            last == hay.len() - needle.len(),
            at <= last,
            forall|j: int| 0 <= j < at ==> !occurs_at(hay@, needle@, j),
        decreases last - at,
    {
        if matches_at(hay, needle, at) {
            return true;
        }
        if at == last {
            return false;
        }
        at = at + 1;
    }
}

} // verus!
