//! The set of attached device identifiers.
use vstd::prelude::*;
use crate::text::{first_index, lemma_first_index_contains};

verus! {

/// The character sequences that a sequence of strings stands for.
pub open spec fn names(v: Seq<String>) -> Seq<Seq<char>> {
    v.map_values(|s: String| s@)
}

/// The members of `a` that `b` does not hold, in the order of `a`.
pub open spec fn without(a: Seq<Seq<char>>, b: Seq<Seq<char>>) -> Seq<Seq<char>>
    decreases a.len(),
{
    if a.len() == 0 {
        a
    } else if b.contains(a.last()) {
        without(a.drop_last(), b)
    } else {
        without(a.drop_last(), b).push(a.last())
    }
}

/// The members of `ids`, each once, in the order in which they first occur.
pub open spec fn first_occurrences(ids: Seq<Seq<char>>) -> Seq<Seq<char>>
    decreases ids.len(),
{
    if ids.len() == 0 {
        ids
    } else if first_occurrences(ids.drop_last()).contains(ids.last()) {
        first_occurrences(ids.drop_last())
    } else {
        first_occurrences(ids.drop_last()).push(ids.last())
    }
}

/// `first_occurrences(ids)` holds what `ids` holds, and nothing twice.
pub proof fn lemma_first_occurrences(ids: Seq<Seq<char>>)
    ensures
        first_occurrences(ids).to_set() == ids.to_set(),
        first_occurrences(ids).no_duplicates(),
    decreases ids.len(),
{
    if ids.len() == 0 {
        assert(first_occurrences(ids).to_set() =~= ids.to_set());
    } else {
        let front = ids.drop_last();
        let x = ids.last();
        lemma_first_occurrences(front);
        assert(ids =~= front.push(x));
        front.lemma_push_to_set_commute(x);
        first_occurrences(front).lemma_push_to_set_commute(x);
        assert(first_occurrences(ids).to_set() =~= ids.to_set());
    }
}

/// `without(a, b)` holds what `a` holds and `b` does not, and nothing twice
/// when `a` holds nothing twice.
pub proof fn lemma_without(a: Seq<Seq<char>>, b: Seq<Seq<char>>)
    ensures
        forall|id: Seq<char>| #[trigger]
            without(a, b).contains(id) <==> a.contains(id) && !b.contains(id),
        a.no_duplicates() ==> without(a, b).no_duplicates(),
        without(a, b).len() <= a.len(),
    decreases a.len(),
{
    if a.len() > 0 {
        let front = a.drop_last();
        let x = a.last();
        lemma_without(front, b);
        assert(a =~= front.push(x));
        assert forall|id: Seq<char>| #[trigger]
            without(a, b).contains(id) <==> a.contains(id) && !b.contains(id) by {
            if a.contains(id) {
                let k = choose|k: int| 0 <= k < a.len() && a[k] == id;
                if k < front.len() {
                    assert(front[k] == id);
                }
            }
            if front.contains(id) {
                let k = choose|k: int| 0 <= k < front.len() && front[k] == id;
                assert(a[k] == id);
            }
            if !b.contains(x) {
                let w = without(front, b);
                assert(w.push(x)[w.len() as int] == x);
                if w.contains(id) {
                    let k = choose|k: int| 0 <= k < w.len() && w[k] == id;
                    assert(w.push(x)[k] == id);
                }
            }
        }
        if a.no_duplicates() && !b.contains(x) {
            assert(front.no_duplicates());
            if front.contains(x) {
                let k = choose|k: int| 0 <= k < front.len() && front[k] == x;
                assert(a[k] == a[a.len() - 1]);
            }
            assert(!without(front, b).contains(x));
        }
    }
}

/// The index of the first string in `ids` that reads `id`, or the length.
pub fn find_name(ids: &Vec<String>, id: &String) -> (at: usize)
    ensures
        at == first_index(names(ids@), id@, 0),
        at <= ids@.len(),
        at < ids@.len() <==> names(ids@).contains(id@),
{
    let mut i: usize = 0;
    while i < ids.len() && !(ids[i] == *id)
        invariant
            i <= ids.len(),
            first_index(names(ids@), id@, 0) == first_index(names(ids@), id@, i as int),
        decreases ids.len() - i,
    {
        assert(names(ids@)[i as int] == ids@[i as int]@);
        i = i + 1;
    }
    assert(i < ids.len() ==> names(ids@)[i as int] == ids@[i as int]@);
    proof {
        lemma_first_index_contains(names(ids@), id@);
    }
    i
}

/// A copy of every string in `ids`.
pub fn copy_names(ids: &Vec<String>) -> (out: Vec<String>)
    ensures
        names(out@) == names(ids@),
{
    let mut out: Vec<String> = Vec::new();
    let mut i: usize = 0;
    while i < ids.len()
        invariant
            i <= ids.len(),
            names(out@) == names(ids@).take(i as int),
        decreases ids.len() - i,
    {
        let id = ids[i].clone();
        let ghost before = names(out@);
        out.push(id);
        assert(names(out@) =~= before.push(id@));
        assert(names(ids@).take(i + 1) =~= names(ids@).take(i as int).push(ids@[i as int]@));
        i = i + 1;
    }
    assert(names(ids@).take(ids@.len() as int) =~= names(ids@));
    out
}

/// Device identifiers without repetition, in the order in which they were
/// first inserted. Its view is that sequence; as a set it is `self@.to_set()`.
#[derive(Debug)]
pub struct DeviceSet {
    ids: Vec<String>,
}

impl DeviceSet {
    /// No identifier stands twice.
    #[verifier::type_invariant]
    pub open spec fn distinct(self) -> bool {
        self@.no_duplicates()
    }

    /// The identifiers, in insertion order.
    pub closed spec fn view(self) -> Seq<Seq<char>> {
        names(self.ids@)
    }

    /// The empty set.
    pub fn new() -> (set: DeviceSet)
        ensures
            set@ == Seq::<Seq<char>>::empty(),
    {
        let set = DeviceSet { ids: Vec::new() };
        assert(set@ =~= Seq::<Seq<char>>::empty());
        set
    }

    /// The number of identifiers.
    pub fn len(&self) -> (n: usize)
        ensures
            n == self@.len(),
            self@.no_duplicates(),
    {
        proof {
            use_type_invariant(self);
        }
        self.ids.len()
    }

    /// Whether `id` is a member.
    pub fn contains(&self, id: &String) -> (found: bool)
        ensures
            found == self@.contains(id@),
    {
        find_name(&self.ids, id) < self.ids.len()
    }

    /// Adds `id` unless it is a member already; says whether it was added.
    pub fn insert(&mut self, id: String) -> (added: bool)
        ensures
            added == !old(self)@.contains(id@),
            final(self)@ == if added {
                old(self)@.push(id@)
            } else {
                old(self)@
            },
            final(self)@.no_duplicates(),
    {
        proof {
            use_type_invariant(&*self);
        }
        if self.contains(&id) {
            false
        } else {
            let mut ids: Vec<String> = Vec::new();
            std::mem::swap(&mut ids, &mut self.ids);
            ids.push(id);
            assert(names(ids@) =~= old(self)@.push(id@));
            self.ids = ids;
            true
        }
    }

    /// The identifiers as strings, in insertion order.
    pub fn to_vec(&self) -> (out: Vec<String>)
        ensures
            names(out@) == self@,
            self@.no_duplicates(),
    {
        proof {
            use_type_invariant(self);
        }
        copy_names(&self.ids)
    }

    /// The set that holds each string of `ids`, in the order of first
    /// occurrence.
    pub fn from_vec(ids: Vec<String>) -> (set: DeviceSet)
        ensures
            set@ == first_occurrences(names(ids@)),
            set@.to_set() == names(ids@).to_set(),
            set@.no_duplicates(),
    {
        let mut set = DeviceSet::new();
        let mut ids = ids;
        let ghost all = names(ids@);
        let mut i: usize = 0;
        while i < ids.len()
            invariant
                i <= ids.len(),
                names(ids@) == all,
                set@ == first_occurrences(all.take(i as int)),
            decreases ids.len() - i,
        {
            let ghost before = set@;
            let id = ids[i].clone();
            set.insert(id);
            proof {
                assert(all.take(i + 1).drop_last() =~= all.take(i as int));
                assert(all.take(i + 1).last() == all[i as int]);
            }
            i = i + 1;
        }
        proof {
            assert(all.take(ids@.len() as int) =~= all);
            lemma_first_occurrences(all);
        }
        set
    }

    /// The members that `other` does not hold, in this set's order.
    pub fn minus(&self, other: &DeviceSet) -> (out: Vec<String>)
        ensures
            names(out@) == without(self@, other@),
    {
        let mut out: Vec<String> = Vec::new();
        let mut i: usize = 0;
        assert(self@.take(0) =~= Seq::<Seq<char>>::empty());
        while i < self.ids.len()
            invariant
                i <= self.ids.len(),
                names(out@) == without(self@.take(i as int), other@),
            decreases self.ids.len() - i,
        {
            let ghost prefix = self@.take(i as int);
            proof {
                assert(self@.take(i + 1).drop_last() =~= prefix);
                assert(self@.take(i + 1).last() == self@[i as int]);
            }
            if !other.contains(&self.ids[i]) {
                let ghost before = names(out@);
                out.push(self.ids[i].clone());
                assert(names(out@) =~= before.push(self@[i as int]));
            }
            i = i + 1;
        }
        assert(self@.take(self@.len() as int) =~= self@);
        out
    }
}

} // verus!
