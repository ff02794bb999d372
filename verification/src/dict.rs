use vstd::prelude::*;
use std::sync::Arc;
use crate::text::{string_from, str_eq};

verus! {

/// A persistent dictionary from names to entries: a list of named entries,
/// where a name found earlier in the list hides the same name later.
#[derive(Debug)]
pub enum Dict<T> {
    Null,
    Cons { name: String, entry: T, next: Arc<Dict<T>> },
}

/// A shared copy of the same allocation: `Arc::clone`.
#[verifier::external_body]
pub(crate) fn share<T>(a: &Arc<T>) -> (r: Arc<T>)
    ensures
        r == *a,
{
    Arc::clone(a)
}

/// `b` is `a`, a clone of `a`, or a clone of a clone of `a`.
pub open spec fn cloned_twice<T: Clone>(a: T, b: T) -> bool {
    cloned(a, b) || exists|c: T| cloned(a, c) && #[trigger] cloned(c, b)
}

/// The same name, and an entry cloned at most two clones deep.
pub open spec fn pair_cloned<T: Clone>(x: (Seq<char>, T), y: (Seq<char>, T)) -> bool {
    x.0 == y.0 && cloned_twice(x.1, y.1)
}

/// Two lists of named entries with the same names in the same places, where
/// each entry of `b` is `a`'s entry or a clone of it, at most two clones
/// deep, and the first entry at most one clone deep.
pub open spec fn entries_cloned<T: Clone>(a: Seq<(Seq<char>, T)>, b: Seq<(Seq<char>, T)>) -> bool {
    &&& a.len() == b.len()
    &&& forall|i: int| #![trigger a[i]] 0 <= i < a.len() ==> pair_cloned(a[i], b[i])
    &&& a.len() > 0 ==> cloned(a[0].1, b[0].1)
}

/// Replaces the entry of the first pair named `name`, or adds the pair at
/// the end when no pair has that name.
pub open spec fn insert_entries<T>(es: Seq<(Seq<char>, T)>, name: Seq<char>, entry: T) -> Seq<(Seq<char>, T)>
    decreases es.len(),
{
    if es.len() == 0 {
        seq![(name, entry)]
    } else if es[0].0 == name {
        es.update(0, (name, entry))
    } else {
        seq![es[0]] + insert_entries(es.drop_first(), name, entry)
    }
}

/// The entry of the first pair named `name`.
pub open spec fn lookup_entries<T>(es: Seq<(Seq<char>, T)>, name: Seq<char>) -> Option<T>
    decreases es.len(),
{
    if es.len() == 0 {
        None
    } else if es[0].0 == name {
        Some(es[0].1)
    } else {
        lookup_entries(es.drop_first(), name)
    }
}

impl<T> Dict<T> {
    /// The named entries, first to last.
    pub open spec fn entries(&self) -> Seq<(Seq<char>, T)>
        decreases self,
    {
        match self {
            Dict::Null => Seq::empty(),
            Dict::Cons { name, entry, next } => seq![(name@, *entry)] + next.entries(),
        }
    }

    /// The entry that `find` gives for `name`.
    pub open spec fn lookup(&self, name: Seq<char>) -> Option<T> {
        lookup_entries(self.entries(), name)
    }

    /// The empty dictionary.
    pub fn new() -> (d: Self)
        ensures
            d.entries() == Seq::<(Seq<char>, T)>::empty(),
    {
        Dict::Null
    }

    /// A dictionary with the single entry `entry` named `name`.
    pub fn unit(name: &str, entry: T) -> (d: Self)
        ensures
            d.entries() == seq![(name@, entry)],
    {
        let d = Dict::Cons { name: string_from(name), entry, next: Arc::new(Dict::Null) };
        proof {
            let nul = Dict::<T>::Null;
            assert(nul.entries() =~= Seq::<(Seq<char>, T)>::empty());
            assert(d.entries() == seq![(name@, entry)] + nul.entries());
            assert(d.entries() =~= seq![(name@, entry)]);
        }
        d
    }

    /// The entry of the first pair named `name`.
    pub fn find(&self, name: &str) -> (r: Option<&T>)
        ensures
            match r {
                Some(x) => self.lookup(name@) == Some(*x),
                None => self.lookup(name@) is None,
            },
        decreases self,
    {
        match self {
            Dict::Null => None,
            Dict::Cons { name: head_name, entry: head_entry, next } => {
                if str_eq(head_name.as_str(), name) {
                    Some(head_entry)
                } else {
                    proof {
                        assert(self.entries().drop_first() =~= next.entries());
                    }
                    next.find(name)
                }
            },
        }
    }
}

impl<T: Clone> Dict<T> {
    /// The same dictionary, its first entry cloned.
    fn shallow_copy(&self) -> (d: Self)
        ensures
            d.entries().len() == self.entries().len(),
            d.entries().len() > 0 ==> d.entries()[0].0 == self.entries()[0].0
                && cloned(self.entries()[0].1, d.entries()[0].1),
            forall|i: int| 1 <= i < d.entries().len() ==> #[trigger] d.entries()[i] == self.entries()[i],
    {
        match self {
            Dict::Null => Dict::Null,
            Dict::Cons { name, entry, next } => {
                let d = Dict::Cons { name: name.clone(), entry: entry.clone(), next: share(next) };
                d
            },
        }
    }

    /// This dictionary with `entry`, named `name`, put in front.
    pub fn extend(&self, name: &str, entry: T) -> (d: Self)
        ensures
            d.entries().len() == self.entries().len() + 1,
            d.entries()[0] == (name@, entry),
            d.entries().len() > 1 ==> d.entries()[1].0 == self.entries()[0].0
                && cloned(self.entries()[0].1, d.entries()[1].1),
            forall|i: int| 2 <= i < d.entries().len() ==> #[trigger] d.entries()[i] == self.entries()[i - 1],
    {
        let copy = self.shallow_copy();
        let d = Dict::Cons { name: string_from(name), entry, next: Arc::new(copy) };
        proof {
            assert(d.entries() == seq![(name@, entry)] + copy.entries());
        }
        d
    }

    /// This dictionary with the entry of the first pair named `name`
    /// replaced by `entry`, or with the pair added at the end when no pair
    /// has that name.  Entries kept from this dictionary may be clones.
    pub fn insert(&self, name: &str, entry: T) -> (d: Self)
        ensures
            entries_cloned(insert_entries(self.entries(), name@, entry), d.entries()),
        decreases self,
    {
        match self {
            Dict::Null => {
                Dict::unit(name, entry)
            },
            Dict::Cons { name: head_name, entry: head_entry, next } => {
                let ghost es = self.entries();
                proof {
                    assert(es.drop_first() =~= next.entries());
                }
                if str_eq(head_name.as_str(), name) {
                    let d = next.extend(head_name.as_str(), entry);
                    proof {
                        let want = insert_entries(es, name@, entry);
                        assert(want =~= es.update(0, (name@, entry)));
                        assert forall|i: int| 0 <= i < want.len() implies #[trigger] pair_cloned(want[i], d.entries()[i]) by {
                            if i >= 2 {
                                assert(d.entries()[i] == next.entries()[i - 1]);
                            }
                        }
                    }
                    d
                } else {
                    let rest = next.insert(name, entry);
                    let he = head_entry.clone();
                    let ghost he_copy = he;
                    let d = rest.extend(head_name.as_str(), he);
                    proof {
                        assert(cloned(*head_entry, he_copy));
                        assert(d.entries()[0] == (head_name@, he_copy));
                        assert(es[0] == (head_name@, *head_entry));
                        let tail = insert_entries(next.entries(), name@, entry);
                        let want = insert_entries(es, name@, entry);
                        assert(want =~= seq![es[0]] + tail);
                        assert forall|i: int| 0 <= i < want.len() implies #[trigger] pair_cloned(want[i], d.entries()[i]) by {
                            if i == 0 {
                                assert(cloned_twice(want[0].1, d.entries()[0].1));
                            } else if i == 1 {
                                assert(want[1] == tail[0]);
                                assert(tail[0].0 == rest.entries()[0].0);
                                assert(cloned(tail[0].1, rest.entries()[0].1));
                                assert(cloned(rest.entries()[0].1, d.entries()[1].1));
                                assert(cloned_twice(want[1].1, d.entries()[1].1));
                            } else {
                                assert(d.entries()[i] == rest.entries()[i - 1]);
                                assert(want[i] == tail[i - 1]);
                                assert(tail[i - 1].0 == rest.entries()[i - 1].0 && cloned_twice(tail[i - 1].1, rest.entries()[i - 1].1));
                            }
                        }
                    }
                    d
                }
            },
        }
    }
}

proof fn lemma_lookup_insert<T>(es: Seq<(Seq<char>, T)>, name: Seq<char>, other: Seq<char>, entry: T)
    ensures
        lookup_entries(insert_entries(es, name, entry), name) == Some(entry),
        other != name ==> lookup_entries(insert_entries(es, name, entry), other) == lookup_entries(es, other),
    decreases es.len(),
{
    let r = insert_entries(es, name, entry);
    if es.len() > 0 {
        if es[0].0 == name {
            assert(r.drop_first() =~= es.drop_first());
            assert(r[0].0 == name);
            if other != name {
                assert(lookup_entries(r, other) == lookup_entries(r.drop_first(), other));
                assert(lookup_entries(es, other) == lookup_entries(es.drop_first(), other));
            }
        } else {
            lemma_lookup_insert(es.drop_first(), name, other, entry);
            assert(r.drop_first() =~= insert_entries(es.drop_first(), name, entry));
        }
    } else {
        assert(r.drop_first() =~= Seq::<(Seq<char>, T)>::empty());
    }
}

proof fn lemma_lookup_cloned<T: Clone>(a: Seq<(Seq<char>, T)>, b: Seq<(Seq<char>, T)>, name: Seq<char>)
    requires
        a.len() == b.len(),
        forall|i: int| #![trigger a[i]] 0 <= i < a.len() ==> pair_cloned(a[i], b[i]),
    ensures
        (lookup_entries(a, name) is Some) == (lookup_entries(b, name) is Some),
        lookup_entries(a, name) is Some ==> cloned_twice(lookup_entries(a, name)->0, lookup_entries(b, name)->0),
    decreases a.len(),
{
    if a.len() > 0 {
        assert(pair_cloned(a[0], b[0]));
        if a[0].0 != name {
            assert forall|i: int| #![trigger a.drop_first()[i]] 0 <= i < a.drop_first().len() implies pair_cloned(a.drop_first()[i], b.drop_first()[i]) by {
                assert(pair_cloned(a[i + 1], b[i + 1]));
            }
            lemma_lookup_cloned(a.drop_first(), b.drop_first(), name);
        }
    }
}

/// After `d2 = d.insert(name, entry)`, finding `name` in `d2` gives `entry`
/// (or a clone of it), and finding any other name gives what `d` gives (or
/// a clone of it).
pub proof fn law_find_after_insert<T: Clone>(d: Dict<T>, d2: Dict<T>, name: Seq<char>, other: Seq<char>, entry: T)
    requires
        entries_cloned(insert_entries(d.entries(), name, entry), d2.entries()),
    ensures
        d2.lookup(name) is Some,
        cloned_twice(entry, d2.lookup(name)->0),
        other != name ==> (d2.lookup(other) is Some) == (d.lookup(other) is Some),
        other != name && d.lookup(other) is Some ==> cloned_twice(d.lookup(other)->0, d2.lookup(other)->0),
{
    let a = insert_entries(d.entries(), name, entry);
    lemma_lookup_insert(d.entries(), name, other, entry);
    lemma_lookup_cloned(a, d2.entries(), name);
    lemma_lookup_cloned(a, d2.entries(), other);
}

/// After `d2 = d.extend(name, entry)`, finding `name` in `d2` gives exactly
/// `entry`, and finding any other name gives what `d` gives (or a clone of
/// it).
pub proof fn law_find_after_extend<T: Clone>(d: Dict<T>, d2: Dict<T>, name: Seq<char>, other: Seq<char>, entry: T)
    requires
        d2.entries().len() == d.entries().len() + 1,
        d2.entries()[0] == (name, entry),
        d2.entries().len() > 1 ==> d2.entries()[1].0 == d.entries()[0].0
            && cloned(d.entries()[0].1, d2.entries()[1].1),
        forall|i: int| 2 <= i < d2.entries().len() ==> #[trigger] d2.entries()[i] == d.entries()[i - 1],
    ensures
        d2.lookup(name) == Some(entry),
        other != name ==> (d2.lookup(other) is Some) == (d.lookup(other) is Some),
        other != name && d.lookup(other) is Some ==> cloned_twice(d.lookup(other)->0, d2.lookup(other)->0),
{
    let a = d.entries();
    let b = d2.entries().drop_first();
    assert forall|i: int| #![trigger a[i]] 0 <= i < a.len() implies pair_cloned(a[i], b[i]) by {
        if i > 0 {
            assert(b[i] == d2.entries()[i + 1]);
        }
    }
    lemma_lookup_cloned(a, b, other);
}

/// A name is never found in the empty dictionary.
pub proof fn law_find_in_new<T>(d: Dict<T>, name: Seq<char>)
    requires
        d.entries() == Seq::<(Seq<char>, T)>::empty(),
    ensures
        d.lookup(name) is None,
{
}

/// The names of pairs, in order.
pub open spec fn entry_names<T>(es: Seq<(Seq<char>, T)>) -> Seq<Seq<char>> {
    es.map_values(|p: (Seq<char>, T)| p.0)
}

/// Inserting keeps the order of names: where a pair is named `name`, the
/// names stay as they were, only the first such pair's entry changes, and
/// every other pair stays; else `name` comes after the others.
pub proof fn law_insert_names<T>(es: Seq<(Seq<char>, T)>, name: Seq<char>, entry: T)
    ensures
        entry_names(es).contains(name) ==> entry_names(insert_entries(es, name, entry)) == entry_names(es),
        !entry_names(es).contains(name) ==> insert_entries(es, name, entry) == es.push((name, entry)),
    decreases es.len(),
{
    let r = insert_entries(es, name, entry);
    if es.len() > 0 {
        if es[0].0 == name {
            assert(entry_names(es)[0] == name);
            assert(entry_names(r) =~= entry_names(es));
        } else {
            law_insert_names(es.drop_first(), name, entry);
            let rest = es.drop_first();
            if entry_names(es).contains(name) {
                let i = choose|i: int| 0 <= i < entry_names(es).len() && entry_names(es)[i] == name;
                assert(i > 0);
                assert(entry_names(rest)[i - 1] == name);
                assert(entry_names(rest).contains(name));
                assert(entry_names(r) =~= seq![es[0].0] + entry_names(insert_entries(rest, name, entry)));
                assert(entry_names(es) =~= seq![es[0].0] + entry_names(rest));
            } else {
                assert forall|i: int| 0 <= i < entry_names(rest).len() implies entry_names(rest)[i] != name by {
                    assert(entry_names(es)[i + 1] == entry_names(rest)[i]);
                }
                assert(!entry_names(rest).contains(name));
                assert(insert_entries(rest, name, entry) == rest.push((name, entry)));
                assert(r == seq![es[0]] + insert_entries(rest, name, entry));
                assert(r =~= es.push((name, entry)));
            }
        }
    } else {
        assert(r =~= es.push((name, entry)));
    }
}

} // verus!
