//! Where products come from: a local overlay of product entries that takes
//! precedence over a remote base map, and the ordered list of refs tried
//! when a working copy is checked out.

use vstd::prelude::*;

verus! {

/// One product's entry in a source map.
pub enum RepoEntry {
    /// The entry is a plain clone URL.
    Url(String),
    /// The entry names a clone URL and, optionally, the ref the product is based on.
    Detailed { url: String, git_ref: Option<String> },
    /// The key is present but yields no URL.
    Missing,
}

/// The clone URL an entry yields, if any.
pub open spec fn entry_url(e: RepoEntry) -> Option<Seq<char>> {
    match e {
        RepoEntry::Url(u) => Some(u@),
        RepoEntry::Detailed { url, .. } => Some(url@),
        RepoEntry::Missing => None,
    }
}

/// The pinned ref an entry carries, if any.
pub open spec fn entry_ref(e: RepoEntry) -> Option<Seq<char>> {
    match e {
        RepoEntry::Detailed { git_ref: Some(r), .. } => Some(r@),
        _ => None,
    }
}

/// The first entry stored under `name`, if any.
pub open spec fn find_entry(entries: Seq<(String, RepoEntry)>, name: Seq<char>) -> Option<RepoEntry>
    decreases entries.len(),
{
    if entries.len() == 0 {
        None
    } else if entries[0].0@ == name {
        Some(entries[0].1)
    } else {
        find_entry(entries.drop_first(), name)
    }
}

/// `find_entry` finds the entry at the first position holding `name`.
pub proof fn lemma_find_first(entries: Seq<(String, RepoEntry)>, name: Seq<char>, i: int)
    requires
        0 <= i < entries.len(),
        entries[i].0@ == name,
        forall|j: int| 0 <= j < i ==> (#[trigger] entries[j]).0@ != name,
    ensures
        find_entry(entries, name) == Some(entries[i].1),
    decreases i,
{
    if i > 0 {
        let rest = entries.drop_first();
        assert forall|j: int| 0 <= j < i - 1 implies (#[trigger] rest[j]).0@ != name by {
            assert(rest[j] == entries[j + 1]);
        };
        lemma_find_first(rest, name, i - 1);
    }
}

/// `find_entry` finds nothing where no position holds `name`, and the
/// converse.
pub proof fn lemma_find_none(entries: Seq<(String, RepoEntry)>, name: Seq<char>)
    ensures
        find_entry(entries, name) is None <==> forall|j: int|
            0 <= j < entries.len() ==> (#[trigger] entries[j]).0@ != name,
    decreases entries.len(),
{
    if entries.len() > 0 {
        let rest = entries.drop_first();
        lemma_find_none(rest, name);
        if find_entry(entries, name) is None {
            assert forall|j: int| 0 <= j < entries.len() implies (#[trigger] entries[j]).0@ != name by {
                if j > 0 {
                    assert(rest[j - 1] == entries[j]);
                }
            };
        } else if entries[0].0@ != name {
            let j = choose|j: int| 0 <= j < rest.len() && (#[trigger] rest[j]).0@ == name;
            assert(entries[j + 1] == rest[j]);
        }
    }
}

/// A mapping from product name to entry, in the order it was read; each
/// name is a key at most once.
pub struct ProductMap {
    entries: Vec<(String, RepoEntry)>,
}

impl ProductMap {
    /// The entries, in order.
    pub closed spec fn entries_view(&self) -> Seq<(String, RepoEntry)> {
        self.entries@
    }

    /// The keys, in order.
    pub open spec fn keys(&self) -> Seq<Seq<char>> {
        self.entries_view().map_values(|e: (String, RepoEntry)| e.0@)
    }

    /// No key is held twice.
    pub open spec fn wf(&self) -> bool {
        self.keys().no_duplicates()
    }

    /// The entry stored under `name`.
    pub open spec fn lookup(&self, name: Seq<char>) -> Option<RepoEntry> {
        find_entry(self.entries_view(), name)
    }

    /// Whether `name` is a key of the map.
    pub open spec fn has_key(&self, name: Seq<char>) -> bool {
        self.lookup(name) is Some
    }

    /// An empty map.
    pub fn new() -> (r: ProductMap)
        ensures
            r.wf(),
            r.keys().len() == 0,
    {
        let r = ProductMap { entries: Vec::new() };
        assert(r.keys() =~= Seq::<Seq<char>>::empty());
        r
    }

    /// The number of keys.
    pub fn len(&self) -> (r: usize)
        ensures
            r == self.keys().len(),
    {
        self.entries.len()
    }

    /// Stores `entry` under `name`: in place of the entry already stored
    /// there, or as a new last key.
    pub fn insert(&mut self, name: String, entry: RepoEntry)
        requires
            old(self).wf(),
        ensures
            final(self).wf(),
            final(self).lookup(name@) == Some(entry),
            forall|k: Seq<char>| k != name@ ==> #[trigger] final(self).lookup(k) == old(self).lookup(k),
            final(self).keys() == if old(self).has_key(name@) {
                old(self).keys()
            } else {
                old(self).keys().push(name@)
            },
    {
        let ghost old_e = self.entries@;
        let ghost nm = name@;
        let ghost keys0 = self.keys();
        match self.position(&name) {
            Some(i) => {
                self.entries.set(i, (name, entry));
                proof {
                    let e2 = self.entries@;
                    assert(self.keys() =~= keys0) by {
                        assert forall|j: int| 0 <= j < e2.len() implies #[trigger] self.keys()[j] == keys0[j] by {
                            if j != i {
                                assert(e2[j] == old_e[j]);
                            }
                        };
                    };
                    assert forall|j: int| 0 <= j < i implies (#[trigger] e2[j]).0@ != nm by {
                        assert(e2[j] == old_e[j]);
                        assert(keys0[j] != keys0[i as int]);
                    };
                    lemma_find_first(e2, nm, i as int);
                    assert forall|k: Seq<char>| k != nm implies #[trigger] find_entry(e2, k) == find_entry(old_e, k) by {
                        lemma_find_none(old_e, k);
                        lemma_find_none(e2, k);
                        if find_entry(old_e, k) is Some {
                            let m = choose|m: int| 0 <= m < old_e.len() && (#[trigger] old_e[m]).0@ == k;
                            let m0 = Self::first_holding(old_e, k, m);
                            assert(e2[m0] == old_e[m0]);
                            assert forall|j: int| 0 <= j < m0 implies (#[trigger] e2[j]).0@ != k by {
                                if j != i {
                                    assert(e2[j] == old_e[j]);
                                }
                            };
                            lemma_find_first(old_e, k, m0);
                            lemma_find_first(e2, k, m0);
                        } else {
                            assert forall|j: int| 0 <= j < e2.len() implies (#[trigger] e2[j]).0@ != k by {
                                if j != i {
                                    assert(e2[j] == old_e[j]);
                                }
                            };
                        }
                    };
                }
            },
            None => {
                self.entries.push((name, entry));
                proof {
                    let e2 = self.entries@;
                    let n0 = old_e.len() as int;
                    lemma_find_none(old_e, nm);
                    assert(self.keys() =~= keys0.push(nm)) by {
                        assert forall|j: int| 0 <= j < n0 implies #[trigger] self.keys()[j] == keys0[j] by {
                            assert(e2[j] == old_e[j]);
                        };
                    };
                    assert(!keys0.contains(nm)) by {
                        if keys0.contains(nm) {
                            let j = choose|j: int| 0 <= j < keys0.len() && keys0[j] == nm;
                            assert(old_e[j].0@ == nm);
                        }
                    };
                    assert forall|j: int| 0 <= j < n0 implies (#[trigger] e2[j]).0@ != nm by {
                        assert(e2[j] == old_e[j]);
                    };
                    lemma_find_first(e2, nm, n0);
                    assert forall|k: Seq<char>| k != nm implies #[trigger] find_entry(e2, k) == find_entry(old_e, k) by {
                        lemma_find_none(old_e, k);
                        lemma_find_none(e2, k);
                        if find_entry(old_e, k) is Some {
                            let m = choose|m: int| 0 <= m < old_e.len() && (#[trigger] old_e[m]).0@ == k;
                            let m0 = Self::first_holding(old_e, k, m);
                            assert(e2[m0] == old_e[m0]);
                            assert forall|j: int| 0 <= j < m0 implies (#[trigger] e2[j]).0@ != k by {
                                assert(e2[j] == old_e[j]);
                            };
                            lemma_find_first(old_e, k, m0);
                            lemma_find_first(e2, k, m0);
                        } else {
                            assert forall|j: int| 0 <= j < e2.len() implies (#[trigger] e2[j]).0@ != k by {
                                if j < n0 {
                                    assert(e2[j] == old_e[j]);
                                }
                            };
                        }
                    };
                }
            },
        }
    }

    /// The first position holding `k`, given one that does.
    proof fn first_holding(entries: Seq<(String, RepoEntry)>, k: Seq<char>, m: int) -> (r: int)
        requires
            0 <= m < entries.len(),
            entries[m].0@ == k,
        ensures
            0 <= r <= m,
            entries[r].0@ == k,
            forall|j: int| 0 <= j < r ==> (#[trigger] entries[j]).0@ != k,
        decreases m,
    {
        if exists|j: int| 0 <= j < m && (#[trigger] entries[j]).0@ == k {
            let j = choose|j: int| 0 <= j < m && (#[trigger] entries[j]).0@ == k;
            Self::first_holding(entries, k, j)
        } else {
            m
        }
    }

    /// Position of the first entry under `name`.
    fn position(&self, name: &String) -> (r: Option<usize>)
        ensures
            match r {
                Some(i) => i < self.entries@.len() && self.lookup(name@) == Some(
                    self.entries@[i as int].1,
                ) && self.entries@[i as int].0@ == name@,
                None => self.lookup(name@) is None,
            },
    {
        let n = self.entries.len();
        let mut i: usize = 0;
        assert(self.entries@.subrange(0, n as int) =~= self.entries@);
        while i < n
            invariant
                n == self.entries@.len(),
                i <= n,
                find_entry(self.entries@, name@) == find_entry(self.entries@.subrange(i as int, n as int), name@),
            decreases n - i,
        {
            assert(self.entries@.subrange(i as int, n as int).drop_first() =~= self.entries@.subrange(
                i + 1,
                n as int,
            ));
            if self.entries[i].0 == *name {
                return Some(i);
            }
            i = i + 1;
        }
        None
    }

    /// The entry stored under `name`, if any.
    pub fn get(&self, name: &String) -> (r: Option<&RepoEntry>)
        ensures
            match r {
                Some(e) => self.lookup(name@) == Some(*e),
                None => self.lookup(name@) is None,
            },
    {
        match self.position(name) {
            Some(i) => Some(&self.entries[i].1),
            None => None,
        }
    }
}

/// The product-to-source lookup: a local overlay and a remote base map.
pub struct RepoSourceWrapper {
    pub remote_map: ProductMap,
    pub local_map: ProductMap,
}

impl RepoSourceWrapper {
    /// The entry that decides for `name`: the local one when the local map
    /// has the key, else the remote one.
    pub open spec fn entry_for(&self, name: Seq<char>) -> Option<RepoEntry> {
        if self.local_map.has_key(name) {
            self.local_map.lookup(name)
        } else {
            self.remote_map.lookup(name)
        }
    }

    /// The clone URL of `name`, if any.
    pub open spec fn url_for(&self, name: Seq<char>) -> Option<Seq<char>> {
        match self.entry_for(name) {
            Some(e) => entry_url(e),
            None => None,
        }
    }

    /// The ref `name` is pinned to, if any.
    pub open spec fn pinned_ref(&self, name: Seq<char>) -> Option<Seq<char>> {
        match self.entry_for(name) {
            Some(e) => entry_ref(e),
            None => None,
        }
    }

    /// Builds the lookup from a remote map and an optional local overlay; a
    /// missing overlay is an empty one.
    pub fn new(remote: ProductMap, local: Option<ProductMap>) -> (r: RepoSourceWrapper)
        ensures
            r.remote_map == remote,
            match local {
                Some(l) => r.local_map == l,
                None => r.local_map.keys().len() == 0,
            },
    {
        let local_map = match local {
            Some(l) => l,
            None => ProductMap::new(),
        };
        RepoSourceWrapper { remote_map: remote, local_map }
    }

    fn decisive_entry(&self, name: &String) -> (r: Option<&RepoEntry>)
        ensures
            match r {
                Some(e) => self.entry_for(name@) == Some(*e),
                None => self.entry_for(name@) is None,
            },
    {
        match self.local_map.get(name) {
            Some(e) => Some(e),
            None => self.remote_map.get(name),
        }
    }

    /// The clone URL of `product`: from the local overlay when it has the
    /// product, even if that entry yields no URL, else from the remote map.
    pub fn get_url(&self, product: &str) -> (r: Option<&str>)
        ensures
            match r {
                Some(u) => self.url_for(product@) == Some(u@),
                None => self.url_for(product@) is None,
            },
    {
        let name = String::from_str(product);
        match self.decisive_entry(&name) {
            Some(RepoEntry::Url(u)) => Some(u.as_str()),
            Some(RepoEntry::Detailed { url, .. }) => Some(url.as_str()),
            Some(RepoEntry::Missing) => None,
            None => None,
        }
    }

    /// The ref `product` is pinned to, from whichever map has the product first.
    pub fn has_ref(&self, product: &str) -> (r: Option<String>)
        ensures
            match r {
                Some(p) => self.pinned_ref(product@) == Some(p@),
                None => self.pinned_ref(product@) is None,
            },
    {
        let name = String::from_str(product);
        match self.decisive_entry(&name) {
            Some(RepoEntry::Detailed { git_ref: Some(p), .. }) => Some(p.clone()),
            _ => None,
        }
    }
}

/// With an empty local overlay, every lookup is the remote map's.
pub proof fn lemma_empty_overlay(w: RepoSourceWrapper, name: Seq<char>)
    requires
        w.local_map.keys().len() == 0,
    ensures
        w.entry_for(name) == w.remote_map.lookup(name),
        w.url_for(name) == match w.remote_map.lookup(name) {
            Some(e) => entry_url(e),
            None => None,
        },
        w.pinned_ref(name) == match w.remote_map.lookup(name) {
            Some(e) => entry_ref(e),
            None => None,
        },
{
    assert(w.local_map.lookup(name) is None);
}

/// The views of a list of names.
pub open spec fn names_of(v: Seq<String>) -> Seq<Seq<char>> {
    v.map_values(|s: String| s@)
}

/// The ref every preference list falls back to.
pub open spec fn master_ref() -> Seq<char> {
    "master"@
}

/// The preference list of a run: the user's branches, then the fallback.
pub open spec fn preference_list(user: Option<Seq<Seq<char>>>) -> Seq<Seq<char>> {
    match user {
        Some(b) => b.push(master_ref()),
        None => seq![master_ref()],
    }
}

/// The refs tried for one product: without a pin, the run's preference list;
/// with one, that list without the fallback, then the pin.
pub open spec fn candidate_refs(branches: Seq<Seq<char>>, pin: Option<Seq<char>>) -> Seq<Seq<char>> {
    match pin {
        Some(p) => branches.filter(|b: Seq<char>| b != master_ref()).push(p),
        None => branches,
    }
}

/// The run's preference list: the user's branches, in order, then `master`.
pub fn default_branches(user: &Option<Vec<String>>) -> (r: Vec<String>)
    ensures
        names_of(r@) == preference_list(
            match user {
                Some(b) => Some(names_of(b@)),
                None => None,
            },
        ),
{
    let mut r: Vec<String> = Vec::new();
    match user {
        Some(b) => {
            let n = b.len();
            let mut i: usize = 0;
            while i < n
                invariant
                    n == b@.len(),
                    i <= n,
                    names_of(r@) == names_of(b@.subrange(0, i as int)),
                decreases n - i,
            {
                let ghost old_r = r@;
                r.push(b[i].clone());
                assert(r@ =~= old_r.push(b@[i as int]));
                assert(names_of(r@) =~= names_of(old_r).push(b@[i as int]@));
                assert(b@.subrange(0, i + 1) =~= b@.subrange(0, i as int).push(b@[i as int]));
                assert(names_of(r@) =~= names_of(b@.subrange(0, i + 1)));
                i = i + 1;
            }
            assert(b@.subrange(0, n as int) =~= b@);
        },
        None => {},
    }
    let ghost before = r@;
    r.push(String::from_str("master"));
    assert(names_of(r@) =~= names_of(before).push(master_ref()));
    r
}

/// The refs to try for one product, given the run's preference list and the
/// product's pinned ref.
pub fn ref_candidates(branches: &Vec<String>, pin: Option<String>) -> (r: Vec<String>)
    ensures
        names_of(r@) == candidate_refs(
            names_of(branches@),
            match pin {
                Some(p) => Some(p@),
                None => None,
            },
        ),
{
    match pin {
        None => {
            let mut r: Vec<String> = Vec::new();
            let n = branches.len();
            let mut i: usize = 0;
            while i < n
                invariant
                    n == branches@.len(),
                    i <= n,
                    names_of(r@) == names_of(branches@.subrange(0, i as int)),
                decreases n - i,
            {
                let ghost old_r = r@;
                r.push(branches[i].clone());
                assert(r@ =~= old_r.push(branches@[i as int]));
                assert(names_of(r@) =~= names_of(old_r).push(branches@[i as int]@));
                assert(branches@.subrange(0, i + 1) =~= branches@.subrange(0, i as int).push(
                    branches@[i as int],
                ));
                assert(names_of(r@) =~= names_of(branches@.subrange(0, i + 1)));
                i = i + 1;
            }
            assert(branches@.subrange(0, n as int) =~= branches@);
            r
        },
        Some(p) => {
            let master = String::from_str("master");
            let mut r: Vec<String> = Vec::new();
            let n = branches.len();
            let mut i: usize = 0;
            while i < n
                invariant
                    n == branches@.len(),
                    i <= n,
                    master@ == master_ref(),
                    names_of(r@) == names_of(branches@.subrange(0, i as int)).filter(
                        |b: Seq<char>| b != master_ref(),
                    ),
                decreases n - i,
            {
                let ghost before = r@;
                assert(branches@.subrange(0, i + 1) =~= branches@.subrange(0, i as int).push(
                    branches@[i as int],
                ));
                assert(names_of(branches@.subrange(0, i + 1)) =~= names_of(
                    branches@.subrange(0, i as int),
                ).push(branches@[i as int]@));
                proof {
                    names_of(branches@.subrange(0, i as int)).lemma_filter_push(
                        branches@[i as int]@,
                        |b: Seq<char>| b != master_ref(),
                    );
                }
                if branches[i] != master {
                    r.push(branches[i].clone());
                    assert(names_of(r@) =~= names_of(before).push(branches@[i as int]@));
                }
                i = i + 1;
            }
            assert(branches@.subrange(0, n as int) =~= branches@);
            let ghost before = r@;
            r.push(p);
            assert(names_of(r@) =~= names_of(before).push(r@[r@.len() - 1]@));
            r
        },
    }
}

} // verus!
