//! The module library: which installed module serves each endpoint.
use crate::error::{ErrorKind, ManyError};
use vstd::prelude::*;

verus! {

/// An export of a WebAssembly module: its name and whether it is a function.
pub struct Export {
    pub name: Vec<u8>,
    pub is_function: bool,
}

/// An entry of a lookup table: a name and the index of a module.
pub type Entry = (Seq<u8>, usize);

/// `"endpoint "`, the prefix of the exports that serve endpoints.
pub open spec fn endpoint_prefix() -> Seq<u8> {
    seq![101u8, 110u8, 100u8, 112u8, 111u8, 105u8, 110u8, 116u8, 32u8]
}

/// The endpoint an export serves: the rest of the name of a function export
/// whose name begins with `"endpoint "`.
pub open spec fn endpoint_of(name: Seq<u8>, is_function: bool) -> Option<Seq<u8>> {
    if is_function && name.len() >= 9 && name.subrange(0, 9) == endpoint_prefix() {
        Some(name.subrange(9, name.len() as int))
    } else {
        None
    }
}

/// The endpoints that a module's exports serve, in order.
pub open spec fn endpoint_names(exports: Seq<Export>) -> Seq<Seq<u8>>
    decreases exports.len(),
{
    if exports.len() == 0 {
        Seq::empty()
    } else {
        let rest = endpoint_names(exports.drop_last());
        match endpoint_of(exports.last().name@, exports.last().is_function) {
            Some(e) => rest.push(e),
            None => rest,
        }
    }
}

/// The index that a table gives a name: the latest entry for it.
pub open spec fn lookup(entries: Seq<Entry>, name: Seq<u8>) -> Option<usize>
    decreases entries.len(),
{
    if entries.len() == 0 {
        None
    } else if entries.last().0 == name {
        Some(entries.last().1)
    } else {
        lookup(entries.drop_last(), name)
    }
}

pub open spec fn entries_view(v: Seq<(Vec<u8>, usize)>) -> Seq<Entry> {
    v.map_values(|e: (Vec<u8>, usize)| (e.0@, e.1))
}

pub struct LibraryView<M> {
    pub endpoints: Seq<Entry>,
    pub names: Seq<Entry>,
    pub modules: Seq<M>,
}

/// Modules in the order they were added, with the endpoints and the name each serves.
pub struct ModuleLibrary<M> {
    endpoints: Vec<(Vec<u8>, usize)>,
    names: Vec<(Vec<u8>, usize)>,
    modules: Vec<M>,
}

impl<M> View for ModuleLibrary<M> {
    type V = LibraryView<M>;

    closed spec fn view(&self) -> LibraryView<M> {
        LibraryView {
            endpoints: entries_view(self.endpoints@),
            names: entries_view(self.names@),
            modules: self.modules@,
        }
    }
}

/// Every index names a module, and no endpoint is served by two modules.
pub open spec fn library_wf<M>(l: LibraryView<M>) -> bool {
    &&& forall|i: int| 0 <= i < l.endpoints.len() ==> #[trigger] l.endpoints[i].1 < l.modules.len()
    &&& forall|i: int| 0 <= i < l.names.len() ==> #[trigger] l.names[i].1 < l.modules.len()
    &&& forall|i: int, j: int|
        0 <= i < l.endpoints.len() && 0 <= j < l.endpoints.len() && #[trigger] l.endpoints[i].0
            == #[trigger] l.endpoints[j].0 ==> l.endpoints[i].1 == l.endpoints[j].1
}

/// Some endpoint of `new` is already in the table.
pub open spec fn collides(entries: Seq<Entry>, new: Seq<Seq<u8>>) -> bool {
    exists|k: int| 0 <= k < new.len() && lookup(entries, #[trigger] new[k]) is Some
}

proof fn lemma_lookup_some(entries: Seq<Entry>, name: Seq<u8>)
    ensures
        lookup(entries, name) matches Some(i) ==> exists|j: int|
            0 <= j < entries.len() && #[trigger] entries[j] == (name, i),
        lookup(entries, name) is None ==> forall|j: int|
            0 <= j < entries.len() ==> (#[trigger] entries[j]).0 != name,
    decreases entries.len(),
{
    if entries.len() > 0 {
        lemma_lookup_some(entries.drop_last(), name);
        if let Some(i) = lookup(entries.drop_last(), name) {
            if entries.last().0 != name {
                let j = choose|j: int|
                    0 <= j < entries.drop_last().len() && #[trigger] entries.drop_last()[j] == (name, i);
                assert(entries[j] == entries.drop_last()[j]);
            }
        }
        if lookup(entries, name) is None {
            assert forall|j: int| 0 <= j < entries.len() implies (#[trigger] entries[j]).0 != name by {
                if j < entries.len() - 1 {
                    assert(entries[j] == entries.drop_last()[j]);
                }
            }
        }
    }
}

proof fn lemma_lookup_bound(entries: Seq<Entry>, name: Seq<u8>, bound: nat)
    requires
        forall|i: int| 0 <= i < entries.len() ==> #[trigger] entries[i].1 < bound,
    ensures
        lookup(entries, name) matches Some(i) ==> i < bound,
    decreases entries.len(),
{
    if entries.len() > 0 {
        let p = entries.drop_last();
        assert forall|i: int| 0 <= i < p.len() implies #[trigger] p[i].1 < bound by {
            assert(p[i] == entries[i]);
        }
        lemma_lookup_bound(p, name, bound);
        assert(entries[entries.len() - 1].1 < bound);
    }
}

fn has_endpoint_prefix(name: &Vec<u8>) -> (r: bool)
    ensures
        r == (name@.len() >= 9 && name@.subrange(0, 9) == endpoint_prefix()),
{
    if name.len() < 9 {
        return false;
    }
    let prefix: [u8; 9] = [101u8, 110u8, 100u8, 112u8, 111u8, 105u8, 110u8, 116u8, 32u8];
    assert(prefix@ =~= endpoint_prefix());
    let mut i: usize = 0;
    while i < 9
        invariant
            i <= 9,
            name@.len() >= 9,
            prefix@ == endpoint_prefix(),
            forall|j: int| 0 <= j < i ==> name@[j] == prefix@[j],
        decreases 9 - i,
    {
        if name[i] != prefix[i] {
            assert(name@.subrange(0, 9)[i as int] != endpoint_prefix()[i as int]);
            return false;
        }
        i = i + 1;
    }
    assert(name@.subrange(0, 9) =~= endpoint_prefix());
    true
}

fn suffix_from(name: &Vec<u8>, start: usize) -> (r: Vec<u8>)
    requires
        start <= name@.len(),
    ensures
        r@ == name@.subrange(start as int, name@.len() as int),
{
    let mut r: Vec<u8> = Vec::new();
    let mut i: usize = start;
    while i < name.len()
        invariant
            start <= i <= name@.len(),
            r@ == name@.subrange(start as int, i as int),
        decreases name@.len() - i,
    {
        r.push(name[i]);
        i = i + 1;
        assert(r@ =~= name@.subrange(start as int, i as int));
    }
    r
}

/// The endpoints that `exports` serve, in order.
pub fn endpoints_of(exports: &Vec<Export>) -> (r: Vec<Vec<u8>>)
    ensures
        r@.map_values(|e: Vec<u8>| e@) == endpoint_names(exports@),
{
    let mut r: Vec<Vec<u8>> = Vec::new();
    let mut i: usize = 0;
    while i < exports.len()
        invariant
            i <= exports@.len(),
            r@.map_values(|e: Vec<u8>| e@) == endpoint_names(exports@.take(i as int)),
        decreases exports@.len() - i,
    {
        assert(exports@.take(i + 1).drop_last() =~= exports@.take(i as int));
        let e = &exports[i];
        if e.is_function && has_endpoint_prefix(&e.name) {
            let ep = suffix_from(&e.name, 9);
            let ghost before = r@.map_values(|e: Vec<u8>| e@);
            r.push(ep);
            assert(r@.map_values(|e: Vec<u8>| e@) =~= before.push(ep@));
        }
        i = i + 1;
    }
    assert(exports@.take(exports@.len() as int) =~= exports@);
    r
}

fn find(entries: &Vec<(Vec<u8>, usize)>, name: &[u8]) -> (r: Option<usize>)
    ensures
        r == lookup(entries_view(entries@), name@),
{
    let mut i: usize = entries.len();
    assert(entries_view(entries@).take(i as int) =~= entries_view(entries@));
    while i > 0
        invariant
            i <= entries@.len(),
            lookup(entries_view(entries@), name@) == lookup(entries_view(entries@).take(i as int), name@),
        decreases i,
    {
        let ghost t = entries_view(entries@).take(i as int);
        assert(t.drop_last() =~= entries_view(entries@).take(i - 1));
        if bytes_equal(entries[i - 1].0.as_slice(), name) {
            return Some(entries[i - 1].1);
        }
        i = i - 1;
    }
    None
}

fn bytes_equal(a: &[u8], b: &[u8]) -> (r: bool)
    ensures
        r == (a@ == b@),
{
    if a.len() != b.len() {
        return false;
    }
    let mut i: usize = 0;
    while i < a.len()
        invariant
            i <= a@.len(),
            a@.len() == b@.len(),
            forall|j: int| 0 <= j < i ==> a@[j] == b@[j],
        decreases a@.len() - i,
    {
        if a[i] != b[i] {
            return false;
        }
        i = i + 1;
    }
    assert(a@ =~= b@);
    true
}

impl<M> ModuleLibrary<M> {
    pub fn new() -> (r: ModuleLibrary<M>)
        ensures
            r@.endpoints.len() == 0,
            r@.names.len() == 0,
            r@.modules.len() == 0,
            library_wf(r@),
    {
        let r = ModuleLibrary { endpoints: Vec::new(), names: Vec::new(), modules: Vec::new() };
        assert(r@.endpoints =~= Seq::<Entry>::empty());
        assert(r@.names =~= Seq::<Entry>::empty());
        r
    }

    /// Adds `module` under `name`, serving the endpoints of its exports. When one of
    /// them is already served, fails with `duplicate_endpoint` and changes nothing.
    pub fn add(&mut self, module: M, name: Vec<u8>, exports: &Vec<Export>) -> (r: Result<(), ManyError>)
        requires
            library_wf(old(self)@),
        ensures
            library_wf(final(self)@),
            collides(old(self)@.endpoints, endpoint_names(exports@)) ==> {
                &&& r matches Err(e) && e.kind == ErrorKind::DuplicateEndpoint
                &&& final(self)@ == old(self)@
            },
            !collides(old(self)@.endpoints, endpoint_names(exports@)) ==> {
                let idx = old(self)@.modules.len() as usize;
                &&& r is Ok
                &&& final(self)@.modules == old(self)@.modules.push(module)
                &&& final(self)@.endpoints == old(self)@.endpoints + endpoint_names(exports@).map_values(
                    |e: Seq<u8>| (e, idx),
                )
                &&& final(self)@.names == old(self)@.names.push((name@, idx))
            },
    {
        let eps = endpoints_of(exports);
        let ghost names = endpoint_names(exports@);
        let mut k: usize = 0;
        while k < eps.len()
            invariant
                k <= eps@.len(),
                eps@.map_values(|e: Vec<u8>| e@) == names,
                names == endpoint_names(exports@),
                library_wf(old(self)@),
                *self == *old(self),
                forall|j: int| 0 <= j < k ==> lookup(old(self)@.endpoints, #[trigger] names[j]) is None,
            decreases eps@.len() - k,
        {
            assert(names[k as int] == eps@[k as int]@);
            if find(&self.endpoints, eps[k].as_slice()).is_some() {
                assert(lookup(old(self)@.endpoints, names[k as int]) is Some);
                assert(collides(old(self)@.endpoints, names));
                return Err(ManyError::new(ErrorKind::DuplicateEndpoint, "Endpoint already registered."));
            }
            k = k + 1;
        }
        assert(!collides(old(self)@.endpoints, names));
        let idx = self.modules.len();
        self.modules.push(module);
        let ghost start = self.endpoints@;
        let mut k: usize = 0;
        while k < eps.len()
            invariant
                k <= eps@.len(),
                idx == old(self)@.modules.len(),
                eps@.map_values(|e: Vec<u8>| e@) == names,
                entries_view(self.endpoints@) == entries_view(start) + names.take(k as int).map_values(
                    |e: Seq<u8>| (e, idx),
                ),
                start == old(self).endpoints@,
                self.names == old(self).names,
                self.modules@ == old(self)@.modules.push(module),
            decreases eps@.len() - k,
        {
            let ghost before = entries_view(self.endpoints@);
            let ep = eps[k].clone();
            assert(ep@ == names[k as int]);
            self.endpoints.push((ep, idx));
            assert(entries_view(self.endpoints@) =~= before.push((names[k as int], idx)));
            k = k + 1;
            assert(names.take(k as int).map_values(|e: Seq<u8>| (e, idx)) =~= names.take(k - 1).map_values(
                |e: Seq<u8>| (e, idx),
            ).push((names[k - 1], idx)));
        }
        self.names.push((name, idx));
        proof {
            assert(names.take(names.len() as int) =~= names);
            let added = names.map_values(|e: Seq<u8>| (e, idx));
            assert(self@.endpoints =~= old(self)@.endpoints + added);
            assert(self@.names =~= old(self)@.names.push((name@, idx)));
            let l = self@;
            let o = old(self)@;
            assert forall|i: int, j: int|
                0 <= i < l.endpoints.len() && 0 <= j < l.endpoints.len() && #[trigger] l.endpoints[i].0
                    == #[trigger] l.endpoints[j].0 implies l.endpoints[i].1 == l.endpoints[j].1 by {
                let n = o.endpoints.len();
                if i < n && j >= n {
                    lemma_lookup_some(o.endpoints, names[j - n]);
                    assert(lookup(o.endpoints, names[j - n]) is None);
                    assert(o.endpoints[i] == l.endpoints[i]);
                } else if i >= n && j < n {
                    lemma_lookup_some(o.endpoints, names[i - n]);
                    assert(lookup(o.endpoints, names[i - n]) is None);
                    assert(o.endpoints[j] == l.endpoints[j]);
                } else if i < n && j < n {
                    assert(o.endpoints[i] == l.endpoints[i]);
                    assert(o.endpoints[j] == l.endpoints[j]);
                }
            }
            assert forall|i: int| 0 <= i < l.endpoints.len() implies #[trigger] l.endpoints[i].1
                < l.modules.len() by {
                if i < o.endpoints.len() {
                    assert(o.endpoints[i] == l.endpoints[i]);
                }
            }
            assert forall|i: int| 0 <= i < l.names.len() implies #[trigger] l.names[i].1 < l.modules.len() by {
                if i < o.names.len() {
                    assert(o.names[i] == l.names[i]);
                }
            }
        }
        Ok(())
    }

    /// The index of the module that serves `endpoint`.
    pub fn endpoint_index(&self, endpoint: &[u8]) -> (r: Option<usize>)
        requires
            library_wf(self@),
        ensures
            r == lookup(self@.endpoints, endpoint@),
            r matches Some(i) ==> i < self@.modules.len(),
    {
        let r = find(&self.endpoints, endpoint);
        proof {
            lemma_lookup_bound(self@.endpoints, endpoint@, self@.modules.len());
        }
        r
    }

    /// The module that serves `endpoint`.
    pub fn by_endpoint(&self, endpoint: &[u8]) -> (r: Option<&M>)
        requires
            library_wf(self@),
        ensures
            match lookup(self@.endpoints, endpoint@) {
                Some(i) => r == Some(&self@.modules[i as int]),
                None => r is None,
            },
    {
        match find(&self.endpoints, endpoint) {
            Some(i) => {
                proof {
                    lemma_lookup_bound(self@.endpoints, endpoint@, self@.modules.len());
                }
                Some(&self.modules[i])
            },
            None => None,
        }
    }

    /// The module added under `name` (the latest, if several were).
    pub fn by_name(&self, name: &[u8]) -> (r: Option<&M>)
        requires
            library_wf(self@),
        ensures
            match lookup(self@.names, name@) {
                Some(i) => r == Some(&self@.modules[i as int]),
                None => r is None,
            },
    {
        match find(&self.names, name) {
            Some(i) => {
                proof {
                    lemma_lookup_bound(self@.names, name@, self@.modules.len());
                }
                Some(&self.modules[i])
            },
            None => None,
        }
    }

    /// The modules, in the order they were added.
    pub fn iter(&self) -> (r: &[M])
        ensures
            r@ == self@.modules,
    {
        self.modules.as_slice()
    }
}

} // verus!
