use vstd::prelude::*;

verus! {

/// An asset failed to open or decode; the command that needed it is skipped.
#[derive(Clone, Copy, Debug, PartialEq, Eq, Structural)]
pub struct LoadError;

/// One cache entry as seen by the contracts: the asset's name and its handle.
pub type Entry = (Seq<char>, u64);

/// No name occurs twice.
pub open spec fn unique_names(e: Seq<Entry>) -> bool {
    forall|i: int, j: int| 0 <= i < j < e.len() ==> #[trigger] e[i].0 != #[trigger] e[j].0
}

pub open spec fn contains_name(e: Seq<Entry>, name: Seq<char>) -> bool {
    exists|i: int| 0 <= i < e.len() && #[trigger] e[i].0 == name
}

/// The slot that holds `name` (meaningful when `contains_name(e, name)`).
pub open spec fn slot_of(e: Seq<Entry>, name: Seq<char>) -> int {
    choose|i: int| 0 <= i < e.len() && #[trigger] e[i].0 == name
}

pub open spec fn handle_for(e: Seq<Entry>, name: Seq<char>) -> u64 {
    e[slot_of(e, name)].1
}

/// Idempotent insertion: a name already present keeps its slot and handle.
pub open spec fn insert_step(e: Seq<Entry>, name: Seq<char>, handle: u64) -> Seq<Entry> {
    if contains_name(e, name) {
        e
    } else {
        e.push((name, handle))
    }
}

/// Resolving `name`, where `outcome` is what the loader gives for it; the
/// loader is consulted only for a name that is not cached yet.
pub open spec fn load_step(e: Seq<Entry>, name: Seq<char>, outcome: Result<u64, LoadError>) -> (
    Seq<Entry>,
    Result<u64, LoadError>,
) {
    if contains_name(e, name) {
        (e, Ok(handle_for(e, name)))
    } else {
        match outcome {
            Ok(h) => (e.push((name, h)), Ok(h)),
            Err(err) => (e, Err(err)),
        }
    }
}

/// The handle at numeric index `i`, if `0 <= i < e.len()`.
pub open spec fn by_index(e: Seq<Entry>, i: int) -> Option<u64> {
    if 0 <= i < e.len() {
        Some(e[i].1)
    } else {
        None
    }
}

/// Decoded audio assets by name, with an insertion-ordered name list that
/// gives each asset a stable numeric index.
pub struct AssetCache {
    names: Vec<String>,
    handles: Vec<u64>,
}

impl View for AssetCache {
    type V = Seq<Entry>;

    closed spec fn view(&self) -> Seq<Entry> {
        Seq::new(self.names@.len(), |i: int| (self.names@[i]@, self.handles@[i]))
    }
}

impl AssetCache {
    pub closed spec fn wf(&self) -> bool {
        &&& self.names@.len() == self.handles@.len()
        &&& unique_names(self@)
    }

    pub fn new() -> (r: AssetCache)
        ensures
            r.wf(),
            r@ == Seq::<Entry>::empty(),
    {
        let r = AssetCache { names: Vec::new(), handles: Vec::new() };
        assert(r@ =~= Seq::<Entry>::empty());
        r
    }

    /// Number of cached assets, which is also the number of numeric indices.
    pub fn len(&self) -> (r: usize)
        requires
            self.wf(),
        ensures
            r == self@.len(),
    {
        self.names.len()
    }

    /// The slot of `name`, if it is cached.
    pub fn find(&self, name: &String) -> (r: Option<usize>)
        requires
            self.wf(),
        ensures
            r is None <==> !contains_name(self@, name@),
            r matches Some(i) ==> i == slot_of(self@, name@) && i < self@.len()
                && self@[i as int].0 == name@,
    {
        let mut i: usize = 0;
        while i < self.names.len()
            invariant
                self.wf(),
                i <= self@.len(),
                forall|j: int| 0 <= j < i ==> self@[j].0 != name@,
            decreases self@.len() - i,
        {
            if self.names[i] == *name {
                proof {
                    assert(self@[i as int].0 == name@);
                    let k = slot_of(self@, name@);
                    assert(self@[k].0 == name@);
                }
                return Some(i);
            }
            i = i + 1;
        }
        proof {
            assert forall|j: int| 0 <= j < self@.len() implies #[trigger] self@[j].0 != name@ by {}
        }
        None
    }

    /// Whether `name` is cached.
    pub fn contains(&self, name: &String) -> (r: bool)
        requires
            self.wf(),
        ensures
            r == contains_name(self@, name@),
    {
        self.find(name).is_some()
    }

    /// The handle of the asset at numeric index `i`; `None` when `i` is
    /// negative or not below `len()`.
    pub fn resolve_by_index(&self, i: i32) -> (r: Option<u64>)
        requires
            self.wf(),
        ensures
            r == by_index(self@, i as int),
    {
        if i >= 0 && (i as usize) < self.handles.len() {
            Some(self.handles[i as usize])
        } else {
            None
        }
    }

    /// Adds `name` with `handle` unless `name` is already cached, in which
    /// case nothing changes: a loaded name is never replaced.
    pub fn register_preloaded(&mut self, name: String, handle: u64)
        requires
            old(self).wf(),
        ensures
            final(self).wf(),
            final(self)@ == insert_step(old(self)@, name@, handle),
    {
        if !self.contains(&name) {
            self.push_new(name, handle);
        }
    }

    /// Resolves `name` to its handle. A cached name gives its existing handle
    /// and `outcome` is ignored; otherwise `outcome` is the loader's answer,
    /// inserted on success and passed on as the error on failure.
    pub fn resolve_or_load(&mut self, name: String, outcome: Result<u64, LoadError>) -> (r: Result<
        u64,
        LoadError,
    >)
        requires
            old(self).wf(),
        ensures
            final(self).wf(),
            (final(self)@, r) == load_step(old(self)@, name@, outcome),
    {
        match self.find(&name) {
            Some(i) => Ok(self.handles[i]),
            None => match outcome {
                Ok(h) => {
                    self.push_new(name, h);
                    Ok(h)
                },
                Err(e) => Err(e),
            },
        }
    }

    /// The name at numeric index `i`.
    pub fn name_at(&self, i: usize) -> (r: Option<&String>)
        requires
            self.wf(),
        ensures
            i < self@.len() ==> (r matches Some(s) && s@ == self@[i as int].0),
            i >= self@.len() ==> r is None,
    {
        if i < self.names.len() {
            Some(&self.names[i])
        } else {
            None
        }
    }

    fn push_new(&mut self, name: String, handle: u64)
        requires
            old(self).wf(),
            !contains_name(old(self)@, name@),
        ensures
            final(self).wf(),
            final(self)@ == old(self)@.push((name@, handle)),
    {
        let ghost n = name@;
        self.names.push(name);
        self.handles.push(handle);
        proof {
            assert(self@ =~= old(self)@.push((n, handle)));
            assert forall|i: int, j: int| 0 <= i < j < self@.len() implies #[trigger] self@[i].0
                != #[trigger] self@[j].0 by {
                if j == self@.len() - 1 {
                    assert(old(self)@[i].0 == self@[i].0);
                }
            }
        }
    }
}

/// Loading a name twice in a row: the second load leaves the cache as the
/// first left it and returns the same handle, whatever the loader would say.
pub proof fn lemma_load_idempotent(
    e: Seq<Entry>,
    name: Seq<char>,
    first: Result<u64, LoadError>,
    second: Result<u64, LoadError>,
)
    requires
        unique_names(e),
        load_step(e, name, first).1 is Ok,
    ensures
        load_step(load_step(e, name, first).0, name, second) == load_step(e, name, first),
{
    let e1 = load_step(e, name, first).0;
    if !contains_name(e, name) {
        assert(e1[e.len() as int].0 == name);
        let k = slot_of(e1, name);
        assert(e1[k].0 == name);
        assert(unique_names(e1)) by {
            assert forall|i: int, j: int| 0 <= i < j < e1.len() implies #[trigger] e1[i].0
                != #[trigger] e1[j].0 by {
                if j == e.len() {
                    assert(e[i].0 == e1[i].0);
                }
            }
        }
    }
}

/// Every numeric index within range resolves to the same handle as loading
/// the name stored at that index.
pub proof fn lemma_index_matches_name(e: Seq<Entry>, i: int, outcome: Result<u64, LoadError>)
    requires
        unique_names(e),
        0 <= i < e.len(),
    ensures
        load_step(e, e[i].0, outcome) == (e, Ok::<u64, LoadError>(by_index(e, i)->Some_0)),
{
    let name = e[i].0;
    assert(contains_name(e, name));
    let k = slot_of(e, name);
    assert(e[k].0 == name);
    assert(k == i);
}

} // verus!
