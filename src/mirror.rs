use vstd::hash_map::StringHashMap;
use vstd::prelude::*;

use crate::error::CatalogError;
use crate::name::{
    join_segments, lemma_join_split, lemma_round_trip, lemma_split_join, split_text,
    well_formed_text, QualifiedName,
};

verus! {

/// The text of each string of a sequence.
pub open spec fn texts(v: Seq<String>) -> Seq<Seq<char>> {
    v.map_values(|s: String| s@)
}

/// The rendered text of each name of a sequence.
pub open spec fn name_texts(v: Seq<QualifiedName>) -> Seq<Seq<char>> {
    v.map_values(|n: QualifiedName| join_segments(n@))
}

/// The key of the namespace that holds the entry under key `k`.
pub open spec fn parent_key(k: Seq<char>) -> Seq<char> {
    join_segments(split_text(k).drop_last())
}

/// The store's invariants, over its relations (key to handle) and its
/// namespaces (key to the set of child keys):
/// every relation is listed by its parent namespace, every listed child is a
/// relation of that namespace, no key is both, and every key is the text of a
/// well-formed name.
pub open spec fn complete<H>(
    relations: Map<Seq<char>, H>,
    namespaces: Map<Seq<char>, Set<Seq<char>>>,
) -> bool {
    &&& forall|k: Seq<char>| #[trigger]
        relations.contains_key(k) ==> namespaces.contains_key(parent_key(k))
            && namespaces[parent_key(k)].contains(k)
    &&& forall|n: Seq<char>, c: Seq<char>|
        namespaces.contains_key(n) && #[trigger] namespaces[n].contains(c) ==> relations.contains_key(
            c,
        ) && parent_key(c) == n
    &&& forall|k: Seq<char>| #[trigger]
        relations.contains_key(k) ==> !namespaces.contains_key(k) && well_formed_text(k)
    &&& forall|k: Seq<char>| #[trigger] namespaces.contains_key(k) ==> well_formed_text(k)
}

/// Why registering a table under key `k` is refused, if it is.
pub open spec fn register_refusal<H>(
    relations: Map<Seq<char>, H>,
    namespaces: Map<Seq<char>, Set<Seq<char>>>,
    k: Seq<char>,
) -> Option<CatalogError> {
    if relations.contains_key(parent_key(k)) {
        Some(CatalogError::NotANamespace)
    } else if !namespaces.contains_key(parent_key(k)) {
        Some(CatalogError::NamespaceNotFound)
    } else if namespaces.contains_key(k) {
        Some(CatalogError::NotATable)
    } else {
        None
    }
}

/// The namespaces after a table under key `k` has been registered.
pub open spec fn namespaces_with(
    namespaces: Map<Seq<char>, Set<Seq<char>>>,
    k: Seq<char>,
) -> Map<Seq<char>, Set<Seq<char>>> {
    namespaces.insert(parent_key(k), namespaces[parent_key(k)].insert(k))
}

/// The namespaces after the table under key `k` has been removed.
pub open spec fn namespaces_without(
    namespaces: Map<Seq<char>, Set<Seq<char>>>,
    k: Seq<char>,
) -> Map<Seq<char>, Set<Seq<char>>> {
    namespaces.insert(parent_key(k), namespaces[parent_key(k)].remove(k))
}

/// A call that the remote catalog must receive to follow a local mutation.
pub enum RemoteCall {
    /// Register the table `name`, whose metadata is stored at `location`.
    Register { name: QualifiedName, location: String },
    /// Drop the table `name`.
    Drop { name: QualifiedName },
}

/// The position of the text `k` in `v`, if it occurs.
fn find_text(v: &Vec<String>, k: &String) -> (r: Option<usize>)
    ensures
        match r {
            Some(i) => i < v@.len() && v@[i as int]@ == k@,
            None => !texts(v@).contains(k@),
        },
{
    let mut i: usize = 0;
    while i < v.len()
        invariant
            i <= v@.len(),
            forall|j: int| 0 <= j < i ==> v@[j]@ != k@,
        decreases v@.len() - i,
    {
        if v[i] == *k {
            return Some(i);
        }
        i = i + 1;
    }
    assert(!texts(v@).contains(k@)) by {
        if texts(v@).contains(k@) {
            let j = choose|j: int| 0 <= j < texts(v@).len() && texts(v@)[j] == k@;
            assert(v@[j]@ == k@);
        }
    }
    None
}

proof fn lemma_texts_push(v: Seq<String>, s: String)
    requires
        texts(v).no_duplicates(),
        !texts(v).contains(s@),
    ensures
        texts(v.push(s)).no_duplicates(),
        texts(v.push(s)).to_set() == texts(v).to_set().insert(s@),
{
    assert(texts(v.push(s)) =~= texts(v).push(s@));
    assert(texts(v.push(s)).to_set() =~= texts(v).to_set().insert(s@)) by {
        assert forall|x: Seq<char>| texts(v).push(s@).contains(x) implies #[trigger] texts(
            v,
        ).to_set().insert(s@).contains(x) by {
            let j = choose|j: int| 0 <= j < texts(v).push(s@).len() && texts(v).push(s@)[j] == x;
            if j < texts(v).len() {
                assert(texts(v)[j] == x);
            }
        }
        assert forall|x: Seq<char>| #[trigger]
            texts(v).to_set().insert(s@).contains(x) implies texts(v).push(s@).contains(x) by {
            if x == s@ {
                assert(texts(v).push(s@)[texts(v).len() as int] == x);
            } else {
                let j = choose|j: int| 0 <= j < texts(v).len() && texts(v)[j] == x;
                assert(texts(v).push(s@)[j] == x);
            }
        }
    }
}

proof fn lemma_texts_remove(v: Seq<String>, i: int)
    requires
        texts(v).no_duplicates(),
        0 <= i < v.len(),
    ensures
        texts(v.remove(i)).no_duplicates(),
        texts(v.remove(i)).to_set() == texts(v).to_set().remove(v[i]@),
{
    let t = texts(v);
    assert(texts(v.remove(i)) =~= t.remove(i));
    let r = t.remove(i);
    assert forall|a: int, b: int| 0 <= a < r.len() && 0 <= b < r.len() && a != b implies r[a]
        != r[b] by {
        let a0 = if a < i { a } else { a + 1 };
        let b0 = if b < i { b } else { b + 1 };
        assert(r[a] == t[a0]);
        assert(r[b] == t[b0]);
    }
    assert(r.to_set() =~= t.to_set().remove(v[i]@)) by {
        assert forall|x: Seq<char>| r.contains(x) implies #[trigger] t.to_set().remove(
            v[i]@,
        ).contains(x) by {
            let j = choose|j: int| 0 <= j < r.len() && r[j] == x;
            let j0 = if j < i { j } else { j + 1 };
            assert(t[j0] == x);
            assert(t[i] == v[i]@);
        }
        assert forall|x: Seq<char>| #[trigger]
            t.to_set().remove(v[i]@).contains(x) implies r.contains(x) by {
            let j = choose|j: int| 0 <= j < t.len() && t[j] == x;
            assert(t[i] == v[i]@);
            assert(j != i);
            let j1 = if j < i { j } else { j - 1 };
            assert(r[j1] == x);
        }
    }
}

/// The empty text is not a well-formed name, so it is never a key.
proof fn lemma_empty_not_well_formed()
    ensures
        !well_formed_text(Seq::<char>::empty()),
{
    assert(split_text(Seq::<char>::empty()) =~= seq![Seq::<char>::empty()]);
    assert(split_text(Seq::<char>::empty())[0].len() == 0);
}

/// The keys that the operations on `name` use: its own and its parent's.
proof fn lemma_keys(name: QualifiedName)
    requires
        name.wf(),
    ensures
        well_formed_text(join_segments(name@)),
        name@.len() >= 2 ==> parent_key(join_segments(name@)) == join_segments(name@.drop_last()),
        name@.len() >= 2 ==> parent_key(join_segments(name@)) != join_segments(name@),
        name@.len() == 1 ==> parent_key(join_segments(name@)) == Seq::<char>::empty(),
        !well_formed_text(Seq::<char>::empty()),
{
    lemma_round_trip(name@, Seq::empty());
    lemma_split_join(name@);
    lemma_empty_not_well_formed();
    if name@.len() == 1 {
        assert(name@.drop_last() =~= Seq::<Seq<char>>::empty());
    } else {
        assert(join_segments(name@).len() > join_segments(name@.drop_last()).len());
    }
}

/// Parses each of a list of distinct well-formed texts.
fn parse_all(v: &Vec<String>) -> (r: Vec<QualifiedName>)
    requires
        texts(v@).no_duplicates(),
        forall|c: Seq<char>| #[trigger] texts(v@).contains(c) ==> well_formed_text(c),
    ensures
        name_texts(r@) == texts(v@),
        name_texts(r@).to_set() == texts(v@).to_set(),
        name_texts(r@).no_duplicates(),
        forall|i: int| 0 <= i < r@.len() ==> (#[trigger] r@[i]).wf(),
{
    let mut out: Vec<QualifiedName> = Vec::new();
    let mut i: usize = 0;
    while i < v.len()
        invariant
            i <= v@.len(),
            texts(v@).no_duplicates(),
            forall|c: Seq<char>| #[trigger] texts(v@).contains(c) ==> well_formed_text(c),
            name_texts(out@) == texts(v@).take(i as int),
            forall|j: int| 0 <= j < out@.len() ==> (#[trigger] out@[j]).wf(),
        decreases v@.len() - i,
    {
        assert(texts(v@)[i as int] == v@[i as int]@);
        assert(texts(v@).contains(v@[i as int]@));
        match QualifiedName::parse(v[i].as_str()) {
            Ok(n) => {
                proof {
                    lemma_join_split(v@[i as int]@);
                }
                let ghost before = out@;
                out.push(n);
                assert(name_texts(out@) =~= name_texts(before).push(join_segments(n@)));
                assert(texts(v@).take(i + 1) =~= texts(v@).take(i as int).push(v@[i as int]@));
            },
            Err(_) => {
                assert(false);
            },
        }
        i = i + 1;
    }
    assert(texts(v@).take(v@.len() as int) =~= texts(v@));
    out
}

/// Whether `c` registers the table `name` from the metadata at `location`.
pub open spec fn registers(c: RemoteCall, name: Seq<Seq<char>>, location: Seq<char>) -> bool {
    match c {
        RemoteCall::Register { name: n, location: l } => n@ == name && l@ == location,
        RemoteCall::Drop { .. } => false,
    }
}

/// Whether `c` drops the table `name`.
pub open spec fn drops(c: RemoteCall, name: Seq<Seq<char>>) -> bool {
    match c {
        RemoteCall::Drop { name: n } => n@ == name,
        RemoteCall::Register { .. } => false,
    }
}

#[verifier::reject_recursive_types(H)]
enum Entry<H> {
    Namespace(Vec<String>),
    Relation(H),
}

/// The local mirror of a catalog: a map from the text of each qualified name
/// to its entry, a namespace (with its children) or a relation (with its
/// table handle), and the queue of remote calls that local mutations owe.
#[verifier::reject_recursive_types(H)]
pub struct Mirror<H> {
    storage: StringHashMap<Entry<H>>,
    namespace_keys: Vec<String>,
    pending: Vec<RemoteCall>,
}

impl<H> Mirror<H> {
    /// The relations: the key of each table and its handle.
    pub closed spec fn relations(&self) -> Map<Seq<char>, H> {
        Map::new(
            |k: Seq<char>| self.storage@.contains_key(k) && self.storage@[k] is Relation,
            |k: Seq<char>| self.storage@[k]->Relation_0,
        )
    }

    /// The namespaces: the key of each namespace and the keys of its tables.
    pub closed spec fn namespaces(&self) -> Map<Seq<char>, Set<Seq<char>>> {
        Map::new(
            |k: Seq<char>| self.storage@.contains_key(k) && self.storage@[k] is Namespace,
            |k: Seq<char>| texts(self.storage@[k]->Namespace_0@).to_set(),
        )
    }

    /// The remote calls owed, oldest first.
    pub closed spec fn pending(&self) -> Seq<RemoteCall> {
        self.pending@
    }

    pub closed spec fn wf(&self) -> bool {
        &&& complete(self.relations(), self.namespaces())
        &&& forall|k: Seq<char>|
            #![trigger self.storage@[k]]
            self.storage@.contains_key(k) && self.storage@[k] is Namespace ==> texts(
                self.storage@[k]->Namespace_0@,
            ).no_duplicates()
        &&& texts(self.namespace_keys@).no_duplicates()
        &&& texts(self.namespace_keys@).to_set() == self.namespaces().dom()
    }

    /// The invariants of the store hold of every mirror that its operations
    /// produce: in particular every relation is listed by its parent
    /// namespace, whatever sequence of registrations and removals led there.
    pub proof fn lemma_complete(&self)
        requires
            self.wf(),
        ensures
            complete(self.relations(), self.namespaces()),
    {
    }

    /// An empty mirror.
    pub fn new() -> (r: Self)
        ensures
            r.wf(),
            r.relations() == Map::<Seq<char>, H>::empty(),
            r.namespaces() == Map::<Seq<char>, Set<Seq<char>>>::empty(),
            r.pending() == Seq::<RemoteCall>::empty(),
    {
        let r = Mirror {
            storage: StringHashMap::new(),
            namespace_keys: Vec::new(),
            pending: Vec::new(),
        };
        assert(r.relations() =~= Map::<Seq<char>, H>::empty());
        assert(r.namespaces() =~= Map::<Seq<char>, Set<Seq<char>>>::empty());
        assert(texts(r.namespace_keys@) =~= Seq::<Seq<char>>::empty());
        assert(texts(r.namespace_keys@).to_set() =~= Set::<Seq<char>>::empty());
        r
    }
    /// Adds an empty namespace entry under `namespace`; a namespace that is
    /// already there is kept as it is. Fails with `NotANamespace`, changing
    /// nothing, when a table holds that name.
    pub fn add_namespace(&mut self, namespace: &QualifiedName) -> (r: Result<(), CatalogError>)
        requires
            old(self).wf(),
            namespace.wf(),
        ensures
            final(self).wf(),
            final(self).pending() == old(self).pending(),
            final(self).relations() == old(self).relations(),
            match r {
                Ok(()) => !old(self).relations().contains_key(join_segments(namespace@))
                    && final(self).namespaces() == if old(self).namespaces().contains_key(
                    join_segments(namespace@),
                ) {
                    old(self).namespaces()
                } else {
                    old(self).namespaces().insert(join_segments(namespace@), Set::empty())
                },
                Err(e) => old(self).relations().contains_key(join_segments(namespace@)) && e
                    == CatalogError::NotANamespace && *final(self) == *old(self),
            },
    {
        let key = namespace.render();
        proof {
            lemma_keys(*namespace);
        }
        match self.storage.get(key.as_str()) {
            Some(Entry::Relation(_)) => {
                return Err(CatalogError::NotANamespace);
            },
            Some(Entry::Namespace(_)) => {
                return Ok(());
            },
            None => {},
        }
        let ghost k = key@;
        let ghost rel0 = self.relations();
        let ghost ns0 = self.namespaces();
        let ghost keys0 = self.namespace_keys@;
        proof {
            assert(!texts(keys0).contains(k)) by {
                assert(!ns0.dom().contains(k));
                assert(!texts(keys0).to_set().contains(k));
            }
            lemma_texts_push(keys0, key);
        }
        self.namespace_keys.push(key.clone());
        self.storage.insert(key, Entry::Namespace(Vec::new()));
        proof {
            let e: Vec<String> = self.storage@[k]->Namespace_0;
            assert(texts(e@) =~= Seq::<Seq<char>>::empty());
            assert(texts(e@).to_set() =~= Set::<Seq<char>>::empty());
            assert(self.relations() =~= rel0);
            assert(self.namespaces() =~= ns0.insert(k, Set::empty()));
            assert(self.namespace_keys@ == keys0.push(key));
            assert(texts(self.namespace_keys@).to_set() =~= self.namespaces().dom());
            let rel = self.relations();
            let ns = self.namespaces();
            assert forall|n: Seq<char>, c: Seq<char>|
                ns.contains_key(n) && #[trigger] ns[n].contains(c) implies rel.contains_key(c)
                && parent_key(c) == n by {
                if n != k {
                    assert(ns0[n].contains(c));
                }
            }
            assert forall|j: Seq<char>|
                #![trigger self.storage@[j]]
                self.storage@.contains_key(j) && self.storage@[j] is Namespace implies texts(
                    self.storage@[j]->Namespace_0@,
                ).no_duplicates() by {
                if j == k {
                    assert(texts(e@) =~= Seq::<Seq<char>>::empty());
                }
            }
        }
        Ok(())
    }

    /// The local half of registering a table: the relation entry and its
    /// parent's child set.
    fn insert_relation(&mut self, name: &QualifiedName, handle: H) -> (r: Result<(), CatalogError>)
        requires
            old(self).wf(),
            name.wf(),
        ensures
            final(self).wf(),
            final(self).pending() == old(self).pending(),
            match r {
                Ok(()) => register_refusal(
                    old(self).relations(),
                    old(self).namespaces(),
                    join_segments(name@),
                ) is None && final(self).relations() == old(self).relations().insert(
                    join_segments(name@),
                    handle,
                ) && final(self).namespaces() == namespaces_with(
                    old(self).namespaces(),
                    join_segments(name@),
                ),
                Err(e) => register_refusal(
                    old(self).relations(),
                    old(self).namespaces(),
                    join_segments(name@),
                ) == Some(e) && *final(self) == *old(self),
            },
    {
        let key = name.render();
        let ghost k = key@;
        proof {
            lemma_keys(*name);
        }
        let parent = match name.parent_namespace() {
            Some(p) => p,
            None => {
                return Err(CatalogError::NamespaceNotFound);
            },
        };
        let pkey = parent.render();
        let ghost pk = pkey@;
        assert(pk == parent_key(k));
        let children = match self.storage.get(pkey.as_str()) {
            None => {
                return Err(CatalogError::NamespaceNotFound);
            },
            Some(Entry::Relation(_)) => {
                return Err(CatalogError::NotANamespace);
            },
            Some(Entry::Namespace(v)) => v.clone(),
        };
        match self.storage.get(key.as_str()) {
            Some(Entry::Namespace(_)) => {
                return Err(CatalogError::NotATable);
            },
            _ => {},
        }
        let ghost rel0 = self.relations();
        let ghost ns0 = self.namespaces();
        let ghost old_children = self.storage@[pk]->Namespace_0@;
        assert(children@ =~= old_children) by {
            assert forall|j: int| 0 <= j < children@.len() implies children@[j]
                == old_children[j] by {
                assert(cloned::<String>(old_children[j], children@[j]));
            }
        }
        let mut children = children;
        match find_text(&children, &key) {
            Some(i) => {
                proof {
                    assert(texts(children@)[i as int] == k);
                    assert(ns0[pk] == texts(children@).to_set());
                    assert(ns0[pk].contains(k));
                    assert(ns0[pk].insert(k) =~= ns0[pk]);
                }
            },
            None => {
                proof {
                    lemma_texts_push(children@, key);
                }
                children.push(key.clone());
            },
        }
        assert(texts(children@).no_duplicates());
        assert(texts(children@).to_set() == ns0[pk].insert(k));
        self.storage.insert(pkey, Entry::Namespace(children));
        self.storage.insert(key, Entry::Relation(handle));
        proof {
            assert(self.relations() =~= rel0.insert(k, handle));
            assert(self.namespaces() =~= ns0.insert(pk, ns0[pk].insert(k)));
            let rel = self.relations();
            let ns = self.namespaces();
            assert forall|x: Seq<char>| #[trigger] rel.contains_key(x) implies ns.contains_key(
                parent_key(x),
            ) && ns[parent_key(x)].contains(x) by {
                if x != k {
                    assert(rel0.contains_key(x));
                }
            }
            assert forall|n: Seq<char>, c: Seq<char>|
                ns.contains_key(n) && #[trigger] ns[n].contains(c) implies rel.contains_key(c)
                && parent_key(c) == n by {
                if n != pk || c != k {
                    assert(ns0[n].contains(c));
                }
            }
            assert forall|x: Seq<char>| #[trigger] rel.contains_key(x) implies !ns.contains_key(x)
                && well_formed_text(x) by {
                if x != k {
                    assert(rel0.contains_key(x));
                }
            }
            assert(self.namespaces().dom() =~= ns0.dom());
        }
        Ok(())
    }
    /// Inserts a table read from the remote catalog while the mirror is
    /// built: the local half of `register_table`, with no remote call owed.
    pub fn load_table(&mut self, name: &QualifiedName, handle: H) -> (r: Result<(), CatalogError>)
        requires
            old(self).wf(),
            name.wf(),
        ensures
            final(self).wf(),
            final(self).pending() == old(self).pending(),
            match r {
                Ok(()) => register_refusal(
                    old(self).relations(),
                    old(self).namespaces(),
                    join_segments(name@),
                ) is None && final(self).relations() == old(self).relations().insert(
                    join_segments(name@),
                    handle,
                ) && final(self).namespaces() == namespaces_with(
                    old(self).namespaces(),
                    join_segments(name@),
                ),
                Err(e) => register_refusal(
                    old(self).relations(),
                    old(self).namespaces(),
                    join_segments(name@),
                ) == Some(e) && *final(self) == *old(self),
            },
    {
        self.insert_relation(name, handle)
    }

    /// Registers the table `name` with `handle`, replacing any handle held
    /// under that name, adds it to its parent namespace, and queues the call
    /// that registers it remotely from the metadata at `location`. Returns a
    /// clone of the stored handle. Fails, changing nothing, when the parent
    /// namespace is missing (`NamespaceNotFound`) or is a table
    /// (`NotANamespace`), or when `name` is a namespace (`NotATable`).
    pub fn register_table(&mut self, name: QualifiedName, handle: H, location: String) -> (r:
        Result<Option<H>, CatalogError>) where H: Clone
        requires
            old(self).wf(),
            name.wf(),
        ensures
            final(self).wf(),
            match r {
                Ok(h) => register_refusal(
                    old(self).relations(),
                    old(self).namespaces(),
                    join_segments(name@),
                ) is None && h is Some && cloned(handle, h->0) && final(self).relations()
                    == old(self).relations().insert(join_segments(name@), handle)
                    && final(self).namespaces() == namespaces_with(
                    old(self).namespaces(),
                    join_segments(name@),
                ) && final(self).pending().drop_last() == old(self).pending()
                    && registers(final(self).pending().last(), name@, location@),
                Err(e) => register_refusal(
                    old(self).relations(),
                    old(self).namespaces(),
                    join_segments(name@),
                ) == Some(e) && *final(self) == *old(self),
            },
    {
        let copy = handle.clone();
        match self.insert_relation(&name, handle) {
            Ok(()) => {},
            Err(e) => {
                return Err(e);
            },
        }
        let ghost pending0 = self.pending@;
        self.pending.push(RemoteCall::Register { name, location });
        assert(self.pending@.drop_last() =~= pending0);
        Ok(Some(copy))
    }

    /// Removes the table `name` from the mirror and from its parent
    /// namespace, and queues the call that drops it remotely. Returns the
    /// removed handle. Fails, changing nothing, with `NotATable` when `name`
    /// is a namespace and with `TableNotFound` when it is absent.
    pub fn deregister_table(&mut self, name: QualifiedName) -> (r: Result<Option<H>, CatalogError>) where
        H: Clone
        requires
            old(self).wf(),
            name.wf(),
        ensures
            final(self).wf(),
            match r {
                Ok(h) => old(self).relations().contains_key(join_segments(name@)) && h is Some
                    && cloned(old(self).relations()[join_segments(name@)], h->0)
                    && final(self).relations() == old(self).relations().remove(
                    join_segments(name@),
                ) && final(self).namespaces() == namespaces_without(
                    old(self).namespaces(),
                    join_segments(name@),
                ) && final(self).pending().drop_last() == old(self).pending()
                    && drops(final(self).pending().last(), name@),
                Err(e) => !old(self).relations().contains_key(join_segments(name@)) && e == (
                if old(self).namespaces().contains_key(join_segments(name@)) {
                    CatalogError::NotATable
                } else {
                    CatalogError::TableNotFound
                }) && *final(self) == *old(self),
            },
    {
        let key = name.render();
        let ghost k = key@;
        proof {
            lemma_keys(name);
        }
        let h = match self.storage.get(key.as_str()) {
            None => {
                return Err(CatalogError::TableNotFound);
            },
            Some(Entry::Namespace(_)) => {
                return Err(CatalogError::NotATable);
            },
            Some(Entry::Relation(h)) => h.clone(),
        };
        let ghost rel0 = self.relations();
        let ghost ns0 = self.namespaces();
        assert(rel0.contains_key(k));
        let parent = match name.parent_namespace() {
            Some(p) => p,
            None => {
                assert(ns0.contains_key(parent_key(k)));
                return Err(CatalogError::TableNotFound);
            },
        };
        let pkey = parent.render();
        let ghost pk = pkey@;
        assert(pk == parent_key(k));
        let children = match self.storage.get(pkey.as_str()) {
            Some(Entry::Namespace(v)) => v.clone(),
            _ => {
                assert(ns0.contains_key(pk));
                return Err(CatalogError::TableNotFound);
            },
        };
        let ghost old_children = self.storage@[pk]->Namespace_0@;
        assert(children@ =~= old_children) by {
            assert forall|j: int| 0 <= j < children@.len() implies children@[j]
                == old_children[j] by {
                assert(cloned::<String>(old_children[j], children@[j]));
            }
        }
        let mut children = children;
        match find_text(&children, &key) {
            Some(i) => {
                proof {
                    lemma_texts_remove(children@, i as int);
                }
                children.remove(i);
            },
            None => {
                assert(ns0[pk].contains(k));
                return Err(CatalogError::TableNotFound);
            },
        }
        assert(texts(children@).no_duplicates());
        assert(texts(children@).to_set() == ns0[pk].remove(k));
        self.storage.insert(pkey, Entry::Namespace(children));
        self.storage.remove(key.as_str());
        proof {
            assert(self.relations() =~= rel0.remove(k));
            assert(self.namespaces() =~= ns0.insert(pk, ns0[pk].remove(k)));
            let rel = self.relations();
            let ns = self.namespaces();
            assert forall|x: Seq<char>| #[trigger] rel.contains_key(x) implies ns.contains_key(
                parent_key(x),
            ) && ns[parent_key(x)].contains(x) by {
                assert(rel0.contains_key(x));
            }
            assert forall|n: Seq<char>, c: Seq<char>|
                ns.contains_key(n) && #[trigger] ns[n].contains(c) implies rel.contains_key(c)
                && parent_key(c) == n by {
                assert(ns0[n].contains(c));
            }
            assert forall|x: Seq<char>| #[trigger] rel.contains_key(x) implies !ns.contains_key(x)
                && well_formed_text(x) by {
                assert(rel0.contains_key(x));
            }
            assert(self.namespaces().dom() =~= ns0.dom());
        }
        let ghost pending0 = self.pending@;
        self.pending.push(RemoteCall::Drop { name });
        assert(self.pending@.drop_last() =~= pending0);
        Ok(Some(h))
    }

    /// The handle of the table `name`, if `name` is a table.
    pub fn table(&self, name: &QualifiedName) -> (r: Option<&H>)
        requires
            self.wf(),
            name.wf(),
        ensures
            match r {
                Some(h) => self.relations().contains_key(join_segments(name@)) && *h
                    == self.relations()[join_segments(name@)],
                None => !self.relations().contains_key(join_segments(name@)),
            },
    {
        let key = name.render();
        match self.storage.get(key.as_str()) {
            Some(Entry::Relation(h)) => Some(h),
            _ => None,
        }
    }

    /// Whether `name` is a table of the mirror.
    pub fn table_exists(&self, name: &QualifiedName) -> (r: bool)
        requires
            self.wf(),
            name.wf(),
        ensures
            r == self.relations().contains_key(join_segments(name@)),
    {
        let key = name.render();
        match self.storage.get(key.as_str()) {
            Some(Entry::Relation(_)) => true,
            _ => false,
        }
    }

    /// Hands out the remote calls owed, oldest first, and empties the queue.
    pub fn take_pending(&mut self) -> (r: Vec<RemoteCall>)
        requires
            old(self).wf(),
        ensures
            final(self).wf(),
            r@ == old(self).pending(),
            final(self).pending() == Seq::<RemoteCall>::empty(),
            final(self).relations() == old(self).relations(),
            final(self).namespaces() == old(self).namespaces(),
    {
        let mut out: Vec<RemoteCall> = Vec::new();
        std::mem::swap(&mut out, &mut self.pending);
        out
    }
    /// The tables of the namespace `namespace`, each once, in no particular
    /// order. Fails with `NotANamespace` when `namespace` is a table and with
    /// `NamespaceNotFound` when it is absent.
    pub fn table_names(&self, namespace: &QualifiedName) -> (r: Result<
        Vec<QualifiedName>,
        CatalogError,
    >)
        requires
            self.wf(),
            namespace.wf(),
        ensures
            match r {
                Ok(v) => self.namespaces().contains_key(join_segments(namespace@))
                    && name_texts(v@).to_set() == self.namespaces()[join_segments(namespace@)]
                    && name_texts(v@).no_duplicates() && forall|i: int|
                    0 <= i < v@.len() ==> (#[trigger] v@[i]).wf(),
                Err(e) => !self.namespaces().contains_key(join_segments(namespace@)) && e == (
                if self.relations().contains_key(join_segments(namespace@)) {
                    CatalogError::NotANamespace
                } else {
                    CatalogError::NamespaceNotFound
                }),
            },
    {
        let key = namespace.render();
        let children = match self.storage.get(key.as_str()) {
            None => {
                return Err(CatalogError::NamespaceNotFound);
            },
            Some(Entry::Relation(_)) => {
                return Err(CatalogError::NotANamespace);
            },
            Some(Entry::Namespace(v)) => v,
        };
        let ghost k = key@;
        assert(self.namespaces()[k] == texts(children@).to_set());
        assert forall|c: Seq<char>| #[trigger] texts(children@).contains(c) implies
            well_formed_text(c) by {
            assert(texts(children@).to_set().contains(c));
            assert(self.namespaces()[k].contains(c));
            assert(self.relations().contains_key(c));
        }
        let names = parse_all(children);
        Ok(names)
    }

    /// The namespaces of the mirror, each once, in no particular order.
    pub fn schema_names(&self) -> (r: Vec<QualifiedName>)
        requires
            self.wf(),
        ensures
            name_texts(r@).to_set() == self.namespaces().dom(),
            name_texts(r@).no_duplicates(),
            forall|i: int| 0 <= i < r@.len() ==> (#[trigger] r@[i]).wf(),
    {
        assert forall|c: Seq<char>| #[trigger] texts(self.namespace_keys@).contains(c) implies
            well_formed_text(c) by {
            assert(texts(self.namespace_keys@).to_set().contains(c));
            assert(self.namespaces().contains_key(c));
        }
        parse_all(&self.namespace_keys)
    }
}

} // verus!
