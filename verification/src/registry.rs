//! The registry of Python functions, keyed by lowercased name.
use vstd::prelude::*;

use crate::parser::{DefinitionView, FunctionDefinition};
use vstd::utf8::is_ascii_chars;

use crate::text::{ascii_lower, lowercase, str_eq, to_lowercase};

verus! {

broadcast use vstd::seq::group_seq_axioms, vstd::seq_lib::group_seq_properties;

/// Registered function definitions, each under the lowercase form of its name.
/// No name occurs twice; entries keep the order in which they were first added.
pub struct FunctionRegistry {
    entries: Vec<(String, FunctionDefinition)>,
}

/// The key under which a function of this name is registered.
pub open spec fn registry_key(name: Seq<char>) -> Seq<char> {
    lowercase(name)
}

/// True when each name is the registry key of the definition beside it.
pub open spec fn keyed_by_name(names: Seq<Seq<char>>, defs: Seq<DefinitionView>) -> bool {
    forall|i: int|
        0 <= i < names.len() && i < defs.len() ==> #[trigger] names[i] == registry_key(
            defs[i].name,
        )
}

/// True when every function of a registry view is registered under the
/// key of its own name.
pub open spec fn keys_match(m: Map<Seq<char>, DefinitionView>) -> bool {
    forall|k: Seq<char>| #[trigger] m.contains_key(k) ==> k == registry_key(m[k].name)
}

/// True when no two elements of `s` are equal.
pub open spec fn distinct(s: Seq<Seq<char>>) -> bool {
    forall|i: int, j: int| 0 <= i < s.len() && 0 <= j < s.len() && i != j ==> s[i] != s[j]
}

impl FunctionRegistry {
    /// The registered names, in registration order.
    pub closed spec fn names(&self) -> Seq<Seq<char>> {
        self.entries@.map_values(|e: (String, FunctionDefinition)| e.0@)
    }

    /// The registered definitions, in the order of `names`.
    pub closed spec fn defs(&self) -> Seq<DefinitionView> {
        self.entries@.map_values(|e: (String, FunctionDefinition)| e.1@)
    }

    #[verifier::type_invariant]
    closed spec fn well_formed(&self) -> bool {
        &&& distinct(self.names())
        &&& keyed_by_name(self.names(), self.defs())
    }

    /// An empty registry.
    pub fn new() -> (r: FunctionRegistry)
        ensures
            r@ == Map::<Seq<char>, DefinitionView>::empty(),
            r.names() == Seq::<Seq<char>>::empty(),
    {
        let r = FunctionRegistry { entries: Vec::new() };
        assert(r@ =~= Map::<Seq<char>, DefinitionView>::empty());
        assert(r.names() =~= Seq::<Seq<char>>::empty());
        r
    }

    /// The number of registered functions.
    pub fn len(&self) -> (n: usize)
        ensures
            n == self.names().len(),
            n == self@.len(),
            distinct(self.names()),
            self.names().to_set() == self@.dom(),
            keys_match(self@),
    {
        proof {
            use_type_invariant(self);
            lemma_dom_is_names(self);
            lemma_keys_match(self);
        }
        self.entries.len()
    }
}

impl FunctionRegistry {
    /// The name and definition registered at position `i` of `names`.
    pub fn entry(&self, i: usize) -> (r: (&String, &FunctionDefinition))
        requires
            i < self.names().len(),
        ensures
            r.0@ == self.names()[i as int],
            r.1@ == self.defs()[i as int],
            self@.contains_key(r.0@),
            self@[r.0@] == r.1@,
    {
        proof {
            use_type_invariant(self);
            lemma_view_at(self, i as int);
        }
        let e = &self.entries[i];
        (&e.0, &e.1)
    }
}

impl View for FunctionRegistry {
    type V = Map<Seq<char>, DefinitionView>;

    /// Each registered name mapped to its definition.
    closed spec fn view(&self) -> Map<Seq<char>, DefinitionView> {
        Map::new(
            |k: Seq<char>| self.names().contains(k),
            |k: Seq<char>|
                self.defs()[choose|i: int| 0 <= i < self.names().len() && self.names()[i] == k],
        )
    }
}

/// The definition at index `i` is what the registry maps that name to.
proof fn lemma_view_at(r: &FunctionRegistry, i: int)
    requires
        distinct(r.names()),
        0 <= i < r.names().len(),
    ensures
        r@.contains_key(r.names()[i]),
        r@[r.names()[i]] == r.defs()[i],
{
    let k = r.names()[i];
    assert(r.names().contains(k));
    let j = choose|j: int| 0 <= j < r.names().len() && r.names()[j] == k;
    assert(j == i);
}

/// Each key of the view is the key of its definition's name.
proof fn lemma_keys_match(r: &FunctionRegistry)
    requires
        distinct(r.names()),
        keyed_by_name(r.names(), r.defs()),
    ensures
        keys_match(r@),
{
    assert forall|k: Seq<char>| #[trigger] r@.contains_key(k) implies k == registry_key(
        r@[k].name,
    ) by {
        let i = choose|i: int| 0 <= i < r.names().len() && r.names()[i] == k;
        lemma_view_at(r, i);
    }
}

/// The registry maps exactly its names.
proof fn lemma_dom_is_names(r: &FunctionRegistry)
    requires
        distinct(r.names()),
    ensures
        r@.dom() == r.names().to_set(),
        r@.len() == r.names().len(),
{
    assert(r@.dom() =~= r.names().to_set());
    r.names().unique_seq_to_set();
}

/// Finds the index of a name.
fn find_entry(entries: &Vec<(String, FunctionDefinition)>, key: &str) -> (r: Option<usize>)
    ensures
        match r {
            Some(i) => i < entries@.len() && entries@[i as int].0@ == key@,
            None => forall|i: int| 0 <= i < entries@.len() ==> entries@[i].0@ != key@,
        },
{
    let mut i: usize = 0;
    while i < entries.len()
        invariant
            i <= entries@.len(),
            forall|j: int| 0 <= j < i ==> entries@[j].0@ != key@,
        decreases entries@.len() - i,
    {
        if str_eq(entries[i].0.as_str(), key) {
            return Some(i);
        }
        i = i + 1;
    }
    None
}

impl FunctionRegistry {
    /// Registers `func_def` under `key`, the key of its name, replacing what
    /// was registered there.
    pub fn insert(&mut self, key: String, func_def: FunctionDefinition)
        requires
            key@ == registry_key(func_def.name@),
        ensures
            final(self)@ == old(self)@.insert(key@, func_def@),
            final(self).names() == if old(self).names().contains(key@) {
                old(self).names()
            } else {
                old(self).names().push(key@)
            },
    {
        proof {
            use_type_invariant(&*self);
        }
        let ghost old_names = self.names();
        let ghost old_defs = self.defs();
        let ghost old_view = self@;
        let ghost kv = key@;
        let ghost dv = func_def@;
        let mut entries: Vec<(String, FunctionDefinition)> = Vec::new();
        std::mem::swap(&mut entries, &mut self.entries);
        let found = find_entry(&entries, key.as_str());
        let ghost old_entries = entries@;
        match found {
            Some(i) => {
                entries.set(i, (key, func_def));
            },
            None => {
                entries.push((key, func_def));
            },
        }
        let ghost new_names = entries@.map_values(|e: (String, FunctionDefinition)| e.0@);
        let ghost new_defs = entries@.map_values(|e: (String, FunctionDefinition)| e.1@);
        proof {
            assert(old_entries.map_values(|e: (String, FunctionDefinition)| e.0@) =~= old_names);
            match found {
                Some(i) => {
                    assert(new_names =~= old_names);
                    assert(new_defs =~= old_defs.update(i as int, dv));
                    assert(old_names[i as int] == kv);
                    assert(old_names.contains(kv));
                },
                None => {
                    assert(new_names =~= old_names.push(kv));
                    assert(new_defs =~= old_defs.push(dv));
                    assert(!old_names.contains(kv));
                },
            }
            assert(distinct(new_names));
            assert(keyed_by_name(new_names, new_defs)) by {
                assert forall|j: int| 0 <= j < new_names.len() && j < new_defs.len() implies #[trigger] new_names[j]
                    == registry_key(new_defs[j].name) by {
                    if j < old_names.len() && j < old_defs.len() {
                        assert(old_names[j] == registry_key(old_defs[j].name));
                    }
                }
            }
        }
        self.entries = entries;
        proof {
            assert(self.names() == new_names);
            assert(self.defs() == new_defs);
            let nv = self@;
            let ov = old_view.insert(kv, dv);
            assert forall|k: Seq<char>| nv.contains_key(k) == ov.contains_key(k) by {
                if k != kv && nv.contains_key(k) {
                    let j = choose|j: int| 0 <= j < new_names.len() && new_names[j] == k;
                    assert(old_names[j] == k);
                }
                if k != kv && ov.contains_key(k) {
                    assert(old_names.contains(k));
                    let j = choose|j: int| 0 <= j < old_names.len() && old_names[j] == k;
                    assert(new_names[j] == k);
                }
                if k == kv {
                    match found {
                        Some(i) => {
                            assert(new_names[i as int] == kv);
                        },
                        None => {
                            assert(new_names[old_names.len() as int] == kv);
                        },
                    }
                }
            }
            assert forall|k: Seq<char>| nv.contains_key(k) implies nv[k] == ov[k] by {
                let j = choose|j: int| 0 <= j < new_names.len() && new_names[j] == k;
                lemma_view_at(self, j);
                if k == kv {
                    match found {
                        Some(i) => {
                            assert(new_names[i as int] == kv);
                            assert(j == i);
                        },
                        None => {
                            assert(new_names[old_names.len() as int] == kv);
                            assert(j == old_names.len());
                        },
                    }
                } else {
                    assert(j < old_names.len());
                    assert(old_names[j] == k);
                    assert(old_defs[j] == new_defs[j]);
                    assert(old_view[k] == old_defs[j]) by {
                        let i0 = choose|i0: int| 0 <= i0 < old_names.len() && old_names[i0] == k;
                        assert(i0 == j);
                    }
                }
            }
            assert(nv =~= ov);
        }
    }

    /// The function registered under `key`.
    pub fn get(&self, key: &str) -> (r: Option<FunctionDefinition>)
        ensures
            match r {
                Some(d) => self@.contains_key(key@) && d@ == self@[key@],
                None => !self@.contains_key(key@),
            },
    {
        proof {
            use_type_invariant(self);
        }
        match find_entry(&self.entries, key) {
            Some(i) => {
                proof {
                    assert(self.names()[i as int] == key@);
                    lemma_view_at(self, i as int);
                }
                Some(self.entries[i].1.copy())
            },
            None => {
                proof {
                    if self.names().contains(key@) {
                        let j = choose|j: int|
                            0 <= j < self.names().len() && self.names()[j] == key@;
                        assert(self.entries@[j].0@ == key@);
                    }
                }
                None
            },
        }
    }

    /// Removes the function registered under `key`, and returns it.
    pub fn remove(&mut self, key: &str) -> (r: Option<FunctionDefinition>)
        ensures
            final(self)@ == old(self)@.remove(key@),
            match r {
                Some(d) => old(self)@.contains_key(key@) && d@ == old(self)@[key@],
                None => !old(self)@.contains_key(key@),
            },
            final(self).names() == old(self).names().remove_value(key@),
    {
        proof {
            use_type_invariant(&*self);
        }
        let ghost old_names = self.names();
        let ghost old_defs = self.defs();
        let ghost old_view = self@;
        let ghost kv = key@;
        let mut entries: Vec<(String, FunctionDefinition)> = Vec::new();
        std::mem::swap(&mut entries, &mut self.entries);
        let ghost old_entries = entries@;
        proof {
            assert(old_entries.map_values(|e: (String, FunctionDefinition)| e.0@) =~= old_names);
            assert(old_entries.map_values(|e: (String, FunctionDefinition)| e.1@) =~= old_defs);
        }
        match find_entry(&entries, key) {
            Some(i) => {
                let (_, def) = entries.remove(i);
                let ghost new_names = entries@.map_values(|e: (String, FunctionDefinition)| e.0@);
                let ghost new_defs = entries@.map_values(|e: (String, FunctionDefinition)| e.1@);
                proof {
                    assert(new_names =~= old_names.remove(i as int));
                    assert(new_defs =~= old_defs.remove(i as int));
                    assert(old_names[i as int] == kv);
                    old_names.index_of_first_ensures(kv);
                    assert(old_names.contains(kv));
                    assert(old_names.index_of_first(kv) == Some(i as int));
                    assert(old_names.remove_value(kv) == old_names.remove(i as int));
                    assert(distinct(new_names));
                    assert forall|j: int| 0 <= j < new_names.len() && j < new_defs.len() implies #[trigger] new_names[j]
                        == registry_key(new_defs[j].name) by {
                        let oj = if j < i {
                            j
                        } else {
                            j + 1
                        };
                        assert(old_names[oj] == registry_key(old_defs[oj].name));
                    }
                }
                self.entries = entries;
                proof {
                    assert(self.names() == new_names);
                    assert(self.defs() == new_defs);
                    lemma_view_at(&*old(self), i as int);
                    let nv = self@;
                    let ov = old_view.remove(kv);
                    assert forall|k: Seq<char>| nv.contains_key(k) == ov.contains_key(k) by {
                        if nv.contains_key(k) {
                            let j = choose|j: int| 0 <= j < new_names.len() && new_names[j] == k;
                            if j < i {
                                assert(old_names[j] == k);
                            } else {
                                assert(old_names[j + 1] == k);
                            }
                        }
                        if ov.contains_key(k) {
                            let j = choose|j: int| 0 <= j < old_names.len() && old_names[j] == k;
                            assert(j != i);
                            if j < i {
                                assert(new_names[j] == k);
                            } else {
                                assert(new_names[j - 1] == k);
                            }
                        }
                    }
                    assert forall|k: Seq<char>| nv.contains_key(k) implies nv[k] == ov[k] by {
                        let j = choose|j: int| 0 <= j < new_names.len() && new_names[j] == k;
                        lemma_view_at(self, j);
                        let oj = if j < i {
                            j
                        } else {
                            j + 1
                        };
                        assert(old_names[oj] == k);
                        assert(old_defs[oj] == new_defs[j]);
                        lemma_view_at(&*old(self), oj);
                    }
                    assert(nv =~= ov);
                }
                Some(def)
            },
            None => {
                proof {
                    assert(!old_names.contains(kv)) by {
                        if old_names.contains(kv) {
                            let j = choose|j: int| 0 <= j < old_names.len() && old_names[j] == kv;
                            assert(old_entries[j].0@ == kv);
                        }
                    }
                    old_names.index_of_first_ensures(kv);
                    assert(old_names.remove_value(kv) == old_names);
                }
                self.entries = entries;
                proof {
                    assert(self.names() =~= old_names);
                    assert(self.defs() =~= old_defs);
                    assert(self@ =~= old_view.remove(kv));
                }
                None
            },
        }
    }

    /// True when a function is registered under `key`.
    pub fn contains(&self, key: &str) -> (r: bool)
        ensures
            r == self@.contains_key(key@),
    {
        proof {
            use_type_invariant(self);
        }
        match find_entry(&self.entries, key) {
            Some(i) => {
                proof {
                    assert(self.names()[i as int] == key@);
                }
                true
            },
            None => {
                proof {
                    if self.names().contains(key@) {
                        let j = choose|j: int|
                            0 <= j < self.names().len() && self.names()[j] == key@;
                        assert(self.entries@[j].0@ == key@);
                    }
                }
                false
            },
        }
    }
}

/// Registers a function under the lowercase form of its name, replacing
/// any function registered under that name.
pub fn register_function(registry: &mut FunctionRegistry, func_def: FunctionDefinition) -> (r: Result<
    (),
    String,
>)
    ensures
        r is Ok,
        final(registry)@ == old(registry)@.insert(registry_key(func_def.name@), func_def@),
        final(registry).names() == if old(registry).names().contains(
            registry_key(func_def.name@),
        ) {
            old(registry).names()
        } else {
            old(registry).names().push(registry_key(func_def.name@))
        },
        is_ascii_chars(func_def.name@) ==> registry_key(func_def.name@) == ascii_lower(
            func_def.name@,
        ),
{
    let key = to_lowercase(func_def.name.as_str());
    registry.insert(key, func_def);
    Ok(())
}

/// The function registered under the lowercase form of `name`.
pub fn get_function(registry: &FunctionRegistry, name: &str) -> (r: Option<FunctionDefinition>)
    ensures
        match r {
            Some(d) => registry@.contains_key(registry_key(name@)) && d@ == registry@[registry_key(
                name@,
            )],
            None => !registry@.contains_key(registry_key(name@)),
        },
        r matches Some(d) ==> registry_key(d.name@) == registry_key(name@),
        is_ascii_chars(name@) ==> registry_key(name@) == ascii_lower(name@),
{
    proof {
        use_type_invariant(registry);
        lemma_keys_match(registry);
    }
    let key = to_lowercase(name);
    registry.get(key.as_str())
}

/// Removes the function registered under the lowercase form of `name`, and
/// returns it.
pub fn unregister_function(registry: &mut FunctionRegistry, name: &str) -> (r: Option<
    FunctionDefinition,
>)
    ensures
        final(registry)@ == old(registry)@.remove(registry_key(name@)),
        match r {
            Some(d) => old(registry)@.contains_key(registry_key(name@)) && d@ == old(
                registry,
            )@[registry_key(name@)],
            None => !old(registry)@.contains_key(registry_key(name@)),
        },
        final(registry).names() == old(registry).names().remove_value(registry_key(name@)),
        is_ascii_chars(name@) ==> registry_key(name@) == ascii_lower(name@),
{
    let key = to_lowercase(name);
    registry.remove(key.as_str())
}

/// The registered names, in registration order.
pub fn list_functions(registry: &FunctionRegistry) -> (r: Vec<String>)
    ensures
        r@.map_values(|s: String| s@) == registry.names(),
        distinct(registry.names()),
        registry.names().to_set() == registry@.dom(),
        keys_match(registry@),
{
    proof {
        use_type_invariant(registry);
        lemma_dom_is_names(registry);
        lemma_keys_match(registry);
    }
    let mut r: Vec<String> = Vec::new();
    let mut i: usize = 0;
    while i < registry.entries.len()
        invariant
            i <= registry.entries@.len(),
            r@.len() == i,
            r@.map_values(|s: String| s@) =~= registry.names().subrange(0, i as int),
        decreases registry.entries@.len() - i,
    {
        let ghost before = r@;
        let name = registry.entries[i].0.clone();
        r.push(name);
        proof {
            assert(registry.names()[i as int] == registry.entries@[i as int].0@);
            assert(r@ == before.push(name));
            assert(r@.map_values(|s: String| s@) =~= before.map_values(|s: String| s@).push(
                registry.names()[i as int],
            ));
        }
        i = i + 1;
    }
    assert(registry.names().subrange(0, i as int) =~= registry.names());
    r
}

/// True when a function is registered under the lowercase form of `name`.
pub fn function_exists(registry: &FunctionRegistry, name: &str) -> (r: bool)
    ensures
        r == registry@.contains_key(registry_key(name@)),
        is_ascii_chars(name@) ==> registry_key(name@) == ascii_lower(name@),
{
    let key = to_lowercase(name);
    registry.contains(key.as_str())
}

} // verus!
