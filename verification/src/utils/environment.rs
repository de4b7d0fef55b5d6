use vstd::prelude::*;

verus! {

/// The bindings of one scope, as a map from names to values.
pub open spec fn scope_map<T>(entries: Seq<(String, T)>) -> Map<Seq<char>, T> {
    Map::new(
        |k: Seq<char>| exists|j: int| 0 <= j < entries.len() && #[trigger] entries[j].0@ == k,
        |k: Seq<char>|
            entries[choose|j: int| 0 <= j < entries.len() && #[trigger] entries[j].0@ == k].1,
    )
}

/// No name is bound twice within one scope.
pub open spec fn names_unique<T>(entries: Seq<(String, T)>) -> bool {
    forall|i: int, j: int|
        0 <= i < entries.len() && 0 <= j < entries.len() && i != j ==> #[trigger] entries[i].0@
            != #[trigger] entries[j].0@
}

/// The value bound to `name` in the highest scope that binds it.
pub open spec fn lookup<T>(scopes: Seq<Map<Seq<char>, T>>, name: Seq<char>) -> Option<T>
    decreases scopes.len(),
{
    if scopes.len() == 0 {
        None
    } else if scopes.last().contains_key(name) {
        Some(scopes.last()[name])
    } else {
        lookup(scopes.drop_last(), name)
    }
}

proof fn lemma_scope_entry<T>(entries: Seq<(String, T)>, j: int)
    requires
        names_unique(entries),
        0 <= j < entries.len(),
    ensures
        scope_map(entries).contains_key(entries[j].0@),
        scope_map(entries)[entries[j].0@] == entries[j].1,
{
    let k = entries[j].0@;
    assert(exists|i: int| 0 <= i < entries.len() && #[trigger] entries[i].0@ == k);
    let c = choose|i: int| 0 <= i < entries.len() && #[trigger] entries[i].0@ == k;
    assert(c == j);
}

/// The position of the entry that binds `name`, if any.
fn position<T>(entries: &Vec<(String, T)>, name: &String) -> (result: Option<usize>)
    ensures
        match result {
            Some(j) => j < entries@.len() && entries@[j as int].0@ == name@,
            None => forall|i: int| 0 <= i < entries@.len() ==> #[trigger] entries@[i].0@ != name@,
        },
{
    let n = entries.len();
    let mut j: usize = 0;
    while j < n
        invariant
            0 <= j <= n,
            n == entries@.len(),
            forall|i: int| 0 <= i < j ==> #[trigger] entries@[i].0@ != name@,
        decreases n - j,
    {
        if entries[j].0 == *name {
            return Some(j);
        }
        j = j + 1;
    }
    None
}

/// A scoped set of bindings between names and values. The base scope can
/// never be popped.
pub struct Environment<T> {
    scopes: Vec<Vec<(String, T)>>,
}

impl<T> Environment<T> {
    /// The scopes, base scope first, each as a map from names to values.
    pub closed spec fn view(&self) -> Seq<Map<Seq<char>, T>> {
        Seq::new(self.scopes@.len(), |i: int| scope_map(self.scopes@[i]@))
    }

    pub closed spec fn wf(&self) -> bool {
        &&& self.scopes@.len() >= 1
        &&& forall|i: int| 0 <= i < self.scopes@.len() ==> names_unique(#[trigger] self.scopes@[i]@)
    }

    /// A well-formed environment keeps its base scope.
    pub proof fn lemma_has_base(&self)
        requires
            self.wf(),
        ensures
            self.view().len() >= 1,
    {
    }

    /// The value that [`Environment::find`] gives for `name`.
    pub open spec fn spec_find(&self, name: Seq<char>) -> Option<T> {
        lookup(self.view(), name)
    }

    /// Constructs a new context with a base scope that further scopes can be
    /// pushed and popped on top of.
    pub fn new() -> (result: Self)
        ensures
            result.wf(),
            result.view() == seq![Map::<Seq<char>, T>::empty()],
    {
        let mut scopes: Vec<Vec<(String, T)>> = Vec::new();
        scopes.push(Vec::new());
        let result = Environment { scopes };
        assert(scope_map(result.scopes@[0]@) =~= Map::<Seq<char>, T>::empty());
        assert(result.view() =~= seq![Map::<Seq<char>, T>::empty()]);
        result
    }

    /// Creates a new scope.
    pub fn push(&mut self)
        requires
            old(self).wf(),
        ensures
            final(self).wf(),
            final(self).view() == old(self).view().push(Map::empty()),
    {
        self.scopes.push(Vec::new());
        proof {
            assert(scope_map(self.scopes@[self.scopes@.len() - 1]@) =~= Map::<
                Seq<char>,
                T,
            >::empty());
            assert(self.view() =~= old(self).view().push(Map::empty()));
        }
    }

    /// Removes all bindings in the most recent scope, returning `true` unless
    /// there are no scopes beside the base scope.
    pub fn pop(&mut self) -> (result: bool)
        requires
            old(self).wf(),
        ensures
            final(self).wf(),
            result == (old(self).view().len() > 1),
            result ==> final(self).view() == old(self).view().drop_last(),
            !result ==> final(self).view() == old(self).view(),
    {
        if self.scopes.len() == 1 {
            false
        } else {
            self.scopes.pop();
            proof {
                assert(self.view() =~= old(self).view().drop_last());
            }
            true
        }
    }

    /// Binds `name` to `value` in the scope at `index`, returning the value
    /// previously bound to `name` there.
    fn bind_at(&mut self, index: usize, name: String, value: T) -> (result: Option<T>)
        requires
            old(self).wf(),
            index < old(self).view().len(),
        ensures
            final(self).wf(),
            final(self).view() == old(self).view().update(
                index as int,
                old(self).view()[index as int].insert(name@, value),
            ),
            result == if old(self).view()[index as int].contains_key(name@) {
                Some(old(self).view()[index as int][name@])
            } else {
                None::<T>
            },
    {
        let mut scope = self.scopes.remove(index);
        let ghost old_scope = scope@;
        let n = scope.len();
        let pos = position(&scope, &name);
        let ghost old_map = scope_map(old_scope);
        proof {
            assert(names_unique(old_scope)) by {
                assert(old(self).scopes@[index as int]@ == old_scope);
            }
            assert(old_map == old(self).view()[index as int]);
        }
        let result = if let Some(j) = pos {
            let (_, previous) = scope.remove(j);
            scope.insert(j, (name, value));
            proof {
                lemma_scope_entry(old_scope, j as int);
                assert(scope@ == old_scope.update(j as int, (name, value)));
                assert(names_unique(scope@)) by {
                    assert forall|a: int, b: int|
                        0 <= a < scope@.len() && 0 <= b < scope@.len() && a != b implies #[trigger] scope@[a].0@
                        != #[trigger] scope@[b].0@ by {
                        if a == j as int {
                            assert(old_scope[j as int].0@ == name@);
                        } else if b == j as int {
                            assert(old_scope[j as int].0@ == name@);
                        }
                    }
                }
                assert(scope_map(scope@) =~= old_map.insert(name@, value)) by {
                    assert forall|k: Seq<char>| #[trigger]
                        scope_map(scope@).contains_key(k) implies old_map.insert(
                        name@,
                        value,
                    ).contains_key(k) by {
                        let i = choose|i: int| 0 <= i < scope@.len() && #[trigger] scope@[i].0@ == k;
                        if i != j as int {
                            assert(old_scope[i].0@ == k);
                        }
                    }
                    assert forall|k: Seq<char>| #[trigger]
                        old_map.insert(name@, value).contains_key(k) implies scope_map(
                        scope@,
                    ).contains_key(k) && scope_map(scope@)[k] == old_map.insert(name@, value)[k] by {
                        if k == name@ {
                            lemma_scope_entry(scope@, j as int);
                        } else {
                            let i = choose|i: int|
                                0 <= i < old_scope.len() && #[trigger] old_scope[i].0@ == k;
                            assert(i != j as int);
                            assert(scope@[i] == old_scope[i]);
                            lemma_scope_entry(scope@, i);
                            lemma_scope_entry(old_scope, i);
                        }
                    }
                }
            }
            Some(previous)
        } else {
            scope.push((name, value));
            proof {
                assert(!old_map.contains_key(name@)) by {
                    if old_map.contains_key(name@) {
                        let i = choose|i: int|
                            0 <= i < old_scope.len() && #[trigger] old_scope[i].0@ == name@;
                        assert(old_scope[i].0@ != name@);
                    }
                }
                assert(names_unique(scope@)) by {
                    assert forall|a: int, b: int|
                        0 <= a < scope@.len() && 0 <= b < scope@.len() && a != b implies #[trigger] scope@[a].0@
                        != #[trigger] scope@[b].0@ by {
                        if a == n as int {
                            assert(scope@[b] == old_scope[b]);
                        } else if b == n as int {
                            assert(scope@[a] == old_scope[a]);
                        } else {
                            assert(scope@[a] == old_scope[a]);
                            assert(scope@[b] == old_scope[b]);
                        }
                    }
                }
                assert(scope_map(scope@) =~= old_map.insert(name@, value)) by {
                    assert forall|k: Seq<char>| #[trigger]
                        scope_map(scope@).contains_key(k) implies old_map.insert(
                        name@,
                        value,
                    ).contains_key(k) by {
                        let i = choose|i: int| 0 <= i < scope@.len() && #[trigger] scope@[i].0@ == k;
                        if i != n as int {
                            assert(old_scope[i].0@ == k);
                        }
                    }
                    assert forall|k: Seq<char>| #[trigger]
                        old_map.insert(name@, value).contains_key(k) implies scope_map(
                        scope@,
                    ).contains_key(k) && scope_map(scope@)[k] == old_map.insert(name@, value)[k] by {
                        if k == name@ {
                            lemma_scope_entry(scope@, n as int);
                        } else {
                            let i = choose|i: int|
                                0 <= i < old_scope.len() && #[trigger] old_scope[i].0@ == k;
                            assert(scope@[i] == old_scope[i]);
                            lemma_scope_entry(scope@, i);
                            lemma_scope_entry(old_scope, i);
                        }
                    }
                }
            }
            None
        };
        self.scopes.insert(index, scope);
        proof {
            assert forall|i: int| 0 <= i < self.scopes@.len() implies names_unique(
                #[trigger] self.scopes@[i]@,
            ) by {
                if i != index as int {
                    assert(self.scopes@[i] == old(self).scopes@[i]);
                }
            }
            assert(self.view() =~= old(self).view().update(
                index as int,
                old(self).view()[index as int].insert(name@, value),
            )) by {
                assert forall|i: int| 0 <= i < self.scopes@.len() && i != index as int implies self.view()[i]
                    == old(self).view()[i] by {
                    assert(self.scopes@[i] == old(self).scopes@[i]);
                }
            }
        }
        result
    }

    /// Binds `name` to `value` in the top scope, returning
    /// `Some(previous_value)` if `previous_value` had previously been bound to
    /// `name`, or `None`.
    pub fn bind(&mut self, name: String, value: T) -> (result: Option<T>)
        requires
            old(self).wf(),
        ensures
            final(self).wf(),
            final(self).view() == old(self).view().update(
                old(self).view().len() - 1,
                old(self).view().last().insert(name@, value),
            ),
            result == if old(self).view().last().contains_key(name@) {
                Some(old(self).view().last()[name@])
            } else {
                None::<T>
            },
            final(self).spec_find(name@) == Some(value),
    {
        let top = self.scopes.len() - 1;
        let result = self.bind_at(top, name, value);
        proof {
            let v = self.view();
            assert(v.last().contains_key(name@));
        }
        result
    }

    /// Binds `name` to `value` in the base scope, returning the value
    /// previously bound to `name` there.
    ///
    /// @see [`Environment::bind`]
    pub fn bind_base(&mut self, name: String, value: T) -> (result: Option<T>)
        requires
            old(self).wf(),
        ensures
            final(self).wf(),
            final(self).view() == old(self).view().update(0, old(self).view()[0].insert(name@, value)),
            result == if old(self).view()[0].contains_key(name@) {
                Some(old(self).view()[0][name@])
            } else {
                None::<T>
            },
    {
        self.bind_at(0, name, value)
    }

    /// Finds the bound value for `name` in the highest scope possible.
    pub fn find(&self, name: &String) -> (result: Option<&T>)
        requires
            self.wf(),
        ensures
            match result {
                Some(v) => self.spec_find(name@) == Some(*v),
                None => self.spec_find(name@) is None,
            },
    {
        let mut i = self.scopes.len();
        proof {
            assert(self.view().subrange(0, i as int) =~= self.view());
        }
        while i > 0
            invariant
                0 <= i <= self.scopes@.len(),
                self.wf(),
                lookup(self.view(), name@) == lookup(self.view().subrange(0, i as int), name@),
            decreases i,
        {
            let scope = &self.scopes[i - 1];
            proof {
                assert(names_unique(self.scopes@[i - 1]@));
            }
            let pos = position(scope, name);
            let ghost s = self.view().subrange(0, i as int);
            proof {
                assert(s.last() == scope_map(scope@));
            }
            if let Some(j) = pos {
                proof {
                    lemma_scope_entry(scope@, j as int);
                }
                return Some(&scope[j].1);
            }
            proof {
                assert(!scope_map(scope@).contains_key(name@)) by {
                    if scope_map(scope@).contains_key(name@) {
                        let k = choose|k: int| 0 <= k < scope@.len() && #[trigger] scope@[k].0@ == name@;
                        assert(scope@[k].0@ != name@);
                    }
                }
                assert(s.drop_last() =~= self.view().subrange(0, i - 1));
            }
            i = i - 1;
        }
        proof {
            assert(self.view().subrange(0, 0).len() == 0);
        }
        None
    }
}

/// Pushing a scope and popping it again gives back the same bindings.
pub proof fn law_push_pop<T>(before: Seq<Map<Seq<char>, T>>)
    ensures
        before.push(Map::empty()).drop_last() == before,
{
    assert(before.push(Map::empty()).drop_last() =~= before);
}

/// A fresh empty scope on top hides nothing: every name is found as before.
pub proof fn law_push_preserves_lookup<T>(before: Seq<Map<Seq<char>, T>>, name: Seq<char>)
    ensures
        lookup(before.push(Map::empty()), name) == lookup(before, name),
{
    assert(before.push(Map::empty()).drop_last() =~= before);
}

/// Binding in the top scope does not change what other names are bound to.
pub proof fn law_bind_other<T>(before: Seq<Map<Seq<char>, T>>, name: Seq<char>, value: T, other: Seq<char>)
    requires
        before.len() >= 1,
        other != name,
    ensures
        lookup(before.update(before.len() - 1, before.last().insert(name, value)), other) == lookup(
            before,
            other,
        ),
{
    let after = before.update(before.len() - 1, before.last().insert(name, value));
    assert(after.drop_last() =~= before.drop_last());
}

/// The scopes after binding each of `binds`, in order, in the top scope of
/// `scopes` (see [`Environment::bind`]).
pub open spec fn bind_all<T>(scopes: Seq<Map<Seq<char>, T>>, binds: Seq<(Seq<char>, T)>) -> Seq<Map<Seq<char>, T>>
    decreases binds.len(),
{
    if binds.len() == 0 {
        scopes
    } else {
        let s = bind_all(scopes, binds.drop_last());
        s.update(s.len() - 1, s.last().insert(binds.last().0, binds.last().1))
    }
}

/// Binding in the top scope changes neither the number of scopes nor any
/// scope below the top.
proof fn lemma_bind_all<T>(scopes: Seq<Map<Seq<char>, T>>, binds: Seq<(Seq<char>, T)>)
    requires
        scopes.len() >= 1,
    ensures
        bind_all(scopes, binds).len() == scopes.len(),
        bind_all(scopes, binds).drop_last() == scopes.drop_last(),
    decreases binds.len(),
{
    if binds.len() > 0 {
        lemma_bind_all(scopes, binds.drop_last());
        let s = bind_all(scopes, binds.drop_last());
        assert(s.update(s.len() - 1, s.last().insert(binds.last().0, binds.last().1)).drop_last()
            =~= s.drop_last());
    }
}

/// Pushing a scope, binding any number of names in it and popping it again
/// gives back the scopes from before the push: the pop succeeds (there is
/// a scope beside the base) and every name is found as before.
pub proof fn law_push_bind_pop<T>(
    before: Seq<Map<Seq<char>, T>>,
    binds: Seq<(Seq<char>, T)>,
    name: Seq<char>,
)
    requires
        before.len() >= 1,
    ensures
        bind_all(before.push(Map::empty()), binds).len() > 1,
        bind_all(before.push(Map::empty()), binds).drop_last() == before,
        lookup(bind_all(before.push(Map::empty()), binds).drop_last(), name) == lookup(before, name),
{
    lemma_bind_all(before.push(Map::empty()), binds);
    assert(before.push(Map::empty()).drop_last() =~= before);
}

} // verus!
