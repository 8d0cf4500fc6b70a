//! Ancestor-to-descendant context sharing: each scope in the consumer tree
//! may provide keyed values, and a lookup from a scope walks its ancestor
//! chain and returns the value of the nearest provider.

use vstd::prelude::*;

verus! {

/// One provided entry: a stable key and the value provided under it. A
/// value is a plain word; a host that shares richer data (say a signal)
/// stores the signal's identity here.
pub struct ContextEntry {
    pub key: u64,
    pub value: u64,
}

/// One scope in the consumer tree: its parent, if any, and the entries
/// provided at it, in provision order (the latest provision of a key wins).
pub struct Scope {
    pub parent: Option<usize>,
    pub entries: Vec<ContextEntry>,
}

/// The tree of scopes. Scopes are named by the index at which they were
/// created; a scope's parent is always created before it.
pub struct ContextTree {
    pub scopes: Vec<Scope>,
}

/// The map that a list of provisions denotes: later entries override
/// earlier ones.
pub open spec fn entries_map(es: Seq<ContextEntry>) -> Map<u64, u64>
    decreases es.len(),
{
    if es.len() == 0 {
        Map::empty()
    } else {
        entries_map(es.drop_last()).insert(es.last().key, es.last().value)
    }
}

impl ContextTree {
    /// The number of scopes created so far.
    pub open spec fn scope_count(self) -> int {
        self.scopes@.len() as int
    }

    /// Every scope's parent was created before it.
    pub open spec fn wf(self) -> bool {
        forall|i: int|
            0 <= i < self.scopes@.len() ==> match #[trigger] self.scopes@[i].parent {
                Some(p) => p < i,
                None => true,
            }
    }

    /// The entries provided directly at scope `s`, as the map they denote.
    pub open spec fn provided_at(self, s: int) -> Map<u64, u64> {
        entries_map(self.scopes@[s].entries@)
    }

    /// What a lookup of `key` from scope `s` yields: the value provided at
    /// the nearest scope on `s`'s ancestor chain that provides `key`, or
    /// nothing when no such scope exists.
    pub open spec fn resolve(self, s: int, key: u64) -> Option<u64>
        decreases s
            when self.wf() && 0 <= s < self.scopes@.len()
    {
        if self.provided_at(s).dom().contains(key) {
            Some(self.provided_at(s)[key])
        } else {
            match self.scopes@[s].parent {
                Some(p) => self.resolve(p as int, key),
                None => None,
            }
        }
    }

    /// Some scope on the ancestor chain of `s` provides `key`.
    pub open spec fn chain_provides(self, s: int, key: u64) -> bool
        decreases s
            when self.wf() && 0 <= s < self.scopes@.len()
    {
        self.provided_at(s).dom().contains(key) || match self.scopes@[s].parent {
            Some(p) => self.chain_provides(p as int, key),
            None => false,
        }
    }

    /// A fresh tree with no scopes.
    pub fn new() -> (t: ContextTree)
        ensures
            t.wf(),
            t.scope_count() == 0,
    {
        ContextTree { scopes: Vec::new() }
    }

    /// Creates a scope under the given parent (or a root scope), with
    /// nothing provided at it, and returns its identity. Existing scopes
    /// are unchanged.
    pub fn create_scope(&mut self, parent: Option<usize>) -> (s: usize)
        requires
            old(self).wf(),
            match parent {
                Some(p) => p < old(self).scope_count(),
                None => true,
            },
        ensures
            final(self).wf(),
            s == old(self).scope_count(),
            final(self).scope_count() == old(self).scope_count() + 1,
            final(self).scopes@[s as int].parent == parent,
            final(self).provided_at(s as int) =~= Map::<u64, u64>::empty(),
            forall|i: int|
                0 <= i < old(self).scope_count() ==> final(self).scopes@[i] == old(
                    self,
                ).scopes@[i],
    {
        let s = self.scopes.len();
        self.scopes.push(Scope { parent, entries: Vec::new() });
        s
    }

    /// Provides `value` under `key` at scope `s`: every later lookup of
    /// `key` from `s` or from a descendant with no nearer provider sees
    /// exactly this value. Other scopes are unchanged.
    pub fn provide(&mut self, s: usize, key: u64, value: u64)
        requires
            old(self).wf(),
            s < old(self).scope_count(),
        ensures
            final(self).wf(),
            final(self).scope_count() == old(self).scope_count(),
            final(self).provided_at(s as int) == old(self).provided_at(s as int).insert(
                key,
                value,
            ),
            final(self).scopes@[s as int].parent == old(self).scopes@[s as int].parent,
            forall|i: int|
                0 <= i < old(self).scope_count() && i != s ==> final(self).scopes@[i] == old(
                    self,
                ).scopes@[i],
            final(self).resolve(s as int, key) == Some(value),
    {
        let ghost es0 = self.scopes@[s as int].entries@;
        self.scopes[s].entries.push(ContextEntry { key, value });
        proof {
            let es1 = self.scopes@[s as int].entries@;
            assert(es1 == es0.push(ContextEntry { key, value }));
            assert(es1.drop_last() =~= es0);
            assert(es1.last() == ContextEntry { key, value });
            assert(entries_map(es1) == entries_map(es0).insert(key, value));
            assert(self.provided_at(s as int).dom().contains(key));
        }
    }

    /// Looks `key` up from scope `s`: walks the ancestor chain and returns
    /// the value of the nearest provider, or nothing — deterministically —
    /// when no ancestor provides the key.
    pub fn lookup(&self, s: usize, key: u64) -> (r: Option<u64>)
        requires
            self.wf(),
            s < self.scope_count(),
        ensures
            r == self.resolve(s as int, key),
    {
        let mut cur: usize = s;
        loop
            invariant
                self.wf(),
                s < self.scope_count(),
                cur < self.scope_count(),
                self.resolve(s as int, key) == self.resolve(cur as int, key),
            decreases cur,
        {
            let found = scope_find(&self.scopes[cur].entries, key);
            match found {
                Some(v) => {
                    proof {
                        assert(self.provided_at(cur as int).dom().contains(key));
                    }
                    return Some(v);
                },
                None => {
                    proof {
                        assert(!self.provided_at(cur as int).dom().contains(key));
                    }
                    let parent = self.scopes[cur].parent;
                    match parent {
                        Some(p) => {
                            cur = p;
                        },
                        None => {
                            return None;
                        },
                    }
                },
            }
        }
    }
}

/// The value provided for `key` by this entry list, if any: the latest
/// entry under the key wins.
fn scope_find(entries: &Vec<ContextEntry>, key: u64) -> (r: Option<u64>)
    ensures
        r == entries_map(entries@).get(key),
{
    let mut i: usize = entries.len();
    proof {
        assert(entries@.take(i as int) =~= entries@);
    }
    while i > 0
        invariant
            i <= entries@.len(),
            entries_map(entries@).get(key) == entries_map(entries@.take(i as int)).get(key),
        decreases i,
    {
        let e = &entries[i - 1];
        proof {
            let t = entries@.take(i as int);
            assert(t.last() == entries@[i - 1]);
            assert(t.drop_last() =~= entries@.take(i as int - 1));
            assert(entries_map(t) == entries_map(t.drop_last()).insert(
                t.last().key,
                t.last().value,
            ));
        }
        if e.key == key {
            proof {
                assert(entries_map(entries@.take(i as int)).get(key) == Some(
                    entries@[i - 1].value,
                ));
            }
            return Some(e.value);
        }
        i = i - 1;
    }
    proof {
        assert(entries@.take(0) =~= Seq::<ContextEntry>::empty());
        assert(entries_map(entries@.take(0)) =~= Map::<u64, u64>::empty());
    }
    None
}

/// A lookup fails exactly when no scope on the ancestor chain provides the
/// key; when one does, the nearest provider answers.
pub proof fn lemma_lookup_provided(t: ContextTree, s: int, key: u64)
    requires
        t.wf(),
        0 <= s < t.scope_count(),
    ensures
        t.resolve(s, key) is Some <==> t.chain_provides(s, key),
        t.provided_at(s).dom().contains(key) ==> t.resolve(s, key) == Some(
            t.provided_at(s)[key],
        ),
    decreases s,
{
    if !t.provided_at(s).dom().contains(key) {
        match t.scopes@[s].parent {
            Some(p) => {
                lemma_lookup_provided(t, p as int, key);
            },
            None => {},
        }
    }
}

} // verus!

