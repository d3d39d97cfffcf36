//! The variables resolved in one run: a mapping from variable name to value.
//!
//! One run owns one `VarMap`; a name is bound at most once and every later
//! occurrence of the same name reuses the stored value.

use vstd::prelude::*;
use vstd::pervasive::VecAdditionalExecFns;
use crate::text::str_eq;

verus! {

/// A mapping from variable name to resolved value, holding one entry per
/// name.
pub struct VarMap {
    entries: Vec<(String, String)>,
}

/// The mapping that a sequence of entries denotes, later entries winning.
pub closed spec fn map_of(es: Seq<(String, String)>) -> Map<Seq<char>, Seq<char>>
    decreases es.len(),
{
    if es.len() == 0 {
        Map::empty()
    } else {
        map_of(es.drop_last()).insert(es.last().0@, es.last().1@)
    }
}

impl View for VarMap {
    type V = Map<Seq<char>, Seq<char>>;

    closed spec fn view(&self) -> Map<Seq<char>, Seq<char>> {
        map_of(self.entries@)
    }
}

proof fn lemma_map_of_dom(es: Seq<(String, String)>, k: Seq<char>)
    ensures
        map_of(es).dom().contains(k) <==> exists|i: int|
            0 <= i < es.len() && (#[trigger] es[i]).0@ == k,
    decreases es.len(),
{
    if es.len() > 0 {
        lemma_map_of_dom(es.drop_last(), k);
        if es.last().0@ == k {
            assert(es[es.len() - 1].0@ == k);
        } else {
            assert forall|i: int| 0 <= i < es.len() && (#[trigger] es[i]).0@ == k implies map_of(
                es,
            ).dom().contains(k) by {
                assert(es.drop_last()[i] == es[i]);
            }
            if exists|i: int| 0 <= i < es.drop_last().len() && (#[trigger] es.drop_last()[i]).0@
                == k {
                let i = choose|i: int|
                    0 <= i < es.drop_last().len() && (#[trigger] es.drop_last()[i]).0@ == k;
                assert(es[i].0@ == k);
            }
        }
    }
}

proof fn lemma_map_of_get(es: Seq<(String, String)>, i: int)
    requires
        0 <= i < es.len(),
        forall|a: int, b: int| 0 <= a < b < es.len() ==> es[a].0@ != es[b].0@,
    ensures
        map_of(es).dom().contains(es[i].0@),
        map_of(es)[es[i].0@] == es[i].1@,
    decreases es.len(),
{
    if i == es.len() - 1 {
    } else {
        assert(es[i].0@ != es.last().0@);
        assert(es.drop_last()[i] == es[i]);
        lemma_map_of_get(es.drop_last(), i);
    }
}

impl VarMap {
    /// Each name is bound by at most one entry.
    pub closed spec fn wf(&self) -> bool {
        forall|a: int, b: int|
            0 <= a < b < self.entries@.len() ==> self.entries@[a].0@ != self.entries@[b].0@
    }

    /// An empty mapping.
    pub fn new() -> (m: VarMap)
        ensures
            m@ == Map::<Seq<char>, Seq<char>>::empty(),
            m.wf(),
    {
        VarMap { entries: Vec::new() }
    }

    /// Looks a name up.
    pub fn get(&self, name: &str) -> (r: Option<&String>)
        requires
            self.wf(),
        ensures
            (r matches Some(v) ==> self@.dom().contains(name@) && v@ == self@[name@]),
            r is None ==> !self@.dom().contains(name@),
    {
        let mut i: usize = 0;
        while i < self.entries.len()
            invariant
                self.wf(),
                i <= self.entries@.len(),
                forall|k: int| 0 <= k < i ==> (#[trigger] self.entries@[k]).0@ != name@,
            decreases self.entries@.len() - i,
        {
            if str_eq(self.entries[i].0.as_str(), name) {
                proof {
                    lemma_map_of_get(self.entries@, i as int);
                }
                return Some(&self.entries[i].1);
            }
            i = i + 1;
        }
        proof {
            lemma_map_of_dom(self.entries@, name@);
        }
        None
    }

    /// Whether a name is bound.
    pub fn contains_key(&self, name: &str) -> (r: bool)
        requires
            self.wf(),
        ensures
            r == self@.dom().contains(name@),
    {
        match self.get(name) {
            Some(_) => true,
            None => false,
        }
    }

    /// Binds a name to a value, replacing any earlier binding.
    pub fn set(&mut self, name: String, value: String)
        requires
            old(self).wf(),
        ensures
            final(self).wf(),
            final(self)@ == old(self)@.insert(name@, value@),
    {
        let mut i: usize = 0;
        while i < self.entries.len()
            invariant
                self.wf(),
                self.entries@ == old(self).entries@,
                i <= self.entries@.len(),
                forall|k: int| 0 <= k < i ==> (#[trigger] self.entries@[k]).0@ != name@,
            decreases self.entries@.len() - i,
        {
            if str_eq(self.entries[i].0.as_str(), name.as_str()) {
                proof {
                    lemma_map_of_set(self.entries@, i as int, name@, value@);
                }
                self.entries.set(i, (name, value));
                return ;
            }
            i = i + 1;
        }
        proof {
            assert(self.entries@.push((name, value)).drop_last() =~= self.entries@);
            lemma_map_of_dom(self.entries@, name@);
        }
        self.entries.push((name, value));
    }
}

proof fn lemma_map_of_set(es: Seq<(String, String)>, i: int, k: Seq<char>, v: Seq<char>)
    requires
        0 <= i < es.len(),
        forall|a: int, b: int| 0 <= a < b < es.len() ==> es[a].0@ != es[b].0@,
        es[i].0@ == k,
    ensures
        forall|p: (String, String)|
            p.0@ == k && p.1@ == v ==> map_of(#[trigger] es.update(i, p)) == map_of(es).insert(
                k,
                v,
            ),
    decreases es.len(),
{
    assert forall|p: (String, String)| p.0@ == k && p.1@ == v implies map_of(
        #[trigger] es.update(i, p),
    ) == map_of(es).insert(k, v) by {
        if i == es.len() - 1 {
            assert(es.update(i, p).drop_last() =~= es.drop_last());
            assert(es.update(i, p).last() == p);
            assert(map_of(es.update(i, p)) == map_of(es.drop_last()).insert(k, v));
            assert(map_of(es.drop_last()).insert(es.last().0@, es.last().1@).insert(k, v)
                =~= map_of(es.drop_last()).insert(k, v));
        } else {
            assert(es.update(i, p).drop_last() =~= es.drop_last().update(i, p));
            assert(es.update(i, p).last() == es.last());
            assert(es.drop_last()[i] == es[i]);
            lemma_map_of_set(es.drop_last(), i, k, v);
            assert(map_of(es.drop_last().update(i, p)) == map_of(es.drop_last()).insert(k, v));
            // the final entry's key differs from k, so the inserts commute
            assert(es[i].0@ != es.last().0@);
            assert(map_of(es.drop_last()).insert(k, v).insert(es.last().0@, es.last().1@)
                =~= map_of(es.drop_last()).insert(es.last().0@, es.last().1@).insert(k, v));
        }
    }
}

} // verus!
