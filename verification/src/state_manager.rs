//! Persistent per-project memory of the last selection.  The store is a
//! table of project entries keyed by the project's canonical path; reading
//! and writing the state file, and canonicalizing paths, belong to the
//! binary around the library, which hands the table in and out as plain
//! values.

use vstd::prelude::*;

verus! {

/// The remembered state of one project: its last selection and when it
/// was saved.
#[derive(Debug, Clone)]
pub struct ProjectState {
    /// The selected files, as paths kept verbatim.
    pub selected_files: Vec<String>,
    /// Seconds since the epoch at the last save.
    pub last_updated: u64,
}

/// The whole store: one entry per project key, each key at most once.
#[derive(Debug)]
pub struct GlobalState {
    /// The project entries, keyed by canonicalized project path.
    pub projects: Vec<(String, ProjectState)>,
}

/// The value of one project entry.
pub open spec fn project_v(p: ProjectState) -> (Seq<Seq<char>>, u64) {
    (p.selected_files.deep_view(), p.last_updated)
}

/// The first entry with the given key, if any.
pub open spec fn spec_lookup(entries: Seq<(String, ProjectState)>, key: Seq<char>) -> Option<
    ProjectState,
>
    decreases entries.len(),
{
    if entries.len() == 0 {
        None
    } else if entries[0].0@ == key {
        Some(entries[0].1)
    } else {
        spec_lookup(entries.drop_first(), key)
    }
}

impl GlobalState {
    /// Each project key appears at most once.
    pub open spec fn wf(&self) -> bool {
        forall|i: int, j: int|
            0 <= i < self.projects@.len() && 0 <= j < self.projects@.len() && i != j
                ==> (#[trigger] self.projects@[i]).0@ != (#[trigger] self.projects@[j]).0@
    }

    /// An empty store.
    pub fn new() -> (r: GlobalState)
        ensures
            r.wf(),
            r.projects@.len() == 0,
    {
        GlobalState { projects: Vec::new() }
    }

    /// The entry remembered for `key`, if any.
    pub fn get_project(&self, key: &String) -> (r: Option<&ProjectState>)
        ensures
            match r {
                Some(p) => spec_lookup(self.projects@, key@) == Some(*p),
                None => spec_lookup(self.projects@, key@) is None,
            },
    {
        let mut i: usize = 0;
        proof {
            assert(self.projects@.skip(0) =~= self.projects@);
        }
        while i < self.projects.len()
            invariant
                i <= self.projects.len(),
                spec_lookup(self.projects@, key@) == spec_lookup(
                    self.projects@.skip(i as int),
                    key@,
                ),
            decreases self.projects.len() - i,
        {
            proof {
                assert(self.projects@.skip(i as int)[0] == self.projects@[i as int]);
                assert(self.projects@.skip(i as int).drop_first() =~= self.projects@.skip(
                    i as int + 1,
                ));
            }
            if self.projects[i].0.eq(key) {
                return Some(&self.projects[i].1);
            }
            i = i + 1;
        }
        proof {
            assert(self.projects@.skip(self.projects@.len() as int) =~= Seq::<
                (String, ProjectState),
            >::empty());
        }
        None
    }

    /// Remembers `state` for `key`, replacing any earlier entry with that
    /// key.
    pub fn upsert(&mut self, key: String, state: ProjectState)
        requires
            old(self).wf(),
        ensures
            final(self).wf(),
            spec_lookup(final(self).projects@, key@) == Some(state),
            forall|k: Seq<char>|
                k != key@ ==> spec_lookup(final(self).projects@, k) == spec_lookup(
                    old(self).projects@,
                    k,
                ),
    {
        let mut i: usize = 0;
        while i < self.projects.len()
            invariant
                i <= self.projects.len(),
                self == old(self),
                old(self).wf(),
                forall|t: int| 0 <= t < i ==> (#[trigger] self.projects@[t]).0@ != key@,
            decreases self.projects.len() - i,
        {
            if self.projects[i].0.eq(&key) {
                let ghost oldv = self.projects@;
                let ghost gi = i as int;
                let _ = self.projects.remove(i);
                self.projects.insert(i, (key, state));
                proof {
                    let nv = self.projects@;
                    assert(nv =~= oldv.update(gi, nv[gi]));
                    assert(nv[gi].0@ == oldv[gi].0@);
                    assert forall|i2: int, j2: int|
                        0 <= i2 < nv.len() && 0 <= j2 < nv.len() && i2 != j2 implies (
                        #[trigger] nv[i2]).0@ != (#[trigger] nv[j2]).0@ by {
                        assert(oldv[i2].0@ != oldv[j2].0@);
                    }
                    lemma_lookup_update(oldv, nv, gi);
                }
                return;
            }
            i = i + 1;
        }
        let ghost oldv = self.projects@;
        self.projects.push((key, state));
        proof {
            let nv = self.projects@;
            assert(forall|t: int| 0 <= t < oldv.len() ==> (#[trigger] oldv[t]).0@ != nv[
                oldv.len() as int].0@);
            assert forall|i2: int, j2: int|
                0 <= i2 < nv.len() && 0 <= j2 < nv.len() && i2 != j2 implies (
            #[trigger] nv[i2]).0@ != (#[trigger] nv[j2]).0@ by {
                if i2 < oldv.len() && j2 < oldv.len() {
                    assert(oldv[i2].0@ != oldv[j2].0@);
                }
            }
            lemma_lookup_append(oldv, nv[oldv.len() as int]);
        }
    }
}

/// Replacing the entry at a position whose earlier neighbours miss a key
/// rewrites only that key's lookup.
proof fn lemma_lookup_update(oldv: Seq<(String, ProjectState)>, nv: Seq<(String, ProjectState)>, i: int)
    requires
        0 <= i < oldv.len(),
        nv.len() == oldv.len(),
        forall|t: int| 0 <= t < nv.len() && t != i ==> nv[t] == oldv[t],
        nv[i].0@ == oldv[i].0@,
        forall|t: int| 0 <= t < i ==> (#[trigger] oldv[t]).0@ != oldv[i].0@,
    ensures
        spec_lookup(nv, nv[i].0@) == Some(nv[i].1),
        forall|k: Seq<char>|
            k != nv[i].0@ ==> spec_lookup(nv, k) == spec_lookup(oldv, k),
    decreases i,
{
    if i == 0 {
        assert(spec_lookup(nv, nv[0].0@) == Some(nv[0].1));
        assert forall|k: Seq<char>| k != nv[0].0@ implies spec_lookup(nv, k) == spec_lookup(
            oldv,
            k,
        ) by {
            assert(nv.drop_first() =~= oldv.drop_first());
            assert(nv[0].0@ == oldv[0].0@);
        }
    } else {
        lemma_lookup_update(oldv.drop_first(), nv.drop_first(), i - 1);
        assert(nv.drop_first()[i - 1] == nv[i]);
        assert(nv[0] == oldv[0]);
        assert(nv[0].0@ != nv[i].0@);
        assert(spec_lookup(nv, nv[i].0@) == spec_lookup(nv.drop_first(), nv[i].0@));
        assert forall|k: Seq<char>| k != nv[i].0@ implies spec_lookup(nv, k) == spec_lookup(
            oldv,
            k,
        ) by {
            if nv[0].0@ == k {
            } else {
                assert(spec_lookup(nv, k) == spec_lookup(nv.drop_first(), k));
                assert(spec_lookup(oldv, k) == spec_lookup(oldv.drop_first(), k));
            }
        }
    }
}

/// Appending an entry leaves every other key's lookup alone and serves the
/// new key where no earlier entry had it.
proof fn lemma_lookup_append(oldv: Seq<(String, ProjectState)>, e: (String, ProjectState))
    requires
        forall|t: int| 0 <= t < oldv.len() ==> (#[trigger] oldv[t]).0@ != e.0@,
    ensures
        spec_lookup(oldv.push(e), e.0@) == Some(e.1),
        forall|k: Seq<char>| k != e.0@ ==> spec_lookup(oldv.push(e), k) == spec_lookup(oldv, k),
    decreases oldv.len(),
{
    if oldv.len() == 0 {
        assert(oldv.push(e)[0] == e);
        assert forall|k: Seq<char>| k != e.0@ implies spec_lookup(oldv.push(e), k) == spec_lookup(
            oldv,
            k,
        ) by {
            assert(oldv.push(e).drop_first() =~= Seq::<(String, ProjectState)>::empty());
            assert(spec_lookup(Seq::<(String, ProjectState)>::empty(), k) is None);
            assert(spec_lookup(oldv.push(e), k) == spec_lookup(oldv.push(e).drop_first(), k));
        }
    } else {
        lemma_lookup_append(oldv.drop_first(), e);
        assert(oldv.push(e)[0] == oldv[0]);
        assert(oldv.push(e).drop_first() =~= oldv.drop_first().push(e));
        assert(oldv[0].0@ != e.0@);
        assert(spec_lookup(oldv.push(e), e.0@) == spec_lookup(oldv.drop_first().push(e), e.0@));
        assert forall|k: Seq<char>| k != e.0@ implies spec_lookup(oldv.push(e), k) == spec_lookup(
            oldv,
            k,
        ) by {
            assert(oldv.push(e).len() > 0);
            assert(oldv.push(e)[0] == oldv[0]);
            if oldv[0].0@ == k {
                assert(spec_lookup(oldv.push(e), k) == Some(oldv[0].1));
                assert(spec_lookup(oldv, k) == Some(oldv[0].1));
            } else {
                assert(spec_lookup(oldv.drop_first().push(e), k) == spec_lookup(
                    oldv.drop_first(),
                    k,
                ));
                assert(oldv.push(e).drop_first() == oldv.drop_first().push(e));
                assert(spec_lookup(oldv.push(e), k) == spec_lookup(
                    oldv.push(e).drop_first(),
                    k,
                ));
                assert(spec_lookup(oldv, k) == spec_lookup(oldv.drop_first(), k));
            }
        }
    }
}

} // verus!
