//! Paths and path sets.  A path is the sequence of name components (as
//! bytes) from the base directory down to an entry; the expanded-directory
//! set and the selected-file set are sets of such paths.

use vstd::prelude::*;
use crate::bytes::{bytes_eq, clone_bytes};

verus! {

/// Decides equality of two paths (componentwise byte equality).
pub fn path_eq(a: &Vec<Vec<u8>>, b: &Vec<Vec<u8>>) -> (r: bool)
    ensures
        r == (a.deep_view() == b.deep_view()),
{
    if a.len() != b.len() {
        assert(a.deep_view().len() != b.deep_view().len());
        return false;
    }
    let mut i: usize = 0;
    while i < a.len()
        invariant
            i <= a.len(),
            a.len() == b.len(),
            forall|k: int| 0 <= k < i ==> a.deep_view()[k] == b.deep_view()[k],
        decreases a.len() - i,
    {
        if !bytes_eq(&a[i], &b[i]) {
            assert(a.deep_view()[i as int] =~= a@[i as int]@);
            assert(b.deep_view()[i as int] =~= b@[i as int]@);
            assert(a.deep_view()[i as int] != b.deep_view()[i as int]);
            return false;
        }
        assert(a.deep_view()[i as int] =~= a@[i as int]@);
        assert(b.deep_view()[i as int] =~= b@[i as int]@);
        i = i + 1;
    }
    proof {
        assert(a.deep_view() =~= b.deep_view());
    }
    true
}

/// Copies a path.
pub fn clone_path(p: &Vec<Vec<u8>>) -> (r: Vec<Vec<u8>>)
    ensures
        r.deep_view() == p.deep_view(),
{
    let mut r: Vec<Vec<u8>> = Vec::new();
    proof {
        assert(r.deep_view() =~= p.deep_view().take(0));
    }
    let mut i: usize = 0;
    while i < p.len()
        invariant
            i <= p.len(),
            r.deep_view() == p.deep_view().take(i as int),
        decreases p.len() - i,
    {
        let c = clone_bytes(&p[i]);
        proof {
            assert(c.deep_view() =~= p@[i as int].deep_view());
        }
        let ghost prevv = r@;
        let ghost prevd = r.deep_view();
        r.push(c);
        proof {
            let rd = r.deep_view();
            let t = p.deep_view().take(i as int + 1);
            assert(prevd.len() == i as int);
            assert(prevv.len() == i as int);
            assert(r@.len() == i as int + 1);
            assert(rd.len() == t.len());
            assert forall|k: int| 0 <= k < rd.len() implies rd[k] == t[k] by {
                assert(rd[k] == r@[k].deep_view());
                if k < i as int {
                    assert(r@[k] == prevv[k]);
                    assert(prevd[k] == r@[k].deep_view());
                    assert(prevd[k] == p.deep_view().take(i as int)[k]);
                    assert(t[k] == p.deep_view()[k]);
                    assert(p.deep_view().take(i as int)[k] == p.deep_view()[k]);
                } else {
                    assert(k == i as int);
                    assert(r@[k] == c);
                    assert(rd[k] == c.deep_view());
                    assert(t[k] == p.deep_view()[k]);
                    assert(p.deep_view()[k] == p@[k].deep_view());
                }
            }
            assert(rd =~= t);
        }
        i = i + 1;
    }
    proof {
        assert(r.deep_view() =~= p.deep_view());
    }
    r
}

/// A set of paths, kept as a duplicate-free vector.  Views as a
/// mathematical set of paths.
pub struct PathSet {
    elems: Vec<Vec<Vec<u8>>>,
}

impl View for PathSet {
    type V = Set<Seq<Seq<u8>>>;

    closed spec fn view(&self) -> Set<Seq<Seq<u8>>> {
        self.elems.deep_view().to_set()
    }
}

impl PathSet {
    /// The backing vector holds each member exactly once.
    pub closed spec fn wf(&self) -> bool {
        self.elems.deep_view().no_duplicates()
    }

    /// The members in their backing order.
    pub closed spec fn members(&self) -> Seq<Seq<Seq<u8>>> {
        self.elems.deep_view()
    }

    /// The empty path set.
    pub fn new() -> (r: PathSet)
        ensures
            r@ == Set::<Seq<Seq<u8>>>::empty(),
            r.wf(),
    {
        let r = PathSet { elems: Vec::new() };
        proof {
            assert(r@ =~= Set::<Seq<Seq<u8>>>::empty());
        }
        r
    }

    /// Membership test.
    pub fn contains(&self, p: &Vec<Vec<u8>>) -> (r: bool)
        ensures
            r == self@.contains(p.deep_view()),
    {
        let mut i: usize = 0;
        while i < self.elems.len()
            invariant
                i <= self.elems.len(),
                forall|k: int| 0 <= k < i ==> self.elems.deep_view()[k] != p.deep_view(),
            decreases self.elems.len() - i,
        {
            if path_eq(&self.elems[i], p) {
                proof {
                    assert(self.elems.deep_view()[i as int] == p.deep_view());
                    assert(self.elems.deep_view().contains(p.deep_view()));
                }
                return true;
            }
            i = i + 1;
        }
        proof {
            assert(!self.elems.deep_view().contains(p.deep_view()));
        }
        false
    }

    /// Adds a path; no effect when it is already a member.
    pub fn insert(&mut self, p: Vec<Vec<u8>>)
        requires
            old(self).wf(),
        ensures
            final(self)@ == old(self)@.insert(p.deep_view()),
            final(self).wf(),
    {
        let there = self.contains(&p);
        if !there {
            let ghost olds = self.elems.deep_view();
            let ghost pd = p.deep_view();
            self.elems.push(p);
            proof {
                assert(self.elems.deep_view() =~= olds.push(pd));
                let news = self.elems.deep_view();
                assert forall|q: Seq<Seq<u8>>| news.contains(q) implies (olds.contains(q) || q
                    == pd) by {
                    let j = choose|j: int| 0 <= j < news.len() && news[j] == q;
                    if j < olds.len() {
                        assert(olds[j] == q);
                    }
                }
                assert forall|q: Seq<Seq<u8>>| olds.contains(q) || q == pd implies news.contains(
                    q,
                ) by {
                    if olds.contains(q) {
                        let j = choose|j: int| 0 <= j < olds.len() && olds[j] == q;
                        assert(news[j] == q);
                    } else {
                        assert(news[olds.len() as int] == q);
                    }
                }
                assert(self@ =~= old(self)@.insert(pd));
            }
        } else {
            proof {
                assert(self@ =~= old(self)@.insert(p.deep_view()));
            }
        }
    }

    /// Removes a path; no effect when it is not a member.
    pub fn remove(&mut self, p: &Vec<Vec<u8>>)
        requires
            old(self).wf(),
        ensures
            final(self)@ == old(self)@.remove(p.deep_view()),
            final(self).wf(),
    {
        let mut i: usize = 0;
        while i < self.elems.len()
            invariant
                i <= self.elems.len(),
                self == old(self),
                old(self).wf(),
                forall|k: int| 0 <= k < i ==> self.elems.deep_view()[k] != p.deep_view(),
            decreases self.elems.len() - i,
        {
            if path_eq(&self.elems[i], p) {
                let ghost olds = self.elems.deep_view();
                let ghost oldv = self.elems@;
                let ghost gi = i as int;
                proof {
                    assert(olds == old(self).elems.deep_view());
                    assert(olds.no_duplicates());
                    assert(olds[gi] == p.deep_view());
                }
                self.elems.remove(i);
                proof {
                    assert(self.elems@ == oldv.remove(gi));
                    let nd = self.elems.deep_view();
                    assert(nd.len() == olds.len() - 1);
                    assert forall|k: int| 0 <= k < nd.len() implies nd[k] == (if k < gi {
                        olds[k]
                    } else {
                        olds[k + 1]
                    }) by {
                        assert(nd[k] == self.elems@[k].deep_view());
                        if k < gi {
                            assert(self.elems@[k] == oldv[k]);
                            assert(olds[k] == oldv[k].deep_view());
                        } else {
                            assert(self.elems@[k] == oldv[k + 1]);
                            assert(olds[k + 1] == oldv[k + 1].deep_view());
                        }
                    }
                    assert forall|k1: int, k2: int|
                        0 <= k1 < nd.len() && 0 <= k2 < nd.len() && k1 != k2 implies nd[k1]
                        != nd[k2] by {
                        let m1 = if k1 < gi { k1 } else { k1 + 1 };
                        let m2 = if k2 < gi { k2 } else { k2 + 1 };
                        assert(nd[k1] == olds[m1]);
                        assert(nd[k2] == olds[m2]);
                    }
                    assert forall|q: Seq<Seq<u8>>| self.elems.deep_view().contains(q) implies (
                    olds.contains(q) && q != p.deep_view()) by {
                        let j = choose|j: int|
                            0 <= j < self.elems.deep_view().len() && self.elems.deep_view()[j]
                                == q;
                        if j < gi {
                            assert(olds[j] == q);
                            assert(olds.contains(q));
                            assert(q != p.deep_view());
                        } else {
                            assert(olds[j + 1] == q);
                            assert(olds.contains(q));
                            assert(j + 1 != gi);
                            assert(q != p.deep_view());
                        }
                    }
                    assert forall|q: Seq<Seq<u8>>|
                        olds.contains(q) && q != p.deep_view() implies self.elems.deep_view()
                        .contains(q) by {
                        let j = choose|j: int| 0 <= j < olds.len() && olds[j] == q;
                        if j < gi {
                            assert(self.elems.deep_view()[j] == q);
                        } else if j == gi {
                            assert(olds[gi] == p.deep_view());
                        } else {
                            assert(self.elems.deep_view()[j - 1] == q);
                        }
                    }
                    assert(self@ =~= old(self)@.remove(p.deep_view()));
                }
                return;
            }
            i = i + 1;
        }
        proof {
            assert(!self.elems.deep_view().contains(p.deep_view()));
            assert(self@ =~= old(self)@.remove(p.deep_view()));
        }
    }

    /// Empties the set.
    pub fn clear(&mut self)
        ensures
            final(self)@ == Set::<Seq<Seq<u8>>>::empty(),
            final(self).wf(),
    {
        self.elems = Vec::new();
        proof {
            assert(self@ =~= Set::<Seq<Seq<u8>>>::empty());
        }
    }

    /// Number of members.
    pub fn len(&self) -> (n: usize)
        requires
            self.wf(),
        ensures
            n == self@.len(),
    {
        proof {
            self.elems.deep_view().unique_seq_to_set();
        }
        self.elems.len()
    }

    /// The members as a vector, each exactly once.
    pub fn to_vec(&self) -> (r: Vec<Vec<Vec<u8>>>)
        ensures
            r.deep_view() == self.members(),
            r.deep_view().to_set() == self@,
            self.wf() ==> r.deep_view().no_duplicates(),
    {
        let mut r: Vec<Vec<Vec<u8>>> = Vec::new();
        let mut i: usize = 0;
        while i < self.elems.len()
            invariant
                i <= self.elems.len(),
                r.deep_view() == self.elems.deep_view().take(i as int),
            decreases self.elems.len() - i,
        {
            let c = clone_path(&self.elems[i]);
            proof {
                assert(c.deep_view() == self.elems@[i as int].deep_view());
            }
            let ghost prevv = r@;
            let ghost prevd = r.deep_view();
            r.push(c);
            proof {
                let rd = r.deep_view();
                let sd = self.elems.deep_view();
                let t = sd.take(i as int + 1);
                assert(prevd.len() == i as int);
                assert(prevv.len() == i as int);
                assert(r@.len() == i as int + 1);
                assert(rd.len() == t.len());
                assert forall|k: int| 0 <= k < rd.len() implies rd[k] == t[k] by {
                    assert(rd[k] == r@[k].deep_view());
                    if k < i as int {
                        assert(r@[k] == prevv[k]);
                        assert(prevd[k] == r@[k].deep_view());
                        assert(prevd[k] == sd.take(i as int)[k]);
                        assert(sd.take(i as int)[k] == sd[k]);
                        assert(t[k] == sd[k]);
                    } else {
                        assert(k == i as int);
                        assert(r@[k] == c);
                        assert(rd[k] == c.deep_view());
                        assert(t[k] == sd[k]);
                        assert(sd[k] == self.elems@[k].deep_view());
                    }
                }
                assert(rd =~= t);
            }
            i = i + 1;
        }
        proof {
            assert(r.deep_view() =~= self.elems.deep_view());
        }
        r
    }

    /// The set holding exactly the paths of `list`.
    pub fn from_vec(list: &Vec<Vec<Vec<u8>>>) -> (r: PathSet)
        ensures
            r@ == list.deep_view().to_set(),
            r.wf(),
    {
        let mut r = PathSet::new();
        let mut i: usize = 0;
        while i < list.len()
            invariant
                i <= list.len(),
                r.wf(),
                r@ =~= list.deep_view().take(i as int).to_set(),
            decreases list.len() - i,
        {
            r.insert(clone_path(&list[i]));
            proof {
                assert(list.deep_view().take(i + 1) =~= list.deep_view().take(i as int).push(
                    list.deep_view()[i as int],
                ));
                assert forall|q: Seq<Seq<u8>>|
                    list.deep_view().take(i + 1).to_set().contains(q) implies r@.contains(q) by {
                    let t = list.deep_view().take(i + 1);
                    let j = choose|j: int| 0 <= j < t.len() && t[j] == q;
                    if j < i {
                        assert(list.deep_view().take(i as int)[j] == q);
                        assert(list.deep_view().take(i as int).contains(q));
                    }
                }
                assert forall|q: Seq<Seq<u8>>|
                    r@.contains(q) implies list.deep_view().take(i + 1).to_set().contains(q) by {
                    let t = list.deep_view().take(i + 1);
                    if q == list.deep_view()[i as int] {
                        assert(t[i as int] == q);
                    } else {
                        let tp = list.deep_view().take(i as int);
                        assert(tp.contains(q));
                        let j = choose|j: int| 0 <= j < tp.len() && tp[j] == q;
                        assert(t[j] == q);
                    }
                }
                assert(r@ =~= list.deep_view().take(i + 1).to_set());
            }
            i = i + 1;
        }
        proof {
            assert(list.deep_view().take(list.len() as int) =~= list.deep_view());
        }
        r
    }
}

} // verus!
