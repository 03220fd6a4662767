//! One functional dependency: a determinant attribute set and a dependent
//! attribute set, each stored as an insertion-ordered, duplicate-free list of
//! names.

use vstd::prelude::*;

use crate::fdlist::FDList;
use crate::model::{
    deps_union, lemma_deps_union_push, lemma_model_witness, lemma_set_like_both_model, names_seq,
    set_like, Attr, FdView,
};

verus! {

/// Whether `a` names an attribute already listed in `v`.
pub fn contains_name(v: &Vec<String>, a: &String) -> (r: bool)
    ensures
        r == names_seq(v@).contains(a@),
{
    let mut i: usize = 0;
    let mut found = false;
    while i < v.len()
        invariant
            i <= v@.len(),
            !found ==> (forall|j: int| 0 <= j < i ==> names_seq(v@)[j] != a@),
            found ==> names_seq(v@).contains(a@),
        decreases v@.len() - i,
    {
        if v[i].eq(a) {
            found = true;
            proof {
                assert(names_seq(v@)[i as int] == a@);
            }
        }
        i += 1;
    }
    proof {
        if !found {
            assert(forall|j: int| 0 <= j < names_seq(v@).len() ==> names_seq(v@)[j] != a@);
            assert(!names_seq(v@).contains(a@));
        }
    }
    found
}

/// Append `a` to `v` unless an equal name is already listed; the insertion
/// that keeps an attribute set duplicate-free.
pub fn insert_name(v: &mut Vec<String>, a: String)
    ensures
        names_seq(old(v)@).contains(a@) ==> final(v)@ == old(v)@,
        !names_seq(old(v)@).contains(a@) ==> final(v)@ == old(v)@.push(a),
        names_seq(old(v)@).no_duplicates() ==> names_seq(final(v)@).no_duplicates(),
{
    let present = contains_name(v, &a);
    if !present {
        v.push(a);
        proof {
            if names_seq(old(v)@).no_duplicates() {
                let p = names_seq(v@);
                let q = names_seq(old(v)@);
                assert(p =~= q.push(a@));
                assert forall|i: int, j: int| 0 <= i < j < p.len() implies p[i] != p[j] by {
                    if j == p.len() - 1 {
                        assert(p[i] == q[i]);
                        if q[i] == a@ {
                            assert(q.contains(q[i]));
                        }
                    }
                }
            }
        }
    }
}

/// Whether two lists hold the same set of attribute names, in any order and
/// multiplicity.
pub fn same_name_set(a: &Vec<String>, b: &Vec<String>) -> (r: bool)
    ensures
        r == (names_seq(a@).to_set() == names_seq(b@).to_set()),
{
    let ghost an = names_seq(a@);
    let ghost bn = names_seq(b@);
    let mut i: usize = 0;
    while i < a.len()
        invariant
            i <= a@.len(),
            an == names_seq(a@),
            bn == names_seq(b@),
            forall|j: int| 0 <= j < i ==> bn.contains(#[trigger] an[j]),
        decreases a@.len() - i,
    {
        if !contains_name(b, &a[i]) {
            proof {
                assert(an.to_set().contains(an[i as int]));
                assert(!bn.to_set().contains(an[i as int]));
            }
            return false;
        }
        i += 1;
    }
    let mut k: usize = 0;
    while k < b.len()
        invariant
            k <= b@.len(),
            an == names_seq(a@),
            bn == names_seq(b@),
            forall|j: int| 0 <= j < an.len() ==> bn.contains(#[trigger] an[j]),
            forall|j: int| 0 <= j < k ==> an.contains(#[trigger] bn[j]),
        decreases b@.len() - k,
    {
        if !contains_name(a, &b[k]) {
            proof {
                assert(bn.to_set().contains(bn[k as int]));
                assert(!an.to_set().contains(bn[k as int]));
            }
            return false;
        }
        k += 1;
    }
    proof {
        assert forall|x: Attr| an.to_set().contains(x) implies bn.to_set().contains(x) by {
            let j = choose|j: int| 0 <= j < an.len() && an[j] == x;
            assert(bn.contains(an[j]));
        }
        assert forall|x: Attr| bn.to_set().contains(x) implies an.to_set().contains(x) by {
            let j = choose|j: int| 0 <= j < bn.len() && bn[j] == x;
            assert(an.contains(bn[j]));
        }
        assert(an.to_set() =~= bn.to_set());
    }
    true
}

/// The views of a sequence of dependencies.
pub open spec fn fd_views(s: Seq<FD>) -> Seq<FdView> {
    s.map_values(|fd: FD| fd@)
}

/// One functional dependency.  `det` (the determinant) and `dep` (the
/// dependent) are insertion-ordered lists of attribute names; well-formed
/// values list each name at most once per side.
pub struct FD {
    pub det: Vec<String>,
    pub dep: Vec<String>,
}

impl View for FD {
    type V = FdView;

    open spec fn view(&self) -> FdView {
        FdView { det: names_seq(self.det@), dep: names_seq(self.dep@) }
    }
}

/// Copy a list of attribute names.
///
/// Relies on `Vec::clone` and `String::clone` from std, whose contracts say
/// the copy equals the original.
pub fn clone_names(v: &Vec<String>) -> (r: Vec<String>)
    ensures
        r@ == v@,
{
    let r = v.clone();
    proof {
        assert forall|i: int| 0 <= i < r@.len() implies r@[i] == v@[i] by {
            assert(vstd::pervasive::cloned::<String>(v@[i], r@[i]));
        }
        assert(r@ =~= v@);
    }
    r
}

impl Clone for FD {
    /// Copying a dependency keeps both sides unchanged.
    fn clone(&self) -> (r: FD)
        ensures
            r@ == self@,
    {
        FD { det: clone_names(&self.det), dep: clone_names(&self.dep) }
    }
}

impl PartialEq for FD {
    /// Dependency equality: both sides agree as sets, regardless of stored
    /// order.
    fn eq(&self, other: &FD) -> bool {
        if self.det.len() != other.det.len() {
            return false;
        }
        if self.dep.len() != other.dep.len() {
            return false;
        }
        let mut i: usize = 0;
        while i < self.det.len()
            invariant
                i <= self.det@.len(),
                self.det@.len() == other.det@.len(),
                self.dep@.len() == other.dep@.len(),
                forall|j: int|
                    0 <= j < i ==> names_seq(other.det@).contains(
                        #[trigger] names_seq(self.det@)[j],
                    ),
            decreases self.det@.len() - i,
        {
            if !contains_name(&other.det, &self.det[i]) {
                proof {
                    assert(!names_seq(other.det@).contains(names_seq(self.det@)[i as int]));
                    assert(!set_like(self@.det, other@.det));
                }
                return false;
            }
            i += 1;
        }
        let mut k: usize = 0;
        while k < self.dep.len()
            invariant
                k <= self.dep@.len(),
                self.det@.len() == other.det@.len(),
                self.dep@.len() == other.dep@.len(),
                set_like(self@.det, other@.det),
                forall|j: int|
                    0 <= j < k ==> names_seq(other.dep@).contains(
                        #[trigger] names_seq(self.dep@)[j],
                    ),
            decreases self.dep@.len() - k,
        {
            if !contains_name(&other.dep, &self.dep[k]) {
                proof {
                    assert(!names_seq(other.dep@).contains(names_seq(self.dep@)[k as int]));
                    assert(!set_like(self@.dep, other@.dep));
                }
                return false;
            }
            k += 1;
        }
        true
    }
}

impl vstd::std_specs::cmp::PartialEqSpecImpl for FD {
    open spec fn obeys_eq_spec() -> bool {
        true
    }

    open spec fn eq_spec(&self, other: &FD) -> bool {
        set_like(self@.det, other@.det) && set_like(self@.dep, other@.dep)
    }
}

impl FD {
    /// A dependency with empty determinant and dependent, to be filled by
    /// [`FD::add_determinant`] and [`FD::add_dependant`].
    pub fn new() -> (r: FD)
        ensures
            r@.det == Seq::<Attr>::empty(),
            r@.dep == Seq::<Attr>::empty(),
            r@.wf(),
    {
        let r = FD { det: Vec::new(), dep: Vec::new() };
        proof {
            assert(r@.det =~= Seq::<Attr>::empty());
            assert(r@.dep =~= Seq::<Attr>::empty());
        }
        r
    }

    /// A dependency may enter a collection only when both sides are
    /// non-empty.
    pub fn is_valid(&self) -> (r: bool)
        ensures
            r == self@.valid(),
    {
        if self.det.is_empty() || self.dep.is_empty() {
            return false;
        }
        true
    }

    /// Idempotent insertion into the determinant.
    pub fn add_determinant(&mut self, attrib: String)
        ensures
            old(self)@.det.contains(attrib@) ==> final(self)@ == old(self)@,
            !old(self)@.det.contains(attrib@) ==> final(self)@ == (FdView {
                det: old(self)@.det.push(attrib@),
                dep: old(self)@.dep,
            }),
            old(self)@.wf() ==> final(self)@.wf(),
    {
        let ghost a = attrib@;
        insert_name(&mut self.det, attrib);
        proof {
            if !old(self)@.det.contains(a) {
                assert(names_seq(self.det@) =~= names_seq(old(self).det@).push(a));
            }
        }
    }

    /// Idempotent insertion into the dependent.
    pub fn add_dependant(&mut self, attrib: String)
        ensures
            old(self)@.dep.contains(attrib@) ==> final(self)@ == old(self)@,
            !old(self)@.dep.contains(attrib@) ==> final(self)@ == (FdView {
                det: old(self)@.det,
                dep: old(self)@.dep.push(attrib@),
            }),
            old(self)@.wf() ==> final(self)@.wf(),
    {
        let ghost a = attrib@;
        insert_name(&mut self.dep, attrib);
        proof {
            if !old(self)@.dep.contains(a) {
                assert(names_seq(self.dep@) =~= names_seq(old(self).dep@).push(a));
            }
        }
    }

    /// Split this dependency into one dependency per dependent attribute,
    /// each keeping the full determinant.
    ///
    /// Law: decomposition is lossless — every produced dependency carries
    /// exactly the original determinant, and the union of the produced
    /// dependent sides equals the original dependent side.
    pub fn decompose(&self) -> (r: FDList)
        requires
            self@.wf(),
        ensures
            r.wf(),
            r@.len() == self@.dep.len(),
            forall|i: int| 0 <= i < r@.len() ==> (#[trigger] r@[i]).det == self@.det,
            forall|i: int| 0 <= i < r@.len() ==> (#[trigger] r@[i]).dep == seq![self@.dep[i]],
            deps_union(r@) == self@.dep.to_set(),
    {
        let mut out = FDList::new();
        let mut i: usize = 0;
        proof {
            assert(out@.take(0) =~= out@);
            assert(self@.dep.take(0) =~= Seq::<Attr>::empty());
            assert(deps_union(out@) =~= self@.dep.take(0).to_set());
        }
        while i < self.dep.len()
            invariant
                self@.wf(),
                i <= self.dep@.len(),
                out.wf(),
                out@.len() == i,
                forall|j: int| 0 <= j < i ==> (#[trigger] out@[j]).det == self@.det,
                forall|j: int| 0 <= j < i ==> (#[trigger] out@[j]).dep == seq![self@.dep[j]],
                deps_union(out@) == self@.dep.take(i as int).to_set(),
            decreases self.dep@.len() - i,
        {
            let ghost prev = out@;
            let mut dvec: Vec<String> = Vec::new();
            dvec.push(self.dep[i].clone());
            let f = FD { det: clone_names(&self.det), dep: dvec };
            proof {
                assert(f@.det == self@.det);
                assert(f@.dep =~= seq![self@.dep[i as int]]);
                assert(f@.wf());
                assert forall|j: int| 0 <= j < i implies out@[j].model() != f@.model() by {
                    assert(out@[j].dep[0] == self@.dep[j]);
                    assert(out@[j].dep.contains(self@.dep[j]));
                    assert(out@[j].dep.to_set().contains(self@.dep[j]));
                    if out@[j].model() == f@.model() {
                        assert(f@.dep.to_set().contains(self@.dep[j]));
                        assert(f@.dep.contains(self@.dep[j]));
                        assert(self@.dep[j] == self@.dep[i as int]);
                    }
                }
                if out.mset().contains(f@.model()) {
                    let j = lemma_model_witness(out@, f@.model());
                    assert(false);
                }
            }
            out.push(f);
            i += 1;
            proof {
                let k = i as int - 1;
                assert(out@ == prev.push(f@));
                lemma_deps_union_push(prev, f@);
                assert(seq![self@.dep[k]][0] == self@.dep[k]);
                assert(f@.dep.to_set() =~= Set::empty().insert(self@.dep[k]));
                self@.dep.lemma_take_succ_push(k);
                let t = self@.dep.take(k);
                let x = self@.dep[k];
                assert forall|y: Attr| t.push(x).contains(y) implies (t.contains(y) || y
                    == x) by {
                    let idx = choose|idx: int| 0 <= idx < t.push(x).len() && t.push(x)[idx] == y;
                    if idx < t.len() {
                        assert(t[idx] == y);
                    }
                }
                assert forall|y: Attr| t.contains(y) implies t.push(x).contains(y) by {
                    let idx = choose|idx: int| 0 <= idx < t.len() && t[idx] == y;
                    assert(t.push(x)[idx] == y);
                }
                assert(t.push(x).contains(x)) by {
                    assert(t.push(x)[t.len() as int] == x);
                }
                assert(t.push(x).to_set() =~= t.to_set().insert(x));
                assert(deps_union(out@) =~= self@.dep.take(i as int).to_set());
            }
        }
        proof {
            assert(self@.dep.take(self@.dep.len() as int) =~= self@.dep);
        }
        out
    }
}

} // verus!
