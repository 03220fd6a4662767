//! An ordered collection of functional dependencies with no two members
//! equal as dependencies (set equality on both sides).

use vstd::prelude::*;

use crate::fd::{clone_names, contains_name, fd_views, same_name_set, FD};
use crate::model::{
    closed_under, closure_of, deps_union, derives, det_pred, det_size_sum, equiv, keep_pred,
    lemma_attr_push_to_set, lemma_derived_closure_le, lemma_derives_monotone,
    lemma_closure_closed, lemma_closure_least, lemma_closure_monotonic_fds,
    lemma_closure_superset, lemma_deps_union_covers, lemma_deps_union_member,
    lemma_deps_union_push, lemma_filter_missing_len, lemma_filter_missing_two,
    lemma_member_derives, lemma_mutual_derives_equiv, other_det_pred,
    lemma_deps_union_finite, lemma_drop_step_equiv, lemma_equiv_transitive,
    lemma_filter_keeps_distinct, lemma_filter_members, lemma_filter_unique_remove,
    lemma_filtered_model_set, lemma_model_at, lemma_model_set_push, lemma_model_witness,
    lemma_reduce_step_equiv, lemma_remove_no_dup, lemma_set_like_both_model,
    lemma_size_sum_push, lemma_size_sum_remove, lemma_subset_antisymmetric, model_set, names_seq,
    Attr, FdModel, FdView,
};

verus! {

/// Every dependency in the sequence has a one-attribute dependent.
pub open spec fn all_deps_single(w: Seq<FdView>) -> bool {
    forall|i: int| 0 <= i < w.len() ==> (#[trigger] w[i]).dep.len() == 1
}

/// Every dependency in the sequence has a non-empty determinant.
pub open spec fn all_dets_nonempty(w: Seq<FdView>) -> bool {
    forall|i: int| 0 <= i < w.len() ==> (#[trigger] w[i]).det.len() >= 1
}

/// Every dependency in the sequence has a non-empty dependent.
pub open spec fn all_deps_nonempty(w: Seq<FdView>) -> bool {
    forall|i: int| 0 <= i < w.len() ==> (#[trigger] w[i]).dep.len() >= 1
}

/// Some member of `w` has determinant set `ds` and lists `b` among its
/// dependents.
pub open spec fn covers_det(w: Seq<FdView>, ds: Set<Attr>, b: Attr) -> bool {
    exists|j: int|
        0 <= j < w.len() && (#[trigger] w[j]).det.to_set() == ds && w[j].dep.to_set().contains(b)
}

/// Some member of `w` has determinant set `ds` and a dependent side that
/// includes `dep`.
pub open spec fn absorbs(w: Seq<FdView>, ds: Set<Attr>, dep: Set<Attr>) -> bool {
    exists|i: int|
        0 <= i < w.len() && (#[trigger] w[i]).det.to_set() == ds && dep.subset_of(
            w[i].dep.to_set(),
        )
}

/// Every dependent attribute of a member of `to` is carried, under the same
/// determinant set, by some member of `from`.
pub open spec fn deps_carried(to: Seq<FdView>, from: Seq<FdView>) -> bool {
    forall|i: int, b: Attr|
        0 <= i < to.len() && (#[trigger] to[i].dep.to_set().contains(b)) ==> covers_det(
            from,
            to[i].det.to_set(),
            b,
        )
}

/// Every member of `from` has a member of `to` with the same determinant set
/// whose dependent side absorbs its own.
pub open spec fn deps_absorbed(from: Seq<FdView>, to: Seq<FdView>) -> bool {
    forall|j: int|
        0 <= j < from.len() ==> absorbs(
            to,
            (#[trigger] from[j]).det.to_set(),
            from[j].dep.to_set(),
        )
}

/// A sequence carries and absorbs itself.
pub proof fn lemma_carried_absorbed_refl(w: Seq<FdView>)
    ensures
        deps_carried(w, w),
        deps_absorbed(w, w),
{
    assert forall|i: int, b: Attr|
        0 <= i < w.len() && (#[trigger] w[i].dep.to_set().contains(b)) implies covers_det(
        w,
        w[i].det.to_set(),
        b,
    ) by {
        assert(0 <= i < w.len() && w[i].det.to_set() == w[i].det.to_set()
            && w[i].dep.to_set().contains(b));
    }
    assert forall|j: int| 0 <= j < w.len() implies absorbs(
        w,
        (#[trigger] w[j]).det.to_set(),
        w[j].dep.to_set(),
    ) by {
        assert(w[j].dep.to_set().subset_of(w[j].dep.to_set()));
        assert(0 <= j < w.len() && w[j].det.to_set() == w[j].det.to_set()
            && w[j].dep.to_set().subset_of(w[j].dep.to_set()));
    }
}

/// Merging all members of determinant set `d` into one member `cv` whose
/// dependent side is the union of theirs preserves equivalence with the
/// surrounding collections, and keeps dependents carried and absorbed.
pub proof fn lemma_merge_step(
    smset: Set<FdModel>,
    rviews: Seq<FdView>,
    tempold: Seq<FdView>,
    newtemp: Seq<FdView>,
    d: Set<Attr>,
    cv: FdView,
)
    requires
        equiv(smset, model_set(rviews)),
        equiv(smset, model_set(tempold)),
        deps_carried(tempold, rviews),
        deps_absorbed(rviews, tempold),
        cv.det.to_set() == d,
        cv.dep.to_set() == deps_union(rviews.filter(det_pred(d))),
        newtemp == tempold.filter(other_det_pred(d)).push(cv),
    ensures
        equiv(smset, model_set(newtemp)),
        deps_carried(newtemp, rviews),
        deps_absorbed(rviews, newtemp),
        all_dets_nonempty(tempold) && all_dets_nonempty(rviews) && rviews.filter(
            det_pred(d),
        ).len() >= 1 ==> all_dets_nonempty(newtemp),
        all_deps_nonempty(tempold) && all_deps_nonempty(rviews) && rviews.filter(
            det_pred(d),
        ).len() >= 1 ==> all_deps_nonempty(newtemp),
{
    let gviews = rviews.filter(det_pred(d));
    let pred = other_det_pred(d);
    let filtered = tempold.filter(pred);
    let rmset = model_set(rviews);
    let tomset = model_set(tempold);
    let newmset = model_set(newtemp);
    assert forall|x: FdModel| #[trigger] newmset.contains(x) implies derives(tomset, x) by {
        let idx = lemma_model_witness(newtemp, x);
        if idx < filtered.len() {
            assert(newtemp[idx] == filtered[idx]);
            let j = lemma_filter_members(tempold, pred, idx);
            lemma_model_at(tempold, j);
            lemma_member_derives(tomset, x);
        } else {
            assert(newtemp[idx] == cv);
            assert forall|b: Attr| x.dep.contains(b) implies closure_of(x.det, tomset).contains(
                b,
            ) by {
                let u = lemma_deps_union_member(gviews, b);
                let j = lemma_filter_members(rviews, det_pred(d), u);
                lemma_model_at(rviews, j);
                lemma_member_derives(rmset, rviews[j].model());
                assert(rviews[j].det.to_set() == d);
                assert(closure_of(d, rmset).contains(b));
                assert(closure_of(d, smset) == closure_of(d, rmset));
                assert(closure_of(d, smset) == closure_of(d, tomset));
            }
        }
    }
    assert forall|x: FdModel| #[trigger] tomset.contains(x) implies derives(newmset, x) by {
        let idx = lemma_model_witness(tempold, x);
        let v = tempold[idx];
        if v.det.to_set() != d {
            tempold.lemma_filter_contains(pred, idx);
            let idx2 = choose|u: int| 0 <= u < filtered.len() && filtered[u] == v;
            assert(newtemp[idx2] == v);
            lemma_model_at(newtemp, idx2);
            lemma_member_derives(newmset, x);
        } else {
            assert(newtemp[newtemp.len() - 1] == cv);
            lemma_model_at(newtemp, newtemp.len() - 1);
            lemma_member_derives(newmset, cv.model());
            assert forall|b: Attr| x.dep.contains(b) implies closure_of(x.det, newmset).contains(
                b,
            ) by {
                assert(tempold[idx].dep.to_set().contains(b));
                assert(covers_det(rviews, v.det.to_set(), b));
                let j = choose|j: int|
                    0 <= j < rviews.len() && (#[trigger] rviews[j]).det.to_set() == v.det.to_set()
                        && rviews[j].dep.to_set().contains(b);
                rviews.lemma_filter_contains(det_pred(d), j);
                let u = choose|u: int| 0 <= u < gviews.len() && gviews[u] == rviews[j];
                lemma_deps_union_covers(gviews, u);
                assert(cv.dep.to_set().contains(b));
                assert(cv.model().dep.contains(b));
                assert(closure_of(cv.model().det, newmset).contains(b));
                assert(x.det == d && cv.model().det == d);
            }
        }
    }
    lemma_mutual_derives_equiv(tomset, newmset);
    lemma_equiv_transitive(smset, tomset, newmset);
    assert forall|i2: int, b: Attr|
        0 <= i2 < newtemp.len() && (#[trigger] newtemp[i2].dep.to_set().contains(
            b,
        )) implies covers_det(rviews, newtemp[i2].det.to_set(), b) by {
        if i2 < filtered.len() {
            let j1 = lemma_filter_members(tempold, pred, i2);
            assert(newtemp[i2] == tempold[j1]);
            assert(tempold[j1].dep.to_set().contains(b));
            assert(covers_det(rviews, tempold[j1].det.to_set(), b));
        } else {
            assert(newtemp[i2] == cv);
            let u = lemma_deps_union_member(gviews, b);
            let j = lemma_filter_members(rviews, det_pred(d), u);
            assert(0 <= j < rviews.len() && rviews[j].det.to_set() == newtemp[i2].det.to_set()
                && rviews[j].dep.to_set().contains(b));
        }
    }
    assert forall|j: int| 0 <= j < rviews.len() implies absorbs(
        newtemp,
        (#[trigger] rviews[j]).det.to_set(),
        rviews[j].dep.to_set(),
    ) by {
        assert(absorbs(tempold, rviews[j].det.to_set(), rviews[j].dep.to_set()));
        let i0 = choose|i0: int|
            0 <= i0 < tempold.len() && (#[trigger] tempold[i0]).det.to_set()
                == rviews[j].det.to_set() && rviews[j].dep.to_set().subset_of(
                tempold[i0].dep.to_set(),
            );
        if tempold[i0].det.to_set() != d {
            tempold.lemma_filter_contains(pred, i0);
            let idx2 = choose|u: int| 0 <= u < filtered.len() && filtered[u] == tempold[i0];
            assert(newtemp[idx2] == tempold[i0]);
            assert(0 <= idx2 < newtemp.len() && newtemp[idx2].det.to_set()
                == rviews[j].det.to_set() && rviews[j].dep.to_set().subset_of(
                newtemp[idx2].dep.to_set(),
            ));
        } else {
            rviews.lemma_filter_contains(det_pred(d), j);
            let u = choose|u: int| 0 <= u < gviews.len() && gviews[u] == rviews[j];
            lemma_deps_union_covers(gviews, u);
            let last = newtemp.len() - 1;
            assert(newtemp[last] == cv);
            assert(rviews[j].dep.to_set().subset_of(newtemp[last].dep.to_set()));
            assert(0 <= last < newtemp.len() && newtemp[last].det.to_set()
                == rviews[j].det.to_set() && rviews[j].dep.to_set().subset_of(
                newtemp[last].dep.to_set(),
            ));
        }
    }
    if all_dets_nonempty(tempold) && all_dets_nonempty(rviews) && gviews.len() >= 1 {
        assert forall|i2: int| 0 <= i2 < newtemp.len() implies (#[trigger] newtemp[i2]).det.len()
            >= 1 by {
            if i2 < filtered.len() {
                let j1 = lemma_filter_members(tempold, pred, i2);
                assert(newtemp[i2] == tempold[j1]);
            } else {
                let j0 = lemma_filter_members(rviews, det_pred(d), 0);
                assert(gviews[0].det.len() >= 1);
                assert(gviews[0].det.to_set().contains(gviews[0].det[0]));
                assert(cv.det.to_set().contains(gviews[0].det[0]));
                assert(cv.det.contains(gviews[0].det[0]));
                assert(newtemp[i2] == cv);
            }
        }
    }
    if all_deps_nonempty(tempold) && all_deps_nonempty(rviews) && gviews.len() >= 1 {
        assert forall|i2: int| 0 <= i2 < newtemp.len() implies (#[trigger] newtemp[i2]).dep.len()
            >= 1 by {
            if i2 < filtered.len() {
                let j1 = lemma_filter_members(tempold, pred, i2);
                assert(newtemp[i2] == tempold[j1]);
            } else {
                let j0 = lemma_filter_members(rviews, det_pred(d), 0);
                assert(gviews[0].dep.len() >= 1);
                assert(gviews[0].dep.to_set().contains(gviews[0].dep[0]));
                lemma_deps_union_covers(gviews, 0);
                assert(cv.dep.to_set().contains(gviews[0].dep[0]));
                assert(cv.dep.contains(gviews[0].dep[0]));
                assert(newtemp[i2] == cv);
            }
        }
    }
}

/// No two members share a determinant set.
pub open spec fn unique_dets(w: Seq<FdView>) -> bool {
    forall|i: int, j: int|
        0 <= i < j < w.len() ==> (#[trigger] w[i]).det.to_set() != (#[trigger] w[j]).det.to_set()
}

/// Dropping attribute `k` from the determinant of the dependency at `j`
/// loses its dependent: that attribute is not extraneous under `ws`.
pub open spec fn det_minimal_entry(w: Seq<FdView>, ws: Set<FdModel>, j: int, k: int) -> bool {
    !closure_of(w[j].det.to_set().remove(w[j].det[k]), ws).contains(w[j].dep[0])
}

/// No dependency among the first `n` has an extraneous determinant
/// attribute under `ws`.
pub open spec fn dets_minimal_upto(w: Seq<FdView>, ws: Set<FdModel>, n: int) -> bool {
    forall|j: int, k: int|
        0 <= j < n && w[j].det.len() > 1 && 0 <= k < w[j].det.len()
            ==> #[trigger] det_minimal_entry(w, ws, j, k)
}

/// No dependency has an extraneous determinant attribute under `ws`.
pub open spec fn dets_minimal(w: Seq<FdView>, ws: Set<FdModel>) -> bool {
    dets_minimal_upto(w, ws, w.len() as int)
}

/// An insertion-ordered, duplicate-free collection of functional
/// dependencies.
pub struct FDList {
    pub list: Vec<FD>,
}

impl View for FDList {
    type V = Seq<FdView>;

    open spec fn view(&self) -> Seq<FdView> {
        fd_views(self.list@)
    }
}

impl Clone for FDList {
    /// Copying a collection keeps every member unchanged.
    fn clone(&self) -> (r: FDList)
        ensures
            r@ == self@,
    {
        let r = FDList { list: self.list.clone() };
        proof {
            assert forall|i: int| 0 <= i < r@.len() implies r@[i] == self@[i] by {
                assert(vstd::pervasive::cloned::<FD>(self.list@[i], r.list@[i]));
            }
            assert(r@ =~= self@);
        }
        r
    }
}

impl FDList {
    /// The members' order-free models, as a set.
    pub open spec fn mset(&self) -> Set<FdModel> {
        model_set(self@)
    }

    /// Every member is well-formed and no two members are equal as
    /// dependencies.
    pub open spec fn wf(&self) -> bool {
        (forall|i: int| 0 <= i < self@.len() ==> (#[trigger] self@[i]).wf()) && (forall|
            i: int,
            j: int,
        |
            0 <= i < j < self@.len() ==> self@[i].model() != self@[j].model())
    }

    /// Every member has a non-empty determinant and dependent.
    pub open spec fn all_valid(&self) -> bool {
        forall|i: int| 0 <= i < self@.len() ==> (#[trigger] self@[i]).valid()
    }

    /// The empty collection.
    pub fn new() -> (r: FDList)
        ensures
            r@ == Seq::<FdView>::empty(),
            r.wf(),
    {
        let r = FDList { list: Vec::new() };
        proof {
            assert(r@ =~= Seq::<FdView>::empty());
        }
        r
    }

    /// Whether a dependency equal to `fd` is already a member.
    pub fn contains_fd(&self, fd: &FD) -> (r: bool)
        requires
            self.wf(),
            fd@.wf(),
        ensures
            r == self.mset().contains(fd@.model()),
    {
        let mut i: usize = 0;
        let mut present = false;
        while i < self.list.len()
            invariant
                self.wf(),
                fd@.wf(),
                i <= self@.len(),
                !present ==> (forall|j: int|
                    0 <= j < i ==> (#[trigger] self@[j]).model() != fd@.model()),
                present ==> self.mset().contains(fd@.model()),
            decreases self@.len() - i,
        {
            let hit = self.list[i].eq(fd);
            proof {
                lemma_set_like_both_model(self@[i as int], fd@);
                if hit {
                    lemma_model_at(self@, i as int);
                }
            }
            if hit {
                present = true;
            }
            i += 1;
        }
        proof {
            if !present && self.mset().contains(fd@.model()) {
                let j = lemma_model_witness(self@, fd@.model());
                assert(false);
            }
        }
        present
    }

    /// Add `fd` unless an equal member already exists.
    pub fn push(&mut self, fd: FD)
        requires
            old(self).wf(),
            fd@.wf(),
        ensures
            final(self).wf(),
            old(self).mset().contains(fd@.model()) ==> final(self)@ == old(self)@,
            !old(self).mset().contains(fd@.model()) ==> final(self)@ == old(self)@.push(fd@),
            final(self).mset() == old(self).mset().insert(fd@.model()),
    {
        let ghost m = fd@.model();
        let present = self.contains_fd(&fd);
        if !present {
            let ghost prev = self@;
            self.list.push(fd);
            proof {
                assert(self@ =~= prev.push(fd@));
                lemma_model_set_push(prev, fd@);
                assert forall|i: int| 0 <= i < self@.len() implies (#[trigger] self@[i]).wf() by {
                    if i < self@.len() - 1 {
                        assert(prev[i].wf());
                    }
                }
                assert forall|i: int, j: int|
                    0 <= i < j < self@.len() implies self@[i].model() != self@[j].model() by {
                    if j == self@.len() - 1 {
                        assert(self@[i] == prev[i]);
                        lemma_model_at(prev, i);
                    } else {
                        assert(self@[i] == prev[i] && self@[j] == prev[j]);
                    }
                }
            }
        } else {
            proof {
                assert(self.mset() =~= old(self).mset().insert(m));
            }
        }
    }

    /// The members, for iteration in stored order.
    pub fn iter(&self) -> (r: &Vec<FD>)
        ensures
            r@ == self.list@,
            fd_views(r@) == self@,
    {
        &self.list
    }

    /// Every member except those equal to `fd`, in stored order.
    pub fn all_except(&self, fd: &FD) -> (r: FDList)
        requires
            self.wf(),
            fd@.wf(),
        ensures
            r@ == self@.filter(keep_pred(fd@.model())),
            r.wf(),
            r.mset() == self.mset().remove(fd@.model()),
    {
        let ghost pred = keep_pred(fd@.model());
        let mut out: Vec<FD> = Vec::new();
        let mut i: usize = 0;
        proof {
            reveal(Seq::filter);
            assert(self@.take(0) =~= Seq::<FdView>::empty());
            assert(fd_views(out@) =~= self@.take(0).filter(pred));
        }
        while i < self.list.len()
            invariant
                self.wf(),
                fd@.wf(),
                i <= self@.len(),
                pred == keep_pred(fd@.model()),
                fd_views(out@) == self@.take(i as int).filter(pred),
            decreases self@.len() - i,
        {
            let ghost prev = fd_views(out@);
            let keep = !self.list[i].eq(fd);
            proof {
                lemma_set_like_both_model(self@[i as int], fd@);
                assert(keep == pred(self@[i as int]));
            }
            if keep {
                out.push(self.list[i].clone());
            }
            proof {
                if keep {
                    assert(fd_views(out@) =~= prev.push(self@[i as int]));
                }
                self@.lemma_take_succ_push(i as int);
                self@.take(i as int).lemma_filter_push(self@[i as int], pred);
                assert(self@.take(i as int + 1).filter(pred) == self@.take(i as int).push(
                    self@[i as int],
                ).filter(pred));
                assert(fd_views(out@) == self@.take(i as int + 1).filter(pred));
            }
            i += 1;
        }
        let r = FDList { list: out };
        proof {
            assert(self@.take(self@.len() as int) =~= self@);
            lemma_filter_keeps_distinct(self@, pred);
            lemma_filtered_model_set(self@, fd@.model());
        }
        r
    }

    /// Every member whose determinant equals `determinant` as a set, in
    /// stored order.
    pub fn find_all(&self, determinant: &Vec<String>) -> (r: Vec<FD>)
        ensures
            fd_views(r@) == self@.filter(det_pred(names_seq(determinant@).to_set())),
    {
        let ghost pred = det_pred(names_seq(determinant@).to_set());
        let mut out: Vec<FD> = Vec::new();
        let mut i: usize = 0;
        proof {
            reveal(Seq::filter);
            assert(self@.take(0) =~= Seq::<FdView>::empty());
            assert(fd_views(out@) =~= self@.take(0).filter(pred));
        }
        while i < self.list.len()
            invariant
                i <= self@.len(),
                pred == det_pred(names_seq(determinant@).to_set()),
                fd_views(out@) == self@.take(i as int).filter(pred),
            decreases self@.len() - i,
        {
            let ghost prev = fd_views(out@);
            let hit = same_name_set(&self.list[i].det, determinant);
            proof {
                assert(hit == pred(self@[i as int]));
            }
            if hit {
                out.push(self.list[i].clone());
            }
            proof {
                if hit {
                    assert(fd_views(out@) =~= prev.push(self@[i as int]));
                }
                self@.lemma_take_succ_push(i as int);
                self@.take(i as int).lemma_filter_push(self@[i as int], pred);
                assert(fd_views(out@) == self@.take(i as int + 1).filter(pred));
            }
            i += 1;
        }
        proof {
            assert(self@.take(self@.len() as int) =~= self@);
        }
        out
    }

    /// The attribute closure of `attribs` under this collection: the least
    /// superset of `attribs` closed under every member, computed by
    /// repeated passes until a pass adds nothing.
    ///
    /// The result starts with `attribs` itself and appends each newly
    /// derived attribute once, in the order found.
    ///
    /// Law: the closure contains its base set — `attribs` is a prefix of the
    /// result, and the result's name set is `closure_of` the base set, which
    /// this module's lemmas show to be a superset of it and idempotent.
    pub fn closure(&self, attribs: &Vec<String>) -> (r: Vec<String>)
        requires
            names_seq(attribs@).no_duplicates(),
        ensures
            names_seq(r@).to_set() == closure_of(names_seq(attribs@).to_set(), self.mset()),
            names_seq(r@).no_duplicates(),
            r@.len() >= attribs@.len(),
            r@.take(attribs@.len() as int) == attribs@,
    {
        let ghost xset = names_seq(attribs@).to_set();
        let ghost fds = self.mset();
        let ghost uni = xset.union(deps_union(self@));
        proof {
            broadcast use vstd::seq_lib::seq_to_set_is_finite;

            lemma_deps_union_finite(self@);
            assert(uni.finite());
        }
        let mut result: Vec<String> = Vec::new();
        let mut k0: usize = 0;
        proof {
            assert(result@ =~= attribs@.take(0));
        }
        while k0 < attribs.len()
            invariant
                k0 <= attribs@.len(),
                result@ == attribs@.take(k0 as int),
            decreases attribs@.len() - k0,
        {
            result.push(attribs[k0].clone());
            proof {
                attribs@.lemma_take_succ_push(k0 as int);
                assert(result@ =~= attribs@.take(k0 as int + 1));
            }
            k0 += 1;
        }
        proof {
            assert(attribs@.take(attribs@.len() as int) =~= attribs@);
            assert(result@ == attribs@);
            assert(result@.take(attribs@.len() as int) =~= attribs@);
            assert forall|y: Attr| xset.contains(y) implies names_seq(result@).to_set().contains(
                y,
            ) by {}
            assert forall|y: Attr|
                names_seq(result@).to_set().contains(y) implies uni.contains(y) by {}
            vstd::set_lib::lemma_len_subset(names_seq(result@).to_set(), uni);
        }
        let mut changed = true;
        while changed
            invariant
                xset == names_seq(attribs@).to_set(),
                fds == self.mset(),
                uni == xset.union(deps_union(self@)),
                uni.finite(),
                names_seq(result@).no_duplicates(),
                result@.len() >= attribs@.len(),
                result@.take(attribs@.len() as int) == attribs@,
                xset.subset_of(names_seq(result@).to_set()),
                names_seq(result@).to_set().subset_of(uni),
                names_seq(result@).to_set().len() <= uni.len(),
                forall|s: Set<Attr>|
                    #![trigger closed_under(s, fds)]
                    xset.subset_of(s) && closed_under(s, fds) ==> names_seq(
                        result@,
                    ).to_set().subset_of(s),
                !changed ==> closed_under(names_seq(result@).to_set(), fds),
            decreases (if changed {
                1int
            } else {
                0int
            }), uni.len() - names_seq(result@).to_set().len(),
        {
            let ghost snap = result@;
            let prev_len = result.len();
            let mut i: usize = 0;
            while i < self.list.len()
                invariant
                    xset == names_seq(attribs@).to_set(),
                    fds == self.mset(),
                    uni == xset.union(deps_union(self@)),
                    uni.finite(),
                    i <= self@.len(),
                    prev_len as int == snap.len(),
                    snap.len() <= result@.len(),
                    result@.take(snap.len() as int) == snap,
                    names_seq(result@).no_duplicates(),
                    result@.len() >= attribs@.len(),
                    result@.take(attribs@.len() as int) == attribs@,
                    xset.subset_of(names_seq(result@).to_set()),
                    names_seq(result@).to_set().subset_of(uni),
                    names_seq(result@).to_set().len() <= uni.len(),
                    forall|s: Set<Attr>|
                        #![trigger closed_under(s, fds)]
                        xset.subset_of(s) && closed_under(s, fds) ==> names_seq(
                            result@,
                        ).to_set().subset_of(s),
                    result@.len() == snap.len() ==> (forall|j: int|
                        0 <= j < i ==> ((#[trigger] self@[j]).det.to_set().subset_of(
                            names_seq(result@).to_set(),
                        ) ==> self@[j].dep.to_set().subset_of(names_seq(result@).to_set()))),
                decreases self@.len() - i,
            {
                let mut satisfied = true;
                let mut t: usize = 0;
                while t < self.list[i].det.len()
                    invariant
                        0 <= i < self.list@.len(),
                        t <= self.list@[i as int].det@.len(),
                        satisfied == (forall|u: int|
                            0 <= u < t ==> names_seq(result@).contains(
                                #[trigger] names_seq(self.list@[i as int].det@)[u],
                            )),
                    decreases self.list@[i as int].det@.len() - t,
                {
                    let ghost oldsat = satisfied;
                    let hit = contains_name(&result, &self.list[i].det[t]);
                    if !hit {
                        satisfied = false;
                    }
                    proof {
                        let dn = names_seq(self.list@[i as int].det@);
                        if satisfied {
                            assert forall|u: int|
                                0 <= u < t as int + 1 implies names_seq(result@).contains(
                                #[trigger] dn[u],
                            ) by {}
                        } else {
                            if oldsat {
                                assert(!names_seq(result@).contains(dn[t as int]));
                            } else {
                                let w = choose|u: int|
                                    0 <= u < t as int && !names_seq(result@).contains(
                                        #[trigger] dn[u],
                                    );
                                assert(!names_seq(result@).contains(dn[w]));
                            }
                            assert(!(forall|u: int|
                                0 <= u < t as int + 1 ==> names_seq(result@).contains(
                                    #[trigger] dn[u],
                                )));
                        }
                    }
                    t += 1;
                }
                proof {
                    if satisfied {
                        assert forall|y: Attr|
                            self@[i as int].det.to_set().contains(y) implies names_seq(
                            result@,
                        ).to_set().contains(y) by {
                            let u = choose|u: int|
                                0 <= u < self@[i as int].det.len() && self@[i as int].det[u] == y;
                            assert(names_seq(result@).contains(
                                names_seq(self.list@[i as int].det@)[u],
                            ));
                        }
                        assert(self@[i as int].det.to_set().subset_of(
                            names_seq(result@).to_set(),
                        ));
                    } else {
                        let u = choose|u: int|
                            0 <= u < self.list@[i as int].det@.len() && !names_seq(
                                result@,
                            ).contains(names_seq(self.list@[i as int].det@)[u]);
                        assert(self@[i as int].det.contains(self@[i as int].det[u]));
                        assert(self@[i as int].det.to_set().contains(self@[i as int].det[u]));
                        assert(!names_seq(result@).to_set().contains(self@[i as int].det[u]));
                        assert(!self@[i as int].det.to_set().subset_of(
                            names_seq(result@).to_set(),
                        ));
                    }
                }
                if satisfied {
                    let mut d: usize = 0;
                    while d < self.list[i].dep.len()
                        invariant
                            xset == names_seq(attribs@).to_set(),
                            fds == self.mset(),
                            uni == xset.union(deps_union(self@)),
                            uni.finite(),
                            0 <= i < self.list@.len(),
                            d <= self.list@[i as int].dep@.len(),
                            snap.len() <= result@.len(),
                            result@.take(snap.len() as int) == snap,
                            names_seq(result@).no_duplicates(),
                            result@.len() >= attribs@.len(),
                            result@.take(attribs@.len() as int) == attribs@,
                            xset.subset_of(names_seq(result@).to_set()),
                            names_seq(result@).to_set().subset_of(uni),
                            names_seq(result@).to_set().len() <= uni.len(),
                            self@[i as int].det.to_set().subset_of(names_seq(result@).to_set()),
                            forall|s: Set<Attr>|
                                #![trigger closed_under(s, fds)]
                                xset.subset_of(s) && closed_under(s, fds) ==> names_seq(
                                    result@,
                                ).to_set().subset_of(s),
                            result@.len() == snap.len() ==> (forall|j: int|
                                0 <= j < i ==> ((#[trigger] self@[j]).det.to_set().subset_of(
                                    names_seq(result@).to_set(),
                                ) ==> self@[j].dep.to_set().subset_of(
                                    names_seq(result@).to_set(),
                                ))),
                            forall|u: int|
                                0 <= u < d ==> names_seq(result@).contains(
                                    #[trigger] names_seq(self.list@[i as int].dep@)[u],
                                ),
                        decreases self.list@[i as int].dep@.len() - d,
                    {
                        let ghost oldnames = names_seq(result@);
                        let present = contains_name(&result, &self.list[i].dep[d]);
                        if !present {
                            let ghost x = names_seq(self.list@[i as int].dep@)[d as int];
                            result.push(self.list[i].dep[d].clone());
                            proof {
                                assert(names_seq(result@) =~= oldnames.push(x));
                                let p = names_seq(result@);
                                assert forall|a2: int, b2: int|
                                    0 <= a2 < b2 < p.len() implies p[a2] != p[b2] by {
                                    if b2 == p.len() - 1 {
                                        if oldnames[a2] == x {
                                            assert(oldnames.contains(oldnames[a2]));
                                        }
                                    }
                                }
                                assert forall|y: Attr|
                                    p.to_set().contains(y) implies (oldnames.to_set().contains(y)
                                    || y == x) by {
                                    let idx = choose|idx: int| 0 <= idx < p.len() && p[idx] == y;
                                    if idx < oldnames.len() {
                                        assert(oldnames[idx] == y);
                                    }
                                }
                                assert forall|y: Attr|
                                    oldnames.to_set().contains(y) implies p.to_set().contains(
                                    y,
                                ) by {
                                    let idx = choose|idx: int|
                                        0 <= idx < oldnames.len() && oldnames[idx] == y;
                                    assert(p[idx] == y);
                                }
                                assert(p.contains(x)) by {
                                    assert(p[p.len() - 1] == x);
                                }
                                assert(p.to_set() =~= oldnames.to_set().insert(x));
                                // the new attribute lies in the universe
                                lemma_deps_union_covers(self@, i as int);
                                assert(self@[i as int].dep.contains(x));
                                assert(self@[i as int].dep.to_set().contains(x));
                                assert(uni.contains(x));
                                vstd::set_lib::lemma_len_subset(p.to_set(), uni);
                                // every closed superset of the base also holds x
                                assert forall|s: Set<Attr>|
                                    #![trigger closed_under(s, fds)]
                                    xset.subset_of(s) && closed_under(s, fds) implies p.to_set().subset_of(
                                    s,
                                ) by {
                                    assert(oldnames.to_set().subset_of(s));
                                    lemma_model_at(self@, i as int);
                                    let m = self@[i as int].model();
                                    assert(fds.contains(m));
                                    assert forall|y: Attr| m.det.contains(y) implies s.contains(
                                        y,
                                    ) by {
                                        assert(oldnames.to_set().contains(y));
                                    }
                                    assert(m.det.subset_of(s));
                                    assert(m.dep.subset_of(s));
                                    assert(s.contains(x));
                                    assert forall|y: Attr|
                                        p.to_set().contains(y) implies s.contains(y) by {}
                                }
                                // prefixes are unchanged by a push
                                assert(result@.take(snap.len() as int) =~= snap);
                                assert(result@.take(attribs@.len() as int) =~= attribs@);
                            }
                        }
                        proof {
                            let dn = names_seq(self.list@[i as int].dep@);
                            assert forall|u: int|
                                0 <= u < d as int + 1 implies names_seq(result@).contains(
                                #[trigger] dn[u],
                            ) by {
                                if u < d as int {
                                    let idx = choose|idx: int|
                                        0 <= idx < oldnames.len() && oldnames[idx] == dn[u];
                                    assert(names_seq(result@)[idx] == dn[u]);
                                } else {
                                    if !present {
                                        assert(names_seq(result@)[names_seq(result@).len() - 1]
                                            == dn[u]);
                                    }
                                }
                            }
                        }
                        d += 1;
                    }
                    proof {
                        assert forall|y: Attr|
                            self@[i as int].dep.to_set().contains(y) implies names_seq(
                            result@,
                        ).to_set().contains(y) by {
                            let u = choose|u: int|
                                0 <= u < self@[i as int].dep.len() && self@[i as int].dep[u] == y;
                            assert(names_seq(result@).contains(
                                names_seq(self.list@[i as int].dep@)[u],
                            ));
                        }
                        assert(self@[i as int].dep.to_set().subset_of(
                            names_seq(result@).to_set(),
                        ));
                    }
                }
                i += 1;
            }
            if result.len() == prev_len {
                changed = false;
                proof {
                    let rs = names_seq(result@).to_set();
                    assert forall|m: FdModel| #[trigger] fds.contains(m) implies (m.det.subset_of(
                        rs,
                    ) ==> m.dep.subset_of(rs)) by {
                        let j = lemma_model_witness(self@, m);
                        assert(m.det == self@[j].det.to_set());
                        assert(m.dep == self@[j].dep.to_set());
                    }
                    assert(closed_under(rs, fds));
                }
            } else {
                proof {
                    names_seq(result@).unique_seq_to_set();
                    names_seq(snap).unique_seq_to_set();
                    assert(names_seq(snap).no_duplicates()) by {
                        assert forall|a2: int, b2: int|
                            0 <= a2 < b2 < names_seq(snap).len() implies names_seq(snap)[a2]
                            != names_seq(snap)[b2] by {
                            assert(result@.take(snap.len() as int)[a2] == snap[a2]);
                            assert(names_seq(result@)[a2] == snap[a2]@);
                            assert(names_seq(result@)[b2] == snap[b2]@);
                        }
                    }
                }
            }
        }
        proof {
            let rs = names_seq(result@).to_set();
            lemma_closure_closed(xset, fds);
            lemma_closure_superset(xset, fds);
            lemma_closure_least(xset, fds, rs);
            assert(rs.subset_of(closure_of(xset, fds)));
            lemma_subset_antisymmetric(rs, closure_of(xset, fds));
        }
        result
    }

    /// Determinant minimization: repeatedly drop the first determinant
    /// attribute found whose removal still lets the working set derive the
    /// dependency's sole dependent attribute, until a full scan drops
    /// nothing.  The reduced dependency replaces the old one at the end of
    /// the collection.
    fn minimize(&self) -> (r: FDList)
        requires
            self.wf(),
            all_deps_single(self@),
        ensures
            r.wf(),
            equiv(self.mset(), r.mset()),
            all_deps_single(r@),
            all_dets_nonempty(self@) ==> all_dets_nonempty(r@),
            dets_minimal(r@, r.mset()),
    {
        let mut result = self.clone();
        let mut changed = true;
        while changed
            invariant
                result.wf(),
                equiv(self.mset(), result.mset()),
                all_deps_single(result@),
                all_dets_nonempty(self@) ==> all_dets_nonempty(result@),
                !changed ==> dets_minimal(result@, result.mset()),
            decreases (if changed {
                1int
            } else {
                0int
            }), det_size_sum(result@),
        {
            changed = false;
            let ghost snap = result@;
            let ghost presum = det_size_sum(result@);
            let mut i: usize = 0;
            while i < result.list.len() && !changed
                invariant
                    result.wf(),
                    equiv(self.mset(), result.mset()),
                    all_deps_single(result@),
                    all_dets_nonempty(self@) ==> all_dets_nonempty(result@),
                    !changed ==> i <= result@.len(),
                    !changed ==> result@ == snap,
                    !changed ==> det_size_sum(result@) == presum,
                    !changed ==> dets_minimal_upto(result@, result.mset(), i as int),
                    changed ==> det_size_sum(result@) < presum,
                decreases (if changed {
                    0int
                } else {
                    result@.len() - i
                }),
            {
                let dlen = result.list[i].det.len();
                if dlen > 1 {
                    let mut k: usize = 0;
                    while k < dlen && !changed
                        invariant
                            result.wf(),
                            equiv(self.mset(), result.mset()),
                            all_deps_single(result@),
                            all_dets_nonempty(self@) ==> all_dets_nonempty(result@),
                            k <= dlen,
                            !changed ==> i < result@.len(),
                            !changed ==> result@ == snap,
                            !changed ==> det_size_sum(result@) == presum,
                            !changed ==> dlen == result@[i as int].det.len(),
                            dlen > 1,
                            !changed ==> dets_minimal_upto(result@, result.mset(), i as int),
                            !changed ==> (forall|u: int|
                                0 <= u < k ==> #[trigger] det_minimal_entry(
                                    result@,
                                    result.mset(),
                                    i as int,
                                    u,
                                )),
                            changed ==> det_size_sum(result@) < presum,
                        decreases (if changed {
                            0int
                        } else {
                            dlen - k
                        }),
                    {
                        let ghost w = result@;
                        let ghost ws = result.mset();
                        let ghost fdv = result@[i as int];
                        let ghost m = fdv.model();
                        let ghost rd = fdv.det.remove(k as int);
                        let mut reduced = clone_names(&result.list[i].det);
                        let _removed = reduced.remove(k);
                        proof {
                            lemma_remove_no_dup(fdv.det, k as int);
                            fdv.det.remove_ensures(k as int);
                            result.list@[i as int].det@.remove_ensures(k as int);
                            assert(names_seq(reduced@) =~= rd);
                        }
                        let cl = result.closure(&reduced);
                        let hit = contains_name(&cl, &result.list[i].dep[0]);
                        proof {
                            assert(names_seq(cl@).to_set() == closure_of(rd.to_set(), ws));
                            assert(hit == names_seq(cl@).contains(fdv.dep[0]));
                        }
                        if hit {
                            let newfd = FD {
                                det: reduced,
                                dep: clone_names(&result.list[i].dep),
                            };
                            let oldfd = result.list[i].clone();
                            let ghost nm = newfd@.model();
                            proof {
                                assert(newfd@.det == rd);
                                assert(newfd@.dep == fdv.dep);
                                assert(newfd@.wf());
                                assert(oldfd@ == fdv);
                            }
                            let without = result.all_except(&oldfd);
                            result = without;
                            result.push(newfd);
                            changed = true;
                            proof {
                                // the step is an equivalence-preserving reduction
                                lemma_model_at(w, i as int);
                                assert(ws.contains(m));
                                assert(nm.det == fdv.det.to_set().remove(fdv.det[k as int]));
                                assert forall|y: Attr| nm.det.contains(y) implies m.det.contains(
                                    y,
                                ) by {}
                                assert(nm.det.subset_of(m.det));
                                assert(nm.dep == m.dep);
                                assert forall|y: Attr|
                                    nm.dep.contains(y) implies closure_of(nm.det, ws).contains(
                                    y,
                                ) by {
                                    let idx = choose|idx: int|
                                        0 <= idx < fdv.dep.len() && fdv.dep[idx] == y;
                                    assert(idx == 0);
                                    assert(names_seq(cl@).contains(y));
                                    assert(names_seq(cl@).to_set().contains(y));
                                }
                                assert(nm.dep.subset_of(closure_of(nm.det, ws)));
                                lemma_reduce_step_equiv(ws, m, nm);
                                lemma_equiv_transitive(
                                    self.mset(),
                                    ws,
                                    ws.remove(m).insert(nm),
                                );
                                assert(result.mset() == ws.remove(m).insert(nm));
                                // the determinant total shrank
                                assert forall|j: int|
                                    0 <= j < w.len() && j != i as int implies (#[trigger] w[j]).model()
                                    != m by {}
                                lemma_filter_unique_remove(w, i as int, m);
                                assert(without@ == w.remove(i as int));
                                lemma_size_sum_remove(w, i as int);
                                w.remove_ensures(i as int);
                                assert(all_deps_single(without@));
                                assert(fdv.det.len() == dlen);
                                assert(rd.len() == dlen - 1);
                                if !without.mset().contains(nm) {
                                    assert(result@ == without@.push(newfd@));
                                    lemma_size_sum_push(without@, newfd@);
                                    assert(det_size_sum(result@) < presum);
                                    assert forall|idx: int|
                                        0 <= idx < result@.len() implies (#[trigger] result@[idx]).dep.len()
                                        == 1 by {
                                        if idx < result@.len() - 1 {
                                            assert(result@[idx] == without@[idx]);
                                        } else {
                                            assert(result@[idx] == newfd@);
                                        }
                                    }
                                    if all_dets_nonempty(self@) {
                                        assert forall|idx: int|
                                            0 <= idx < result@.len() implies (#[trigger] result@[idx]).det.len()
                                            >= 1 by {
                                            if idx < result@.len() - 1 {
                                                assert(result@[idx] == without@[idx]);
                                            } else {
                                                assert(result@[idx] == newfd@);
                                            }
                                        }
                                    }
                                } else {
                                    assert(result@ == without@);
                                    assert(det_size_sum(result@) < presum);
                                }
                            }
                        } else {
                            proof {
                                assert(!names_seq(cl@).to_set().contains(fdv.dep[0]));
                                assert(!closure_of(
                                    fdv.det.to_set().remove(fdv.det[k as int]),
                                    ws,
                                ).contains(fdv.dep[0]));
                                assert(det_minimal_entry(result@, result.mset(), i as int, k as int));
                            }
                        }
                        k += 1;
                    }
                }
                proof {
                    if !changed {
                        assert forall|j: int, k2: int|
                            0 <= j < i as int + 1 && result@[j].det.len() > 1 && 0 <= k2
                                < result@[j].det.len() implies #[trigger] det_minimal_entry(
                            result@,
                            result.mset(),
                            j,
                            k2,
                        ) by {
                            if j < i as int {
                                assert(dets_minimal_upto(result@, result.mset(), i as int));
                            }
                        }
                        assert(dets_minimal_upto(result@, result.mset(), i as int + 1));
                    }
                }
                i += 1;
            }
            proof {
                if !changed {
                    assert(i as int == result@.len());
                    assert(dets_minimal(result@, result.mset()));
                }
            }
        }
        result
    }

    /// Redundancy elimination: walk the members in stored order and drop
    /// each one whose dependent the rest of the current working set already
    /// derives; later checks see earlier removals.
    fn remove_redundant(&self) -> (r: FDList)
        requires
            self.wf(),
            all_deps_single(self@),
        ensures
            r.wf(),
            equiv(self.mset(), r.mset()),
            all_deps_single(r@),
            r.mset().subset_of(self.mset()),
            forall|idx: int| 0 <= idx < r@.len() ==> self@.contains(#[trigger] r@[idx]),
            forall|idx: int|
                0 <= idx < r@.len() ==> !closure_of(
                    (#[trigger] r@[idx]).det.to_set(),
                    r.mset().remove(r@[idx].model()),
                ).contains(r@[idx].dep[0]),
    {
        let mut keep = self.clone();
        let mut i: usize = 0;
        proof {
            assert forall|j: int|
                0 <= j < self@.len() implies keep.mset().contains(
                (#[trigger] self@[j]).model(),
            ) by {
                lemma_model_at(keep@, j);
            }
        }
        while i < self.list.len()
            invariant
                self.wf(),
                all_deps_single(self@),
                keep.wf(),
                all_deps_single(keep@),
                equiv(self.mset(), keep.mset()),
                keep.mset().subset_of(self.mset()),
                i <= self@.len(),
                forall|idx: int| 0 <= idx < keep@.len() ==> self@.contains(#[trigger] keep@[idx]),
                forall|j: int|
                    i <= j < self@.len() ==> keep.mset().contains((#[trigger] self@[j]).model()),
                forall|j: int|
                    0 <= j < i && keep.mset().contains((#[trigger] self@[j]).model())
                        ==> !closure_of(
                        self@[j].det.to_set(),
                        keep.mset().remove(self@[j].model()),
                    ).contains(self@[j].dep[0]),
            decreases self@.len() - i,
        {
            let ghost m = self@[i as int].model();
            let ghost oldkeep = keep.mset();
            let without = keep.all_except(&self.list[i]);
            let cl = without.closure(&self.list[i].det);
            let hit = contains_name(&cl, &self.list[i].dep[0]);
            proof {
                assert(without.mset() == oldkeep.remove(m));
                assert(names_seq(cl@).to_set() == closure_of(
                    self@[i as int].det.to_set(),
                    oldkeep.remove(m),
                ));
                assert(hit == names_seq(cl@).contains(self@[i as int].dep[0]));
            }
            if hit {
                proof {
                    assert(oldkeep.contains(m));
                    assert forall|y: Attr|
                        m.dep.contains(y) implies closure_of(m.det, oldkeep.remove(m)).contains(
                        y,
                    ) by {
                        let idx = choose|idx: int|
                            0 <= idx < self@[i as int].dep.len() && self@[i as int].dep[idx] == y;
                        assert(idx == 0);
                        assert(names_seq(cl@).to_set().contains(y));
                    }
                    lemma_drop_step_equiv(oldkeep, m);
                    lemma_equiv_transitive(self.mset(), oldkeep, oldkeep.remove(m));
                }
                let ghost oldviews = keep@;
                keep = without;
                proof {
                    assert forall|idx: int|
                        0 <= idx < keep@.len() implies self@.contains(#[trigger] keep@[idx]) by {
                        let j = lemma_filter_members(oldviews, keep_pred(m), idx);
                        assert(self@.contains(oldviews[j]));
                    }
                    assert forall|j: int|
                        i as int + 1 <= j < self@.len() implies keep.mset().contains(
                        (#[trigger] self@[j]).model(),
                    ) by {
                        assert(self@[j].model() != m);
                    }
                    assert forall|j: int|
                        0 <= j < i as int + 1 && keep.mset().contains(
                            (#[trigger] self@[j]).model(),
                        ) implies !closure_of(
                        self@[j].det.to_set(),
                        keep.mset().remove(self@[j].model()),
                    ).contains(self@[j].dep[0]) by {
                        if j < i as int {
                            assert forall|x: FdModel|
                                keep.mset().remove(self@[j].model()).contains(
                                    x,
                                ) implies oldkeep.remove(self@[j].model()).contains(x) by {}
                            lemma_closure_monotonic_fds(
                                self@[j].det.to_set(),
                                keep.mset().remove(self@[j].model()),
                                oldkeep.remove(self@[j].model()),
                            );
                        }
                    }
                }
            } else {
                proof {
                    assert(!closure_of(m.det, keep.mset().remove(m)).contains(
                        self@[i as int].dep[0],
                    ));
                    assert forall|j: int|
                        0 <= j < i as int + 1 && keep.mset().contains(
                            (#[trigger] self@[j]).model(),
                        ) implies !closure_of(
                        self@[j].det.to_set(),
                        keep.mset().remove(self@[j].model()),
                    ).contains(self@[j].dep[0]) by {}
                }
            }
            i += 1;
        }
        proof {
            assert forall|idx: int|
                0 <= idx < keep@.len() implies !closure_of(
                (#[trigger] keep@[idx]).det.to_set(),
                keep.mset().remove(keep@[idx].model()),
            ).contains(keep@[idx].dep[0]) by {
                assert(self@.contains(keep@[idx]));
                let j = choose|j: int| 0 <= j < self@.len() && self@[j] == keep@[idx];
                lemma_model_at(keep@, idx);
                assert(keep.mset().contains(self@[j].model()));
            }
        }
        keep
    }

    /// Every member whose determinant differs, as a set, from `det`, in
    /// stored order.
    fn except_det(&self, det: &Vec<String>) -> (r: FDList)
        requires
            self.wf(),
        ensures
            r@ == self@.filter(other_det_pred(names_seq(det@).to_set())),
            r.wf(),
    {
        let ghost pred = other_det_pred(names_seq(det@).to_set());
        let mut out: Vec<FD> = Vec::new();
        let mut i: usize = 0;
        proof {
            reveal(Seq::filter);
            assert(self@.take(0) =~= Seq::<FdView>::empty());
            assert(fd_views(out@) =~= self@.take(0).filter(pred));
        }
        while i < self.list.len()
            invariant
                self.wf(),
                i <= self@.len(),
                pred == other_det_pred(names_seq(det@).to_set()),
                fd_views(out@) == self@.take(i as int).filter(pred),
            decreases self@.len() - i,
        {
            let ghost prev = fd_views(out@);
            let same = same_name_set(&self.list[i].det, det);
            proof {
                assert((!same) == pred(self@[i as int]));
            }
            if !same {
                out.push(self.list[i].clone());
            }
            proof {
                if !same {
                    assert(fd_views(out@) =~= prev.push(self@[i as int]));
                }
                self@.lemma_take_succ_push(i as int);
                self@.take(i as int).lemma_filter_push(self@[i as int], pred);
                assert(fd_views(out@) == self@.take(i as int + 1).filter(pred));
            }
            i += 1;
        }
        let r = FDList { list: out };
        proof {
            assert(self@.take(self@.len() as int) =~= self@);
            lemma_filter_keeps_distinct(self@, pred);
        }
        r
    }

    /// Recomposition: repeatedly merge all members sharing a determinant set
    /// into one member whose dependent is the union of theirs, until every
    /// determinant set is unique.
    ///
    /// Law: after recomposition no two members have set-equal determinants,
    /// the result is equivalent to the input, and dependent attributes are
    /// neither invented nor lost for any determinant set.
    #[verifier::rlimit(100)]
    pub fn recompose(&self) -> (r: FDList)
        requires
            self.wf(),
        ensures
            r.wf(),
            equiv(self.mset(), r.mset()),
            unique_dets(r@),
            deps_carried(r@, self@),
            deps_absorbed(self@, r@),
            all_dets_nonempty(self@) ==> all_dets_nonempty(r@),
            all_deps_nonempty(self@) ==> all_deps_nonempty(r@),
    {
        let mut result = self.clone();
        proof {
            lemma_carried_absorbed_refl(self@);
            assert(result@ == self@);
        }
        let mut changed = true;
        while changed
            invariant
                result.wf(),
                equiv(self.mset(), result.mset()),
                deps_carried(result@, self@),
                deps_absorbed(self@, result@),
                all_dets_nonempty(self@) ==> all_dets_nonempty(result@),
                all_deps_nonempty(self@) ==> all_deps_nonempty(result@),
                !changed ==> unique_dets(result@),
            decreases (if changed {
                1int
            } else {
                0int
            }), result@.len(),
        {
            changed = false;
            let mut temp = result.clone();
            let mut i: usize = 0;
            while i < result.list.len()
                invariant
                    result.wf(),
                    temp.wf(),
                    equiv(self.mset(), result.mset()),
                    equiv(self.mset(), temp.mset()),
                    deps_carried(result@, self@),
                    deps_absorbed(self@, result@),
                    deps_carried(temp@, result@),
                    deps_absorbed(result@, temp@),
                    all_dets_nonempty(self@) ==> all_dets_nonempty(result@),
                    all_deps_nonempty(self@) ==> all_deps_nonempty(result@),
                    all_dets_nonempty(self@) ==> all_dets_nonempty(temp@),
                    all_deps_nonempty(self@) ==> all_deps_nonempty(temp@),
                    i <= result@.len(),
                    temp@.len() <= result@.len(),
                    changed ==> temp@.len() < result@.len(),
                    !changed ==> temp@ == result@,
                    !changed ==> (forall|j: int, j2: int|
                        0 <= j < i && 0 <= j2 < result@.len() && j2 != j
                            ==> (#[trigger] result@[j]).det.to_set() != (
                        #[trigger] result@[j2]).det.to_set()),
                decreases result@.len() - i,
            {
                let group = result.find_all(&result.list[i].det);
                let ghost d = names_seq(result.list@[i as int].det@).to_set();
                let ghost gviews = fd_views(group@);
                proof {
                    assert(d == result@[i as int].det.to_set());
                    assert(gviews == result@.filter(det_pred(d)));
                    result@.lemma_filter_contains(det_pred(d), i as int);
                    lemma_filter_keeps_distinct(result@, det_pred(d));
                }
                if group.len() > 1 {
                    let mut composed = FD::new();
                    proof {
                        let j0 = lemma_filter_members(result@, det_pred(d), 0);
                        assert(gviews[0].wf());
                        assert(gviews[0].det.to_set() == d);
                        assert(composed@.det =~= gviews[0].det.take(0));
                    }
                    let mut t: usize = 0;
                    while t < group[0].det.len()
                        invariant
                            0 < group@.len(),
                            gviews == fd_views(group@),
                            gviews[0].wf(),
                            t <= gviews[0].det.len(),
                            composed@.det == gviews[0].det.take(t as int),
                            composed@.dep == Seq::<Attr>::empty(),
                            composed@.wf(),
                        decreases gviews[0].det.len() - t,
                    {
                        let ghost dv = gviews[0].det;
                        proof {
                            if dv.take(t as int).contains(dv[t as int]) {
                                let u = choose|u: int|
                                    0 <= u < t as int && dv.take(t as int)[u] == dv[t as int];
                                assert(dv[u] == dv[t as int]);
                                assert(false);
                            }
                        }
                        composed.add_determinant(group[0].det[t].clone());
                        proof {
                            dv.lemma_take_succ_push(t as int);
                            assert(composed@.det == dv.take(t as int + 1));
                        }
                        t += 1;
                    }
                    proof {
                        assert(gviews[0].det.take(gviews[0].det.len() as int) =~= gviews[0].det);
                        assert(composed@.det == gviews[0].det);
                        assert(composed@.det.to_set() == d);
                        assert(gviews.take(0) =~= Seq::<FdView>::empty());
                        assert(composed@.dep.to_set() =~= deps_union(gviews.take(0)));
                    }
                    let mut g: usize = 0;
                    while g < group.len()
                        invariant
                            gviews == fd_views(group@),
                            g <= gviews.len(),
                            composed@.det == gviews[0].det,
                            composed@.wf(),
                            composed@.dep.to_set() == deps_union(gviews.take(g as int)),
                        decreases gviews.len() - g,
                    {
                        let ghost gu = deps_union(gviews.take(g as int));
                        let mut dd: usize = 0;
                        proof {
                            assert(gviews[g as int].dep.take(0) =~= Seq::<Attr>::empty());
                            assert(composed@.dep.to_set() =~= gu.union(
                                gviews[g as int].dep.take(0).to_set(),
                            ));
                        }
                        while dd < group[g].dep.len()
                            invariant
                                gviews == fd_views(group@),
                                0 <= g < gviews.len(),
                                gu == deps_union(gviews.take(g as int)),
                                dd <= gviews[g as int].dep.len(),
                                composed@.det == gviews[0].det,
                                composed@.wf(),
                                composed@.dep.to_set() == gu.union(
                                    gviews[g as int].dep.take(dd as int).to_set(),
                                ),
                            decreases gviews[g as int].dep.len() - dd,
                        {
                            let ghost x = gviews[g as int].dep[dd as int];
                            let ghost olddep = composed@.dep;
                            composed.add_dependant(group[g].dep[dd].clone());
                            proof {
                                gviews[g as int].dep.lemma_take_succ_push(dd as int);
                                lemma_attr_push_to_set(
                                    gviews[g as int].dep.take(dd as int),
                                    x,
                                );
                                if olddep.contains(x) {
                                    assert(composed@.dep == olddep);
                                    assert(olddep.to_set().contains(x));
                                    assert(composed@.dep.to_set() =~= gu.union(
                                        gviews[g as int].dep.take(dd as int).to_set().insert(x),
                                    ));
                                } else {
                                    assert(composed@.dep == olddep.push(x));
                                    lemma_attr_push_to_set(olddep, x);
                                    assert(composed@.dep.to_set() =~= gu.union(
                                        gviews[g as int].dep.take(dd as int).to_set().insert(x),
                                    ));
                                }
                            }
                            dd += 1;
                        }
                        proof {
                            assert(gviews[g as int].dep.take(gviews[g as int].dep.len() as int)
                                =~= gviews[g as int].dep);
                            gviews.lemma_take_succ_push(g as int);
                            lemma_deps_union_push(gviews.take(g as int), gviews[g as int]);
                            assert(composed@.dep.to_set() == deps_union(
                                gviews.take(g as int + 1),
                            ));
                        }
                        g += 1;
                    }
                    proof {
                        assert(gviews.take(gviews.len() as int) =~= gviews);
                        assert(composed@.dep.to_set() == deps_union(gviews));
                    }
                    let ghost tempold = temp@;
                    let ghost tomset = temp.mset();
                    let ghost oldchanged = changed;
                    let ghost pred = other_det_pred(d);
                    let ghost cm = composed@.model();
                    let temp2 = temp.except_det(&composed.det);
                    proof {
                        assert(names_seq(composed.det@).to_set() == d);
                        assert(temp2@ == tempold.filter(pred));
                        if temp2.mset().contains(cm) {
                            let idx = lemma_model_witness(temp2@, cm);
                            tempold.lemma_filter_pred(pred, idx);
                            assert(temp2@[idx].det.to_set() == cm.det);
                            assert(false);
                        }
                    }
                    temp = temp2;
                    temp.push(composed);
                    changed = true;
                    proof {
                        let filtered = tempold.filter(pred);
                        assert(temp@ == filtered.push(composed@));
                        lemma_merge_step(self.mset(), result@, tempold, temp@, d, composed@);
                        assert(absorbs(
                            tempold,
                            result@[i as int].det.to_set(),
                            result@[i as int].dep.to_set(),
                        ));
                        let idx0 = choose|i0: int|
                            0 <= i0 < tempold.len() && (#[trigger] tempold[i0]).det.to_set()
                                == result@[i as int].det.to_set()
                                && result@[i as int].dep.to_set().subset_of(
                                tempold[i0].dep.to_set(),
                            );
                        if !oldchanged {
                            assert(tempold == result@);
                            let j0 = lemma_filter_members(result@, det_pred(d), 0);
                            let j1 = lemma_filter_members(result@, det_pred(d), 1);
                            assert(gviews[0].model() != gviews[1].model());
                            assert(j0 != j1);
                            assert(!pred(result@[j0]));
                            assert(!pred(result@[j1]));
                            if j0 < j1 {
                                lemma_filter_missing_two(tempold, pred, j0, j1);
                            } else {
                                lemma_filter_missing_two(tempold, pred, j1, j0);
                            }
                            assert(temp@.len() < result@.len());
                        } else {
                            lemma_filter_missing_len(tempold, pred, idx0);
                            assert(temp@.len() < result@.len());
                        }
                    }
                } else {
                    proof {
                        if !changed {
                            assert forall|j2: int|
                                0 <= j2 < result@.len() && j2 != i as int implies (
                            #[trigger] result@[j2]).det.to_set() != d by {
                                if result@[j2].det.to_set() == d {
                                    result@.lemma_filter_contains(det_pred(d), j2);
                                    let i1 = choose|u: int|
                                        0 <= u < gviews.len() && gviews[u] == result@[i as int];
                                    let i2 = choose|u: int|
                                        0 <= u < gviews.len() && gviews[u] == result@[j2];
                                    if (i as int) < j2 {
                                        assert(result@[i as int].model() != result@[j2].model());
                                    } else {
                                        assert(result@[j2].model() != result@[i as int].model());
                                    }
                                    assert(i1 != i2);
                                    assert(gviews.len() >= 2);
                                    assert(false);
                                }
                            }
                        }
                    }
                }
                i += 1;
            }
            let ghost passold = result@;
            result = temp;
            proof {
                assert forall|i2: int, b: Attr|
                    0 <= i2 < result@.len() && (#[trigger] result@[i2].dep.to_set().contains(
                        b,
                    )) implies covers_det(self@, result@[i2].det.to_set(), b) by {
                    assert(covers_det(passold, result@[i2].det.to_set(), b));
                    let j1 = choose|j1: int|
                        0 <= j1 < passold.len() && (#[trigger] passold[j1]).det.to_set()
                            == result@[i2].det.to_set() && passold[j1].dep.to_set().contains(b);
                    assert(passold[j1].dep.to_set().contains(b));
                    assert(covers_det(self@, passold[j1].det.to_set(), b));
                }
                assert forall|j: int| 0 <= j < self@.len() implies absorbs(
                    result@,
                    (#[trigger] self@[j]).det.to_set(),
                    self@[j].dep.to_set(),
                ) by {
                    assert(absorbs(passold, self@[j].det.to_set(), self@[j].dep.to_set()));
                    let i0 = choose|i0: int|
                        0 <= i0 < passold.len() && (#[trigger] passold[i0]).det.to_set()
                            == self@[j].det.to_set() && self@[j].dep.to_set().subset_of(
                            passold[i0].dep.to_set(),
                        );
                    assert(absorbs(result@, passold[i0].det.to_set(), passold[i0].dep.to_set()));
                    let i1 = choose|i1: int|
                        0 <= i1 < result@.len() && (#[trigger] result@[i1]).det.to_set()
                            == passold[i0].det.to_set() && passold[i0].dep.to_set().subset_of(
                            result@[i1].dep.to_set(),
                        );
                    assert forall|y: Attr|
                        self@[j].dep.to_set().contains(y) implies result@[i1].dep.to_set().contains(
                        y,
                    ) by {
                        assert(passold[i0].dep.to_set().contains(y));
                    }
                    assert(0 <= i1 < result@.len() && result@[i1].det.to_set()
                        == self@[j].det.to_set() && self@[j].dep.to_set().subset_of(
                        result@[i1].dep.to_set(),
                    ));
                }
            }
        }
        result
    }

    /// Replace every member by its decomposition: one dependency per
    /// dependent attribute, each keeping the member's full determinant.
    fn decompose_all(&self) -> (r: FDList)
        requires
            self.wf(),
        ensures
            r.wf(),
            equiv(self.mset(), r.mset()),
            all_deps_single(r@),
            all_dets_nonempty(self@) ==> all_dets_nonempty(r@),
    {
        let mut out = FDList::new();
        let mut i: usize = 0;
        while i < self.list.len()
            invariant
                self.wf(),
                out.wf(),
                all_deps_single(out@),
                all_dets_nonempty(self@) ==> all_dets_nonempty(out@),
                i <= self@.len(),
                forall|x: FdModel| #[trigger] out.mset().contains(x) ==> derives(self.mset(), x),
                forall|j: int|
                    0 <= j < i ==> derives(out.mset(), (#[trigger] self@[j]).model()),
            decreases self@.len() - i,
        {
            proof {
                assert(self@[i as int].wf());
            }
            let dlist = self.list[i].decompose();
            let ghost dviews = dlist@;
            let ghost mi = self@[i as int].model();
            let mut t: usize = 0;
            while t < dlist.list.len()
                invariant
                    self.wf(),
                    out.wf(),
                    all_deps_single(out@),
                    all_dets_nonempty(self@) ==> all_dets_nonempty(out@),
                    0 <= i < self@.len(),
                    dviews == dlist@,
                    mi == self@[i as int].model(),
                    t <= dviews.len(),
                    dviews.len() == self@[i as int].dep.len(),
                    forall|u: int| 0 <= u < dviews.len() ==> (#[trigger] dviews[u]).det
                        == self@[i as int].det,
                    forall|u: int| 0 <= u < dviews.len() ==> (#[trigger] dviews[u]).dep == seq![
                        self@[i as int].dep[u],
                    ],
                    forall|u: int| 0 <= u < dviews.len() ==> (#[trigger] dviews[u]).wf(),
                    forall|x: FdModel|
                        #[trigger] out.mset().contains(x) ==> derives(self.mset(), x),
                    forall|j: int|
                        0 <= j < i ==> derives(out.mset(), (#[trigger] self@[j]).model()),
                    forall|u: int|
                        0 <= u < t ==> out.mset().contains((#[trigger] dviews[u]).model()),
                decreases dviews.len() - t,
            {
                let f = dlist.list[t].clone();
                let ghost oldmset = out.mset();
                proof {
                    assert(f@ == dviews[t as int]);
                    lemma_model_at(self@, i as int);
                    lemma_member_derives(self.mset(), mi);
                    assert forall|b: Attr|
                        f@.model().dep.contains(b) implies closure_of(
                        f@.model().det,
                        self.mset(),
                    ).contains(b) by {
                        assert(f@.dep.contains(b));
                        assert(b == self@[i as int].dep[t as int]);
                        assert(self@[i as int].dep.to_set().contains(b));
                        assert(mi.dep.contains(b));
                        assert(f@.det == self@[i as int].det);
                        assert(closure_of(mi.det, self.mset()).contains(b));
                    }
                    assert(derives(self.mset(), f@.model()));
                }
                out.push(f);
                proof {
                    assert(out.mset() == oldmset.insert(dviews[t as int].model()));
                    assert forall|x: FdModel|
                        #[trigger] out.mset().contains(x) implies derives(self.mset(), x) by {
                        if x != dviews[t as int].model() {
                            assert(oldmset.contains(x));
                        }
                    }
                    assert forall|j: int| 0 <= j < i implies derives(
                        out.mset(),
                        (#[trigger] self@[j]).model(),
                    ) by {
                        lemma_derives_monotone(oldmset, out.mset(), self@[j].model());
                    }
                }
                t += 1;
            }
            proof {
                assert forall|b: Attr|
                    mi.dep.contains(b) implies closure_of(mi.det, out.mset()).contains(b) by {
                    assert(deps_union(dviews) == self@[i as int].dep.to_set());
                    let u = lemma_deps_union_member(dviews, b);
                    lemma_member_derives(out.mset(), dviews[u].model());
                    assert(dviews[u].model().dep.contains(b));
                    assert(dviews[u].model().det == mi.det);
                    assert(closure_of(dviews[u].model().det, out.mset()).contains(b));
                }
                assert(derives(out.mset(), mi));
            }
            i += 1;
        }
        proof {
            assert forall|x: FdModel| #[trigger] self.mset().contains(x) implies derives(
                out.mset(),
                x,
            ) by {
                let j = lemma_model_witness(self@, x);
            }
            lemma_mutual_derives_equiv(self.mset(), out.mset());
        }
        out
    }

    /// The canonical (minimal) cover of this collection: decompose every
    /// member to single-attribute dependents, drop extraneous determinant
    /// attributes, drop redundant members, and merge members that share a
    /// determinant set.
    ///
    /// Laws stated below: the cover is equivalent to the input (every
    /// attribute set has the same closure under both); no two members share
    /// a determinant set; no member's dependent attribute is derivable from
    /// the other members; and no determinant attribute is extraneous.
    #[verifier::rlimit(100)]
    pub fn canonical_cover(&self) -> (r: FDList)
        requires
            self.wf(),
            self.all_valid(),
        ensures
            r.wf(),
            r.all_valid(),
            equiv(self.mset(), r.mset()),
            unique_dets(r@),
            forall|i: int, b: Attr|
                0 <= i < r@.len() && (#[trigger] r@[i].dep.to_set().contains(b))
                    ==> !closure_of(
                    r@[i].det.to_set(),
                    r.mset().remove(r@[i].model()),
                ).contains(b),
            forall|i: int, a: Attr, b: Attr|
                #![trigger r@[i].det.to_set().contains(a), r@[i].dep.to_set().contains(b)]
                0 <= i < r@.len() && r@[i].det.to_set().contains(a)
                    && r@[i].dep.to_set().contains(b) ==> !closure_of(
                    r@[i].det.to_set().remove(a),
                    r.mset(),
                ).contains(b),
    {
        proof {
            assert(all_dets_nonempty(self@) && all_deps_nonempty(self@));
        }
        let d0 = self.decompose_all();
        let m2 = d0.minimize();
        let m3 = m2.remove_redundant();
        proof {
            assert forall|idx: int|
                0 <= idx < m3@.len() implies (#[trigger] m3@[idx]).det.len() >= 1 by {
                assert(m2@.contains(m3@[idx]));
                let j = choose|j: int| 0 <= j < m2@.len() && m2@[j] == m3@[idx];
            }
        }
        let r = m3.recompose();
        proof {
            lemma_equiv_transitive(self.mset(), d0.mset(), m2.mset());
            lemma_equiv_transitive(self.mset(), m2.mset(), m3.mset());
            lemma_equiv_transitive(self.mset(), m3.mset(), r.mset());
            // both sides of every member of the cover are non-empty
            assert(all_dets_nonempty(r@) && all_deps_nonempty(r@));
            // no member's dependent attribute follows from the others
            assert forall|i: int, b: Attr|
                0 <= i < r@.len() && (#[trigger] r@[i].dep.to_set().contains(
                    b,
                )) implies !closure_of(
                r@[i].det.to_set(),
                r.mset().remove(r@[i].model()),
            ).contains(b) by {
                let ds = r@[i].det.to_set();
                let rm = r@[i].model();
                assert(covers_det(m3@, ds, b));
                let j = choose|j: int|
                    0 <= j < m3@.len() && (#[trigger] m3@[j]).det.to_set() == ds
                        && m3@[j].dep.to_set().contains(b);
                let mj = m3@[j].model();
                assert(m3@[j].dep.len() == 1);
                assert(b == m3@[j].dep[0]);
                assert(!closure_of(ds, m3.mset().remove(mj)).contains(b));
                if closure_of(ds, r.mset().remove(rm)).contains(b) {
                    assert forall|x: FdModel|
                        #[trigger] r.mset().remove(rm).contains(x) implies derives(
                        m3.mset().remove(mj),
                        x,
                    ) by {
                        let idx2 = lemma_model_witness(r@, x);
                        assert(idx2 != i);
                        assert(r@[idx2].det.to_set() != ds);
                        assert forall|y: Attr|
                            x.dep.contains(y) implies closure_of(
                            x.det,
                            m3.mset().remove(mj),
                        ).contains(y) by {
                            assert(r@[idx2].dep.to_set().contains(y));
                            assert(covers_det(m3@, r@[idx2].det.to_set(), y));
                            let j2 = choose|j2: int|
                                0 <= j2 < m3@.len() && (#[trigger] m3@[j2]).det.to_set()
                                    == r@[idx2].det.to_set() && m3@[j2].dep.to_set().contains(y);
                            lemma_model_at(m3@, j2);
                            assert(m3@[j2].model() != mj);
                            assert(m3.mset().remove(mj).contains(m3@[j2].model()));
                            lemma_member_derives(m3.mset().remove(mj), m3@[j2].model());
                            assert(closure_of(x.det, m3.mset().remove(mj)).contains(y));
                        }
                    }
                    lemma_derived_closure_le(m3.mset().remove(mj), r.mset().remove(rm), ds);
                    assert(closure_of(ds, m3.mset().remove(mj)).contains(b));
                    assert(false);
                }
            }
            // no determinant attribute of the cover is extraneous
            assert forall|i: int, a: Attr, b: Attr|
                #![trigger r@[i].det.to_set().contains(a), r@[i].dep.to_set().contains(b)]
                0 <= i < r@.len() && r@[i].det.to_set().contains(a) && r@[i].dep.to_set().contains(
                    b,
                ) implies !closure_of(r@[i].det.to_set().remove(a), r.mset()).contains(b) by {
                let ds = r@[i].det.to_set();
                assert(covers_det(m3@, ds, b));
                let j = choose|j: int|
                    0 <= j < m3@.len() && (#[trigger] m3@[j]).det.to_set() == ds
                        && m3@[j].dep.to_set().contains(b);
                assert(m2@.contains(m3@[j]));
                let j2 = choose|j2: int| 0 <= j2 < m2@.len() && m2@[j2] == m3@[j];
                assert(m2@[j2].dep.len() == 1);
                assert(b == m2@[j2].dep[0]);
                assert(closure_of(ds.remove(a), r.mset()) == closure_of(
                    ds.remove(a),
                    self.mset(),
                ));
                assert(closure_of(ds.remove(a), m2.mset()) == closure_of(
                    ds.remove(a),
                    self.mset(),
                ));
                if m2@[j2].det.len() > 1 {
                    let k = choose|k: int|
                        0 <= k < m2@[j2].det.len() && m2@[j2].det[k] == a;
                    assert(det_minimal_entry(m2@, m2.mset(), j2, k));
                    assert(!closure_of(ds.remove(a), m2.mset()).contains(b));
                } else {
                    assert(m2@[j2].det.len() == 1);
                    assert(a == m2@[j2].det[0]);
                    assert forall|y: Attr| !(ds.remove(a).contains(y)) by {
                        if ds.contains(y) {
                            assert(y == m2@[j2].det[0]);
                        }
                    }
                    assert(ds.remove(a) =~= Set::<Attr>::empty());
                    assert forall|x: FdModel| #[trigger] r.mset().contains(x) implies (
                    !x.det.subset_of(Set::<Attr>::empty())) by {
                        let idx2 = lemma_model_witness(r@, x);
                        assert(r@[idx2].det.len() >= 1);
                        assert(r@[idx2].det.to_set().contains(r@[idx2].det[0]));
                    }
                    assert(closed_under(Set::<Attr>::empty(), r.mset()));
                    assert(Set::<Attr>::empty().subset_of(Set::<Attr>::empty()));
                    lemma_closure_least(Set::<Attr>::empty(), r.mset(), Set::<Attr>::empty());
                    assert(!closure_of(ds.remove(a), r.mset()).contains(b));
                }
            }
        }
        r
    }
}

} // verus!
