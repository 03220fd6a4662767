//! Mathematical model of attribute sets, functional dependencies, and
//! attribute closure.
//!
//! An attribute is modelled as its name, a sequence of characters.  A
//! functional dependency is modelled twice: as an [`FdView`], which keeps the
//! stored order of the attribute names on each side, and as an [`FdModel`],
//! which keeps only the two name sets and therefore identifies dependencies
//! up to set equality of their sides.
//!
//! The closure of an attribute set `x` under a set of dependencies `fds` is
//! defined here as the intersection of all supersets of `x` that are closed
//! under `fds`; this module proves the classical facts about it that the
//! executable code relies on.

use vstd::prelude::*;

verus! {

/// An attribute name.
pub type Attr = Seq<char>;

/// Order-preserving model of one functional dependency: the determinant and
/// dependent attribute names in stored order.
#[verifier::ext_equal]
pub ghost struct FdView {
    pub det: Seq<Attr>,
    pub dep: Seq<Attr>,
}

/// Order-free model of one functional dependency: the two sides as sets.
#[verifier::ext_equal]
pub ghost struct FdModel {
    pub det: Set<Attr>,
    pub dep: Set<Attr>,
}

impl FdView {
    /// The order-free model of this dependency.
    pub open spec fn model(self) -> FdModel {
        FdModel { det: self.det.to_set(), dep: self.dep.to_set() }
    }

    /// Each side stores every name at most once.
    pub open spec fn wf(self) -> bool {
        self.det.no_duplicates() && self.dep.no_duplicates()
    }

    /// Both sides are non-empty.
    pub open spec fn valid(self) -> bool {
        self.det.len() > 0 && self.dep.len() > 0
    }
}

/// `s` is closed under `fds`: whenever a dependency's determinant lies inside
/// `s`, its dependent does too.
pub open spec fn closed_under(s: Set<Attr>, fds: Set<FdModel>) -> bool {
    forall|m: FdModel|
        #[trigger] fds.contains(m) ==> (m.det.subset_of(s) ==> m.dep.subset_of(s))
}

/// The closure of `x` under `fds`: the set of attributes that belong to every
/// superset of `x` closed under `fds` — that is, the least such superset.
pub open spec fn closure_of(x: Set<Attr>, fds: Set<FdModel>) -> Set<Attr> {
    Set::new(
        |a: Attr|
            forall|s: Set<Attr>|
                x.subset_of(s) && closed_under(s, fds) ==> #[trigger] s.contains(a),
    )
}

/// `fds` derives `m`: the dependent of `m` follows from its determinant.
pub open spec fn derives(fds: Set<FdModel>, m: FdModel) -> bool {
    m.dep.subset_of(closure_of(m.det, fds))
}

/// Two dependency sets are equivalent when they give every attribute set the
/// same closure.
pub open spec fn equiv(f: Set<FdModel>, g: Set<FdModel>) -> bool {
    forall|x: Set<Attr>| #![trigger closure_of(x, f)] closure_of(x, f) == closure_of(x, g)
}

/// Mutual inclusion of sets gives equality.
pub proof fn lemma_subset_antisymmetric(a: Set<Attr>, b: Set<Attr>)
    requires
        a.subset_of(b),
        b.subset_of(a),
    ensures
        a == b,
{
    assert(a =~= b);
}

/// Law: the closure operation is monotone over its base — for every
/// attribute set `x` and dependency set `fds`, `closure_of(x, fds)` is a
/// superset of `x`.
pub proof fn lemma_closure_superset(x: Set<Attr>, fds: Set<FdModel>)
    ensures
        x.subset_of(closure_of(x, fds)),
{
    assert forall|a: Attr| x.contains(a) implies closure_of(x, fds).contains(a) by {
        assert forall|s: Set<Attr>| x.subset_of(s) && closed_under(s, fds) implies s.contains(
            a,
        ) by {}
    }
}

/// The closure is inside every superset of the base set that is closed under
/// the dependencies.
pub proof fn lemma_closure_least(x: Set<Attr>, fds: Set<FdModel>, s: Set<Attr>)
    requires
        x.subset_of(s),
        closed_under(s, fds),
    ensures
        closure_of(x, fds).subset_of(s),
{
    assert forall|a: Attr| closure_of(x, fds).contains(a) implies s.contains(a) by {}
}

/// The closure is itself closed under the dependencies.
pub proof fn lemma_closure_closed(x: Set<Attr>, fds: Set<FdModel>)
    ensures
        closed_under(closure_of(x, fds), fds),
{
    let c = closure_of(x, fds);
    assert forall|m: FdModel| #[trigger] fds.contains(m) implies (m.det.subset_of(c)
        ==> m.dep.subset_of(c)) by {
        if m.det.subset_of(c) {
            assert forall|b: Attr| m.dep.contains(b) implies c.contains(b) by {
                assert forall|s: Set<Attr>|
                    x.subset_of(s) && closed_under(s, fds) implies s.contains(b) by {
                    assert forall|d: Attr| m.det.contains(d) implies s.contains(d) by {
                        assert(c.contains(d));
                    }
                    assert(m.det.subset_of(s));
                    assert(m.dep.subset_of(s));
                }
            }
        }
    }
}

/// A larger base set gives a larger closure.
pub proof fn lemma_closure_monotonic_base(x: Set<Attr>, y: Set<Attr>, fds: Set<FdModel>)
    requires
        x.subset_of(y),
    ensures
        closure_of(x, fds).subset_of(closure_of(y, fds)),
{
    assert forall|a: Attr| closure_of(x, fds).contains(a) implies closure_of(y, fds).contains(
        a,
    ) by {
        assert forall|s: Set<Attr>| y.subset_of(s) && closed_under(s, fds) implies s.contains(
            a,
        ) by {
            assert forall|d: Attr| x.contains(d) implies s.contains(d) by {
                assert(y.contains(d));
            }
            assert(x.subset_of(s));
        }
    }
}

/// A larger dependency set gives a larger closure.
pub proof fn lemma_closure_monotonic_fds(x: Set<Attr>, f: Set<FdModel>, g: Set<FdModel>)
    requires
        f.subset_of(g),
    ensures
        closure_of(x, f).subset_of(closure_of(x, g)),
{
    assert forall|a: Attr| closure_of(x, f).contains(a) implies closure_of(x, g).contains(
        a,
    ) by {
        assert forall|s: Set<Attr>| x.subset_of(s) && closed_under(s, g) implies s.contains(
            a,
        ) by {
            assert forall|m: FdModel| #[trigger] f.contains(m) implies (m.det.subset_of(s)
                ==> m.dep.subset_of(s)) by {
                assert(g.contains(m));
            }
            assert(closed_under(s, f));
        }
    }
}

/// Closing a set twice adds nothing beyond closing it once.
///
/// Law: the closure operation is idempotent — for every attribute set `x` and
/// dependency set `fds`, `closure_of(closure_of(x, fds), fds) ==
/// closure_of(x, fds)`.
pub proof fn lemma_closure_idempotent(x: Set<Attr>, fds: Set<FdModel>)
    ensures
        closure_of(closure_of(x, fds), fds) == closure_of(x, fds),
{
    let c = closure_of(x, fds);
    lemma_closure_superset(c, fds);
    lemma_closure_closed(x, fds);
    assert(c.subset_of(c));
    lemma_closure_least(c, fds, c);
    lemma_subset_antisymmetric(closure_of(c, fds), c);
}

/// Every member of a dependency set is derived by it.
pub proof fn lemma_member_derives(fds: Set<FdModel>, m: FdModel)
    requires
        fds.contains(m),
    ensures
        derives(fds, m),
{
    let c = closure_of(m.det, fds);
    lemma_closure_superset(m.det, fds);
    lemma_closure_closed(m.det, fds);
    assert(m.det.subset_of(c));
    assert(m.dep.subset_of(c));
}

/// If `f` derives every member of `g`, then every closure under `g` is
/// contained in the closure under `f`.
pub proof fn lemma_derived_closure_le(f: Set<FdModel>, g: Set<FdModel>, x: Set<Attr>)
    requires
        forall|m: FdModel| #[trigger] g.contains(m) ==> derives(f, m),
    ensures
        closure_of(x, g).subset_of(closure_of(x, f)),
{
    let c = closure_of(x, f);
    assert forall|m: FdModel| #[trigger] g.contains(m) implies (m.det.subset_of(c)
        ==> m.dep.subset_of(c)) by {
        if m.det.subset_of(c) {
            lemma_closure_closed(x, f);
            lemma_closure_least(m.det, f, c);
            assert(derives(f, m));
            assert forall|b: Attr| m.dep.contains(b) implies c.contains(b) by {
                assert(closure_of(m.det, f).contains(b));
            }
        }
    }
    assert(closed_under(c, g));
    lemma_closure_superset(x, f);
    lemma_closure_least(x, g, c);
}

/// Dependency sets that derive each other's members are equivalent.
pub proof fn lemma_mutual_derives_equiv(f: Set<FdModel>, g: Set<FdModel>)
    requires
        forall|m: FdModel| #[trigger] g.contains(m) ==> derives(f, m),
        forall|m: FdModel| #[trigger] f.contains(m) ==> derives(g, m),
    ensures
        equiv(f, g),
{
    assert forall|x: Set<Attr>| #![trigger closure_of(x, f)] closure_of(x, f) == closure_of(
        x,
        g,
    ) by {
        lemma_derived_closure_le(f, g, x);
        lemma_derived_closure_le(g, f, x);
        lemma_subset_antisymmetric(closure_of(x, f), closure_of(x, g));
    }
}

/// Equivalence is transitive.
pub proof fn lemma_equiv_transitive(f: Set<FdModel>, g: Set<FdModel>, h: Set<FdModel>)
    requires
        equiv(f, g),
        equiv(g, h),
    ensures
        equiv(f, h),
{
    assert forall|x: Set<Attr>| #![trigger closure_of(x, f)] closure_of(x, f) == closure_of(
        x,
        h,
    ) by {
        assert(closure_of(x, f) == closure_of(x, g));
        assert(closure_of(x, g) == closure_of(x, h));
    }
}

/// The attribute names held by a list of strings.
pub open spec fn names_seq(v: Seq<String>) -> Seq<Attr> {
    v.map_values(|s: String| s@)
}

/// Replacing a member by one with a smaller determinant, the same dependent,
/// and a dependent still derivable from the smaller determinant keeps the
/// dependency set equivalent.
pub proof fn lemma_reduce_step_equiv(ws: Set<FdModel>, m: FdModel, nm: FdModel)
    requires
        ws.contains(m),
        nm.det.subset_of(m.det),
        nm.dep == m.dep,
        nm.dep.subset_of(closure_of(nm.det, ws)),
    ensures
        equiv(ws, ws.remove(m).insert(nm)),
{
    let g = ws.remove(m).insert(nm);
    assert forall|x: FdModel| #[trigger] g.contains(x) implies derives(ws, x) by {
        if x == nm {
            assert(derives(ws, nm));
        } else {
            assert(ws.contains(x));
            lemma_member_derives(ws, x);
        }
    }
    assert forall|x: FdModel| #[trigger] ws.contains(x) implies derives(g, x) by {
        if x == m {
            assert(g.contains(nm));
            lemma_member_derives(g, nm);
            lemma_closure_monotonic_base(nm.det, m.det, g);
            assert forall|y: Attr| m.dep.contains(y) implies closure_of(m.det, g).contains(y) by {
                assert(closure_of(nm.det, g).contains(y));
            }
            assert(derives(g, m));
        } else {
            assert(g.contains(x));
            lemma_member_derives(g, x);
        }
    }
    lemma_mutual_derives_equiv(ws, g);
}

/// Derivability is monotone in the dependency set.
pub proof fn lemma_derives_monotone(f: Set<FdModel>, g: Set<FdModel>, x: FdModel)
    requires
        f.subset_of(g),
        derives(f, x),
    ensures
        derives(g, x),
{
    lemma_closure_monotonic_fds(x.det, f, g);
    assert forall|b: Attr| x.dep.contains(b) implies closure_of(x.det, g).contains(b) by {
        assert(closure_of(x.det, f).contains(b));
    }
}

/// Dropping a member whose dependent the remaining dependencies already
/// derive keeps the dependency set equivalent.
pub proof fn lemma_drop_step_equiv(ws: Set<FdModel>, m: FdModel)
    requires
        ws.contains(m),
        m.dep.subset_of(closure_of(m.det, ws.remove(m))),
    ensures
        equiv(ws, ws.remove(m)),
{
    let g = ws.remove(m);
    assert forall|x: FdModel| #[trigger] g.contains(x) implies derives(ws, x) by {
        assert(ws.contains(x));
        lemma_member_derives(ws, x);
    }
    assert forall|x: FdModel| #[trigger] ws.contains(x) implies derives(g, x) by {
        if x == m {
            assert(derives(g, m));
        } else {
            assert(g.contains(x));
            lemma_member_derives(g, x);
        }
    }
    lemma_mutual_derives_equiv(ws, g);
}

/// `a` and `b` have the same length and every name of `a` occurs in `b` —
/// the member-wise comparison the executable equality performs.
pub open spec fn set_like(a: Seq<Attr>, b: Seq<Attr>) -> bool {
    a.len() == b.len() && (forall|i: int| 0 <= i < a.len() ==> b.contains(#[trigger] a[i]))
}

/// On duplicate-free sequences the member-wise comparison coincides with set
/// equality.
pub proof fn lemma_set_like_model(a: Seq<Attr>, b: Seq<Attr>)
    requires
        a.no_duplicates(),
        b.no_duplicates(),
    ensures
        set_like(a, b) <==> a.to_set() == b.to_set(),
{
    broadcast use vstd::seq_lib::seq_to_set_is_finite;

    if set_like(a, b) {
        assert forall|x: Attr| a.to_set().contains(x) implies b.to_set().contains(x) by {
            let i = choose|i: int| 0 <= i < a.len() && a[i] == x;
            assert(b.contains(a[i]));
        }
        a.unique_seq_to_set();
        b.unique_seq_to_set();
        vstd::set_lib::lemma_subset_equality(a.to_set(), b.to_set());
        assert(a.to_set() == b.to_set());
    }
    if a.to_set() == b.to_set() {
        a.unique_seq_to_set();
        b.unique_seq_to_set();
        assert forall|i: int| 0 <= i < a.len() implies b.contains(#[trigger] a[i]) by {
            assert(a.to_set().contains(a[i]));
        }
    }
}

/// On well-formed dependencies the member-wise comparison of both sides
/// coincides with equality of the order-free models.
pub proof fn lemma_set_like_both_model(a: FdView, b: FdView)
    requires
        a.wf(),
        b.wf(),
    ensures
        (set_like(a.det, b.det) && set_like(a.dep, b.dep)) <==> a.model() == b.model(),
{
    lemma_set_like_model(a.det, b.det);
    lemma_set_like_model(a.dep, b.dep);
}

/// The set of order-free models of a sequence of dependencies.
pub open spec fn model_set(s: Seq<FdView>) -> Set<FdModel> {
    s.map_values(|v: FdView| v.model()).to_set()
}

/// A member's model is in the model set.
pub proof fn lemma_model_at(s: Seq<FdView>, i: int)
    requires
        0 <= i < s.len(),
    ensures
        model_set(s).contains(s[i].model()),
{
    let ms = s.map_values(|v: FdView| v.model());
    assert(ms[i] == s[i].model());
    assert(ms.contains(ms[i]));
}

/// Every model in the model set is the model of some member.
pub proof fn lemma_model_witness(s: Seq<FdView>, m: FdModel) -> (i: int)
    requires
        model_set(s).contains(m),
    ensures
        0 <= i < s.len(),
        s[i].model() == m,
{
    let ms = s.map_values(|v: FdView| v.model());
    let i = choose|i: int| 0 <= i < ms.len() && ms[i] == m;
    i
}

/// The filter predicate that keeps every dependency whose model differs from
/// `t`.
pub open spec fn keep_pred(t: FdModel) -> spec_fn(FdView) -> bool {
    |v: FdView| v.model() != t
}

/// The filter predicate that keeps every dependency whose determinant name
/// set is `d`.
pub open spec fn det_pred(d: Set<Attr>) -> spec_fn(FdView) -> bool {
    |v: FdView| v.det.to_set() == d
}

/// The filter predicate that keeps every dependency whose determinant name
/// set differs from `d`.
pub open spec fn other_det_pred(d: Set<Attr>) -> spec_fn(FdView) -> bool {
    |v: FdView| v.det.to_set() != d
}

/// Appending one dependency adds exactly its model to the model set.
pub proof fn lemma_model_set_push(s: Seq<FdView>, v: FdView)
    ensures
        model_set(s.push(v)) == model_set(s).insert(v.model()),
{
    assert forall|m: FdModel|
        model_set(s.push(v)).contains(m) implies model_set(s).insert(v.model()).contains(m) by {
        let i = lemma_model_witness(s.push(v), m);
        if i < s.len() {
            assert(s.push(v)[i] == s[i]);
            lemma_model_at(s, i);
        }
    }
    assert forall|m: FdModel|
        model_set(s).insert(v.model()).contains(m) implies model_set(s.push(v)).contains(m) by {
        if model_set(s).contains(m) {
            let i = lemma_model_witness(s, m);
            assert(s.push(v)[i] == s[i]);
            lemma_model_at(s.push(v), i);
        } else {
            assert(s.push(v)[s.len() as int] == v);
            lemma_model_at(s.push(v), s.len() as int);
        }
    }
    assert(model_set(s.push(v)) =~= model_set(s).insert(v.model()));
}

/// Filtering away exactly the dependencies with model `t` removes `t` from
/// the model set and nothing else.
pub proof fn lemma_filtered_model_set(s: Seq<FdView>, t: FdModel)
    ensures
        model_set(s.filter(keep_pred(t))) == model_set(s).remove(t),
{
    let pred = keep_pred(t);
    let f = s.filter(pred);
    assert forall|m: FdModel|
        model_set(f).contains(m) implies model_set(s).remove(t).contains(m) by {
        let i = lemma_model_witness(f, m);
        s.lemma_filter_pred(pred, i);
        assert(f.contains(f[i]));
        s.lemma_filter_contains_rev(pred, f[i]);
        let j = choose|j: int| 0 <= j < s.len() && s[j] == f[i];
        lemma_model_at(s, j);
    }
    assert forall|m: FdModel|
        model_set(s).remove(t).contains(m) implies model_set(f).contains(m) by {
        let i = lemma_model_witness(s, m);
        s.lemma_filter_contains(pred, i);
        let j = choose|j: int| 0 <= j < f.len() && f[j] == s[i];
        lemma_model_at(f, j);
    }
    assert(model_set(f) =~= model_set(s).remove(t));
}

/// Filtering keeps dependencies well-formed and their models pairwise
/// distinct.
pub proof fn lemma_filter_keeps_distinct(s: Seq<FdView>, pred: spec_fn(FdView) -> bool)
    requires
        forall|i: int| 0 <= i < s.len() ==> (#[trigger] s[i]).wf(),
        forall|i: int, j: int| 0 <= i < j < s.len() ==> s[i].model() != s[j].model(),
    ensures
        forall|i: int| 0 <= i < s.filter(pred).len() ==> (#[trigger] s.filter(pred)[i]).wf(),
        forall|i: int, j: int|
            0 <= i < j < s.filter(pred).len() ==> s.filter(pred)[i].model() != s.filter(
                pred,
            )[j].model(),
    decreases s.len(),
{
    reveal(Seq::filter);
    let f = s.filter(pred);
    if s.len() > 0 {
        let rest = s.drop_last();
        lemma_filter_keeps_distinct(rest, pred);
        let fr = rest.filter(pred);
        if pred(s.last()) {
            assert(f == fr.push(s.last()));
            assert forall|i: int| 0 <= i < f.len() implies (#[trigger] f[i]).wf() by {
                if i < f.len() - 1 {
                    assert(f[i] == fr[i]);
                } else {
                    assert(f[i] == s.last());
                    assert(s[s.len() - 1].wf());
                }
            }
            assert forall|i: int, j: int|
                0 <= i < j < f.len() implies f[i].model() != f[j].model() by {
                if j < f.len() - 1 {
                    assert(f[i] == fr[i] && f[j] == fr[j]);
                } else {
                    assert(f[i] == fr[i] && f[j] == s.last());
                    assert(fr.contains(fr[i]));
                    rest.lemma_filter_contains_rev(pred, fr[i]);
                    let k = choose|k: int| 0 <= k < rest.len() && rest[k] == fr[i];
                    assert(s[k] == rest[k]);
                    assert(s[k].model() != s[s.len() - 1].model());
                }
            }
        } else {
            assert(f == fr);
        }
    }
}

/// If some member fails the predicate, filtering shortens the sequence.
pub proof fn lemma_filter_missing_len(s: Seq<FdView>, pred: spec_fn(FdView) -> bool, i: int)
    requires
        0 <= i < s.len(),
        !pred(s[i]),
    ensures
        s.filter(pred).len() < s.len(),
    decreases s.len(),
{
    reveal(Seq::filter);
    s.lemma_filter_len(pred);
    let rest = s.drop_last();
    rest.lemma_filter_len(pred);
    if i == s.len() - 1 {
    } else {
        lemma_filter_missing_len(rest, pred, i);
    }
}

/// Every member of a filtered sequence comes from the original at some
/// index, and satisfies the predicate.
pub proof fn lemma_filter_members(s: Seq<FdView>, pred: spec_fn(FdView) -> bool, i: int) -> (j: int)
    requires
        0 <= i < s.filter(pred).len(),
    ensures
        0 <= j < s.len(),
        s[j] == s.filter(pred)[i],
        pred(s[j]),
{
    s.lemma_filter_pred(pred, i);
    let f = s.filter(pred);
    assert(f.contains(f[i]));
    s.lemma_filter_contains_rev(pred, f[i]);
    let j = choose|j: int| 0 <= j < s.len() && s[j] == f[i];
    j
}

/// Filtering with a predicate every member satisfies changes nothing.
pub proof fn lemma_filter_all_true(s: Seq<FdView>, pred: spec_fn(FdView) -> bool)
    requires
        forall|j: int| 0 <= j < s.len() ==> pred(#[trigger] s[j]),
    ensures
        s.filter(pred) == s,
    decreases s.len(),
{
    reveal(Seq::filter);
    if s.len() > 0 {
        let rest = s.drop_last();
        assert forall|j: int| 0 <= j < rest.len() implies pred(#[trigger] rest[j]) by {
            assert(rest[j] == s[j]);
        }
        lemma_filter_all_true(rest, pred);
        assert(pred(s[s.len() - 1]));
        assert(s.filter(pred) =~= s);
    }
}

/// When exactly the member at index `i` has model `t`, filtering `t` away is
/// the same as removing that one member.
pub proof fn lemma_filter_unique_remove(s: Seq<FdView>, i: int, t: FdModel)
    requires
        0 <= i < s.len(),
        s[i].model() == t,
        forall|j: int| 0 <= j < s.len() && j != i ==> (#[trigger] s[j]).model() != t,
    ensures
        s.filter(keep_pred(t)) == s.remove(i),
    decreases s.len(),
{
    reveal(Seq::filter);
    let pred = keep_pred(t);
    let rest = s.drop_last();
    if i == s.len() - 1 {
        assert(!pred(s.last()));
        assert forall|j: int| 0 <= j < rest.len() implies pred(#[trigger] rest[j]) by {
            assert(rest[j] == s[j]);
        }
        lemma_filter_all_true(rest, pred);
        assert(s.remove(i) =~= rest);
    } else {
        assert(rest[i] == s[i]);
        assert forall|j: int| 0 <= j < rest.len() && j != i implies (#[trigger] rest[j]).model()
            != t by {
            assert(rest[j] == s[j]);
        }
        lemma_filter_unique_remove(rest, i, t);
        assert(pred(s.last()));
        assert(s.filter(pred) == rest.remove(i).push(s.last()));
        s.remove_ensures(i);
        rest.remove_ensures(i);
        assert(s.remove(i) =~= rest.remove(i).push(s.last()));
    }
}

/// Removing one name from a duplicate-free list keeps it duplicate-free and
/// removes exactly that name from its set.
pub proof fn lemma_remove_no_dup(s: Seq<Attr>, k: int)
    requires
        s.no_duplicates(),
        0 <= k < s.len(),
    ensures
        s.remove(k).no_duplicates(),
        s.remove(k).to_set() == s.to_set().remove(s[k]),
{
    s.remove_ensures(k);
    let r = s.remove(k);
    assert forall|a: int, b: int| 0 <= a < b < r.len() implies r[a] != r[b] by {
        let a2: int = if a < k {
            a
        } else {
            a + 1
        };
        let b2: int = if b < k {
            b
        } else {
            b + 1
        };
        assert(r[a] == s[a2]);
        assert(r[b] == s[b2]);
    }
    assert forall|y: Attr| r.to_set().contains(y) implies s.to_set().remove(s[k]).contains(y) by {
        let idx = choose|idx: int| 0 <= idx < r.len() && r[idx] == y;
        let idx2: int = if idx < k {
            idx
        } else {
            idx + 1
        };
        assert(s[idx2] == y);
        assert(s.contains(y));
        assert(idx2 != k);
        assert(y != s[k]);
    }
    assert forall|y: Attr| s.to_set().remove(s[k]).contains(y) implies r.to_set().contains(y) by {
        let idx = choose|idx: int| 0 <= idx < s.len() && s[idx] == y;
        assert(idx != k);
        if idx < k {
            assert(r[idx] == y);
        } else {
            assert(r[idx - 1] == y);
        }
        assert(r.contains(y));
    }
    assert(r.to_set() =~= s.to_set().remove(s[k]));
}

/// The total number of determinant attributes over a sequence of
/// dependencies; the measure that determinant minimization shrinks.
pub open spec fn det_size_sum(s: Seq<FdView>) -> nat
    decreases s.len(),
{
    if s.len() == 0 {
        0
    } else {
        det_size_sum(s.drop_last()) + s.last().det.len()
    }
}

/// Removing one dependency lowers the determinant total by its determinant
/// size.
pub proof fn lemma_size_sum_remove(s: Seq<FdView>, i: int)
    requires
        0 <= i < s.len(),
    ensures
        det_size_sum(s.remove(i)) + s[i].det.len() == det_size_sum(s),
    decreases s.len(),
{
    s.remove_ensures(i);
    if i == s.len() - 1 {
        assert(s.remove(i) =~= s.drop_last());
    } else {
        let rest = s.drop_last();
        rest.remove_ensures(i);
        lemma_size_sum_remove(rest, i);
        assert(s.remove(i).drop_last() =~= rest.remove(i));
        assert(s.remove(i).last() == s.last());
        assert(det_size_sum(s.remove(i)) == det_size_sum(rest.remove(i)) + s.last().det.len());
        assert(rest[i] == s[i]);
    }
}

/// Appending one dependency raises the determinant total by its determinant
/// size.
pub proof fn lemma_size_sum_push(s: Seq<FdView>, v: FdView)
    ensures
        det_size_sum(s.push(v)) == det_size_sum(s) + v.det.len(),
{
    assert(s.push(v).drop_last() =~= s);
    assert(s.push(v).last() == v);
    assert(det_size_sum(s.push(v)) == det_size_sum(s.push(v).drop_last()) + s.push(
        v,
    ).last().det.len());
}

/// The union of the dependent-side name sets of a sequence of dependencies.
pub open spec fn deps_union(s: Seq<FdView>) -> Set<Attr>
    decreases s.len(),
{
    if s.len() == 0 {
        Set::empty()
    } else {
        deps_union(s.drop_last()).union(s.last().dep.to_set())
    }
}

/// The union of dependent sides is a finite set.
pub proof fn lemma_deps_union_finite(s: Seq<FdView>)
    ensures
        deps_union(s).finite(),
    decreases s.len(),
{
    broadcast use vstd::seq_lib::seq_to_set_is_finite;

    if s.len() > 0 {
        lemma_deps_union_finite(s.drop_last());
    }
}

/// Each member's dependent side lies inside the union.
pub proof fn lemma_deps_union_covers(s: Seq<FdView>, i: int)
    requires
        0 <= i < s.len(),
    ensures
        s[i].dep.to_set().subset_of(deps_union(s)),
    decreases s.len(),
{
    if i == s.len() - 1 {
    } else {
        lemma_deps_union_covers(s.drop_last(), i);
        assert(s.drop_last()[i] == s[i]);
    }
}

/// Appending one name adds exactly it to a sequence's name set.
pub proof fn lemma_attr_push_to_set(s: Seq<Attr>, x: Attr)
    ensures
        s.push(x).to_set() == s.to_set().insert(x),
{
    assert forall|y: Attr| s.push(x).contains(y) implies (s.contains(y) || y == x) by {
        let idx = choose|idx: int| 0 <= idx < s.push(x).len() && s.push(x)[idx] == y;
        if idx < s.len() {
            assert(s[idx] == y);
        }
    }
    assert forall|y: Attr| s.contains(y) implies s.push(x).contains(y) by {
        let idx = choose|idx: int| 0 <= idx < s.len() && s[idx] == y;
        assert(s.push(x)[idx] == y);
    }
    assert(s.push(x)[s.len() as int] == x);
    assert(s.push(x).contains(x));
    assert(s.push(x).to_set() =~= s.to_set().insert(x));
}

/// Every attribute of the union comes from some member's dependent side.
pub proof fn lemma_deps_union_member(s: Seq<FdView>, b: Attr) -> (i: int)
    requires
        deps_union(s).contains(b),
    ensures
        0 <= i < s.len(),
        s[i].dep.to_set().contains(b),
    decreases s.len(),
{
    if s.len() == 0 {
        assert(false);
        0
    } else if s.last().dep.to_set().contains(b) {
        s.len() - 1
    } else {
        let i = lemma_deps_union_member(s.drop_last(), b);
        assert(s.drop_last()[i] == s[i]);
        i
    }
}

/// If two members fail the predicate, filtering drops at least two.
pub proof fn lemma_filter_missing_two(
    s: Seq<FdView>,
    pred: spec_fn(FdView) -> bool,
    i1: int,
    i2: int,
)
    requires
        0 <= i1 < i2 < s.len(),
        !pred(s[i1]),
        !pred(s[i2]),
    ensures
        s.filter(pred).len() + 2 <= s.len(),
    decreases s.len(),
{
    reveal(Seq::filter);
    let rest = s.drop_last();
    if i2 == s.len() - 1 {
        lemma_filter_missing_len(rest, pred, i1);
    } else {
        lemma_filter_missing_two(rest, pred, i1, i2);
        s.lemma_filter_len(pred);
        rest.lemma_filter_len(pred);
    }
}

/// Appending one dependency extends the union by its dependent side.
pub proof fn lemma_deps_union_push(s: Seq<FdView>, v: FdView)
    ensures
        deps_union(s.push(v)) == deps_union(s).union(v.dep.to_set()),
{
    assert(s.push(v).drop_last() =~= s);
    assert(s.push(v).last() == v);
    assert(deps_union(s.push(v)) == deps_union(s.push(v).drop_last()).union(
        s.push(v).last().dep.to_set(),
    ));
}

} // verus!
