//! The dependency graph: nodes keyed by dotted module name, dependency and
//! dependent edges between them, and a depth-from-root metric.
//!
//! A graph owns its nodes; nodes are addressed by name through the owning
//! graph, and all mutation goes through the graph's methods.  The ghost
//! model of a graph is a map from name to [`DepNodeView`], whose edge sets
//! are sets of names.

use vstd::prelude::*;
use vstd::seq_lib::group_seq_lib_default;

use crate::errors::GraphError;
use crate::module_spec::{ModuleSpec, ModuleSpecView};
use crate::names::{str_eq, vec_contains_name};

verus! {

broadcast use group_seq_lib_default;

/// Ghost model of a [`DepNode`].
#[verifier::ext_equal]
pub struct DepNodeView {
    pub name: Seq<char>,
    pub module_spec: ModuleSpecView,
    pub dependencies: Set<Seq<char>>,
    pub dependents: Set<Seq<char>>,
    pub depth: Option<int>,
}

/// A node just obtained from its descriptor: empty edge sets, the given
/// depth.
pub open spec fn fresh_node_view(module_spec: ModuleSpecView, depth: Option<int>) -> DepNodeView {
    DepNodeView {
        name: module_spec.name,
        module_spec,
        dependencies: Set::empty(),
        dependents: Set::empty(),
        depth,
    }
}

/// One vertex of the graph: the module's descriptor, the names it imports,
/// the names importing it, and the least known number of edges from the
/// synthetic root (absent until the node is first reached).
pub struct DepNode {
    pub name: String,
    pub module_spec: ModuleSpec,
    dependencies: Vec<String>,
    dependents: Vec<String>,
    depth: Option<i32>,
}

impl View for DepNode {
    type V = DepNodeView;

    closed spec fn view(&self) -> DepNodeView {
        DepNodeView {
            name: self.name@,
            module_spec: self.module_spec@,
            dependencies: self.dependencies.deep_view().to_set(),
            dependents: self.dependents.deep_view().to_set(),
            depth: match self.depth {
                Some(d) => Some(d as int),
                None => None,
            },
        }
    }
}

impl DepNode {
    /// Internal validity: edge lists hold no duplicates, a recorded depth
    /// is non-negative, and the node is keyed by its descriptor's name.
    pub closed spec fn wf(&self) -> bool {
        &&& self.dependencies.deep_view().no_duplicates()
        &&& self.dependents.deep_view().no_duplicates()
        &&& (self.depth matches Some(d) ==> d >= 0)
        &&& self.name@ == self.module_spec@.name
    }

    /// A node for `module_spec`, with no edges yet and the given depth.
    pub fn new(module_spec: ModuleSpec, depth: Option<i32>) -> (r: DepNode)
        requires
            depth matches Some(d) ==> d >= 0,
        ensures
            r.wf(),
            r@ == fresh_node_view(
                module_spec@,
                match depth {
                    Some(d) => Some(d as int),
                    None => None::<int>,
                },
            ),
    {
        let r = DepNode {
            name: module_spec.name.clone(),
            module_spec,
            dependencies: Vec::new(),
            dependents: Vec::new(),
            depth,
        };
        proof {
            assert(Seq::<Seq<char>>::empty().to_set() =~= Set::empty());
            assert(r@ =~= fresh_node_view(
                r.module_spec@,
                match depth {
                    Some(d) => Some(d as int),
                    None => None::<int>,
                },
            ));
        }
        r
    }

    /// The number of names this node imports.
    pub fn dependencies(&self) -> (r: usize)
        requires
            self.wf(),
        ensures
            r == self@.dependencies.len(),
    {
        proof {
            self.dependencies.deep_view().unique_seq_to_set();
        }
        self.dependencies.len()
    }

    /// The names this node imports, each exactly once.
    pub fn dependency_names(&self) -> (r: Vec<String>)
        requires
            self.wf(),
        ensures
            r.deep_view().to_set() == self@.dependencies,
            r.deep_view().no_duplicates(),
    {
        crate::module_spec::clone_string_vec(&self.dependencies)
    }

    /// The names importing this node, each exactly once.
    pub fn dependent_names(&self) -> (r: Vec<String>)
        requires
            self.wf(),
        ensures
            r.deep_view().to_set() == self@.dependents,
            r.deep_view().no_duplicates(),
    {
        crate::module_spec::clone_string_vec(&self.dependents)
    }

    /// The least known number of edges from the root, if reached yet.
    pub fn depth(&self) -> (r: Option<i32>)
        ensures
            match r {
                Some(d) => self@.depth == Some(d as int),
                None => self@.depth is None,
            },
    {
        self.depth
    }

    /// An independent copy with the same contents.
    fn duplicate(&self) -> (r: DepNode)
        ensures
            r@ == self@,
            r.wf() == self.wf(),
    {
        let r = DepNode {
            name: self.name.clone(),
            module_spec: self.module_spec.duplicate(),
            dependencies: crate::module_spec::clone_string_vec(&self.dependencies),
            dependents: crate::module_spec::clone_string_vec(&self.dependents),
            depth: self.depth,
        };
        assert(r@ =~= self@);
        r
    }

    /// Records `on` as a dependency of this node.
    fn push_dependency(&mut self, on: &str)
        requires
            old(self).wf(),
        ensures
            final(self).wf(),
            final(self)@ == (DepNodeView {
                dependencies: old(self)@.dependencies.insert(on@),
                ..old(self)@
            }),
    {
        if !vec_contains_name(&self.dependencies, on) {
            self.dependencies.push(on.to_owned());
            proof {
                assert(self.dependencies.deep_view() =~= old(
                    self,
                ).dependencies.deep_view().push(on@));
                old(self).dependencies.deep_view().lemma_push_to_set_commute(on@);
            }
        } else {
            proof {
                assert(old(self)@.dependencies.insert(on@) =~= old(self)@.dependencies);
            }
        }
        proof {
            assert(self@ =~= (DepNodeView {
                dependencies: old(self)@.dependencies.insert(on@),
                ..old(self)@
            }));
        }
    }

    /// Records `from` as a dependent of this node.
    fn push_dependent(&mut self, from: &str)
        requires
            old(self).wf(),
        ensures
            final(self).wf(),
            final(self)@ == (DepNodeView {
                dependents: old(self)@.dependents.insert(from@),
                ..old(self)@
            }),
    {
        if !vec_contains_name(&self.dependents, from) {
            self.dependents.push(from.to_owned());
            proof {
                assert(self.dependents.deep_view() =~= old(self).dependents.deep_view().push(
                    from@,
                ));
                old(self).dependents.deep_view().lemma_push_to_set_commute(from@);
            }
        } else {
            proof {
                assert(old(self)@.dependents.insert(from@) =~= old(self)@.dependents);
            }
        }
        proof {
            assert(self@ =~= (DepNodeView {
                dependents: old(self)@.dependents.insert(from@),
                ..old(self)@
            }));
        }
    }

    /// Lowers this node's depth to `cand` if that is smaller or the depth
    /// was not yet known.
    fn lower_depth(&mut self, cand: i32)
        requires
            old(self).wf(),
            cand >= 0,
        ensures
            final(self).wf(),
            final(self)@ == (DepNodeView {
                depth: Some(min_depth(old(self)@.depth, cand as int)),
                ..old(self)@
            }),
    {
        match self.depth {
            Some(d) => {
                if cand < d {
                    self.depth = Some(cand);
                }
            },
            None => {
                self.depth = Some(cand);
            },
        }
        proof {
            assert(self@ =~= (DepNodeView {
                depth: Some(min_depth(old(self)@.depth, cand as int)),
                ..old(self)@
            }));
        }
    }
}

impl DepNode {
    /// Forgets this node's depth.
    fn clear_depth(&mut self)
        requires
            old(self).wf(),
        ensures
            final(self).wf(),
            final(self)@ == (DepNodeView { depth: None, ..old(self)@ }),
    {
        self.depth = None;
        proof {
            assert(self@ =~= (DepNodeView { depth: None, ..old(self)@ }));
        }
    }

    /// Sets this node's depth outright.
    fn set_depth(&mut self, v: i32)
        requires
            old(self).wf(),
            v >= 0,
        ensures
            final(self).wf(),
            final(self)@ == (DepNodeView { depth: Some(v as int), ..old(self)@ }),
    {
        self.depth = Some(v);
        proof {
            assert(self@ =~= (DepNodeView { depth: Some(v as int), ..old(self)@ }));
        }
    }

    /// Drops every dependent not listed in `allowed`.
    fn retain_dependents(&mut self, allowed: &Vec<String>)
        requires
            old(self).wf(),
        ensures
            final(self).wf(),
            final(self)@ == (DepNodeView {
                dependents: old(self)@.dependents.intersect(allowed.deep_view().to_set()),
                ..old(self)@
            }),
    {
        let ghost dv = self.dependents.deep_view();
        let mut kept: Vec<String> = Vec::new();
        let mut i: usize = 0;
        while i < self.dependents.len()
            invariant
                0 <= i <= self.dependents@.len(),
                *self == *old(self),
                self.wf(),
                dv == self.dependents.deep_view(),
                kept.deep_view().no_duplicates(),
                kept.deep_view().to_set() =~= dv.take(i as int).to_set().intersect(
                    allowed.deep_view().to_set(),
                ),
                kept.deep_view().to_set().subset_of(dv.take(i as int).to_set()),
            decreases self.dependents@.len() - i,
        {
            proof {
                assert(dv.take(i + 1).drop_last() =~= dv.take(i as int));
                dv.take(i + 1).drop_last().lemma_push_to_set_commute(dv[i as int]);
                assert(dv.take(i + 1).drop_last().push(dv[i as int]) =~= dv.take(i + 1));
                assert(!dv.take(i as int).to_set().contains(dv[i as int])) by {
                    if dv.take(i as int).to_set().contains(dv[i as int]) {
                        let j = choose|j: int|
                            0 <= j < i && dv.take(i as int)[j] == dv[i as int];
                        assert(dv[j] == dv[i as int]);
                    }
                }
            }
            let ghost kpre = kept.deep_view();
            if vec_contains_name(allowed, self.dependents[i].as_str()) {
                kept.push(self.dependents[i].clone());
                proof {
                    assert(kept.deep_view() =~= kpre.push(dv[i as int]));
                    kpre.lemma_push_to_set_commute(dv[i as int]);
                }
            }
            i += 1;
            proof {
                assert(kept.deep_view().to_set() =~= dv.take(i as int).to_set().intersect(
                    allowed.deep_view().to_set(),
                ));
            }
        }
        proof {
            assert(dv.take(self.dependents@.len() as int) =~= dv);
        }
        self.dependents = kept;
        proof {
            assert(self@ =~= (DepNodeView {
                dependents: old(self)@.dependents.intersect(allowed.deep_view().to_set()),
                ..old(self)@
            }));
        }
    }
}

impl Clone for DepNode {
    fn clone(&self) -> (r: Self)
        ensures
            r@ == self@,
            r.wf() == self.wf(),
    {
        self.duplicate()
    }
}

/// Merges `other` into this node: edge sets are unioned and the smaller
/// depth kept.  The descriptor of the receiving node survives.
impl DepNode {
    fn merge_from(&mut self, other: DepNode)
        requires
            old(self).wf(),
            other.wf(),
            old(self).name@ == other.name@,
        ensures
            final(self).wf(),
            final(self)@ == merge_node_view(old(self)@, other@),
    {
        let ghost pre = self@;
        let mut i: usize = 0;
        while i < other.dependencies.len()
            invariant
                0 <= i <= other.dependencies@.len(),
                self.wf(),
                self@ == (DepNodeView {
                    dependencies: pre.dependencies + other.dependencies.deep_view().take(
                        i as int,
                    ).to_set(),
                    ..pre
                }),
            decreases other.dependencies@.len() - i,
        {
            let ghost dv = other.dependencies.deep_view();
            self.push_dependency(other.dependencies[i].as_str());
            proof {
                assert(dv.take(i + 1).drop_last() =~= dv.take(i as int));
                dv.take(i + 1).drop_last().lemma_push_to_set_commute(dv[i as int]);
                assert(dv.take(i + 1).drop_last().push(dv[i as int]) =~= dv.take(i + 1));
                assert((pre.dependencies + dv.take(i as int).to_set()).insert(dv[i as int]) =~= pre.dependencies
                    + dv.take(i + 1).to_set());
            }
            i += 1;
        }
        proof {
            assert(other.dependencies.deep_view().take(
                other.dependencies@.len() as int,
            ) =~= other.dependencies.deep_view());
        }
        let ghost mid = self@;
        let mut j: usize = 0;
        while j < other.dependents.len()
            invariant
                0 <= j <= other.dependents@.len(),
                self.wf(),
                self@ == (DepNodeView {
                    dependents: mid.dependents + other.dependents.deep_view().take(
                        j as int,
                    ).to_set(),
                    ..mid
                }),
            decreases other.dependents@.len() - j,
        {
            let ghost dv = other.dependents.deep_view();
            self.push_dependent(other.dependents[j].as_str());
            proof {
                assert(dv.take(j + 1).drop_last() =~= dv.take(j as int));
                dv.take(j + 1).drop_last().lemma_push_to_set_commute(dv[j as int]);
                assert(dv.take(j + 1).drop_last().push(dv[j as int]) =~= dv.take(j + 1));
                assert((mid.dependents + dv.take(j as int).to_set()).insert(dv[j as int]) =~= mid.dependents
                    + dv.take(j + 1).to_set());
            }
            j += 1;
        }
        proof {
            assert(other.dependents.deep_view().take(
                other.dependents@.len() as int,
            ) =~= other.dependents.deep_view());
        }
        match other.depth {
            Some(d) => {
                self.lower_depth(d);
            },
            None => {},
        }
        proof {
            assert(self@ =~= merge_node_view(pre, other@));
        }
    }
}

/// The node that merging `b` into `a` produces: unioned edge sets, the
/// smaller depth, `a`'s descriptor.
pub open spec fn merge_node_view(a: DepNodeView, b: DepNodeView) -> DepNodeView {
    DepNodeView {
        name: a.name,
        module_spec: a.module_spec,
        dependencies: a.dependencies + b.dependencies,
        dependents: a.dependents + b.dependents,
        depth: merge_depth(a.depth, b.depth),
    }
}

/// The smaller of two possibly-absent depths (absence poses no
/// constraint).
pub open spec fn merge_depth(a: Option<int>, b: Option<int>) -> Option<int> {
    match b {
        Some(bd) => Some(min_depth(a, bd)),
        None => a,
    }
}

/// Two nodes of one name disagree on their origin, both having one.
pub open spec fn origin_conflict(a: DepNodeView, b: DepNodeView) -> bool {
    match (a.module_spec.origin, b.module_spec.origin) {
        (Some(x), Some(y)) => x != y,
        _ => false,
    }
}

/// Some name present in both maps carries conflicting origins.
pub open spec fn merge_conflict(a: Map<Seq<char>, DepNodeView>, b: Map<Seq<char>, DepNodeView>) -> bool {
    exists|k: Seq<char>|
        #[trigger] a.contains_key(k) && #[trigger] b.contains_key(k) && origin_conflict(a[k], b[k])
}

/// The map that merging `b` into `a` produces: keys are unioned; a name
/// present in both holds the merge of its two nodes.
pub open spec fn spec_merge(
    a: Map<Seq<char>, DepNodeView>,
    b: Map<Seq<char>, DepNodeView>,
) -> Map<Seq<char>, DepNodeView> {
    Map::new(
        |k: Seq<char>| a.contains_key(k) || b.contains_key(k),
        |k: Seq<char>|
            if a.contains_key(k) && b.contains_key(k) {
                merge_node_view(a[k], b[k])
            } else if a.contains_key(k) {
                a[k]
            } else {
                b[k]
            },
    )
}

/// Merging is commutative on everything but the surviving descriptor: the
/// two orders produce the same names, the same dependency and dependent
/// sets at every name, and the same depths.  Conflict detection does not
/// depend on the order either.
pub proof fn lemma_merge_commutative(a: Map<Seq<char>, DepNodeView>, b: Map<Seq<char>, DepNodeView>)
    ensures
        merge_conflict(a, b) == merge_conflict(b, a),
        spec_merge(a, b).dom() =~= spec_merge(b, a).dom(),
        forall|k: Seq<char>| #[trigger] spec_merge(a, b).contains_key(k) ==> {
            &&& spec_merge(a, b)[k].dependencies == spec_merge(b, a)[k].dependencies
            &&& spec_merge(a, b)[k].dependents == spec_merge(b, a)[k].dependents
            &&& spec_merge(a, b)[k].depth == spec_merge(b, a)[k].depth
        },
{
    assert(merge_conflict(a, b) == merge_conflict(b, a)) by {
        if merge_conflict(a, b) {
            let k = choose|k: Seq<char>|
                a.contains_key(k) && b.contains_key(k) && origin_conflict(a[k], b[k]);
            assert(b.contains_key(k) && a.contains_key(k) && origin_conflict(b[k], a[k]));
        }
        if merge_conflict(b, a) {
            let k = choose|k: Seq<char>|
                b.contains_key(k) && a.contains_key(k) && origin_conflict(b[k], a[k]);
            assert(a.contains_key(k) && b.contains_key(k) && origin_conflict(a[k], b[k]));
        }
    }
    assert forall|k: Seq<char>| #[trigger] spec_merge(a, b).contains_key(k) implies {
        &&& spec_merge(a, b)[k].dependencies == spec_merge(b, a)[k].dependencies
        &&& spec_merge(a, b)[k].dependents == spec_merge(b, a)[k].dependents
        &&& spec_merge(a, b)[k].depth == spec_merge(b, a)[k].depth
    } by {
        if a.contains_key(k) && b.contains_key(k) {
            assert(a[k].dependencies + b[k].dependencies =~= b[k].dependencies
                + a[k].dependencies);
            assert(a[k].dependents + b[k].dependents =~= b[k].dependents + a[k].dependents);
        }
    }
}

/// Merging a graph into itself changes nothing, and never conflicts.
pub proof fn lemma_merge_idempotent(a: Map<Seq<char>, DepNodeView>)
    ensures
        !merge_conflict(a, a),
        spec_merge(a, a) =~~= a,
{
    assert forall|k: Seq<char>| #[trigger] spec_merge(a, a).contains_key(k)
        implies spec_merge(a, a)[k] =~~= a[k] by {
        assert(a[k].dependencies + a[k].dependencies =~= a[k].dependencies);
        assert(a[k].dependents + a[k].dependents =~= a[k].dependents);
    }
}

/// Merging the nodes of `s` one at a time into `g`.
spec fn merge_seq(g: Map<Seq<char>, DepNodeView>, s: Seq<DepNode>) -> Map<Seq<char>, DepNodeView>
    decreases s.len(),
{
    if s.len() == 0 {
        g
    } else {
        merge_one(merge_seq(g, s.drop_last()), s.last())
    }
}

/// Node `n` clashes with the node of its name in `g`, if any.
spec fn origin_conflict_at(g: Map<Seq<char>, DepNodeView>, n: DepNode) -> bool {
    g.contains_key(n.name@) && origin_conflict(g[n.name@], n@)
}

/// Merging a single node into `g`.
spec fn merge_one(g: Map<Seq<char>, DepNodeView>, n: DepNode) -> Map<Seq<char>, DepNodeView> {
    if g.contains_key(n.name@) {
        g.insert(n.name@, merge_node_view(g[n.name@], n@))
    } else {
        g.insert(n.name@, n@)
    }
}

/// Folding distinct nodes one at a time equals the map-level merge.
proof fn lemma_merge_seq_full(g: Map<Seq<char>, DepNodeView>, s: Seq<DepNode>)
    requires
        distinct_names(s),
    ensures
        merge_seq(g, s) =~= spec_merge(g, graph_map(s)),
    decreases s.len(),
{
    if s.len() == 0 {
        assert forall|k: Seq<char>| !(#[trigger] graph_map(s).contains_key(k)) by {
            assert(!contains_name_seq(s, k));
        }
        assert(merge_seq(g, s) =~= spec_merge(g, graph_map(s)));
    } else {
        let s0 = s.drop_last();
        let n = s.last();
        assert(distinct_names(s0));
        lemma_merge_seq_full(g, s0);
        assert(!contains_name_seq(s0, n.name@)) by {
            if contains_name_seq(s0, n.name@) {
                let i = choose|i: int| 0 <= i < s0.len() && s0[i].name@ == n.name@;
                assert(s[i].name@ == s[s.len() - 1].name@);
            }
        }
        lemma_gm_push(s0, n);
        assert(s0.push(n) =~= s);
        let h = graph_map(s0);
        let m = spec_merge(g, h);
        assert forall|k: Seq<char>| #[trigger] merge_one(m, n).contains_key(k) == spec_merge(
            g,
            h.insert(n.name@, n@),
        ).contains_key(k) by {}
        assert forall|k: Seq<char>| merge_one(m, n).contains_key(k) implies #[trigger] merge_one(
            m,
            n,
        )[k] == spec_merge(g, h.insert(n.name@, n@))[k] by {
            if k == n.name@ {
                assert(!h.contains_key(k));
            }
        }
        assert(merge_one(m, n) =~= spec_merge(g, h.insert(n.name@, n@)));
        assert(graph_map(s) =~= h.insert(n.name@, n@));
    }
}

/// `m` is `g` with every depth cleared and then reassigned by the splice
/// traversal seeded at `on` with depth `seed`: nodes and edges are
/// untouched, `on` carries exactly `seed`, and any other depth assigned
/// lies at or beyond `seed`.  The traversal assigns each visited node the
/// counter's value at first visit, so depths beyond `on`'s depend on the
/// traversal order and are not pinned further here.
pub open spec fn respliced(
    g: Map<Seq<char>, DepNodeView>,
    m: Map<Seq<char>, DepNodeView>,
    on: Seq<char>,
    seed: int,
) -> bool {
    &&& m.dom() == g.dom()
    &&& forall|k: Seq<char>| #[trigger] m.contains_key(k) ==> {
        &&& m[k].name == g[k].name
        &&& m[k].module_spec == g[k].module_spec
        &&& m[k].dependencies == g[k].dependencies
        &&& m[k].dependents == g[k].dependents
        &&& (m[k].depth is None || (m[k].depth matches Some(d) && d >= seed))
    }
    &&& m[on].depth == Some(seed)
}

/// What a successful splice leaves behind: for some reassignment `m` of
/// `garg`'s depths seeded at `on` with the depth after `from`, the result
/// `g1` is `g0` merged with `m` plus the edge `from -> on`.
pub open spec fn spliced_ok(
    g0: Map<Seq<char>, DepNodeView>,
    garg: Map<Seq<char>, DepNodeView>,
    g1: Map<Seq<char>, DepNodeView>,
    from: Seq<char>,
    on: Seq<char>,
) -> bool {
    match g0[from].depth {
        Some(d0) => exists|m: Map<Seq<char>, DepNodeView>| {
            &&& #[trigger] respliced(garg, m, on, d0 + 1)
            &&& !merge_conflict(g0, m)
            &&& g1 == spec_add_edge(spec_merge(g0, m), from, on)
        },
        None => false,
    }
}

/// Total length of the nodes' dependency lists.
spec fn total_dependencies(s: Seq<DepNode>) -> int
    decreases s.len(),
{
    if s.len() == 0 {
        0
    } else {
        total_dependencies(s.drop_last()) + s.last()@.dependencies.len()
    }
}

/// Total number of dependency edges of `g`: every node's dependency-set
/// size, added up over the node names.
pub open spec fn view_edge_total(g: Map<Seq<char>, DepNodeView>) -> int {
    g.dom().fold(0int, |acc: int, k: Seq<char>| acc + g[k].dependencies.len())
}

/// Two summing steps that agree on a finite set fold alike over it.
proof fn lemma_fold_sum_congruence(
    d: Set<Seq<char>>,
    f1: spec_fn(int, Seq<char>) -> int,
    f2: spec_fn(int, Seq<char>) -> int,
)
    requires
        d.finite(),
        vstd::set::fold::is_fun_commutative(f1),
        vstd::set::fold::is_fun_commutative(f2),
        forall|acc: int, k: Seq<char>| d.contains(k) ==> #[trigger] f1(acc, k) == #[trigger] f2(
            acc,
            k,
        ),
    ensures
        d.fold(0int, f1) == d.fold(0int, f2),
{
    let pred = |t: Set<Seq<char>>| t.subset_of(d) ==> t.fold(0int, f1) == t.fold(0int, f2);
    assert(pred(Set::<Seq<char>>::empty())) by {
        vstd::set::fold::lemma_fold_empty(0int, f1);
        vstd::set::fold::lemma_fold_empty(0int, f2);
    }
    assert forall|t: Set<Seq<char>>, a: Seq<char>|
        pred(t) && t.finite() && !t.contains(a) implies #[trigger] pred(t.insert(a)) by {
        if t.insert(a).subset_of(d) {
            assert(t.subset_of(d));
            assert(d.contains(a));
            vstd::set::fold::lemma_fold_insert(t, 0int, f1, a);
            vstd::set::fold::lemma_fold_insert(t, 0int, f2, a);
        }
    }
    vstd::set::fold::lemma_finite_set_induct(d, pred);
}

/// Summing dependency-list lengths along the node sequence computes the
/// edge total of the denoted map.
proof fn lemma_total_dependencies(s: Seq<DepNode>)
    requires
        distinct_names(s),
    ensures
        total_dependencies(s) == view_edge_total(graph_map(s)),
    decreases s.len(),
{
    let g = graph_map(s);
    let f = |acc: int, k: Seq<char>| acc + g[k].dependencies.len();
    assert(vstd::set::fold::is_fun_commutative(f));
    lemma_gm_dom(s);
    if s.len() == 0 {
        assert forall|k: Seq<char>| !(#[trigger] g.contains_key(k)) by {
            assert(!contains_name_seq(s, k));
        }
        assert(g.dom() =~= Set::<Seq<char>>::empty());
        vstd::set::fold::lemma_fold_empty(0int, f);
    } else {
        let s0 = s.drop_last();
        let n = s.last();
        assert(distinct_names(s0));
        lemma_total_dependencies(s0);
        assert(!contains_name_seq(s0, n.name@)) by {
            if contains_name_seq(s0, n.name@) {
                let i = choose|i: int| 0 <= i < s0.len() && s0[i].name@ == n.name@;
                assert(s[i].name@ == s[s.len() - 1].name@);
            }
        }
        lemma_gm_push(s0, n);
        assert(s0.push(n) =~= s);
        let g0 = graph_map(s0);
        let f0 = |acc: int, k: Seq<char>| acc + g0[k].dependencies.len();
        assert(vstd::set::fold::is_fun_commutative(f0));
        lemma_gm_dom(s0);
        assert(!g0.dom().contains(n.name@)) by {
            if g0.contains_key(n.name@) {
                let i = choose|i: int| 0 <= i < s0.len() && s0[i].name@ == n.name@;
            }
        }
        assert(g.dom() =~= g0.dom().insert(n.name@));
        lemma_fold_sum_congruence(g0.dom(), f, f0);
        vstd::set::fold::lemma_fold_insert(g0.dom(), 0int, f, n.name@);
        assert(g[n.name@] == n@);
        assert(view_edge_total(g) == g0.dom().insert(n.name@).fold(0int, f));
        assert(g0.dom().insert(n.name@).fold(0int, f) == f(g0.dom().fold(0int, f), n.name@));
    }
}

/// Every origin that some node of `g` records.
pub open spec fn origin_set(g: Map<Seq<char>, DepNodeView>) -> Set<Seq<char>> {
    Set::new(
        |o: Seq<char>|
            exists|k: Seq<char>| #[trigger] g.contains_key(k) && g[k].module_spec.origin == Some(o),
    )
}

/// How many nodes of `g` record an origin.
pub open spec fn origin_count(g: Map<Seq<char>, DepNodeView>) -> int {
    g.dom().filter(|k: Seq<char>| g[k].module_spec.origin is Some).len() as int
}

/// Nodes of `s` that record an origin, counted in order.
spec fn count_origins_seq(s: Seq<DepNode>) -> int
    decreases s.len(),
{
    if s.len() == 0 {
        0
    } else {
        count_origins_seq(s.drop_last()) + if s.last().module_spec@.origin is Some {
            1int
        } else {
            0int
        }
    }
}

/// Counting origin-carrying nodes along the sequence counts them in the
/// denoted map.
proof fn lemma_count_origins(s: Seq<DepNode>)
    requires
        distinct_names(s),
    ensures
        count_origins_seq(s) == origin_count(graph_map(s)),
    decreases s.len(),
{
    let pred = |k: Seq<char>| graph_map(s)[k].module_spec.origin is Some;
    let fs = graph_map(s).dom().filter(pred);
    if s.len() == 0 {
        assert forall|k: Seq<char>| !(#[trigger] graph_map(s).contains_key(k)) by {
            assert(!contains_name_seq(s, k));
        }
        assert(fs =~= Set::<Seq<char>>::empty());
    } else {
        let s0 = s.drop_last();
        let n = s.last();
        assert(distinct_names(s0));
        lemma_count_origins(s0);
        assert(!contains_name_seq(s0, n.name@)) by {
            if contains_name_seq(s0, n.name@) {
                let i = choose|i: int| 0 <= i < s0.len() && s0[i].name@ == n.name@;
                assert(s[i].name@ == s[s.len() - 1].name@);
            }
        }
        lemma_gm_push(s0, n);
        assert(s0.push(n) =~= s);
        lemma_gm_dom(s0);
        let pred0 = |k: Seq<char>| graph_map(s0)[k].module_spec.origin is Some;
        let f0 = graph_map(s0).dom().filter(pred0);
        vstd::set_lib::lemma_len_subset(f0, graph_map(s0).dom());
        if n.module_spec@.origin is Some {
            assert(fs =~= f0.insert(n.name@));
            assert(!f0.contains(n.name@));
            assert(fs.len() == f0.len() + 1);
        } else {
            assert(fs =~= f0);
        }
    }
}

/// The number of nodes of `g` that carry a depth.
pub open spec fn count_assigned(g: Map<Seq<char>, DepNodeView>) -> nat {
    g.dom().filter(|k: Seq<char>| g[k].depth is Some).len()
}

/// The new depth is no worse than the old one: a recorded depth never
/// disappears and never grows.
pub open spec fn depth_no_worse(new: Option<int>, old: Option<int>) -> bool {
    match old {
        None => true,
        Some(od) => new matches Some(nd) && nd <= od,
    }
}

/// How a node may change while a build expands the graph: identity and
/// descriptor fixed, edge sets only grow, depth only improves.
pub open spec fn node_evolves(o: DepNodeView, n: DepNodeView) -> bool {
    &&& n.name == o.name
    &&& n.module_spec == o.module_spec
    &&& o.dependencies.subset_of(n.dependencies)
    &&& o.dependents.subset_of(n.dependents)
    &&& depth_no_worse(n.depth, o.depth)
}

/// How a graph may change while a build expands it: nodes are never
/// removed and each surviving node evolves.
pub open spec fn graph_evolves(o: Map<Seq<char>, DepNodeView>, n: Map<Seq<char>, DepNodeView>) -> bool {
    &&& o.dom().subset_of(n.dom())
    &&& forall|k: Seq<char>| #[trigger] o.contains_key(k) ==> node_evolves(o[k], n[k])
}

/// Evolution is transitive.
pub proof fn lemma_evolves_trans(
    a: Map<Seq<char>, DepNodeView>,
    b: Map<Seq<char>, DepNodeView>,
    c: Map<Seq<char>, DepNodeView>,
)
    requires
        graph_evolves(a, b),
        graph_evolves(b, c),
    ensures
        graph_evolves(a, c),
{
    assert forall|k: Seq<char>| #[trigger] a.contains_key(k) implies node_evolves(a[k], c[k]) by {
        assert(node_evolves(a[k], b[k]));
        assert(b.contains_key(k));
        assert(node_evolves(b[k], c[k]));
    }
}

/// Recording an edge only grows the graph's edge sets and improves one
/// depth.
pub proof fn lemma_add_edge_evolves(g: Map<Seq<char>, DepNodeView>, from: Seq<char>, on: Seq<char>)
    requires
        g.contains_key(from),
        g.contains_key(on),
    ensures
        graph_evolves(g, spec_add_edge(g, from, on)),
{
    let g2 = spec_add_edge(g, from, on);
    assert forall|k: Seq<char>| #[trigger] g.contains_key(k) implies node_evolves(g[k], g2[k]) by {}
}

/// Recording an edge between present nodes keeps the graph consistent.
pub proof fn lemma_add_edge_consistent(
    g: Map<Seq<char>, DepNodeView>,
    from: Seq<char>,
    on: Seq<char>,
)
    requires
        edge_consistent(g),
        g.contains_key(from),
        g.contains_key(on),
    ensures
        edge_consistent(spec_add_edge(g, from, on)),
{
    let g2 = spec_add_edge(g, from, on);
    assert(g2.dom() =~= g.dom());
    assert forall|k: Seq<char>| #[trigger] g2.contains_key(k) implies g2[k].dependencies.subset_of(
        g2.dom(),
    ) && g2[k].dependents.subset_of(g2.dom()) by {
        assert(g.contains_key(k));
    }
}

/// Recording an edge grows the edge total by exactly one when the edge
/// is new, and not at all when it was already present: the same
/// dependency resolved from a second importer adds one edge into the
/// shared node, never a second node.
pub proof fn lemma_add_edge_count(g: Map<Seq<char>, DepNodeView>, from: Seq<char>, on: Seq<char>)
    requires
        g.contains_key(from),
        g.contains_key(on),
        g[from].depth is Some,
        g.dom().finite(),
        g[from].dependencies.finite(),
        from != on,
    ensures
        spec_add_edge(g, from, on).dom() == g.dom(),
        view_edge_total(spec_add_edge(g, from, on)) == view_edge_total(g) + (if g[from].dependencies.contains(
            on,
        ) {
            0int
        } else {
            1int
        }),
{
    let g2 = spec_add_edge(g, from, on);
    assert(g2.dom() =~= g.dom());
    let fc = |acc: int, k: Seq<char>| acc + g[k].dependencies.len();
    let f2c = |acc: int, k: Seq<char>| acc + g2[k].dependencies.len();
    assert(vstd::set::fold::is_fun_commutative(fc));
    assert(vstd::set::fold::is_fun_commutative(f2c));
    let d0 = g.dom().remove(from);
    assert(d0.insert(from) =~= g.dom());
    assert(!d0.contains(from));
    vstd::set_lib::lemma_len_subset(d0, g.dom());
    lemma_fold_sum_congruence(d0, fc, f2c);
    vstd::set::fold::lemma_fold_insert(d0, 0int, fc, from);
    vstd::set::fold::lemma_fold_insert(d0, 0int, f2c, from);
    assert(view_edge_total(g) == d0.fold(0int, fc) + g[from].dependencies.len());
    assert(view_edge_total(g2) == d0.fold(0int, f2c) + g2[from].dependencies.len());
    assert(g2[from].dependencies == g[from].dependencies.insert(on));
    if g[from].dependencies.contains(on) {
        assert(g[from].dependencies.insert(on) =~= g[from].dependencies);
    } else {
        assert(g[from].dependencies.insert(on).len() == g[from].dependencies.len() + 1);
    }
}

/// A merge only grows the receiving graph.
pub proof fn lemma_merge_evolves(a: Map<Seq<char>, DepNodeView>, b: Map<Seq<char>, DepNodeView>)
    ensures
        graph_evolves(a, spec_merge(a, b)),
{
    let m = spec_merge(a, b);
    assert forall|k: Seq<char>| #[trigger] a.contains_key(k) implies node_evolves(a[k], m[k]) by {}
}

/// Merging two consistent graphs yields a consistent graph.
pub proof fn lemma_merge_consistent(a: Map<Seq<char>, DepNodeView>, b: Map<Seq<char>, DepNodeView>)
    requires
        edge_consistent(a),
        edge_consistent(b),
    ensures
        edge_consistent(spec_merge(a, b)),
{
    let m = spec_merge(a, b);
    assert forall|k: Seq<char>| #[trigger] m.contains_key(k) implies m[k].dependencies.subset_of(
        m.dom(),
    ) && m[k].dependents.subset_of(m.dom()) by {
        if a.contains_key(k) && b.contains_key(k) {
            assert forall|d: Seq<char>| #[trigger] m[k].dependencies.contains(d)
                implies m.dom().contains(d) by {
                if a[k].dependencies.contains(d) {
                    assert(a.dom().contains(d));
                } else {
                    assert(b[k].dependencies.contains(d));
                    assert(b.dom().contains(d));
                }
            }
            assert forall|d: Seq<char>| #[trigger] m[k].dependents.contains(d)
                implies m.dom().contains(d) by {
                if a[k].dependents.contains(d) {
                    assert(a.dom().contains(d));
                } else {
                    assert(b[k].dependents.contains(d));
                    assert(b.dom().contains(d));
                }
            }
        } else if a.contains_key(k) {
            assert forall|d: Seq<char>| #[trigger] m[k].dependencies.contains(d)
                implies m.dom().contains(d) by {
                assert(a.dom().contains(d));
            }
            assert forall|d: Seq<char>| #[trigger] m[k].dependents.contains(d)
                implies m.dom().contains(d) by {
                assert(a.dom().contains(d));
            }
        } else {
            assert forall|d: Seq<char>| #[trigger] m[k].dependencies.contains(d)
                implies m.dom().contains(d) by {
                assert(b.dom().contains(d));
            }
            assert forall|d: Seq<char>| #[trigger] m[k].dependents.contains(d)
                implies m.dom().contains(d) by {
                assert(b.dom().contains(d));
            }
        }
    }
}

/// Inserting a brand-new node only grows the graph.
pub proof fn lemma_insert_fresh_evolves(
    g: Map<Seq<char>, DepNodeView>,
    k: Seq<char>,
    v: DepNodeView,
)
    requires
        !g.contains_key(k),
    ensures
        graph_evolves(g, g.insert(k, v)),
{
}

/// Inserting a node without edges keeps the graph consistent.
pub proof fn lemma_insert_fresh_consistent(
    g: Map<Seq<char>, DepNodeView>,
    k: Seq<char>,
    v: DepNodeView,
)
    requires
        edge_consistent(g),
        v.dependencies == Set::<Seq<char>>::empty(),
        v.dependents == Set::<Seq<char>>::empty(),
    ensures
        edge_consistent(g.insert(k, v)),
{
    let g2 = g.insert(k, v);
    assert forall|m: Seq<char>| #[trigger] g2.contains_key(m) implies g2[m].dependencies.subset_of(
        g2.dom(),
    ) && g2[m].dependents.subset_of(g2.dom()) by {
        if m == k {
        } else {
            assert(g.contains_key(m));
            assert(g[m].dependencies.subset_of(g.dom()));
            assert(g.dom().subset_of(g2.dom()));
        }
    }
}

/// Reassigning depths never disturbs consistency.
pub proof fn lemma_respliced_consistent(
    g: Map<Seq<char>, DepNodeView>,
    m: Map<Seq<char>, DepNodeView>,
    on: Seq<char>,
    seed: int,
)
    requires
        edge_consistent(g),
        respliced(g, m, on, seed),
    ensures
        edge_consistent(m),
{
    assert forall|k: Seq<char>| #[trigger] m.contains_key(k) implies m[k].dependencies.subset_of(
        m.dom(),
    ) && m[k].dependents.subset_of(m.dom()) by {
        assert(g.contains_key(k));
        assert(m[k].dependencies == g[k].dependencies);
        assert(m[k].dependents == g[k].dependents);
    }
}

/// `p` walks `g` along dependency edges: every step from a node to one of
/// its dependencies.
pub open spec fn is_dep_path(g: Map<Seq<char>, DepNodeView>, p: Seq<Seq<char>>) -> bool {
    &&& p.len() >= 1
    &&& forall|i: int| 0 <= i < p.len() ==> g.contains_key(#[trigger] p[i])
    &&& forall|i: int| 0 <= i < p.len() - 1 ==> g[#[trigger] p[i]].dependencies.contains(p[i + 1])
}

/// `to` can be reached from `from` along dependency edges of `g`.
pub open spec fn reaches(g: Map<Seq<char>, DepNodeView>, from: Seq<char>, to: Seq<char>) -> bool {
    exists|p: Seq<Seq<char>>| is_dep_path(g, p) && p.first() == from && p.last() == to
}

/// Every present node reaches itself.
pub proof fn lemma_reaches_refl(g: Map<Seq<char>, DepNodeView>, k: Seq<char>)
    requires
        g.contains_key(k),
    ensures
        reaches(g, k, k),
{
    let p = seq![k];
    assert(is_dep_path(g, p) && p.first() == k && p.last() == k);
}

/// Reachability extends along one more dependency edge.
pub proof fn lemma_reaches_step(
    g: Map<Seq<char>, DepNodeView>,
    a: Seq<char>,
    b: Seq<char>,
    c: Seq<char>,
)
    requires
        reaches(g, a, b),
        g[b].dependencies.contains(c),
        g.contains_key(c),
    ensures
        reaches(g, a, c),
{
    let p = choose|p: Seq<Seq<char>>| is_dep_path(g, p) && p.first() == a && p.last() == b;
    let p2 = p.push(c);
    assert(forall|i: int| 0 <= i < p.len() ==> p2[i] == p[i]);
    assert(p2[p.len() as int] == c);
    assert(is_dep_path(g, p2) && p2.first() == a && p2.last() == c);
}

/// Every recorded depth of `g` is attained: it equals the edge count of
/// some dependency path from `root`.  This holds of graphs grown only by
/// node insertion and edge recording — in particular of freshly built
/// graphs untouched by cache splicing, whose splice-time reassignment
/// follows a traversal order instead.  Since some path attains the depth,
/// the shortest distance from the root is never larger than the depth.
/// The converse — that no strictly shorter path exists — does not hold of
/// the expansion algorithm: an edge discovered late can shorten the
/// distance to a node whose dependencies keep their earlier, longer
/// depths.
pub open spec fn depths_realized(g: Map<Seq<char>, DepNodeView>, root: Seq<char>) -> bool {
    forall|k: Seq<char>| #[trigger] g.contains_key(k) && g[k].depth is Some ==> exists|
        p: Seq<Seq<char>>,
    |
        is_dep_path(g, p) && p.first() == root && p.last() == k && p.len() - 1 == g[k].depth->0
}

/// A dependency path stays a path when the graph only grows.
pub proof fn lemma_path_persists(
    g: Map<Seq<char>, DepNodeView>,
    g2: Map<Seq<char>, DepNodeView>,
    p: Seq<Seq<char>>,
)
    requires
        graph_evolves(g, g2),
        is_dep_path(g, p),
    ensures
        is_dep_path(g2, p),
{
    assert forall|i: int| 0 <= i < p.len() implies g2.contains_key(#[trigger] p[i]) by {
        assert(g.contains_key(p[i]));
    }
    assert forall|i: int| 0 <= i < p.len() - 1 implies g2[#[trigger] p[i]].dependencies.contains(
        p[i + 1],
    ) by {
        assert(g.contains_key(p[i]));
        assert(g[p[i]].dependencies.contains(p[i + 1]));
        assert(node_evolves(g[p[i]], g2[p[i]]));
    }
}

/// Recording an edge keeps every depth attained: the target's new depth
/// is either its old one or the source's depth plus one, attained by the
/// source's path extended along the new edge.
pub proof fn lemma_add_edge_realized(
    g: Map<Seq<char>, DepNodeView>,
    from: Seq<char>,
    on: Seq<char>,
    root: Seq<char>,
)
    requires
        depths_realized(g, root),
        g.contains_key(from),
        g.contains_key(on),
        g[from].depth is Some,
    ensures
        depths_realized(spec_add_edge(g, from, on), root),
{
    let g2 = spec_add_edge(g, from, on);
    let fd = g[from].depth->0;
    lemma_add_edge_evolves(g, from, on);
    assert forall|k: Seq<char>| #[trigger] g2.contains_key(k) && g2[k].depth is Some implies exists|
        p: Seq<Seq<char>>,
    |
        is_dep_path(g2, p) && p.first() == root && p.last() == k && p.len() - 1
            == g2[k].depth->0 by {
        if k == on && (g[on].depth is None || g[on].depth->0 > fd + 1) {
            // the new, shorter depth through `from`
            assert(g.contains_key(from) && g[from].depth is Some);
            let p = choose|p: Seq<Seq<char>>|
                is_dep_path(g, p) && p.first() == root && p.last() == from && p.len() - 1
                    == g[from].depth->0;
            lemma_path_persists(g, g2, p);
            let p2 = p.push(on);
            assert(forall|i: int| 0 <= i < p.len() ==> p2[i] == p[i]);
            assert(p2[p.len() as int] == on);
            assert(g2[from].dependencies.contains(on));
            assert(is_dep_path(g2, p2));
            assert(p2.first() == root && p2.last() == on);
            assert(p2.len() - 1 == fd + 1);
            assert(g2[on].depth->0 == min_depth(g[on].depth, fd + 1));
            assert(g2[on].depth->0 == fd + 1);
        } else {
            // the depth is unchanged and its old path persists
            assert(g.contains_key(k) && g[k].depth is Some && g2[k].depth == g[k].depth);
            let p = choose|p: Seq<Seq<char>>|
                is_dep_path(g, p) && p.first() == root && p.last() == k && p.len() - 1
                    == g[k].depth->0;
            lemma_path_persists(g, g2, p);
        }
    }
}

/// Inserting a depthless node keeps every depth attained.
pub proof fn lemma_insert_fresh_realized(
    g: Map<Seq<char>, DepNodeView>,
    k: Seq<char>,
    v: DepNodeView,
    root: Seq<char>,
)
    requires
        depths_realized(g, root),
        !g.contains_key(k),
        v.depth is None,
    ensures
        depths_realized(g.insert(k, v), root),
{
    let g2 = g.insert(k, v);
    lemma_insert_fresh_evolves(g, k, v);
    assert forall|m: Seq<char>| #[trigger] g2.contains_key(m) && g2[m].depth is Some implies exists|
        p: Seq<Seq<char>>,
    |
        is_dep_path(g2, p) && p.first() == root && p.last() == m && p.len() - 1
            == g2[m].depth->0 by {
        assert(m != k);
        assert(g.contains_key(m) && g[m].depth is Some);
        let p = choose|p: Seq<Seq<char>>|
            is_dep_path(g, p) && p.first() == root && p.last() == m && p.len() - 1
                == g[m].depth->0;
        lemma_path_persists(g, g2, p);
    }
}

/// In the graph holding only the root at depth zero, every depth is
/// attained (by the one-node path).
pub proof fn lemma_seed_realized(root: Seq<char>, v: DepNodeView)
    requires
        v.depth == Some(0int),
    ensures
        depths_realized(Map::<Seq<char>, DepNodeView>::empty().insert(root, v), root),
{
    let g = Map::<Seq<char>, DepNodeView>::empty().insert(root, v);
    assert forall|k: Seq<char>| #[trigger] g.contains_key(k) && g[k].depth is Some implies exists|
        p: Seq<Seq<char>>,
    |
        is_dep_path(g, p) && p.first() == root && p.last() == k && p.len() - 1
            == g[k].depth->0 by {
        let p = seq![root];
        assert(is_dep_path(g, p) && p.first() == root && p.last() == k && p.len() - 1
            == g[k].depth->0);
    }
}

/// A dependency path starting inside a dependency-closed set of nodes
/// stays inside it.
pub proof fn lemma_path_stays(g: Map<Seq<char>, DepNodeView>, p: Seq<Seq<char>>, d: Set<Seq<char>>)
    requires
        is_dep_path(g, p),
        d.contains(p.first()),
        forall|m: Seq<char>| #[trigger] d.contains(m) && g.contains_key(m)
            ==> g[m].dependencies.subset_of(d),
    ensures
        d.contains(p.last()),
    decreases p.len(),
{
    if p.len() > 1 {
        assert(g[p[0]].dependencies.contains(p[1]));
        assert(d.contains(p[1]));
        let q = p.drop_first();
        assert(forall|i: int| 0 <= i < q.len() ==> q[i] == p[i + 1]);
        assert(is_dep_path(g, q));
        lemma_path_stays(g, q, d);
    }
}

/// The smaller of a candidate depth and a possibly-absent recorded depth
/// (absence poses no constraint).
pub open spec fn min_depth(depth: Option<int>, cand: int) -> int {
    match depth {
        Some(d) => if cand < d {
            cand
        } else {
            d
        },
        None => cand,
    }
}

/// The map `g` after recording the edge `from -> on`: `on` joins `from`'s
/// dependencies, `from` joins `on`'s dependents, and `on`'s depth becomes
/// the smaller of its old depth and `from`'s depth plus one.  Meaningful
/// when both names are present and `from` has a depth.
pub open spec fn spec_add_edge(
    g: Map<Seq<char>, DepNodeView>,
    from: Seq<char>,
    on: Seq<char>,
) -> Map<Seq<char>, DepNodeView> {
    match g[from].depth {
        Some(fd) => {
            let o = g[on];
            let f = g[from];
            g.insert(
                on,
                DepNodeView {
                    dependents: o.dependents.insert(from),
                    depth: Some(min_depth(o.depth, fd + 1)),
                    ..o
                },
            ).insert(from, DepNodeView { dependencies: f.dependencies.insert(on), ..f })
        },
        None => g,
    }
}

/// Whether some node of `s` is named `k`.
spec fn contains_name_seq(s: Seq<DepNode>, k: Seq<char>) -> bool {
    exists|i: int| 0 <= i < s.len() && s[i].name@ == k
}

/// The index of the node of `s` named `k` (unique under distinctness).
spec fn idx_of(s: Seq<DepNode>, k: Seq<char>) -> int {
    choose|i: int| 0 <= i < s.len() && s[i].name@ == k
}

/// No two nodes of `s` share a name.
spec fn distinct_names(s: Seq<DepNode>) -> bool {
    forall|i: int, j: int| 0 <= i < j < s.len() ==> s[i].name@ != s[j].name@
}

/// The name-to-node map that a node sequence denotes.
spec fn graph_map(s: Seq<DepNode>) -> Map<Seq<char>, DepNodeView> {
    Map::new(|k: Seq<char>| contains_name_seq(s, k), |k: Seq<char>| s[idx_of(s, k)]@)
}

/// Under distinct names, the node at index `i` is what the map holds at
/// its name.
proof fn lemma_gm_index(s: Seq<DepNode>, i: int)
    requires
        distinct_names(s),
        0 <= i < s.len(),
    ensures
        graph_map(s).contains_key(s[i].name@),
        graph_map(s)[s[i].name@] == s[i]@,
        idx_of(s, s[i].name@) == i,
{
    assert(contains_name_seq(s, s[i].name@));
    let j = idx_of(s, s[i].name@);
    assert(0 <= j < s.len() && s[j].name@ == s[i].name@);
    if i != j {
        assert(false);
    }
}

/// Appending a node with a fresh name inserts it into the map.
proof fn lemma_gm_push(s: Seq<DepNode>, n: DepNode)
    requires
        distinct_names(s),
        !contains_name_seq(s, n.name@),
    ensures
        distinct_names(s.push(n)),
        graph_map(s.push(n)) =~= graph_map(s).insert(n.name@, n@),
{
    let s2 = s.push(n);
    assert(forall|i: int| 0 <= i < s.len() ==> s2[i] == s[i]);
    assert(s2[s.len() as int] == n);
    assert forall|i: int, j: int| 0 <= i < j < s2.len() implies s2[i].name@ != s2[j].name@ by {
        if j < s.len() {
        } else {
            assert(s2[i] == s[i]);
            assert(!(s[i].name@ == n.name@)) by {
                if s[i].name@ == n.name@ {
                    assert(contains_name_seq(s, n.name@));
                }
            }
        }
    }
    assert forall|k: Seq<char>| #[trigger] graph_map(s2).contains_key(k) == graph_map(s).insert(
        n.name@,
        n@,
    ).contains_key(k) by {
        if k == n.name@ {
            assert(s2[s.len() as int].name@ == k);
            assert(contains_name_seq(s2, k));
        } else {
            if contains_name_seq(s2, k) {
                let i = choose|i: int| 0 <= i < s2.len() && s2[i].name@ == k;
                assert(i < s.len());
                assert(contains_name_seq(s, k));
            }
            if contains_name_seq(s, k) {
                let i = choose|i: int| 0 <= i < s.len() && s[i].name@ == k;
                assert(s2[i].name@ == k);
                assert(contains_name_seq(s2, k));
            }
        }
    }
    assert forall|k: Seq<char>| graph_map(s2).contains_key(k) implies #[trigger] graph_map(s2)[k]
        == graph_map(s).insert(n.name@, n@)[k] by {
        if k == n.name@ {
            lemma_gm_index(s2, s.len() as int);
        } else {
            let i = choose|i: int| 0 <= i < s.len() && s[i].name@ == k;
            lemma_gm_index(s, i);
            lemma_gm_index(s2, i);
        }
    }
}

/// Replacing the node at `i` by one with the same name updates the map at
/// that name only.
proof fn lemma_gm_update(s: Seq<DepNode>, i: int, n: DepNode)
    requires
        distinct_names(s),
        0 <= i < s.len(),
        n.name@ == s[i].name@,
    ensures
        distinct_names(s.update(i, n)),
        graph_map(s.update(i, n)) =~= graph_map(s).insert(n.name@, n@),
{
    let s2 = s.update(i, n);
    assert(forall|j: int| 0 <= j < s.len() && j != i ==> s2[j] == s[j]);
    assert(s2[i] == n);
    assert(forall|j: int| 0 <= j < s2.len() ==> s2[j].name@ == s[j].name@);
    assert forall|k: Seq<char>| #[trigger] graph_map(s2).contains_key(k) == graph_map(s).insert(
        n.name@,
        n@,
    ).contains_key(k) by {
        if contains_name_seq(s2, k) {
            let j = choose|j: int| 0 <= j < s2.len() && s2[j].name@ == k;
            assert(s[j].name@ == k);
        }
        if contains_name_seq(s, k) {
            let j = choose|j: int| 0 <= j < s.len() && s[j].name@ == k;
            assert(s2[j].name@ == k);
        }
    }
    assert forall|k: Seq<char>| graph_map(s2).contains_key(k) implies #[trigger] graph_map(s2)[k]
        == graph_map(s).insert(n.name@, n@)[k] by {
        if k == n.name@ {
            lemma_gm_index(s2, i);
        } else {
            let j = choose|j: int| 0 <= j < s.len() && s[j].name@ == k;
            assert(j != i);
            lemma_gm_index(s, j);
            lemma_gm_index(s2, j);
        }
    }
}

/// The map's domain is the (finite) set of node names.
proof fn lemma_gm_dom(s: Seq<DepNode>)
    requires
        distinct_names(s),
    ensures
        graph_map(s).dom() =~= s.map_values(|n: DepNode| n.name@).to_set(),
        graph_map(s).dom().finite(),
        graph_map(s).dom().len() == s.len(),
{
    let names = s.map_values(|n: DepNode| n.name@);
    assert forall|k: Seq<char>| #[trigger] graph_map(s).dom().contains(k)
        == names.to_set().contains(k) by {
        if contains_name_seq(s, k) {
            let i = choose|i: int| 0 <= i < s.len() && s[i].name@ == k;
            assert(names[i] == k);
        }
        if names.to_set().contains(k) {
            let i = choose|i: int| 0 <= i < names.len() && names[i] == k;
            assert(s[i].name@ == k);
        }
    }
    assert(names.no_duplicates());
    names.unique_seq_to_set();
}

/// Validity of an entire graph, stated over its ghost map: every node is
/// keyed by its own name, holds its descriptor's name, records only
/// non-negative depths.
pub open spec fn view_wf(g: Map<Seq<char>, DepNodeView>) -> bool {
    &&& g.dom().finite()
    &&& forall|k: Seq<char>| #[trigger] g.contains_key(k) ==> {
        &&& g[k].name == k
        &&& g[k].module_spec.name == k
        &&& (g[k].depth matches Some(d) ==> d >= 0)
        &&& g[k].dependencies.finite()
        &&& g[k].dependents.finite()
    }
}

/// No edge of `g` mentions a name absent from `g`.
pub open spec fn edge_consistent(g: Map<Seq<char>, DepNodeView>) -> bool {
    forall|k: Seq<char>| #[trigger] g.contains_key(k) ==> g[k].dependencies.subset_of(g.dom())
        && g[k].dependents.subset_of(g.dom())
}

/// A directed dependency graph, mapping dotted names to owned nodes.
pub struct DepGraph {
    nodes: Vec<DepNode>,
}

impl View for DepGraph {
    type V = Map<Seq<char>, DepNodeView>;

    closed spec fn view(&self) -> Map<Seq<char>, DepNodeView> {
        graph_map(self.nodes@)
    }
}

impl DepGraph {
    /// Internal validity: node names are pairwise distinct and every node
    /// is itself valid.
    pub closed spec fn wf(&self) -> bool {
        &&& distinct_names(self.nodes@)
        &&& forall|i: int| 0 <= i < self.nodes@.len() ==> (#[trigger] self.nodes@[i]).wf()
    }

    /// A valid graph denotes a valid map.
    pub proof fn lemma_view_wf(&self)
        requires
            self.wf(),
        ensures
            view_wf(self@),
    {
        lemma_gm_dom(self.nodes@);
        assert forall|k: Seq<char>| #[trigger] self@.contains_key(k) implies {
            &&& self@[k].name == k
            &&& self@[k].module_spec.name == k
            &&& (self@[k].depth matches Some(d) ==> d >= 0)
            &&& self@[k].dependencies.finite()
            &&& self@[k].dependents.finite()
        } by {
            let i = choose|i: int| 0 <= i < self.nodes@.len() && self.nodes@[i].name@ == k;
            lemma_gm_index(self.nodes@, i);
            assert(self.nodes@[i].wf());
        }
    }

    /// An empty graph.
    pub fn new() -> (r: DepGraph)
        ensures
            r.wf(),
            r@ =~= Map::<Seq<char>, DepNodeView>::empty(),
    {
        let r = DepGraph { nodes: Vec::new() };
        proof {
            assert forall|k: Seq<char>| !(#[trigger] r@.contains_key(k)) by {
                assert(!contains_name_seq(r.nodes@, k));
            }
            assert(r@ =~= Map::<Seq<char>, DepNodeView>::empty());
        }
        r
    }

    /// The index of the node named `name`, if present.
    fn find_index(&self, name: &str) -> (r: Option<usize>)
        requires
            self.wf(),
        ensures
            match r {
                Some(i) => i < self.nodes@.len() && self.nodes@[i as int].name@ == name@
                    && self@.contains_key(name@),
                None => !self@.contains_key(name@),
            },
    {
        let n = self.nodes.len();
        let mut i: usize = 0;
        while i < n
            invariant
                0 <= i <= n,
                n == self.nodes@.len(),
                self.wf(),
                forall|j: int| 0 <= j < i ==> self.nodes@[j].name@ != name@,
            decreases n - i,
        {
            if str_eq(self.nodes[i].name.as_str(), name) {
                proof {
                    lemma_gm_index(self.nodes@, i as int);
                }
                return Some(i);
            }
            i += 1;
        }
        proof {
            assert(!contains_name_seq(self.nodes@, name@));
        }
        None
    }

    /// Whether a node named `name` is present.
    pub fn has_node(&self, name: &str) -> (r: bool)
        requires
            self.wf(),
        ensures
            r == self@.contains_key(name@),
    {
        self.find_index(name).is_some()
    }

    /// The number of nodes.
    pub fn size(&self) -> (r: usize)
        requires
            self.wf(),
        ensures
            r == self@.dom().len(),
            self@.dom().finite(),
    {
        proof {
            lemma_gm_dom(self.nodes@);
        }
        self.nodes.len()
    }

    /// Adds `node` under its name; a second node of the same name is
    /// refused.
    pub fn add(&mut self, node: DepNode) -> (r: Result<(), GraphError>)
        requires
            old(self).wf(),
            node.wf(),
        ensures
            final(self).wf(),
            match r {
                Ok(()) => !old(self)@.contains_key(node@.name) && final(self)@ == old(
                    self,
                )@.insert(node@.name, node@),
                Err(GraphError::DuplicateNode(n)) => n@ == node@.name && old(self)@.contains_key(
                    node@.name,
                ) && *final(self) == *old(self),
                Err(_) => false,
            },
    {
        proof {
            assert(node@.name == node.name@);
        }
        match self.find_index(node.name.as_str()) {
            Some(_) => Err(GraphError::DuplicateNode(node.name.clone())),
            None => {
                proof {
                    lemma_gm_push(self.nodes@, node);
                }
                self.nodes.push(node);
                Ok(())
            },
        }
    }

    /// Records the edge `from -> on`: `on` joins `from`'s dependencies,
    /// `from` joins `on`'s dependents, and `on`'s depth is lowered to
    /// `from`'s depth plus one if that is shorter or `on` had none.
    ///
    /// Both nodes must be present and `from` must already have a depth;
    /// otherwise the graph is left untouched and the offending name is
    /// reported.  `DepthOverflow` marks the machine limit of the depth
    /// counter, unreachable for any graph that fits in memory.
    pub fn add_dependency(&mut self, from: &str, on: &str) -> (r: Result<(), GraphError>)
        requires
            old(self).wf(),
            from@ != on@,
        ensures
            final(self).wf(),
            final(self)@.dom() == old(self)@.dom(),
            match r {
                Ok(()) => {
                    &&& old(self)@.contains_key(from@)
                    &&& old(self)@.contains_key(on@)
                    &&& old(self)@[from@].depth matches Some(d) && d < i32::MAX
                    &&& final(self)@ == spec_add_edge(old(self)@, from@, on@)
                },
                Err(GraphError::UnknownNode(n)) => {
                    &&& !old(self)@.contains_key(from@) || !old(self)@.contains_key(on@)
                    &&& n@ == if !old(self)@.contains_key(from@) {
                        from@
                    } else {
                        on@
                    }
                    &&& *final(self) == *old(self)
                },
                Err(GraphError::UninitializedDepth(n)) => {
                    &&& old(self)@.contains_key(from@)
                    &&& old(self)@.contains_key(on@)
                    &&& old(self)@[from@].depth is None
                    &&& n@ == from@
                    &&& *final(self) == *old(self)
                },
                Err(GraphError::DepthOverflow(n)) => {
                    &&& old(self)@.contains_key(from@)
                    &&& old(self)@.contains_key(on@)
                    &&& old(self)@[from@].depth == Some(i32::MAX as int)
                    &&& n@ == from@
                    &&& *final(self) == *old(self)
                },
                Err(_) => false,
            },
    {
        let fi = match self.find_index(from) {
            Some(i) => i,
            None => {
                return Err(GraphError::UnknownNode(from.to_owned()));
            },
        };
        let oi = match self.find_index(on) {
            Some(i) => i,
            None => {
                return Err(GraphError::UnknownNode(on.to_owned()));
            },
        };
        proof {
            lemma_gm_index(self.nodes@, fi as int);
            lemma_gm_index(self.nodes@, oi as int);
            assert(fi != oi);
        }
        let fd = match self.nodes[fi].depth {
            Some(d) => d,
            None => {
                return Err(GraphError::UninitializedDepth(from.to_owned()));
            },
        };
        if fd == i32::MAX {
            return Err(GraphError::DepthOverflow(from.to_owned()));
        }
        let cand = fd + 1;
        self.nodes[oi].push_dependent(from);
        self.nodes[oi].lower_depth(cand);
        proof {
            let o = old(self)@[on@];
            let o2 = DepNodeView {
                dependents: o.dependents.insert(from@),
                depth: Some(min_depth(o.depth, fd + 1)),
                ..o
            };
            assert(self.nodes@[oi as int]@ =~= o2);
            lemma_gm_update(old(self).nodes@, oi as int, self.nodes@[oi as int]);
            assert(self.nodes@ == old(self).nodes@.update(oi as int, self.nodes@[oi as int]));
            assert(graph_map(self.nodes@) =~= old(self)@.insert(on@, o2));
        }
        let ghost mid = self.nodes@;
        self.nodes[fi].push_dependency(on);
        proof {
            let g0 = old(self)@;
            let f = g0[from@];
            let f2 = DepNodeView { dependencies: f.dependencies.insert(on@), ..f };
            assert(mid[fi as int] == old(self).nodes@[fi as int]);
            assert(self.nodes@[fi as int]@ =~= f2);
            lemma_gm_update(mid, fi as int, self.nodes@[fi as int]);
            assert(self.nodes@ == mid.update(fi as int, self.nodes@[fi as int]));
            assert(graph_map(self.nodes@) =~= spec_add_edge(g0, from@, on@));
            assert(self@.dom() =~= old(self)@.dom());
        }
        Ok(())
    }

    /// Merges every node of `other` into this graph: a name already
    /// present has its edge sets unioned and the smaller depth kept, a new
    /// name is inserted as given.  If any shared name carries two
    /// different recorded origins the graphs describe different worlds:
    /// nothing is merged and the name is reported.
    pub fn merge(&mut self, other: DepGraph) -> (r: Result<(), GraphError>)
        requires
            old(self).wf(),
            other.wf(),
        ensures
            final(self).wf(),
            match r {
                Ok(()) => !merge_conflict(old(self)@, other@) && final(self)@ == spec_merge(
                    old(self)@,
                    other@,
                ),
                Err(GraphError::MergeIdentityConflict(n)) => {
                    &&& merge_conflict(old(self)@, other@)
                    &&& old(self)@.contains_key(n@) && other@.contains_key(n@) && origin_conflict(
                        old(self)@[n@],
                        other@[n@],
                    )
                    &&& *final(self) == *old(self)
                },
                Err(_) => false,
            },
    {
        let n = other.nodes.len();
        let mut i: usize = 0;
        while i < n
            invariant
                0 <= i <= n,
                n == other.nodes@.len(),
                *self == *old(self),
                self.wf(),
                other.wf(),
                forall|j: int| 0 <= j < i ==> !origin_conflict_at(self@, other.nodes@[j]),
            decreases n - i,
        {
            proof {
                lemma_gm_index(other.nodes@, i as int);
            }
            match self.find_index(other.nodes[i].name.as_str()) {
                Some(j) => {
                    proof {
                        lemma_gm_index(self.nodes@, j as int);
                    }
                    let conflict = match (
                        &self.nodes[j].module_spec.origin,
                        &other.nodes[i].module_spec.origin,
                    ) {
                        (Some(x), Some(y)) => !str_eq(x.as_str(), y.as_str()),
                        _ => false,
                    };
                    if conflict {
                        return Err(GraphError::MergeIdentityConflict(other.nodes[i].name.clone()));
                    }
                },
                None => {},
            }
            i += 1;
        }
        proof {
            assert(!merge_conflict(self@, other@)) by {
                if merge_conflict(self@, other@) {
                    let k = choose|k: Seq<char>|
                        self@.contains_key(k) && other@.contains_key(k) && origin_conflict(
                            self@[k],
                            other@[k],
                        );
                    let j = idx_of(other.nodes@, k);
                    assert(0 <= j < other.nodes@.len() && other.nodes@[j].name@ == k);
                    lemma_gm_index(other.nodes@, j);
                    assert(origin_conflict_at(self@, other.nodes@[j]));
                }
            }
        }
        let ghost g0 = self@;
        let mut i2: usize = 0;
        while i2 < n
            invariant
                0 <= i2 <= n,
                n == other.nodes@.len(),
                self.wf(),
                other.wf(),
                self@ == merge_seq(g0, other.nodes@.take(i2 as int)),
            decreases n - i2,
        {
            proof {
                lemma_gm_index(other.nodes@, i2 as int);
                assert(other.nodes@.take(i2 + 1).drop_last() =~= other.nodes@.take(i2 as int));
                assert(other.nodes@.take(i2 + 1).last() == other.nodes@[i2 as int]);
            }
            let node = other.nodes[i2].duplicate();
            match self.find_index(node.name.as_str()) {
                Some(j) => {
                    proof {
                        lemma_gm_index(self.nodes@, j as int);
                    }
                    let ghost pre = self.nodes@;
                    self.nodes[j].merge_from(node);
                    proof {
                        lemma_gm_update(pre, j as int, self.nodes@[j as int]);
                        assert(self.nodes@ == pre.update(j as int, self.nodes@[j as int]));
                        assert(self@ =~= merge_one(
                            merge_seq(g0, other.nodes@.take(i2 as int)),
                            other.nodes@[i2 as int],
                        ));
                    }
                },
                None => {
                    proof {
                        lemma_gm_push(self.nodes@, node);
                    }
                    self.nodes.push(node);
                    proof {
                        assert(self@ =~= merge_one(
                            merge_seq(g0, other.nodes@.take(i2 as int)),
                            other.nodes@[i2 as int],
                        ));
                    }
                },
            }
            i2 += 1;
        }
        proof {
            assert(other.nodes@.take(n as int) =~= other.nodes@);
            lemma_merge_seq_full(g0, other.nodes@);
        }
        Ok(())
    }

    /// The names of all nodes, each exactly once.
    pub fn names(&self) -> (r: Vec<String>)
        requires
            self.wf(),
        ensures
            r.deep_view().to_set() == self@.dom(),
            r.deep_view().no_duplicates(),
            r@.len() == self@.dom().len(),
    {
        let n = self.nodes.len();
        let mut r: Vec<String> = Vec::new();
        let mut i: usize = 0;
        while i < n
            invariant
                0 <= i <= n,
                n == self.nodes@.len(),
                self.wf(),
                r.deep_view() =~= self.nodes@.map_values(|nd: DepNode| nd.name@).take(i as int),
            decreases n - i,
        {
            let ghost rpre = r.deep_view();
            r.push(self.nodes[i].name.clone());
            proof {
                let names = self.nodes@.map_values(|nd: DepNode| nd.name@);
                assert(r.deep_view() =~= rpre.push(self.nodes@[i as int].name@));
                assert(r.deep_view() =~= names.take(i + 1));
            }
            i += 1;
        }
        proof {
            let names = self.nodes@.map_values(|nd: DepNode| nd.name@);
            assert(r.deep_view() =~= names);
            lemma_gm_dom(self.nodes@);
            assert(r.deep_view().to_set() =~= self@.dom());
            assert(names.no_duplicates());
        }
        r
    }

    /// The independent subgraph of everything reachable from `name` along
    /// dependency edges.  Nodes are copied with their dependency lists,
    /// descriptors and depths intact; a dependent naming a node outside
    /// the extracted set is dropped, so the result contains no edge
    /// pointing out of itself.
    pub fn clone_from(&self, name: &str) -> (r: Result<DepGraph, GraphError>)
        requires
            self.wf(),
            edge_consistent(self@),
        ensures
            match r {
                Ok(g) => {
                    &&& self@.contains_key(name@)
                    &&& g.wf()
                    &&& edge_consistent(g@)
                    &&& g@.contains_key(name@)
                    &&& forall|k: Seq<char>| #[trigger] g@.contains_key(k) <==> reaches(
                        self@,
                        name@,
                        k,
                    )
                    &&& forall|k: Seq<char>| #[trigger] g@.contains_key(k) ==> {
                        &&& self@.contains_key(k)
                        &&& g@[k].dependencies == self@[k].dependencies
                        &&& g@[k].dependents == self@[k].dependents.intersect(g@.dom())
                        &&& g@[k].depth == self@[k].depth
                        &&& g@[k].module_spec == self@[k].module_spec
                        &&& g@[k].name == k
                    }
                },
                Err(GraphError::UnknownNode(m)) => m@ == name@ && !self@.contains_key(name@),
                Err(_) => false,
            },
    {
        if !self.has_node(name) {
            return Err(GraphError::UnknownNode(name.to_owned()));
        }
        proof {
            self.lemma_view_wf();
            lemma_reaches_refl(self@, name@);
        }
        let mut clone = DepGraph::new();
        let mut to_clone: Vec<String> = Vec::new();
        to_clone.push(name.to_owned());
        proof {
            assert(to_clone.deep_view()[0] == name@);
            assert(to_clone.deep_view().to_set().contains(name@));
        }
        while to_clone.len() > 0
            invariant
                self.wf(),
                edge_consistent(self@),
                self@.dom().finite(),
                clone.wf(),
                clone@.dom().finite(),
                clone@.dom().len() <= self@.dom().len(),
                forall|k: Seq<char>| #[trigger] clone@.contains_key(k) ==> self@.contains_key(k)
                    && clone@[k] == self@[k] && reaches(self@, name@, k),
                forall|j: int| 0 <= j < to_clone.deep_view().len() ==> self@.contains_key(
                    #[trigger] to_clone.deep_view()[j],
                ) && reaches(self@, name@, to_clone.deep_view()[j]),
                forall|k: Seq<char>| #[trigger] clone@.contains_key(k)
                    ==> clone@[k].dependencies.subset_of(
                    clone@.dom().union(to_clone.deep_view().to_set()),
                ),
                clone@.contains_key(name@) || to_clone.deep_view().to_set().contains(name@),
            decreases self@.dom().len() - clone@.dom().len(), to_clone@.len(),
        {
            let ghost tv_pre = to_clone.deep_view();
            let nm = match to_clone.pop() {
                Some(s) => s,
                None => vstd::pervasive::unreached(),
            };
            proof {
                assert(to_clone.deep_view() =~= tv_pre.drop_last());
                assert(nm@ == tv_pre.last());
                assert(tv_pre.drop_last().push(tv_pre.last()) =~= tv_pre);
                tv_pre.drop_last().lemma_push_to_set_commute(tv_pre.last());
            }
            if !clone.has_node(nm.as_str()) {
                let node = match self.get(nm.as_str()) {
                    Ok(n) => n,
                    Err(_) => vstd::pervasive::unreached(),
                };
                let deps = node.dependency_names();
                let ghost cpre = clone@;
                match clone.add(node) {
                    Ok(()) => {},
                    Err(_) => vstd::pervasive::unreached(),
                }
                proof {
                    assert(clone@.dom().subset_of(self@.dom())) by {
                        assert forall|k: Seq<char>| #[trigger] clone@.dom().contains(k)
                            implies self@.dom().contains(k) by {}
                    }
                    vstd::set_lib::lemma_len_subset(clone@.dom(), self@.dom());
                }
                let ghost tv_mid = to_clone.deep_view();
                let mut di: usize = 0;
                while di < deps.len()
                    invariant
                        0 <= di <= deps@.len(),
                        to_clone.deep_view() =~= tv_mid + deps.deep_view().take(di as int),
                    decreases deps@.len() - di,
                {
                    let ghost tv_cur = to_clone.deep_view();
                    to_clone.push(deps[di].clone());
                    proof {
                        assert(to_clone.deep_view() =~= tv_cur.push(deps.deep_view()[di as int]));
                        assert(to_clone.deep_view() =~= tv_mid + deps.deep_view().take(di + 1));
                    }
                    di += 1;
                }
                proof {
                    let tv_new = to_clone.deep_view();
                    let dset = deps.deep_view().to_set();
                    assert(deps.deep_view().take(deps@.len() as int) =~= deps.deep_view());
                    assert(tv_new =~= tv_mid + deps.deep_view());
                    assert(tv_new.to_set() =~= tv_mid.to_set().union(dset)) by {
                        assert forall|x: Seq<char>| #[trigger] tv_new.to_set().contains(x)
                            == tv_mid.to_set().union(dset).contains(x) by {
                            if tv_new.to_set().contains(x) {
                                let j = choose|j: int| 0 <= j < tv_new.len() && tv_new[j] == x;
                                if j < tv_mid.len() {
                                    assert(tv_mid[j] == x);
                                } else {
                                    assert(deps.deep_view()[j - tv_mid.len()] == x);
                                }
                            }
                            if tv_mid.to_set().contains(x) {
                                let j = choose|j: int| 0 <= j < tv_mid.len() && tv_mid[j] == x;
                                assert(tv_new[j] == x);
                            }
                            if dset.contains(x) {
                                let j = choose|j: int|
                                    0 <= j < deps.deep_view().len() && deps.deep_view()[j] == x;
                                assert(tv_new[tv_mid.len() + j] == x);
                            }
                        }
                    }
                    // every worklist entry is present and reachable
                    assert forall|j: int| 0 <= j < tv_new.len() implies self@.contains_key(
                        #[trigger] tv_new[j],
                    ) && reaches(self@, name@, tv_new[j]) by {
                        if j < tv_mid.len() {
                            assert(tv_pre[j] == tv_new[j]);
                        } else {
                            let d = tv_new[j];
                            assert(dset.contains(d));
                            assert(self@[nm@].dependencies.contains(d));
                            assert(self@.contains_key(d));
                            lemma_reaches_step(self@, name@, nm@, d);
                        }
                    }
                    // dependency closure modulo the worklist
                    assert forall|k: Seq<char>| #[trigger] clone@.contains_key(k)
                        implies clone@[k].dependencies.subset_of(
                        clone@.dom().union(tv_new.to_set()),
                    ) by {
                        if k == nm@ {
                            assert(clone@[k].dependencies =~= dset);
                            assert(dset.subset_of(tv_new.to_set()));
                        } else {
                            assert(cpre.contains_key(k));
                            assert(cpre[k].dependencies.subset_of(
                                cpre.dom().union(tv_pre.to_set()),
                            ));
                            assert forall|d: Seq<char>| #[trigger] clone@[k].dependencies.contains(
                                d,
                            ) implies clone@.dom().union(tv_new.to_set()).contains(d) by {
                                if cpre.dom().contains(d) {
                                } else {
                                    assert(tv_pre.to_set().contains(d));
                                    if d == nm@ {
                                        assert(clone@.dom().contains(d));
                                    } else {
                                        assert(tv_mid.to_set().contains(d));
                                    }
                                }
                            }
                        }
                    }
                }
            } else {
                proof {
                    let tv_new = to_clone.deep_view();
                    assert forall|k: Seq<char>| #[trigger] clone@.contains_key(k)
                        implies clone@[k].dependencies.subset_of(
                        clone@.dom().union(tv_new.to_set()),
                    ) by {
                        assert forall|d: Seq<char>| #[trigger] clone@[k].dependencies.contains(d)
                            implies clone@.dom().union(tv_new.to_set()).contains(d) by {
                            if !clone@.dom().contains(d) {
                                assert(tv_pre.to_set().contains(d));
                                if d == nm@ {
                                    assert(clone@.dom().contains(d));
                                }
                            }
                        }
                    }
                }
            }
        }
        // the worklist is drained: the clone is dependency-closed and
        // holds exactly what is reachable
        proof {
            assert(to_clone.deep_view().to_set() =~= Set::<Seq<char>>::empty()) by {
                assert(to_clone.deep_view().len() == 0);
            }
            assert(clone@.contains_key(name@));
            assert forall|k: Seq<char>| reaches(self@, name@, k) implies #[trigger] clone@.contains_key(k) by {
                let p = choose|p: Seq<Seq<char>>|
                    is_dep_path(self@, p) && p.first() == name@ && p.last() == k;
                assert forall|m: Seq<char>| #[trigger] clone@.dom().contains(m) && self@.contains_key(
                    m,
                ) implies self@[m].dependencies.subset_of(clone@.dom()) by {
                    assert(clone@[m].dependencies.subset_of(
                        clone@.dom().union(to_clone.deep_view().to_set()),
                    ));
                    assert(clone@[m].dependencies == self@[m].dependencies);
                    assert forall|d: Seq<char>| #[trigger] self@[m].dependencies.contains(d)
                        implies clone@.dom().contains(d) by {}
                }
                lemma_path_stays(self@, p, clone@.dom());
            }
        }
        let ghost cmid = clone@;
        let ghost s0 = clone.nodes@;
        let allowed = clone.names();
        let n2 = clone.nodes.len();
        let mut fi: usize = 0;
        while fi < n2
            invariant
                0 <= fi <= n2,
                n2 == clone.nodes@.len(),
                clone.nodes@.len() == s0.len(),
                distinct_names(s0),
                graph_map(s0) == cmid,
                allowed.deep_view().to_set() == cmid.dom(),
                clone.wf(),
                forall|j: int| 0 <= j < s0.len() ==> (#[trigger] clone.nodes@[j]).name@
                    == s0[j].name@,
                forall|j: int| fi <= j < s0.len() ==> #[trigger] clone.nodes@[j] == s0[j],
                forall|j: int| 0 <= j < fi ==> (#[trigger] clone.nodes@[j])@ == (DepNodeView {
                    dependents: s0[j]@.dependents.intersect(cmid.dom()),
                    ..s0[j]@
                }),
            decreases n2 - fi,
        {
            clone.nodes[fi].retain_dependents(&allowed);
            fi += 1;
        }
        proof {
            // the filtered nodes denote the filtered map
            assert forall|k: Seq<char>| #[trigger] clone@.contains_key(k) == cmid.contains_key(
                k,
            ) by {
                if contains_name_seq(clone.nodes@, k) {
                    let i = choose|i: int|
                        0 <= i < clone.nodes@.len() && clone.nodes@[i].name@ == k;
                    assert(s0[i].name@ == k);
                    lemma_gm_index(s0, i);
                }
                if contains_name_seq(s0, k) {
                    let i = choose|i: int| 0 <= i < s0.len() && s0[i].name@ == k;
                    assert(clone.nodes@[i].name@ == k);
                }
            }
            assert forall|k: Seq<char>| #[trigger] clone@.contains_key(k) implies clone@[k]
                == (DepNodeView {
                dependents: cmid[k].dependents.intersect(cmid.dom()),
                ..cmid[k]
            }) by {
                let i = idx_of(s0, k);
                assert(0 <= i < s0.len() && s0[i].name@ == k) by {
                    assert(contains_name_seq(s0, k));
                }
                lemma_gm_index(s0, i);
                assert(distinct_names(clone.nodes@));
                lemma_gm_index(clone.nodes@, i);
            }
            assert(clone@.dom() =~= cmid.dom());
        }
        Ok(clone)
    }

    /// Splices `graph` into this one at the edge `from -> on`.
    ///
    /// Every depth inside `graph` is first cleared (they were relative to
    /// another root) and reassigned by a traversal seeded at `on` with
    /// `from`'s depth plus one; each node visited keeps the counter value
    /// of its first visit.  The reassigned subgraph is then merged in and
    /// the edge `from -> on` recorded.
    pub fn add_graph(&mut self, from: &str, on: &str, graph: DepGraph) -> (r: Result<
        (),
        GraphError,
    >)
        requires
            old(self).wf(),
            graph.wf(),
            edge_consistent(graph@),
            from@ != on@,
        ensures
            final(self).wf(),
            match r {
                Ok(()) => {
                    &&& old(self)@.contains_key(from@)
                    &&& graph@.contains_key(on@)
                    &&& spliced_ok(old(self)@, graph@, final(self)@, from@, on@)
                },
                Err(GraphError::UnknownNode(n)) => {
                    &&& *final(self) == *old(self)
                    &&& (n@ == from@ && !old(self)@.contains_key(from@)) || (n@ == on@ && old(
                        self,
                    )@.contains_key(from@) && !graph@.contains_key(on@))
                },
                Err(GraphError::UninitializedDepth(n)) => {
                    &&& *final(self) == *old(self)
                    &&& n@ == from@
                    &&& old(self)@.contains_key(from@)
                    &&& graph@.contains_key(on@)
                    &&& old(self)@[from@].depth is None
                },
                Err(GraphError::DepthOverflow(n)) => {
                    &&& *final(self) == *old(self)
                    &&& n@ == from@
                    &&& old(self)@.contains_key(from@)
                    &&& graph@.contains_key(on@)
                    &&& (old(self)@[from@].depth matches Some(d0) && graph@.dom().len()
                        > i32::MAX - d0)
                },
                Err(GraphError::MergeIdentityConflict(n)) => {
                    &&& *final(self) == *old(self)
                    &&& old(self)@.contains_key(n@)
                    &&& (old(self)@[from@].depth matches Some(d0) && exists|
                        m: Map<Seq<char>, DepNodeView>,
                    |
                        #[trigger] respliced(graph@, m, on@, d0 + 1) && merge_conflict(
                            old(self)@,
                            m,
                        ))
                },
                Err(_) => false,
            },
    {
        let mut graph = graph;
        let ghost garg = graph@;
        let fi = match self.find_index(from) {
            Some(i) => i,
            None => {
                return Err(GraphError::UnknownNode(from.to_owned()));
            },
        };
        proof {
            lemma_gm_index(self.nodes@, fi as int);
        }
        if !graph.has_node(on) {
            return Err(GraphError::UnknownNode(on.to_owned()));
        }
        let d0 = match self.nodes[fi].depth {
            Some(d) => d,
            None => {
                return Err(GraphError::UninitializedDepth(from.to_owned()));
            },
        };
        proof {
            self.lemma_view_wf();
            graph.lemma_view_wf();
            assert(graph@.dom().len() >= 1) by {
                lemma_gm_dom(graph.nodes@);
                assert(graph@.dom().contains(on@));
                if graph@.dom().len() == 0 {
                    assert(graph@.dom() =~= Set::<Seq<char>>::empty());
                }
            }
        }
        let limit = i32::MAX - d0;
        if graph.size() > limit as usize {
            return Err(GraphError::DepthOverflow(from.to_owned()));
        }
        let ghost seed = d0 + 1;
        // clear every depth carried over from the cached graph
        let ghost s0 = graph.nodes@;
        let cn = graph.nodes.len();
        let mut ci: usize = 0;
        while ci < cn
            invariant
                0 <= ci <= cn,
                cn == graph.nodes@.len(),
                graph.nodes@.len() == s0.len(),
                distinct_names(s0),
                graph_map(s0) == garg,
                graph.wf(),
                forall|j: int| 0 <= j < s0.len() ==> (#[trigger] graph.nodes@[j]).name@
                    == s0[j].name@,
                forall|j: int| ci <= j < s0.len() ==> #[trigger] graph.nodes@[j] == s0[j],
                forall|j: int| 0 <= j < ci ==> (#[trigger] graph.nodes@[j])@ == (DepNodeView {
                    depth: None,
                    ..s0[j]@
                }),
            decreases cn - ci,
        {
            graph.nodes[ci].clear_depth();
            ci += 1;
        }
        proof {
            assert forall|k: Seq<char>| #[trigger] graph@.contains_key(k) == garg.contains_key(
                k,
            ) by {
                if contains_name_seq(graph.nodes@, k) {
                    let i = choose|i: int|
                        0 <= i < graph.nodes@.len() && graph.nodes@[i].name@ == k;
                    assert(s0[i].name@ == k);
                }
                if contains_name_seq(s0, k) {
                    let i = choose|i: int| 0 <= i < s0.len() && s0[i].name@ == k;
                    assert(graph.nodes@[i].name@ == k);
                }
            }
            assert forall|k: Seq<char>| #[trigger] graph@.contains_key(k) implies graph@[k]
                == (DepNodeView { depth: None, ..garg[k] }) by {
                let i = idx_of(s0, k);
                assert(0 <= i < s0.len() && s0[i].name@ == k) by {
                    assert(contains_name_seq(s0, k));
                }
                lemma_gm_index(s0, i);
                assert(distinct_names(graph.nodes@));
                lemma_gm_index(graph.nodes@, i);
            }
            assert(graph@.dom() =~= garg.dom());
            assert(count_assigned(graph@) == 0) by {
                assert(graph@.dom().filter(|k: Seq<char>| graph@[k].depth is Some)
                    =~= Set::<Seq<char>>::empty());
            }
        }
        // reassign depths by a traversal from `on`
        let mut current: i64 = d0 as i64 + 1;
        let mut stack: Vec<String> = Vec::new();
        stack.push(on.to_owned());
        proof {
            assert(stack.deep_view() =~= seq![on@]);
        }
        while stack.len() > 0
            invariant
                graph.wf(),
                edge_consistent(garg),
                garg.dom().finite(),
                garg.dom().len() + d0 <= i32::MAX,
                garg.contains_key(on@),
                graph@.dom() == garg.dom(),
                seed == d0 + 1,
                d0 >= 0,
                forall|k: Seq<char>| #[trigger] graph@.contains_key(k) ==> {
                    &&& graph@[k].name == garg[k].name
                    &&& graph@[k].module_spec == garg[k].module_spec
                    &&& graph@[k].dependencies == garg[k].dependencies
                    &&& graph@[k].dependents == garg[k].dependents
                    &&& (graph@[k].depth is None || (graph@[k].depth matches Some(dd) && dd
                        >= seed))
                },
                current == seed + count_assigned(graph@),
                count_assigned(graph@) <= graph@.dom().len(),
                forall|j: int| 0 <= j < stack.deep_view().len() ==> garg.contains_key(
                    #[trigger] stack.deep_view()[j],
                ),
                graph@[on@].depth == Some(seed as int) || (count_assigned(graph@) == 0
                    && stack.deep_view() =~= seq![on@]),
            decreases graph@.dom().len() - count_assigned(graph@), stack@.len(),
        {
            let ghost sv_pre = stack.deep_view();
            let nm = match stack.pop() {
                Some(s) => s,
                None => vstd::pervasive::unreached(),
            };
            proof {
                assert(stack.deep_view() =~= sv_pre.drop_last());
                assert(nm@ == sv_pre.last());
            }
            let ni = match graph.find_index(nm.as_str()) {
                Some(i) => i,
                None => vstd::pervasive::unreached(),
            };
            proof {
                lemma_gm_index(graph.nodes@, ni as int);
            }
            let assigned = graph.nodes[ni].depth.is_some();
            proof {
                if assigned && graph@[on@].depth != Some(seed as int) {
                    let f = graph@.dom().filter(|k: Seq<char>| graph@[k].depth is Some);
                    assert(f.contains(nm@));
                    vstd::set_lib::lemma_len_subset(f, graph@.dom());
                    f.lemma_len0_is_empty();
                    assert(false);
                }
            }
            if !assigned {
                proof {
                    assert(count_assigned(graph@) < graph@.dom().len()) by {
                        let f = graph@.dom().filter(|k: Seq<char>| graph@[k].depth is Some);
                        assert(f.subset_of(graph@.dom()));
                        assert(!f.contains(nm@));
                        vstd::set_lib::lemma_len_subset(f, graph@.dom());
                        if f.len() == graph@.dom().len() {
                            vstd::set_lib::lemma_subset_equality(f, graph@.dom());
                        }
                    }
                    assert(current <= i32::MAX);
                    assert(current >= 1);
                }
                let ghost gpre = graph@;
                let ghost npre = graph.nodes@;
                graph.nodes[ni].set_depth(current as i32);
                proof {
                    lemma_gm_update(npre, ni as int, graph.nodes@[ni as int]);
                    assert(graph.nodes@ == npre.update(ni as int, graph.nodes@[ni as int]));
                    assert(graph@ =~= gpre.insert(
                        nm@,
                        DepNodeView { depth: Some(current as int), ..gpre[nm@] },
                    ));
                    assert(graph@.dom() =~= gpre.dom());
                    let fpre = gpre.dom().filter(|k: Seq<char>| gpre[k].depth is Some);
                    let fpost = graph@.dom().filter(|k: Seq<char>| graph@[k].depth is Some);
                    assert(fpost =~= fpre.insert(nm@));
                    assert(fpre.finite()) by {
                        vstd::set_lib::lemma_len_subset(fpre, gpre.dom());
                    }
                    assert(fpost.len() == fpre.len() + 1);
                }
                let deps = graph.nodes[ni].dependency_names();
                let ghost sv_mid = stack.deep_view();
                let mut di: usize = 0;
                while di < deps.len()
                    invariant
                        0 <= di <= deps@.len(),
                        stack.deep_view() =~= sv_mid + deps.deep_view().take(di as int),
                    decreases deps@.len() - di,
                {
                    let ghost sv_cur = stack.deep_view();
                    stack.push(deps[di].clone());
                    proof {
                        assert(stack.deep_view() =~= sv_cur.push(deps.deep_view()[di as int]));
                        assert(stack.deep_view() =~= sv_mid + deps.deep_view().take(di + 1));
                    }
                    di += 1;
                }
                current = current + 1;
                proof {
                    assert(deps.deep_view().take(deps@.len() as int) =~= deps.deep_view());
                    let sv_new = stack.deep_view();
                    assert forall|j: int| 0 <= j < sv_new.len() implies garg.contains_key(
                        #[trigger] sv_new[j],
                    ) by {
                        if j < sv_mid.len() {
                            assert(sv_pre[j] == sv_new[j]);
                        } else {
                            let dname = deps.deep_view()[j - sv_mid.len()];
                            assert(deps.deep_view().to_set().contains(dname));
                            assert(garg[nm@].dependencies.contains(dname));
                        }
                    }
                    assert(graph@[on@].depth == Some(seed as int)) by {
                        if nm@ == on@ {
                        } else {
                            assert(gpre[on@].depth == Some(seed as int));
                        }
                    }
                }
            }
        }
        let ghost m = graph@;
        proof {
            assert(respliced(garg, m, on@, seed));
        }
        let merged = self.merge(graph);
        match merged {
            Ok(()) => {},
            Err(GraphError::MergeIdentityConflict(n)) => {
                return Err(GraphError::MergeIdentityConflict(n));
            },
            Err(_) => {
                return vstd::pervasive::unreached();
            },
        }
        proof {
            assert(spec_merge(old(self)@, m).contains_key(from@));
            assert(spec_merge(old(self)@, m).contains_key(on@));
            assert(spec_merge(old(self)@, m)[from@].depth matches Some(dd) && dd <= d0) by {
                if m.contains_key(from@) {
                    assert(spec_merge(old(self)@, m)[from@] == merge_node_view(
                        old(self)@[from@],
                        m[from@],
                    ));
                }
            }
        }
        match self.add_dependency(from, on) {
            Ok(()) => {},
            Err(_) => {
                return vstd::pervasive::unreached();
            },
        }
        Ok(())
    }

    /// The set of node names, each exactly once.
    pub fn keys(&self) -> (r: Vec<String>)
        requires
            self.wf(),
        ensures
            r.deep_view().to_set() == self@.dom(),
            r.deep_view().no_duplicates(),
            r@.len() == self@.dom().len(),
    {
        self.names()
    }

    /// The total number of dependency edges, saturating at the machine
    /// limit.
    pub fn num_dependencies(&self) -> (r: usize)
        requires
            self.wf(),
        ensures
            r as int == if view_edge_total(self@) > usize::MAX as int {
                usize::MAX as int
            } else {
                view_edge_total(self@)
            },
    {
        let n = self.nodes.len();
        let mut acc: usize = 0;
        let mut i: usize = 0;
        while i < n
            invariant
                0 <= i <= n,
                n == self.nodes@.len(),
                self.wf(),
                acc as int == if total_dependencies(self.nodes@.take(i as int)) > usize::MAX as int {
                    usize::MAX as int
                } else {
                    total_dependencies(self.nodes@.take(i as int))
                },
            decreases n - i,
        {
            proof {
                lemma_gm_index(self.nodes@, i as int);
                assert(self.nodes@.take(i + 1).drop_last() =~= self.nodes@.take(i as int));
                assert(total_dependencies(self.nodes@.take(i + 1)) == total_dependencies(
                    self.nodes@.take(i as int),
                ) + self.nodes@[i as int]@.dependencies.len());
            }
            let d = self.nodes[i].dependencies();
            if acc > usize::MAX - d {
                acc = usize::MAX;
            } else {
                acc = acc + d;
            }
            i += 1;
        }
        proof {
            assert(self.nodes@.take(n as int) =~= self.nodes@);
            lemma_total_dependencies(self.nodes@);
        }
        acc
    }

    /// Every origin recorded in the graph, one entry per node that
    /// records one; order unspecified.
    pub fn origins(&self) -> (r: Vec<String>)
        requires
            self.wf(),
        ensures
            r.deep_view().to_set() == origin_set(self@),
            r@.len() == origin_count(self@),
            r@.len() <= self@.dom().len(),
    {
        let n = self.nodes.len();
        let mut r: Vec<String> = Vec::new();
        let mut i: usize = 0;
        while i < n
            invariant
                0 <= i <= n,
                n == self.nodes@.len(),
                self.wf(),
                r@.len() == count_origins_seq(self.nodes@.take(i as int)),
                forall|x: Seq<char>| #[trigger] r.deep_view().to_set().contains(x) ==> exists|
                    j: int,
                |
                    0 <= j < i && (#[trigger] self.nodes@[j]).module_spec@.origin == Some(x),
                forall|j: int|
                    0 <= j < i && (#[trigger] self.nodes@[j]).module_spec@.origin is Some
                        ==> r.deep_view().to_set().contains(
                        self.nodes@[j].module_spec@.origin.unwrap(),
                    ),
            decreases n - i,
        {
            let ghost rpre = r.deep_view();
            proof {
                assert(self.nodes@.take(i + 1).drop_last() =~= self.nodes@.take(i as int));
            }
            match &self.nodes[i].module_spec.origin {
                Some(o) => {
                    r.push(o.clone());
                    proof {
                        assert(r.deep_view() =~= rpre.push(o@));
                        rpre.lemma_push_to_set_commute(o@);
                    }
                },
                None => {},
            }
            i += 1;
        }
        proof {
            assert forall|x: Seq<char>| #[trigger] r.deep_view().to_set().contains(x)
                == origin_set(self@).contains(x) by {
                if r.deep_view().to_set().contains(x) {
                    let j = choose|j: int|
                        0 <= j < n && (#[trigger] self.nodes@[j]).module_spec@.origin == Some(x);
                    lemma_gm_index(self.nodes@, j);
                    assert(self@.contains_key(self.nodes@[j].name@) && self@[self.nodes@[j].name@].module_spec.origin
                        == Some(x));
                }
                if origin_set(self@).contains(x) {
                    let k = choose|k: Seq<char>|
                        #[trigger] self@.contains_key(k) && self@[k].module_spec.origin == Some(x);
                    let j = idx_of(self.nodes@, k);
                    assert(0 <= j < self.nodes@.len() && self.nodes@[j].name@ == k) by {
                        assert(contains_name_seq(self.nodes@, k));
                    }
                    lemma_gm_index(self.nodes@, j);
                }
            }
            assert(r.deep_view().to_set() =~= origin_set(self@));
            assert(self.nodes@.take(n as int) =~= self.nodes@);
            lemma_count_origins(self.nodes@);
            lemma_gm_dom(self.nodes@);
            let pred = |k: Seq<char>| self@[k].module_spec.origin is Some;
            vstd::set_lib::lemma_len_subset(self@.dom().filter(pred), self@.dom());
        }
        r
    }

    /// Copies of every node whose name starts with `scope`.
    pub fn get_all_scoped(&self, scope: &str) -> (r: Vec<DepNode>)
        requires
            self.wf(),
        ensures
            forall|i: int| 0 <= i < r@.len() ==> {
                &&& (#[trigger] r@[i]).wf()
                &&& self@.contains_key(r@[i]@.name)
                &&& r@[i]@ == self@[r@[i]@.name]
                &&& crate::names::is_prefix_of(scope@, r@[i]@.name)
            },
            forall|k: Seq<char>| #[trigger] self@.contains_key(k) && crate::names::is_prefix_of(
                scope@,
                k,
            ) ==> exists|i: int| 0 <= i < r@.len() && (#[trigger] r@[i])@.name == k,
            forall|i: int, j: int| 0 <= i < j < r@.len() ==> r@[i]@.name != r@[j]@.name,
    {
        let n = self.nodes.len();
        let mut r: Vec<DepNode> = Vec::new();
        let mut i: usize = 0;
        while i < n
            invariant
                0 <= i <= n,
                n == self.nodes@.len(),
                self.wf(),
                forall|x: int| 0 <= x < r@.len() ==> {
                    &&& (#[trigger] r@[x]).wf()
                    &&& self@.contains_key(r@[x]@.name)
                    &&& r@[x]@ == self@[r@[x]@.name]
                    &&& crate::names::is_prefix_of(scope@, r@[x]@.name)
                },
                forall|j: int|
                    0 <= j < i && crate::names::is_prefix_of(
                        scope@,
                        (#[trigger] self.nodes@[j]).name@,
                    ) ==> exists|x: int| 0 <= x < r@.len() && (#[trigger] r@[x])@.name
                        == self.nodes@[j].name@,
                forall|x: int| 0 <= x < r@.len() ==> exists|j: int|
                    0 <= j < i && (#[trigger] r@[x])@.name == self.nodes@[j].name@,
                forall|x: int, y: int| 0 <= x < y < r@.len() ==> r@[x]@.name != r@[y]@.name,
            decreases n - i,
        {
            if crate::names::str_starts_with(self.nodes[i].name.as_str(), scope) {
                proof {
                    lemma_gm_index(self.nodes@, i as int);
                }
                let ghost rpre = r@;
                r.push(self.nodes[i].duplicate());
                proof {
                    assert(r@[rpre.len() as int]@.name == self.nodes@[i as int].name@);
                    assert(forall|x: int| 0 <= x < rpre.len() ==> r@[x] == rpre[x]);
                    assert forall|x: int, y: int| 0 <= x < y < r@.len() implies r@[x]@.name
                        != r@[y]@.name by {
                        if y == rpre.len() {
                            let j = choose|j: int|
                                0 <= j < i && (#[trigger] rpre[x])@.name == self.nodes@[j].name@;
                            assert(self.nodes@[j].name@ != self.nodes@[i as int].name@);
                        }
                    }
                }
            }
            i += 1;
        }
        proof {
            assert forall|k: Seq<char>| #[trigger] self@.contains_key(k)
                && crate::names::is_prefix_of(scope@, k) implies exists|x: int|
                0 <= x < r@.len() && (#[trigger] r@[x])@.name == k by {
                let j = idx_of(self.nodes@, k);
                assert(0 <= j < self.nodes@.len() && self.nodes@[j].name@ == k) by {
                    assert(contains_name_seq(self.nodes@, k));
                }
            }
        }
        r
    }

    /// Runs `f` on the node named `name`.
    pub fn with<F: Fn(&DepNode)>(self, name: &str, f: F)
        requires
            self.wf(),
            self@.contains_key(name@),
            forall|n: DepNode| n@ == self@[name@] ==> f.requires((&n,)),
    {
        let i = match self.find_index(name) {
            Some(i) => i,
            None => vstd::pervasive::unreached(),
        };
        proof {
            lemma_gm_index(self.nodes@, i as int);
        }
        f(&self.nodes[i]);
    }

    /// An independent copy of the whole graph.
    pub fn duplicate(&self) -> (r: DepGraph)
        requires
            self.wf(),
        ensures
            r.wf(),
            r@ == self@,
    {
        let n = self.nodes.len();
        let mut nodes: Vec<DepNode> = Vec::new();
        let mut i: usize = 0;
        while i < n
            invariant
                0 <= i <= n,
                n == self.nodes@.len(),
                self.wf(),
                nodes@.len() == i,
                forall|j: int| 0 <= j < i ==> (#[trigger] nodes@[j])@ == self.nodes@[j]@
                    && nodes@[j].wf() && nodes@[j].name@ == self.nodes@[j].name@,
            decreases n - i,
        {
            nodes.push(self.nodes[i].duplicate());
            i += 1;
        }
        let r = DepGraph { nodes };
        proof {
            assert forall|k: Seq<char>| #[trigger] r@.contains_key(k) == self@.contains_key(k) by {
                if contains_name_seq(r.nodes@, k) {
                    let j = choose|j: int| 0 <= j < r.nodes@.len() && r.nodes@[j].name@ == k;
                    assert(self.nodes@[j].name@ == k);
                }
                if contains_name_seq(self.nodes@, k) {
                    let j = choose|j: int| 0 <= j < self.nodes@.len() && self.nodes@[j].name@ == k;
                    assert(r.nodes@[j].name@ == k);
                }
            }
            assert forall|k: Seq<char>| #[trigger] r@.contains_key(k) implies r@[k]
                == self@[k] by {
                let j = idx_of(self.nodes@, k);
                assert(0 <= j < self.nodes@.len() && self.nodes@[j].name@ == k) by {
                    assert(contains_name_seq(self.nodes@, k));
                }
                lemma_gm_index(self.nodes@, j);
                assert(distinct_names(r.nodes@));
                lemma_gm_index(r.nodes@, j);
            }
            assert(r@ =~= self@);
        }
        r
    }

    /// A copy of the node named `name`.
    pub fn get(&self, name: &str) -> (r: Result<DepNode, GraphError>)
        requires
            self.wf(),
        ensures
            match r {
                Ok(n) => self@.contains_key(name@) && n@ == self@[name@] && n.wf(),
                Err(GraphError::UnknownNode(m)) => m@ == name@ && !self@.contains_key(name@),
                Err(_) => false,
            },
    {
        match self.find_index(name) {
            Some(i) => {
                proof {
                    lemma_gm_index(self.nodes@, i as int);
                }
                Ok(self.nodes[i].duplicate())
            },
            None => Err(GraphError::UnknownNode(name.to_owned())),
        }
    }
}

} // verus!
