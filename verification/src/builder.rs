//! The graph builder: expands the import statements of a source unit into
//! a dependency graph, consulting external collaborators, and caches
//! finished subgraphs across builds.
//!
//! The collaborators are traits: a [`NameResolver`] mapping a dotted name
//! to its canonical descriptor, a [`SourceLoader`] handing back a module's
//! source text, and a [`StatementParser`] turning source text into import
//! statements.  Their answers depend on the host environment, so nothing
//! is assumed of them: every contract here holds whatever they return.

use vstd::prelude::*;

use crate::errors::{BuildError, GraphError};
use crate::graph::{
    edge_consistent, graph_evolves, lemma_add_edge_consistent, lemma_add_edge_evolves,
    lemma_evolves_trans, lemma_insert_fresh_consistent, lemma_insert_fresh_evolves,
    lemma_merge_consistent, lemma_merge_evolves, lemma_respliced_consistent, respliced,
    spec_add_edge, spec_merge, DepGraph, DepNode, DepNodeView,
};
use crate::import_stmt::ImportStmt;
use crate::module_spec::{ModuleSpec, ModuleSpecView};
use crate::name_resolution::resolve_name;
use crate::names::{find_last_dot, lemma_last_dot_index, str_eq};

verus! {

/// Maps a dotted name to its canonical module descriptor, or reports it
/// unresolvable.  Supplied by the host import system; queried fresh per
/// call, and free to answer differently each time.
pub trait NameResolver {
    fn find_spec(&mut self, name: &str) -> Option<ModuleSpec>;
}

/// Hands back the source text of a module, or nothing when the module is
/// not loadable (built-in and frozen origins, non-source files, read
/// failures).
pub trait SourceLoader {
    fn load_source(&mut self, module_spec: &ModuleSpec) -> Option<String>;
}

/// Turns source text into the ordered sequence of its import statements;
/// `None` marks a parse failure, which is fatal for the build.
pub trait StatementParser {
    fn parse(&mut self, source: &str) -> Option<Vec<ImportStmt>>;
}

/// The name of the synthetic root node standing for the entry source
/// unit, and the parent sentinel marking it as package-less.
pub open spec fn terminal_name() -> Seq<char> {
    "<terminal>"@
}

/// Counts of work done by one build.
#[derive(Clone, Copy)]
pub struct BuildMetadata {
    /// Dependency relationships processed in this build.
    pub processed: usize,
    /// Relationships satisfied by splicing a cached subgraph.
    pub from_cache: usize,
}

impl BuildMetadata {
    /// Fresh counters.
    pub fn new() -> (r: BuildMetadata)
        ensures
            r.processed == 0,
            r.from_cache == 0,
    {
        BuildMetadata { processed: 0, from_cache: 0 }
    }
}

/// `a + b`, saturating at the machine limit.
pub open spec fn sat_add(a: int, b: int) -> int {
    if a + b > usize::MAX as int {
        usize::MAX as int
    } else {
        a + b
    }
}

/// Saturating counter bump.
fn sat_inc(a: usize, b: usize) -> (r: usize)
    ensures
        r == sat_add(a as int, b as int),
{
    if a > usize::MAX - b {
        usize::MAX
    } else {
        a + b
    }
}

/// Ghost model of a [`GraphBuilder`].
#[verifier::ext_equal]
pub struct BuilderView {
    pub graph: Map<Seq<char>, DepNodeView>,
    pub processing: Seq<Seq<char>>,
    pub cache: Option<Map<Seq<char>, DepNodeView>>,
    pub processed: int,
    pub from_cache: int,
    pub verbose: bool,
}

/// Every name mid-expansion has its node in the graph: a module's
/// imports are only expanded once its node stands in the graph (the
/// ordering that makes circular imports terminate), so the reentrancy
/// guard never lists an absent name.
pub open spec fn guard_covered(b: BuilderView) -> bool {
    forall|j: int| 0 <= j < b.processing.len() ==> b.graph.contains_key(#[trigger] b.processing[j])
}

/// An expansion step keeps the guard covered: the graph only grows and
/// the guard is unchanged.
pub proof fn lemma_step_guard(o: BuilderView, n: BuilderView)
    requires
        build_step(o, n),
        guard_covered(o),
    ensures
        guard_covered(n),
{
    assert forall|j: int| 0 <= j < n.processing.len() implies n.graph.contains_key(
        #[trigger] n.processing[j],
    ) by {
        assert(o.graph.contains_key(o.processing[j]));
    }
}

/// No statement of `stmts` is fatal for a module described by `ms`:
/// every import-from carries its module and level, and every relative one
/// resolves against an enclosing package that is not the terminal
/// sentinel and deep enough for its level.  Processing a statement that
/// breaks one of these aborts the build, so a successful pass implies
/// them all.
pub open spec fn statements_admissible(stmts: Seq<ImportStmt>, ms: ModuleSpecView) -> bool {
    forall|i: int| 0 <= i < stmts.len() ==> match #[trigger] stmts[i] {
        ImportStmt::ImportFrom { module, names, level } => {
            &&& module is Some
            &&& match level {
                Some(l) => l != 0 ==> ms.parent != terminal_name()
                    && crate::names::strip_segments(ms.parent, (l - 1) as nat) is Some,
                None => false,
            }
        },
        _ => true,
    }
}

/// How one expansion step may change the builder: the graph only grows
/// (per [`graph_evolves`]), the cache, the reentrancy guard and the
/// verbosity stay put, and the counters never shrink.  While no cache is
/// present no splicing can happen, so such a step also keeps every depth
/// attained by a root path (see [`crate::graph::depths_realized`]).
pub open spec fn build_step(o: BuilderView, n: BuilderView) -> bool {
    &&& graph_evolves(o.graph, n.graph)
    &&& n.processing == o.processing
    &&& n.cache == o.cache
    &&& n.verbose == o.verbose
    &&& n.processed >= o.processed
    &&& n.from_cache >= o.from_cache
    &&& (o.cache is None && crate::graph::depths_realized(o.graph, terminal_name())
        ==> crate::graph::depths_realized(n.graph, terminal_name()))
}

/// Builds dependency graphs.  Owns the in-progress graph, the set of
/// names currently mid-expansion (the reentrancy guard), the cross-build
/// cache, and per-build counters.  The guard and the counters are reset
/// at the start of every build; the cache accumulates for the life of the
/// builder.
pub struct GraphBuilder {
    graph: DepGraph,
    processing: Vec<String>,
    verbose: bool,
    cache: Option<DepGraph>,
    metadata: BuildMetadata,
}

impl View for GraphBuilder {
    type V = BuilderView;

    closed spec fn view(&self) -> BuilderView {
        BuilderView {
            graph: self.graph@,
            processing: self.processing.deep_view(),
            cache: match self.cache {
                Some(ref c) => Some(c@),
                None => None,
            },
            processed: self.metadata.processed as int,
            from_cache: self.metadata.from_cache as int,
            verbose: self.verbose,
        }
    }
}

impl GraphBuilder {
    /// Internal validity: the graph and the cache are valid and free of
    /// dangling edges, and the guard lists each name at most once.
    pub closed spec fn wf(&self) -> bool {
        &&& self.graph.wf()
        &&& edge_consistent(self.graph@)
        &&& (self.cache matches Some(c) ==> c.wf() && edge_consistent(c@))
        &&& self.processing.deep_view().no_duplicates()
        &&& guard_covered(self@)
    }

    /// A builder with an empty graph, no cache and zeroed counters.
    pub fn new(verbose: Option<bool>) -> (r: GraphBuilder)
        ensures
            r.wf(),
            r@.graph =~= Map::<Seq<char>, DepNodeView>::empty(),
            r@.processing =~= Seq::<Seq<char>>::empty(),
            r@.cache is None,
            r@.processed == 0,
            r@.from_cache == 0,
            r@.verbose == (verbose == Some(true)),
    {
        let verbose = match verbose {
            Some(v) => v,
            None => false,
        };
        GraphBuilder {
            graph: DepGraph::new(),
            processing: Vec::new(),
            verbose,
            cache: None,
            metadata: BuildMetadata::new(),
        }
    }

    /// This build's counters so far.
    pub fn metadata(&self) -> (r: BuildMetadata)
        ensures
            r.processed == self@.processed,
            r.from_cache == self@.from_cache,
    {
        self.metadata
    }

    /// Resolves one dependency of `from` named `name`: asks the resolver
    /// for the canonical descriptor and hands the answer on.
    pub fn _process_dependency<R: NameResolver, L: SourceLoader, P: StatementParser>(
        &mut self,
        from: &str,
        name: &str,
        resolver: &mut R,
        loader: &mut L,
        parser: &mut P,
        fuel: usize,
    ) -> (r: Result<(), BuildError>)
        requires
            old(self).wf(),
        ensures
            final(self).wf(),
            build_step(old(self)@, final(self)@),
            fuel == 0 ==> (r matches Err(BuildError::ExpansionBudgetExceeded)) && final(self)@
                == old(self)@,
            !(r matches Err(BuildError::CircularExpansion(_))),
        decreases fuel, 0int,
    {
        if fuel == 0 {
            return Err(BuildError::ExpansionBudgetExceeded);
        }
        let found = resolver.find_spec(name);
        self._process_resolved(from, found, resolver, loader, parser, fuel - 1)
    }

    /// Resolves the parent package of `name` before `name` itself, so
    /// that ancestor packages stand in the graph before their
    /// descendants.
    pub fn _process_parent<R: NameResolver, L: SourceLoader, P: StatementParser>(
        &mut self,
        from: &str,
        name: &str,
        resolver: &mut R,
        loader: &mut L,
        parser: &mut P,
        fuel: usize,
    ) -> (r: Result<(), BuildError>)
        requires
            old(self).wf(),
        ensures
            final(self).wf(),
            build_step(old(self)@, final(self)@),
            fuel == 0 ==> (r matches Err(BuildError::ExpansionBudgetExceeded)) && final(self)@
                == old(self)@,
            !(r matches Err(BuildError::CircularExpansion(_))),
        decreases fuel, 0int,
    {
        if fuel == 0 {
            return Err(BuildError::ExpansionBudgetExceeded);
        }
        match find_last_dot(name) {
            Some(i) => {
                if i > 0 {
                    proof {
                        lemma_last_dot_index(name@);
                    }
                    let parent = vstd::string::StrSliceExecFns::substring_char(name, 0, i);
                    self._process_dependency(from, parent, resolver, loader, parser, fuel - 1)
                } else {
                    Ok(())
                }
            },
            None => Ok(()),
        }
    }

    /// The central step of the expansion, applied to the resolver's
    /// answer for one candidate dependency of `from`.
    ///
    /// An unresolvable name is skipped and leaves the builder untouched.
    /// A canonical name equal to `from` (a module importing itself) adds
    /// no edge and bumps no counter.  A name already present in the graph
    /// only gains the one edge `from -> name`: the node count stays what
    /// it was, and resolving one name from two importers yields two edges
    /// into one shared node.  Otherwise the parent chain is resolved
    /// first, the cache consulted for a ready subgraph to splice, and
    /// failing that a fresh node is added, the edge recorded, and the
    /// node's own imports expanded — the node standing in the graph
    /// before its imports are read, which is what lets circular imports
    /// terminate as graph cycles.
    pub fn _process_resolved<R: NameResolver, L: SourceLoader, P: StatementParser>(
        &mut self,
        from: &str,
        found: Option<ModuleSpec>,
        resolver: &mut R,
        loader: &mut L,
        parser: &mut P,
        fuel: usize,
    ) -> (r: Result<(), BuildError>)
        requires
            old(self).wf(),
        ensures
            final(self).wf(),
            build_step(old(self)@, final(self)@),
            !(r matches Err(BuildError::CircularExpansion(_))),
            match found {
                None => r is Ok && final(self)@ == old(self)@,
                Some(sp) => {
                    &&& (sp@.name == from@ ==> r is Ok && final(self)@ == old(self)@)
                    &&& (sp@.name != from@ && r is Ok ==> {
                        &&& final(self)@.graph.contains_key(sp@.name)
                        &&& final(self)@.graph.contains_key(from@)
                        &&& final(self)@.graph[from@].dependencies.contains(sp@.name)
                    })
                    &&& (sp@.name != from@ && old(self)@.graph.contains_key(sp@.name) ==> {
                        &&& final(self)@.graph.dom() == old(self)@.graph.dom()
                        &&& final(self)@.processing == old(self)@.processing
                        &&& final(self)@.cache == old(self)@.cache
                        &&& final(self)@.from_cache == old(self)@.from_cache
                        &&& final(self)@.processed == sat_add(old(self)@.processed, 1)
                        &&& match r {
                            Ok(()) => {
                                &&& old(self)@.graph.contains_key(from@)
                                &&& (old(self)@.graph[from@].depth matches Some(d) && d
                                    < i32::MAX)
                                &&& final(self)@.graph == spec_add_edge(
                                    old(self)@.graph,
                                    from@,
                                    sp@.name,
                                )
                            },
                            Err(BuildError::Graph(e)) => final(self)@.graph == old(self)@.graph
                                && (match e {
                                GraphError::UnknownNode(n) => !old(self)@.graph.contains_key(
                                    from@,
                                ) && n@ == from@,
                                GraphError::UninitializedDepth(n) => old(
                                    self,
                                )@.graph.contains_key(from@) && old(self)@.graph[from@].depth
                                    is None && n@ == from@,
                                GraphError::DepthOverflow(n) => old(self)@.graph.contains_key(
                                    from@,
                                ) && old(self)@.graph[from@].depth == Some(i32::MAX as int) && n@
                                    == from@,
                                _ => false,
                            }),
                            Err(_) => false,
                        }
                    })
                },
            },
        decreases fuel, 0int,
    {
        let sp = match found {
            Some(sp) => sp,
            None => {
                return Ok(());
            },
        };
        let name = sp.name.clone();
        if str_eq(name.as_str(), from) {
            return Ok(());
        }
        self.metadata.processed = sat_inc(self.metadata.processed, 1);
        let ghost s1 = self@;
        proof {
            assert(build_step(old(self)@, s1));
        }
        if self.graph.has_node(name.as_str()) {
            let res = self.graph.add_dependency(from, name.as_str());
            match res {
                Ok(()) => {
                    proof {
                        lemma_add_edge_evolves(s1.graph, from@, name@);
                        lemma_add_edge_consistent(s1.graph, from@, name@);
                        if s1.cache is None && crate::graph::depths_realized(
                            s1.graph,
                            terminal_name(),
                        ) {
                            crate::graph::lemma_add_edge_realized(
                                s1.graph,
                                from@,
                                name@,
                                terminal_name(),
                            );
                        }
                    }
                    Ok(())
                },
                Err(e) => Err(BuildError::Graph(e)),
            }
        } else {
            if fuel == 0 {
                return Err(BuildError::ExpansionBudgetExceeded);
            }
            let in_cache = match &self.cache {
                Some(c) => c.has_node(name.as_str()),
                None => false,
            };
            proof {
                assert(in_cache ==> self@.cache is Some);
            }
            if !str_eq(name.as_str(), "<terminal>") && in_cache {
                match self._process_parent(from, name.as_str(), resolver, loader, parser, fuel - 1) {
                    Ok(()) => {},
                    Err(e) => {
                        proof {
                            lemma_step_trans(old(self)@, s1, self@);
                        }
                        return Err(e);
                    },
                }
                let ghost s2 = self@;
                proof {
                    lemma_step_trans(old(self)@, s1, s2);
                }
                if self.graph.has_node(name.as_str()) {
                    let res = self.graph.add_dependency(from, name.as_str());
                    match res {
                        Ok(()) => {
                            proof {
                                lemma_add_edge_evolves(s2.graph, from@, name@);
                                lemma_add_edge_consistent(s2.graph, from@, name@);
                                if s2.cache is None && crate::graph::depths_realized(
                                    s2.graph,
                                    terminal_name(),
                                ) {
                                    crate::graph::lemma_add_edge_realized(
                                        s2.graph,
                                        from@,
                                        name@,
                                        terminal_name(),
                                    );
                                }
                                lemma_step_trans(old(self)@, s2, self@);
                            }
                            Ok(())
                        },
                        Err(e) => Err(BuildError::Graph(e)),
                    }
                } else {
                    let cache_graph = match &self.cache {
                        Some(c) => c,
                        None => vstd::pervasive::unreached(),
                    };
                    let subgraph = match cache_graph.clone_from(name.as_str()) {
                        Ok(g) => g,
                        Err(_) => vstd::pervasive::unreached(),
                    };
                    let deps_added = subgraph.num_dependencies();
                    self.metadata.from_cache = sat_inc(self.metadata.from_cache, deps_added);
                    self.metadata.from_cache = sat_inc(self.metadata.from_cache, 1);
                    self.metadata.processed = sat_inc(self.metadata.processed, deps_added);
                    let ghost s3 = self@;
                    proof {
                        lemma_step_trans(old(self)@, s2, s3);
                    }
                    let res = self.graph.add_graph(from, name.as_str(), subgraph);
                    match res {
                        Ok(()) => {
                            proof {
                                let d0 = s3.graph[from@].depth->0;
                                let m = choose|m: Map<Seq<char>, DepNodeView>|
                                    #[trigger] respliced(subgraph@, m, name@, d0 + 1)
                                        && !crate::graph::merge_conflict(s3.graph, m) && self@.graph
                                        == spec_add_edge(spec_merge(s3.graph, m), from@, name@);
                                lemma_respliced_consistent(subgraph@, m, name@, d0 + 1);
                                lemma_merge_evolves(s3.graph, m);
                                lemma_merge_consistent(s3.graph, m);
                                lemma_add_edge_evolves(spec_merge(s3.graph, m), from@, name@);
                                lemma_add_edge_consistent(spec_merge(s3.graph, m), from@, name@);
                                crate::graph::lemma_evolves_trans(
                                    s3.graph,
                                    spec_merge(s3.graph, m),
                                    self@.graph,
                                );
                                if s3.cache is None {
                                    assert(s3.cache == s1.cache);
                                    assert(false);
                                }
                                lemma_step_trans(old(self)@, s3, self@);
                            }
                            Ok(())
                        },
                        Err(e) => Err(BuildError::Graph(e)),
                    }
                }
            } else {
                match self._process_parent(from, name.as_str(), resolver, loader, parser, fuel - 1) {
                    Ok(()) => {},
                    Err(e) => {
                        proof {
                            lemma_step_trans(old(self)@, s1, self@);
                        }
                        return Err(e);
                    },
                }
                let ghost s2 = self@;
                proof {
                    lemma_step_trans(old(self)@, s1, s2);
                }
                if self.graph.has_node(name.as_str()) {
                    let res = self.graph.add_dependency(from, name.as_str());
                    match res {
                        Ok(()) => {
                            proof {
                                lemma_add_edge_evolves(s2.graph, from@, name@);
                                lemma_add_edge_consistent(s2.graph, from@, name@);
                                if s2.cache is None && crate::graph::depths_realized(
                                    s2.graph,
                                    terminal_name(),
                                ) {
                                    crate::graph::lemma_add_edge_realized(
                                        s2.graph,
                                        from@,
                                        name@,
                                        terminal_name(),
                                    );
                                }
                                lemma_step_trans(old(self)@, s2, self@);
                            }
                            Ok(())
                        },
                        Err(e) => Err(BuildError::Graph(e)),
                    }
                } else {
                    let new_node = DepNode::new(sp.duplicate(), None);
                    let source = loader.load_source(&sp);
                    match self.graph.add(new_node) {
                        Ok(()) => {},
                        Err(_) => vstd::pervasive::unreached(),
                    }
                    proof {
                        lemma_insert_fresh_evolves(
                            s2.graph,
                            name@,
                            crate::graph::fresh_node_view(sp@, None),
                        );
                        lemma_insert_fresh_consistent(
                            s2.graph,
                            name@,
                            crate::graph::fresh_node_view(sp@, None),
                        );
                        if s2.cache is None && crate::graph::depths_realized(
                            s2.graph,
                            terminal_name(),
                        ) {
                            crate::graph::lemma_insert_fresh_realized(
                                s2.graph,
                                name@,
                                crate::graph::fresh_node_view(sp@, None),
                                terminal_name(),
                            );
                        }
                        lemma_step_trans(old(self)@, s2, self@);
                    }
                    let ghost s3 = self@;
                    let res = self.graph.add_dependency(from, name.as_str());
                    match res {
                        Ok(()) => {
                            proof {
                                lemma_add_edge_evolves(s3.graph, from@, name@);
                                lemma_add_edge_consistent(s3.graph, from@, name@);
                                if s3.cache is None && crate::graph::depths_realized(
                                    s3.graph,
                                    terminal_name(),
                                ) {
                                    crate::graph::lemma_add_edge_realized(
                                        s3.graph,
                                        from@,
                                        name@,
                                        terminal_name(),
                                    );
                                }
                                lemma_step_trans(old(self)@, s3, self@);
                            }
                        },
                        Err(e) => {
                            proof {
                                lemma_step_trans(old(self)@, s3, self@);
                            }
                            return Err(BuildError::Graph(e));
                        },
                    }
                    let ghost s4 = self@;
                    match source {
                        Some(src) => {
                            let r2 = self._process_imports(
                                sp,
                                src.as_str(),
                                resolver,
                                loader,
                                parser,
                                fuel - 1,
                            );
                            proof {
                                lemma_step_trans(old(self)@, s4, self@);
                            }
                            r2
                        },
                        None => Ok(()),
                    }
                }
            }
        }
    }

    /// Expands every import statement of one module's source text.
    ///
    /// A module already mid-expansion is a fatal reentrancy; otherwise
    /// its name joins the guard, its statements are processed, and the
    /// name leaves the guard again on every exit path.  Expansion is only
    /// ever invoked for a module whose node already stands in the graph
    /// (the seeded root, or a node inserted just before), which keeps the
    /// guard covered by the graph and makes the reentrancy error
    /// impossible below the top of an expansion.
    pub fn _process_imports<R: NameResolver, L: SourceLoader, P: StatementParser>(
        &mut self,
        module_spec: ModuleSpec,
        source: &str,
        resolver: &mut R,
        loader: &mut L,
        parser: &mut P,
        fuel: usize,
    ) -> (r: Result<(), BuildError>)
        requires
            old(self).wf(),
            old(self)@.graph.contains_key(module_spec@.name),
        ensures
            final(self).wf(),
            build_step(old(self)@, final(self)@),
            fuel == 0 ==> (r matches Err(BuildError::ExpansionBudgetExceeded)) && final(self)@
                == old(self)@,
            fuel >= 1 && old(self)@.processing.contains(module_spec@.name) ==> (match r {
                Err(BuildError::CircularExpansion(n)) => n@ == module_spec@.name && final(self)@
                    == old(self)@,
                _ => false,
            }),
            r matches Err(BuildError::CircularExpansion(n)) ==> n@ == module_spec@.name && old(
                self,
            )@.processing.contains(n@) && final(self)@ == old(self)@,
        decreases fuel, 1int,
    {
        if fuel == 0 {
            return Err(BuildError::ExpansionBudgetExceeded);
        }
        if crate::names::vec_contains_name(&self.processing, module_spec.name.as_str()) {
            return Err(BuildError::CircularExpansion(module_spec.name.clone()));
        }
        let stmts = match parser.parse(source) {
            Some(s) => s,
            None => {
                return Err(BuildError::ParseFailure(module_spec.name.clone()));
            },
        };
        let ghost p0 = self.processing.deep_view();
        self.processing.push(module_spec.name.clone());
        proof {
            assert(self.processing.deep_view() =~= p0.push(module_spec.name@));
            assert(p0 == old(self)@.processing);
            assert forall|j: int| 0 <= j < self@.processing.len() implies self@.graph.contains_key(
                #[trigger] self@.processing[j],
            ) by {
                if j < p0.len() {
                    assert(old(self)@.graph.contains_key(old(self)@.processing[j]));
                }
            }
        }
        let ghost mid = self@;
        let res = self._process_statements(&module_spec, &stmts, resolver, loader, parser, fuel);
        let ghost dvb = self.processing.deep_view();
        let _ = self.processing.pop();
        proof {
            assert(dvb == p0.push(module_spec.name@));
            assert(self.processing.deep_view() =~= dvb.drop_last());
            assert(self.processing.deep_view() =~= p0);
            assert(build_step(old(self)@, final(self)@)) by {
                assert(graph_evolves(mid.graph, self@.graph));
            }
            if res matches Err(BuildError::CircularExpansion(_)) {
                assert(false);
            }
        }
        res
    }

    /// Processes one module's parsed statements in order: plain imports
    /// resolve each listed name; import-from statements resolve the
    /// module itself (relative ones against the enclosing package) and,
    /// when it is a package, each listed name as a submodule.
    fn _process_statements<R: NameResolver, L: SourceLoader, P: StatementParser>(
        &mut self,
        module_spec: &ModuleSpec,
        stmts: &Vec<ImportStmt>,
        resolver: &mut R,
        loader: &mut L,
        parser: &mut P,
        fuel: usize,
    ) -> (r: Result<(), BuildError>)
        requires
            old(self).wf(),
        ensures
            final(self).wf(),
            build_step(old(self)@, final(self)@),
            stmts@.len() == 0 ==> r is Ok && final(self)@ == old(self)@,
            r is Ok ==> statements_admissible(stmts@, module_spec@),
            !(r matches Err(BuildError::CircularExpansion(_))),
        decreases fuel, 0int,
    {
        let n = stmts.len();
        let mut i: usize = 0;
        while i < n
            invariant
                0 <= i <= n,
                n == stmts@.len(),
                self.wf(),
                build_step(old(self)@, self@),
                i == 0 ==> *self == *old(self),
                statements_admissible(stmts@.take(i as int), module_spec@),
            decreases n - i,
        {
            if fuel == 0 {
                return Err(BuildError::ExpansionBudgetExceeded);
            }
            proof {
                assert(stmts@.take(i + 1).drop_last() =~= stmts@.take(i as int));
                assert(stmts@.take(i + 1).last() == stmts@[i as int]);
            }
            let ghost loop_pre = self@;
            match &stmts[i] {
                ImportStmt::Import { names } => {
                    let m = names.len();
                    let mut j: usize = 0;
                    while j < m
                        invariant
                            0 <= j <= m,
                            m == names@.len(),
                            fuel >= 1,
                            0 < stmts@.len(),
                            self.wf(),
                            build_step(old(self)@, self@),
                        decreases m - j,
                    {
                        let ghost pre = self@;
                        let r1 = self._process_dependency(
                            module_spec.name.as_str(),
                            names[j].name.as_str(),
                            resolver,
                            loader,
                            parser,
                            fuel - 1,
                        );
                        proof {
                            lemma_step_trans(old(self)@, pre, self@);
                        }
                        match r1 {
                            Ok(()) => {},
                            Err(e) => {
                                return Err(e);
                            },
                        }
                        j += 1;
                    }
                },
                ImportStmt::ImportFrom { module, names, level } => {
                    match (module, level) {
                        (Some(m), Some(l)) => {
                            let module_name: String = if *l != 0 {
                                if str_eq(module_spec.parent.as_str(), "<terminal>") {
                                    return Err(BuildError::RelativeImportFromRoot(
                                        module_spec.name.clone(),
                                    ));
                                }
                                match resolve_name(m, &module_spec.parent, l) {
                                    Ok(s) => s,
                                    Err(e) => {
                                        return Err(e);
                                    },
                                }
                            } else {
                                m.clone()
                            };
                            let ghost pre = self@;
                            let r1 = self._process_dependency(
                                module_spec.name.as_str(),
                                module_name.as_str(),
                                resolver,
                                loader,
                                parser,
                                fuel - 1,
                            );
                            proof {
                                lemma_step_trans(old(self)@, pre, self@);
                            }
                            match r1 {
                                Ok(()) => {},
                                Err(e) => {
                                    return Err(e);
                                },
                            }
                            let found2 = resolver.find_spec(module_name.as_str());
                            let is_pkg = match &found2 {
                                Some(s) => s.is_package(),
                                None => false,
                            };
                            if is_pkg {
                                let m2 = names.len();
                                let mut j2: usize = 0;
                                while j2 < m2
                                    invariant
                                        0 <= j2 <= m2,
                                        m2 == names@.len(),
                                        fuel >= 1,
                                        0 < stmts@.len(),
                                        self.wf(),
                                        build_step(old(self)@, self@),
                                    decreases m2 - j2,
                                {
                                    let mut sub = module_name.clone();
                                    vstd::string::StringExecFns::append(&mut sub, ".");
                                    vstd::string::StringExecFns::append(
                                        &mut sub,
                                        names[j2].name.as_str(),
                                    );
                                    let ghost pre2 = self@;
                                    let r2 = self._process_dependency(
                                        module_spec.name.as_str(),
                                        sub.as_str(),
                                        resolver,
                                        loader,
                                        parser,
                                        fuel - 1,
                                    );
                                    proof {
                                        lemma_step_trans(old(self)@, pre2, self@);
                                    }
                                    match r2 {
                                        Ok(()) => {},
                                        Err(e) => {
                                            return Err(e);
                                        },
                                    }
                                    j2 += 1;
                                }
                            }
                        },
                        _ => {
                            return Err(BuildError::MalformedImportFrom);
                        },
                    }
                },
            }
            i += 1;
        }
        proof {
            assert(stmts@.take(n as int) =~= stmts@);
        }
        Ok(())
    }

    /// One build: seeds the synthetic root for the entry source unit,
    /// expands its imports, folds a copy of the finished graph into the
    /// cache, and hands the graph to the caller.  The guard and the
    /// counters are reset at the start, so the counters of the last build
    /// stay readable until the next one; the in-progress graph is
    /// replaced by an empty one on success.
    ///
    /// With no `package`, the entry unit is a parentless non-package and
    /// relative imports from it are fatal.
    ///
    /// On a builder that has never cached (no splice can occur), every
    /// depth the returned graph records is attained by a dependency path
    /// from the root.  The stronger reading — depth as the exact minimum
    /// over all paths of the final graph — does not hold of the
    /// expansion: an edge discovered late lowers its target's depth but
    /// is not re-propagated to the target's already-expanded
    /// dependencies (see [`crate::graph::depths_realized`]).
    pub fn build<R: NameResolver, L: SourceLoader, P: StatementParser>(
        &mut self,
        source: &str,
        package: Option<String>,
        resolver: &mut R,
        loader: &mut L,
        parser: &mut P,
    ) -> (r: Result<DepGraph, BuildError>)
        requires
            old(self).wf(),
        ensures
            final(self).wf(),
            final(self)@.verbose == old(self)@.verbose,
            old(self)@.graph.contains_key(terminal_name()) ==> (match r {
                Err(BuildError::Graph(GraphError::DuplicateNode(n))) => n@ == terminal_name(),
                _ => false,
            }),
            match r {
                Ok(g) => {
                    &&& g.wf()
                    &&& edge_consistent(g@)
                    &&& g@.contains_key(terminal_name())
                    &&& g@[terminal_name()].depth == Some(0int)
                    &&& g@[terminal_name()].module_spec == (ModuleSpecView {
                        name: terminal_name(),
                        origin: None,
                        parent: match package {
                            Some(p) => p@,
                            None => terminal_name(),
                        },
                        submodule_search_locations: match package {
                            Some(_) => Some(Seq::<Seq<char>>::empty()),
                            None => None,
                        },
                    })
                    &&& final(self)@.graph =~= Map::<Seq<char>, DepNodeView>::empty()
                    &&& final(self)@.processing =~= Seq::<Seq<char>>::empty()
                    &&& match old(self)@.cache {
                        Some(oc) => !crate::graph::merge_conflict(oc, g@) && final(self)@.cache
                            == Some(spec_merge(oc, g@)),
                        None => final(self)@.cache == Some(g@),
                    }
                    &&& (old(self)@.cache is None && old(self)@.graph.dom()
                        =~= Set::<Seq<char>>::empty() ==> crate::graph::depths_realized(
                        g@,
                        terminal_name(),
                    ))
                },
                Err(e) => true,
            },
    {
        self.processing = Vec::new();
        self.metadata = BuildMetadata::new();
        let (package_name, dirs): (String, Option<Vec<String>>) = match package {
            Some(p) => (p, Some(Vec::new())),
            None => ("<terminal>".to_owned(), None),
        };
        let root_spec = ModuleSpec {
            name: "<terminal>".to_owned(),
            origin: None,
            parent: package_name,
            submodule_search_locations: dirs,
        };
        proof {
            assert(root_spec@ =~= (ModuleSpecView {
                name: terminal_name(),
                origin: None,
                parent: match package {
                    Some(ref p) => p@,
                    None => terminal_name(),
                },
                submodule_search_locations: match package {
                    Some(_) => Some(Seq::<Seq<char>>::empty()),
                    None => None,
                },
            }));
        }
        let root_node = DepNode::new(root_spec.duplicate(), Some(0));
        let ghost g0 = self.graph@;
        match self.graph.add(root_node) {
            Ok(()) => {},
            Err(e) => {
                return Err(BuildError::Graph(e));
            },
        }
        proof {
            lemma_insert_fresh_consistent(
                g0,
                terminal_name(),
                crate::graph::fresh_node_view(root_spec@, Some(0int)),
            );
        }
        let ghost seeded = self@;
        match self._process_imports(root_spec, source, resolver, loader, parser, EXPANSION_BUDGET) {
            Ok(()) => {},
            Err(e) => {
                return Err(e);
            },
        }
        proof {
            assert(graph_evolves(seeded.graph, self@.graph));
            assert(seeded.graph.contains_key(terminal_name()));
            assert(seeded.graph[terminal_name()].depth == Some(0int));
            assert(crate::graph::node_evolves(
                seeded.graph[terminal_name()],
                self@.graph[terminal_name()],
            ));
            self.graph.lemma_view_wf();
            assert(self@.graph.contains_key(terminal_name()));
            assert(self@.graph[terminal_name()].depth == Some(0int));
            assert(self@.graph[terminal_name()].module_spec == root_spec@);
            if old(self)@.cache is None && old(self)@.graph.dom() =~= Set::<Seq<char>>::empty() {
                assert(g0 =~= Map::<Seq<char>, DepNodeView>::empty());
                crate::graph::lemma_seed_realized(
                    terminal_name(),
                    crate::graph::fresh_node_view(root_spec@, Some(0int)),
                );
                assert(seeded.graph == Map::<Seq<char>, DepNodeView>::empty().insert(
                    terminal_name(),
                    crate::graph::fresh_node_view(root_spec@, Some(0int)),
                ));
                assert(seeded.cache is None);
                assert(crate::graph::depths_realized(self@.graph, terminal_name()));
            }
        }
        let mut finished = DepGraph::new();
        core::mem::swap(&mut self.graph, &mut finished);
        let to_cache = finished.duplicate();
        let mut cache_local: Option<DepGraph> = None;
        core::mem::swap(&mut self.cache, &mut cache_local);
        match cache_local {
            Some(mut c) => {
                match c.merge(to_cache) {
                    Ok(()) => {},
                    Err(e) => {
                        return Err(BuildError::Graph(e));
                    },
                }
                proof {
                    crate::graph::lemma_merge_consistent(old(self)@.cache->0, finished@);
                }
                self.cache = Some(c);
            },
            None => {
                self.cache = Some(to_cache);
            },
        }
        Ok(finished)
    }
}

/// The recursion budget of one build; far beyond any graph that fits in
/// memory.
pub const EXPANSION_BUDGET: usize = 0xFFFF_FFFF;

/// One expansion step followed by another is itself an expansion step.
pub proof fn lemma_step_trans(a: BuilderView, b: BuilderView, c: BuilderView)
    requires
        build_step(a, b),
        build_step(b, c),
    ensures
        build_step(a, c),
{
    lemma_evolves_trans(a.graph, b.graph, c.graph);
    if a.cache is None && crate::graph::depths_realized(a.graph, terminal_name()) {
        assert(crate::graph::depths_realized(b.graph, terminal_name()));
        assert(b.cache is None);
        assert(crate::graph::depths_realized(c.graph, terminal_name()));
    }
}

} // verus!
