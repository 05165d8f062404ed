use fast_dep::builder::{GraphBuilder, NameResolver, SourceLoader, StatementParser};
use fast_dep::errors::{BuildError, GraphError};
use fast_dep::graph::DepGraph;
use fast_dep::import_stmt::{Alias, ImportStmt};
use fast_dep::module_spec::ModuleSpec;

/// Resolves names against a fixed table; anything absent is unresolvable.
struct TableResolver {
    specs: Vec<ModuleSpec>,
}

impl TableResolver {
    fn new() -> TableResolver {
        TableResolver { specs: Vec::new() }
    }

    fn module(mut self, name: &str) -> TableResolver {
        self.specs.push(ModuleSpec {
            name: name.to_string(),
            origin: Some(format!("/src/{}.py", name)),
            parent: parent_of(name),
            submodule_search_locations: None,
        });
        self
    }

    fn package(mut self, name: &str) -> TableResolver {
        self.specs.push(ModuleSpec {
            name: name.to_string(),
            origin: Some(format!("/src/{}/__init__.py", name)),
            parent: name.to_string(),
            submodule_search_locations: Some(vec![format!("/src/{}", name)]),
        });
        self
    }
}

fn parent_of(name: &str) -> String {
    match name.rfind('.') {
        Some(i) => name[..i].to_string(),
        None => String::new(),
    }
}

impl NameResolver for TableResolver {
    fn find_spec(&mut self, name: &str) -> Option<ModuleSpec> {
        self.specs.iter().find(|s| s.name == name).map(|s| s.clone())
    }
}

/// Hands out source text from a fixed table keyed by module name.
struct TableLoader {
    sources: Vec<(String, String)>,
}

impl TableLoader {
    fn new() -> TableLoader {
        TableLoader { sources: Vec::new() }
    }

    fn source(mut self, name: &str, text: &str) -> TableLoader {
        self.sources.push((name.to_string(), text.to_string()));
        self
    }
}

impl SourceLoader for TableLoader {
    fn load_source(&mut self, module_spec: &ModuleSpec) -> Option<String> {
        self.sources.iter().find(|(n, _)| *n == module_spec.name).map(|(_, s)| s.clone())
    }
}

/// Parses a small line-oriented import notation: `import a, b` and
/// `from ..mod import x, y`.  The line `!bad` marks an unparsable source.
struct LineParser;

impl StatementParser for LineParser {
    fn parse(&mut self, source: &str) -> Option<Vec<ImportStmt>> {
        let mut stmts = Vec::new();
        for line in source.lines() {
            let line = line.trim();
            if line.is_empty() {
                continue;
            }
            if line == "!bad" {
                return None;
            }
            if let Some(rest) = line.strip_prefix("import ") {
                let names = rest
                    .split(',')
                    .map(|n| Alias { name: n.trim().to_string(), asname: None })
                    .collect();
                stmts.push(ImportStmt::Import { names });
            } else if let Some(rest) = line.strip_prefix("from ") {
                let mut halves = rest.splitn(2, " import ");
                let modpart = halves.next()?.trim();
                let namepart = halves.next()?.trim();
                let level = modpart.chars().take_while(|c| *c == '.').count();
                let module = modpart[level..].to_string();
                let names = namepart
                    .split(',')
                    .map(|n| Alias { name: n.trim().to_string(), asname: None })
                    .collect();
                stmts.push(ImportStmt::ImportFrom {
                    module: Some(module),
                    names,
                    level: Some(level),
                });
            }
        }
        Some(stmts)
    }
}

fn edge_pairs(g: &DepGraph) -> Vec<(String, String)> {
    let mut pairs = Vec::new();
    let mut names = g.names();
    names.sort();
    for n in names {
        let nd = g.get(&n).unwrap();
        let mut deps = nd.dependency_names();
        deps.sort();
        for d in deps {
            pairs.push((n.clone(), d));
        }
    }
    pairs
}

#[test]
fn single_import_chain() {
    let mut b = GraphBuilder::new(None);
    let mut r = TableResolver::new().module("m").module("n");
    let mut l = TableLoader::new().source("m", "import n");
    let g = b.build("import m", None, &mut r, &mut l, &mut LineParser).unwrap();
    assert_eq!(g.size(), 3);
    assert!(g.has_node("<terminal>"));
    assert_eq!(g.get("<terminal>").unwrap().depth(), Some(0));
    assert_eq!(g.get("m").unwrap().depth(), Some(1));
    assert_eq!(g.get("n").unwrap().depth(), Some(2));
    assert_eq!(
        edge_pairs(&g),
        vec![
            ("<terminal>".to_string(), "m".to_string()),
            ("m".to_string(), "n".to_string()),
        ]
    );
    assert_eq!(b.metadata().processed, 2);
    assert_eq!(b.metadata().from_cache, 0);
}

#[test]
fn unresolvable_names_are_skipped() {
    let mut b = GraphBuilder::new(None);
    let mut r = TableResolver::new();
    let mut l = TableLoader::new();
    let g = b.build("import zzz", None, &mut r, &mut l, &mut LineParser).unwrap();
    assert_eq!(g.size(), 1);
    assert_eq!(b.metadata().processed, 0);
}

#[test]
fn second_importer_shares_the_node() {
    // root imports a and b; b imports a again: one node, two edges in
    let mut b = GraphBuilder::new(None);
    let mut r = TableResolver::new().module("a").module("b");
    let mut l = TableLoader::new().source("b", "import a");
    let g = b.build("import a\nimport b", None, &mut r, &mut l, &mut LineParser).unwrap();
    assert_eq!(g.size(), 3);
    assert_eq!(g.num_dependencies(), 3);
    let mut dependents = g.get("a").unwrap().dependent_names();
    dependents.sort();
    assert_eq!(dependents, vec!["<terminal>".to_string(), "b".to_string()]);
    assert_eq!(b.metadata().processed, 3);
}

#[test]
fn self_import_adds_no_edge() {
    let mut b = GraphBuilder::new(None);
    let mut r = TableResolver::new().module("m");
    let mut l = TableLoader::new().source("m", "import m");
    let g = b.build("import m", None, &mut r, &mut l, &mut LineParser).unwrap();
    assert_eq!(g.size(), 2);
    assert_eq!(g.num_dependencies(), 1);
    assert_eq!(g.get("m").unwrap().dependencies(), 0);
    // the self-import bumped no counter: only root -> m was processed
    assert_eq!(b.metadata().processed, 1);
}

#[test]
fn circular_imports_terminate_as_cycle() {
    let mut b = GraphBuilder::new(None);
    let mut r = TableResolver::new().module("x").module("y");
    let mut l = TableLoader::new().source("x", "import y").source("y", "import x");
    let g = b.build("import x", None, &mut r, &mut l, &mut LineParser).unwrap();
    assert_eq!(g.size(), 3);
    assert!(g.get("x").unwrap().dependency_names().contains(&"y".to_string()));
    assert!(g.get("y").unwrap().dependency_names().contains(&"x".to_string()));
}

#[test]
fn dotted_import_resolves_parent_first() {
    // root imports "a.b" where a is a package and b a plain module
    let mut b = GraphBuilder::new(None);
    let mut r = TableResolver::new().package("a").module("a.b");
    let mut l = TableLoader::new();
    let g = b.build("import a.b", None, &mut r, &mut l, &mut LineParser).unwrap();
    let mut names = g.names();
    names.sort();
    assert_eq!(
        names,
        vec!["<terminal>".to_string(), "a".to_string(), "a.b".to_string()]
    );
    assert_eq!(g.get("<terminal>").unwrap().depth(), Some(0));
    assert_eq!(g.get("a").unwrap().depth(), Some(1));
    // both edges run from the importing root, so a.b sits one step away
    assert_eq!(g.get("a.b").unwrap().depth(), Some(1));
    assert_eq!(
        edge_pairs(&g),
        vec![
            ("<terminal>".to_string(), "a".to_string()),
            ("<terminal>".to_string(), "a.b".to_string()),
        ]
    );
    assert!(g.get("a").unwrap().dependent_names().contains(&"<terminal>".to_string()));
}

#[test]
fn relative_import_resolves_against_enclosing_package() {
    // `from . import x` in an entry unit enclosed by package "pkg":
    // the module is "pkg" and the name expands to submodule "pkg.x"
    let mut b = GraphBuilder::new(None);
    let mut r = TableResolver::new().package("pkg").module("pkg.x");
    let mut l = TableLoader::new();
    let g = b
        .build("from . import x", Some("pkg".to_string()), &mut r, &mut l, &mut LineParser)
        .unwrap();
    assert!(g.has_node("pkg"));
    assert!(g.has_node("pkg.x"));
    assert!(g.get("pkg.x").unwrap().dependent_names().contains(&"<terminal>".to_string()));
}

#[test]
fn relative_import_from_terminal_is_fatal() {
    let mut b = GraphBuilder::new(None);
    let mut r = TableResolver::new();
    let mut l = TableLoader::new();
    let res = b.build("from . import x", None, &mut r, &mut l, &mut LineParser);
    assert!(matches!(res, Err(BuildError::RelativeImportFromRoot(_))));
}

#[test]
fn relative_import_past_top_level_is_fatal() {
    let mut b = GraphBuilder::new(None);
    let mut r = TableResolver::new().package("pkg");
    let mut l = TableLoader::new();
    let res = b.build(
        "from ... import x",
        Some("pkg".to_string()),
        &mut r,
        &mut l,
        &mut LineParser,
    );
    assert!(matches!(res, Err(BuildError::InvalidRelativeImport(_))));
}

#[test]
fn parse_failure_is_fatal() {
    let mut b = GraphBuilder::new(None);
    let mut r = TableResolver::new();
    let mut l = TableLoader::new();
    let res = b.build("!bad", None, &mut r, &mut l, &mut LineParser);
    assert!(matches!(res, Err(BuildError::ParseFailure(_))));
}

#[test]
fn absolute_import_from_lists_submodules_of_packages() {
    // `from p import q` where p is a package: q is tried as submodule p.q
    let mut b = GraphBuilder::new(None);
    let mut r = TableResolver::new().package("p").module("p.q");
    let mut l = TableLoader::new();
    let g = b.build("from p import q", None, &mut r, &mut l, &mut LineParser).unwrap();
    assert!(g.has_node("p"));
    assert!(g.has_node("p.q"));
}

#[test]
fn second_build_reuses_cached_subgraph() {
    let mut b = GraphBuilder::new(None);
    let mut r = TableResolver::new().module("m").module("n");
    let mut l = TableLoader::new().source("m", "import n");
    let first = b.build("import m", None, &mut r, &mut l, &mut LineParser).unwrap();
    assert_eq!(b.metadata().from_cache, 0);

    let second = b.build("import m", None, &mut r, &mut l, &mut LineParser).unwrap();
    assert!(b.metadata().from_cache > 0);

    // the reused graph matches a from-scratch resolution
    let mut fresh = GraphBuilder::new(None);
    let scratch = fresh.build("import m", None, &mut r, &mut l, &mut LineParser).unwrap();
    let mut second_names = second.names();
    let mut scratch_names = scratch.names();
    second_names.sort();
    scratch_names.sort();
    assert_eq!(second_names, scratch_names);
    assert_eq!(edge_pairs(&second), edge_pairs(&scratch));
    for n in second_names {
        assert_eq!(
            second.get(&n).unwrap().depth(),
            scratch.get(&n).unwrap().depth(),
        );
    }
    // and matches the first build too
    assert_eq!(edge_pairs(&second), edge_pairs(&first));
}

#[test]
fn builds_leave_builder_reusable() {
    let mut b = GraphBuilder::new(Some(false));
    let mut r = TableResolver::new().module("a");
    let mut l = TableLoader::new();
    let g1 = b.build("import a", None, &mut r, &mut l, &mut LineParser).unwrap();
    let g2 = b.build("import a", None, &mut r, &mut l, &mut LineParser).unwrap();
    assert_eq!(g1.size(), 2);
    assert_eq!(g2.size(), 2);
}

/// A parser handing back an import-from statement missing its parts.
struct MalformedParser;

impl StatementParser for MalformedParser {
    fn parse(&mut self, _source: &str) -> Option<Vec<ImportStmt>> {
        Some(vec![ImportStmt::ImportFrom { module: None, names: Vec::new(), level: None }])
    }
}

#[test]
fn malformed_import_from_is_fatal() {
    let mut b = GraphBuilder::new(None);
    let mut r = TableResolver::new();
    let mut l = TableLoader::new();
    let res = b.build("anything", None, &mut r, &mut l, &mut MalformedParser);
    assert!(matches!(res, Err(BuildError::MalformedImportFrom)));
}

#[test]
fn exhausted_budget_is_fatal() {
    let mut b = GraphBuilder::new(None);
    let mut r = TableResolver::new().module("m");
    let mut l = TableLoader::new();
    let res = b._process_dependency("x", "m", &mut r, &mut l, &mut LineParser, 0);
    assert!(matches!(res, Err(BuildError::ExpansionBudgetExceeded)));
}

#[test]
fn dirty_builder_refuses_second_root() {
    // a failed build leaves its root in the in-progress graph; the next
    // build then fails fast on the duplicate root
    let mut b = GraphBuilder::new(None);
    let mut r = TableResolver::new();
    let mut l = TableLoader::new();
    let first = b.build("!bad", None, &mut r, &mut l, &mut LineParser);
    assert!(matches!(first, Err(BuildError::ParseFailure(_))));
    let second = b.build("import m", None, &mut r, &mut l, &mut LineParser);
    assert!(matches!(
        second,
        Err(BuildError::Graph(GraphError::DuplicateNode(_)))
    ));
}
