use mqpkg::PackageName;
use mqpkg::repository::{Release, RepoDocument, Repository, RepositorySource};
use mqpkg::resolver::{SolverError, resolve};
use mqpkg::version::{Constraint, PackageRequest, Version};

fn name(s: &str) -> PackageName {
    PackageName::parse(s).unwrap()
}

fn con(s: &str) -> Constraint {
    Constraint::parse(s).unwrap()
}

fn req(n: &str, c: &str) -> PackageRequest {
    PackageRequest::new(name(n), con(c))
}

fn release(deps: Vec<PackageRequest>) -> Release {
    Release { dependencies: deps }
}

fn doc(
    repo_name: &str,
    packages: Vec<(PackageName, Vec<(Version, Release)>)>,
) -> RepoDocument {
    RepoDocument {
        name: String::from(repo_name),
        url: String::from("file:///repo"),
        packages,
    }
}

#[test]
fn greedy_latest_version_wins() {
    // one repository offering A at 1.0.0 and 2.0.0, no dependencies:
    // resolution picks 2.0.0
    let mut repo = Repository::new();
    repo.push_document(doc(
        "r1",
        vec![(
            name("a"),
            vec![
                (Version::new(1, 0, 0), release(vec![])),
                (Version::new(2, 0, 0), release(vec![])),
            ],
        )],
    ));
    let requested = vec![req("a", ">=1.0")];
    let res = resolve(&requested, &repo).unwrap();
    assert_eq!(res.len(), 1);
    assert!(res[0].0.same_name(&name("a")));
    assert_eq!(res[0].1.version, Version::new(2, 0, 0));
}

#[test]
fn repository_order_breaks_version_ties() {
    // both repositories offer A at 1.0.0; the first-listed one wins
    let mut repo = Repository::new();
    repo.push_document(doc(
        "r1",
        vec![(name("a"), vec![(Version::new(1, 0, 0), release(vec![]))])],
    ));
    repo.push_document(doc(
        "r2",
        vec![(name("a"), vec![(Version::new(1, 0, 0), release(vec![]))])],
    ));
    let requested = vec![req("a", "^1.0")];
    let res = resolve(&requested, &repo).unwrap();
    assert_eq!(res.len(), 1);
    assert_eq!(res[0].1.source.discriminator(), 0);
    assert_eq!(res[0].1.source.id(), 100);
    assert_eq!(res[0].1.source.identifier(), "r1");
}

#[test]
fn conflicting_transitive_constraints_are_unsatisfiable() {
    // A depends on C >= 2.0 while B depends on C < 2.0: no version of C
    // can satisfy both
    let mut repo = Repository::new();
    repo.push_document(doc(
        "r1",
        vec![
            (
                name("a"),
                vec![(Version::new(1, 0, 0), release(vec![req("c", ">=2.0")]))],
            ),
            (
                name("b"),
                vec![(Version::new(1, 0, 0), release(vec![req("c", "<2.0")]))],
            ),
            (
                name("c"),
                vec![
                    (Version::new(1, 0, 0), release(vec![])),
                    (Version::new(2, 0, 0), release(vec![])),
                ],
            ),
        ],
    ));
    let requested = vec![req("a", "^1.0"), req("b", "^1.0")];
    match resolve(&requested, &repo) {
        Err(SolverError::Unsatisfiable { .. }) => (),
        Ok(res) => panic!("expected a conflict, resolved {} packages", res.len()),
    }
}

#[test]
fn transitive_dependencies_are_included() {
    let mut repo = Repository::new();
    repo.push_document(doc(
        "r1",
        vec![
            (
                name("app"),
                vec![(Version::new(1, 2, 0), release(vec![req("lib", "^1.0")]))],
            ),
            (
                name("lib"),
                vec![
                    (Version::new(1, 1, 0), release(vec![])),
                    (Version::new(1, 9, 3), release(vec![])),
                    (Version::new(2, 0, 0), release(vec![])),
                ],
            ),
        ],
    ));
    let requested = vec![req("app", "^1.0")];
    let res = resolve(&requested, &repo).unwrap();
    assert_eq!(res.len(), 2);
    let lib = res.iter().find(|e| e.0.same_name(&name("lib"))).unwrap();
    // newest version satisfying ^1.0
    assert_eq!(lib.1.version, Version::new(1, 9, 3));
}

#[test]
fn backtracking_recovers_an_older_version() {
    // the newest top fails because its dependency cannot be met; the
    // solver must fall back to the older top release
    let mut repo = Repository::new();
    repo.push_document(doc(
        "r1",
        vec![
            (
                name("top"),
                vec![
                    (Version::new(1, 0, 0), release(vec![])),
                    (Version::new(2, 0, 0), release(vec![req("missing", "^1.0")])),
                ],
            ),
        ],
    ));
    let requested = vec![req("top", ">=1.0")];
    let res = resolve(&requested, &repo).unwrap();
    assert_eq!(res.len(), 1);
    assert_eq!(res[0].1.version, Version::new(1, 0, 0));
}

#[test]
fn empty_request_resolves_to_nothing() {
    let repo = Repository::new();
    let requested: Vec<PackageRequest> = vec![];
    let res = resolve(&requested, &repo).unwrap();
    assert_eq!(res.len(), 0);
}

#[test]
fn candidates_follow_configuration_order() {
    let mut repo = Repository::new();
    repo.push_document(doc(
        "first",
        vec![(name("a"), vec![(Version::new(1, 0, 0), release(vec![]))])],
    ));
    repo.push_document(doc(
        "second",
        vec![(name("a"), vec![(Version::new(3, 0, 0), release(vec![]))])],
    ));
    let cands = repo.candidates(&name("a"));
    assert_eq!(cands.len(), 2);
    assert_eq!(cands[0].source.discriminator(), 0);
    assert_eq!(cands[0].version, Version::new(1, 0, 0));
    assert_eq!(cands[1].source.discriminator(), 1);
    assert_eq!(cands[1].version, Version::new(3, 0, 0));
}

#[test]
fn source_identifier_falls_back_to_url() {
    let unnamed = RepositorySource::new(4, String::new(), String::from("https://repo.example"));
    assert_eq!(unnamed.identifier(), "https://repo.example");
    let named = RepositorySource::new(4, String::from("main"), String::from("https://x"));
    assert_eq!(named.identifier(), "main");
}

#[test]
fn constraint_matching_follows_semver() {
    let c = con("^1.2");
    assert!(c.matches(&Version::new(1, 2, 0)));
    assert!(c.matches(&Version::new(1, 9, 9)));
    assert!(!c.matches(&Version::new(2, 0, 0)));
    assert!(Constraint::parse("not a range").is_none());
    assert!(Constraint::parse(">=1.0,\n<2.0").is_none());
}

#[test]
fn resolution_is_deterministic() {
    let build = || {
        let mut repo = Repository::new();
        repo.push_document(doc(
            "r1",
            vec![
                (
                    name("app"),
                    vec![(Version::new(1, 0, 0), release(vec![req("lib", ">=1.0")]))],
                ),
                (
                    name("lib"),
                    vec![
                        (Version::new(1, 0, 0), release(vec![])),
                        (Version::new(1, 5, 0), release(vec![])),
                    ],
                ),
            ],
        ));
        repo
    };
    let requested = vec![req("app", "^1.0")];
    let first = resolve(&requested, &build()).unwrap();
    let second = resolve(&requested, &build()).unwrap();
    assert_eq!(first.len(), second.len());
    for (a, b) in first.iter().zip(second.iter()) {
        assert!(a.0.same_name(&b.0));
        assert_eq!(a.1.version, b.1.version);
        assert_eq!(a.1.source.discriminator(), b.1.source.discriminator());
    }
}
