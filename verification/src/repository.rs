//! Candidate aggregation: repository documents, the source tag that ranks
//! repositories, and the per-package candidate listing drawn from all
//! configured repositories in priority order.

use vstd::prelude::*;

use crate::PackageName;
use crate::version::{PackageRequest, Version, duplicate_requests, reqs_eq};

verus! {

/// Where a candidate came from. Repositories all share one source
/// category; the discriminator is the repository's position in the
/// user-configured list (lower wins on ties).
#[derive(Debug)]
pub struct RepositorySource {
    repository_id: u64,
    name: String,
    url: String,
}

/// The category id shared by all repository sources.
pub const REPOSITORY_KIND: u64 = 100;

impl RepositorySource {
    pub fn new(repository_id: u64, name: String, url: String) -> (r: RepositorySource)
        ensures
            r.repository_id() == repository_id,
            r.source_name() == name@,
            r.source_url() == url@,
    {
        RepositorySource { repository_id, name, url }
    }

    pub closed spec fn repository_id(&self) -> u64 {
        self.repository_id
    }

    pub closed spec fn source_name(&self) -> Seq<char> {
        self.name@
    }

    pub closed spec fn source_url(&self) -> Seq<char> {
        self.url@
    }

    /// The source category: every repository belongs to the same one.
    pub fn id(&self) -> (r: u64)
        ensures
            r == REPOSITORY_KIND,
    {
        REPOSITORY_KIND
    }

    /// Priority within the category: the repository's configuration index.
    pub fn discriminator(&self) -> (r: u64)
        ensures
            r == self.repository_id(),
    {
        self.repository_id
    }

    /// The repository's display identifier: its configured name, or its
    /// URL when no name was given.
    pub fn identifier(&self) -> (r: &str)
        ensures
            self.source_name().len() > 0 ==> r@ == self.source_name(),
            self.source_name().len() == 0 ==> r@ == self.source_url(),
    {
        if !self.name.as_str().is_empty() {
            self.name.as_str()
        } else {
            self.url.as_str()
        }
    }

    pub fn duplicate(&self) -> (r: RepositorySource)
        ensures
            r.repository_id() == self.repository_id(),
            r.source_name() == self.source_name(),
            r.source_url() == self.source_url(),
    {
        RepositorySource {
            repository_id: self.repository_id,
            name: self.name.clone(),
            url: self.url.clone(),
        }
    }
}

/// One installable release as a repository lists it: its dependency
/// requests. Download URLs and digests are inert to resolution and stay
/// outside the core.
#[derive(Debug)]
pub struct Release {
    pub dependencies: Vec<PackageRequest>,
}

/// One repository's fetched document: its configured name and URL, and
/// the packages it offers, each with the releases it lists.
#[derive(Debug)]
pub struct RepoDocument {
    pub name: String,
    pub url: String,
    pub packages: Vec<(PackageName, Vec<(Version, Release)>)>,
}

/// One concretely installable release: a version, the source that offers
/// it, and the requests it adds to the graph.
#[derive(Debug)]
pub struct Candidate {
    pub version: Version,
    pub source: RepositorySource,
    pub dependencies: Vec<PackageRequest>,
}

impl Candidate {
    pub fn new(version: Version, source: RepositorySource, dependencies: Vec<PackageRequest>) -> (r:
        Candidate)
        ensures
            r.version == version,
            r.source.repository_id() == source.repository_id(),
            r.source.source_name() == source.source_name(),
            r.source.source_url() == source.source_url(),
            r.dependencies == dependencies,
    {
        Candidate { version, source, dependencies }
    }
}

/// `pkgs[e]` is the first entry of `pkgs` whose name is `name`.
pub open spec fn first_entry_at(
    pkgs: Seq<(PackageName, Vec<(Version, Release)>)>,
    name: Seq<char>,
    e: int,
) -> bool {
    &&& 0 <= e < pkgs.len()
    &&& pkgs[e].0@ == name
    &&& forall|k: int| 0 <= k < e ==> (#[trigger] pkgs[k]).0@ != name
}

/// `c` is exactly the candidate built from version slot `v` of the first
/// `name` entry (at index `e`) of document `d`.
pub open spec fn cand_corresponds(
    docs: Seq<RepoDocument>,
    name: Seq<char>,
    d: int,
    e: int,
    v: int,
    c: Candidate,
) -> bool {
    &&& 0 <= d < docs.len()
    &&& first_entry_at(docs[d].packages@, name, e)
    &&& 0 <= v < docs[d].packages@[e].1@.len()
    &&& c.version == docs[d].packages@[e].1@[v].0
    &&& c.source.repository_id() == d as u64
    &&& c.source.source_name() == docs[d].name@
    &&& c.source.source_url() == docs[d].url@
    &&& reqs_eq(c.dependencies@, docs[d].packages@[e].1@[v].1.dependencies@)
}

/// `c` is one of the candidates the configured repositories offer for
/// `name`.
pub open spec fn cand_from(docs: Seq<RepoDocument>, name: Seq<char>, c: Candidate) -> bool {
    exists|d: int, e: int, v: int| cand_corresponds(docs, name, d, e, v, c)
}

/// Document `d`'s first `name` entry is at `e` and has a version slot `v`.
pub open spec fn offered_at(
    docs: Seq<RepoDocument>,
    name: Seq<char>,
    d: int,
    e: int,
    v: int,
) -> bool {
    &&& 0 <= d < docs.len()
    &&& first_entry_at(docs[d].packages@, name, e)
    &&& 0 <= v < docs[d].packages@[e].1@.len()
}

/// A sequence has at most one first entry for a name.
pub proof fn lemma_first_entry_unique(
    pkgs: Seq<(PackageName, Vec<(Version, Release)>)>,
    name: Seq<char>,
    e1: int,
    e2: int,
)
    requires
        first_entry_at(pkgs, name, e1),
        first_entry_at(pkgs, name, e2),
    ensures
        e1 == e2,
{
    if e1 < e2 {
        assert(pkgs[e1].0@ != name);
    }
    if e2 < e1 {
        assert(pkgs[e2].0@ != name);
    }
}

/// The fetched repository documents, in user-configured priority order.
#[derive(Debug)]
pub struct Repository {
    docs: Vec<RepoDocument>,
}

impl Repository {
    /// The documents held, first-configured first.
    pub closed spec fn docs(&self) -> Seq<RepoDocument> {
        self.docs@
    }

    pub fn new() -> (r: Repository)
        ensures
            r.docs().len() == 0,
    {
        Repository { docs: Vec::new() }
    }

    /// Record the next fetched document; order of calls is the priority
    /// order the aggregator honours.
    pub fn push_document(&mut self, doc: RepoDocument)
        ensures
            final(self).docs() == old(self).docs().push(doc),
    {
        self.docs.push(doc);
    }

    /// Every installable candidate for `package`, drawn from each
    /// repository that lists it, repositories in configuration order.
    /// Version order within one repository is whatever the document holds.
    pub fn candidates(&self, package: &PackageName) -> (r: Vec<Candidate>)
        ensures
            forall|i: int| 0 <= i < r@.len() ==> cand_from(self.docs(), package@, #[trigger] r@[i]),
            forall|d: int, e: int, v: int|
                #[trigger] offered_at(self.docs(), package@, d, e, v) ==> exists|i: int|
                    0 <= i < r@.len() && cand_corresponds(
                        self.docs(),
                        package@,
                        d,
                        e,
                        v,
                        #[trigger] r@[i],
                    ),
            forall|i: int, j: int|
                0 <= i < j < r@.len() ==> (#[trigger] r@[i]).source.repository_id() <= (
                #[trigger] r@[j]).source.repository_id(),
    {
        let ghost docs = self.docs@;
        let mut out: Vec<Candidate> = Vec::new();
        let mut d: usize = 0;
        while d < self.docs.len()
            invariant
                docs == self.docs@,
                0 <= d <= docs.len(),
                forall|i: int| 0 <= i < out@.len() ==> cand_from(docs, package@, #[trigger] out@[i]),
                forall|dd: int, e: int, v: int|
                    (#[trigger] offered_at(docs, package@, dd, e, v) && dd < d) ==> exists|i: int|
                        0 <= i < out@.len() && cand_corresponds(
                            docs,
                            package@,
                            dd,
                            e,
                            v,
                            #[trigger] out@[i],
                        ),
                forall|i: int|
                    0 <= i < out@.len() ==> (#[trigger] out@[i]).source.repository_id() < d as u64,
                forall|i: int, j: int|
                    0 <= i < j < out@.len() ==> (#[trigger] out@[i]).source.repository_id() <= (
                    #[trigger] out@[j]).source.repository_id(),
            decreases docs.len() - d,
        {
            let doc = &self.docs[d];
            if let Some(e) = find_package_entry(doc, package) {
                let versions: &Vec<(Version, Release)> = &doc.packages[e].1;
                let mut v: usize = 0;
                while v < versions.len()
                    invariant
                        docs == self.docs@,
                        0 <= d < docs.len(),
                        doc == docs[d as int],
                        first_entry_at(docs[d as int].packages@, package@, e as int),
                        e < doc.packages@.len(),
                        versions == docs[d as int].packages@[e as int].1,
                        0 <= v <= versions@.len(),
                        forall|i: int|
                            0 <= i < out@.len() ==> cand_from(docs, package@, #[trigger] out@[i]),
                        forall|dd: int, ee: int, vv: int|
                            (#[trigger] offered_at(docs, package@, dd, ee, vv) && dd < d)
                                ==> exists|i: int|
                                0 <= i < out@.len() && cand_corresponds(
                                    docs,
                                    package@,
                                    dd,
                                    ee,
                                    vv,
                                    #[trigger] out@[i],
                                ),
                        forall|vv: int|
                            (#[trigger] offered_at(docs, package@, d as int, e as int, vv) && vv
                                < v) ==> exists|i: int|
                                0 <= i < out@.len() && cand_corresponds(
                                    docs,
                                    package@,
                                    d as int,
                                    e as int,
                                    vv,
                                    #[trigger] out@[i],
                                ),
                        forall|i: int|
                            0 <= i < out@.len() ==> (#[trigger] out@[i]).source.repository_id()
                                <= d as u64,
                        forall|i: int, j: int|
                            0 <= i < j < out@.len() ==> (#[trigger] out@[i]).source.repository_id()
                                <= (#[trigger] out@[j]).source.repository_id(),
                    decreases versions@.len() - v,
                {
                    let ghost out0 = out@;
                    let ver: Version = versions[v].0;
                    let deps = duplicate_requests(&versions[v].1.dependencies);
                    let src = RepositorySource::new(d as u64, doc.name.clone(), doc.url.clone());
                    let cand = Candidate::new(ver, src, deps);
                    proof {
                        assert(cand_corresponds(docs, package@, d as int, e as int, v as int, cand));
                        assert(offered_at(docs, package@, d as int, e as int, v as int));
                    }
                    out.push(cand);
                    proof {
                        assert(out@ == out0.push(cand));
                        assert forall|dd: int, ee: int, vv: int|
                            #[trigger] offered_at(docs, package@, dd, ee, vv) && dd < d implies exists|i: int|
                            0 <= i < out@.len() && cand_corresponds(
                                docs,
                                package@,
                                dd,
                                ee,
                                vv,
                                #[trigger] out@[i],
                            ) by {
                            let i0 = choose|i: int|
                                0 <= i < out0.len() && cand_corresponds(
                                    docs,
                                    package@,
                                    dd,
                                    ee,
                                    vv,
                                    out0[i],
                                );
                            assert(out@[i0] == out0[i0]);
                            assert(cand_corresponds(docs, package@, dd, ee, vv, out@[i0]));
                        }
                        assert forall|vv: int|
                            #[trigger] offered_at(docs, package@, d as int, e as int, vv) && vv < v
                                + 1 implies exists|i: int|
                            0 <= i < out@.len() && cand_corresponds(
                                docs,
                                package@,
                                d as int,
                                e as int,
                                vv,
                                #[trigger] out@[i],
                            ) by {
                            if vv < v {
                                let i0 = choose|i: int|
                                    0 <= i < out0.len() && cand_corresponds(
                                        docs,
                                        package@,
                                        d as int,
                                        e as int,
                                        vv,
                                        out0[i],
                                    );
                                assert(out@[i0] == out0[i0]);
                                assert(cand_corresponds(docs, package@, d as int, e as int, vv, out@[i0]));
                            } else {
                                assert(out@[out0.len() as int] == cand);
                                assert(cand_corresponds(
                                    docs,
                                    package@,
                                    d as int,
                                    e as int,
                                    vv,
                                    out@[out0.len() as int],
                                ));
                            }
                        }
                    }
                    v += 1;
                }
                proof {
                    assert forall|dd: int, ee: int, vv: int|
                        #[trigger] offered_at(docs, package@, dd, ee, vv) && dd < d + 1 implies exists|i: int|
                        0 <= i < out@.len() && cand_corresponds(
                            docs,
                            package@,
                            dd,
                            ee,
                            vv,
                            #[trigger] out@[i],
                        ) by {
                        if dd == d {
                            lemma_first_entry_unique(docs[dd].packages@, package@, ee, e as int);
                            assert(offered_at(docs, package@, d as int, e as int, vv));
                        }
                    }
                }
            } else {
                proof {
                    assert forall|dd: int, ee: int, vv: int|
                        #[trigger] offered_at(docs, package@, dd, ee, vv) && dd < d + 1 implies exists|i: int|
                        0 <= i < out@.len() && cand_corresponds(
                            docs,
                            package@,
                            dd,
                            ee,
                            vv,
                            #[trigger] out@[i],
                        ) by {
                        if dd == d {
                            assert(docs[dd].packages@[ee].0@ == package@);
                            assert(false);
                        }
                    }
                }
            }
            d += 1;
        }
        out
    }
}

/// The index of the first entry for `name` in `doc`, if the document
/// lists the package at all.
fn find_package_entry(doc: &RepoDocument, name: &PackageName) -> (r: Option<usize>)
    ensures
        r matches Some(e) ==> first_entry_at(doc.packages@, name@, e as int),
        r is None ==> forall|k: int|
            0 <= k < doc.packages@.len() ==> (#[trigger] doc.packages@[k]).0@ != name@,
{
    let mut k: usize = 0;
    while k < doc.packages.len()
        invariant
            0 <= k <= doc.packages@.len(),
            forall|j: int| 0 <= j < k ==> (#[trigger] doc.packages@[j]).0@ != name@,
        decreases doc.packages@.len() - k,
    {
        if doc.packages[k].0.same_name(name) {
            return Some(k);
        }
        k += 1;
    }
    None
}

} // verus!
