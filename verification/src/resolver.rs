//! The resolution engine: a backtracking constraint solver that picks one
//! version per package so that every requested range and every dependency
//! range of a chosen release is satisfied. Candidates are tried newest
//! version first; on version ties the source that sorts first (lower
//! category id, then lower discriminator) wins.

use vstd::prelude::*;

use crate::PackageName;
use crate::repository::{Candidate, RepoDocument, Repository, cand_from};
use crate::version::{Constraint, PackageRequest, Version, req_sat, ver_lt};

verus! {

/// `res` assigns `name` a version that satisfies the range `c`.
pub open spec fn res_sat(res: Seq<(PackageName, Candidate)>, name: Seq<char>, c: Seq<char>) -> bool {
    exists|i: int|
        0 <= i < res.len() && (#[trigger] res[i]).0@ == name && req_sat(
            c,
            res[i].1.version.major as int,
            res[i].1.version.minor as int,
            res[i].1.version.patch as int,
        )
}

/// No package name is assigned twice.
pub open spec fn names_unique(res: Seq<(PackageName, Candidate)>) -> bool {
    forall|i: int, j: int| 0 <= i < j < res.len() ==> (#[trigger] res[i]).0@ != (#[trigger] res[j]).0@
}

/// Every requested package is assigned a version satisfying its range.
pub open spec fn covers_requested(
    requested: Seq<PackageRequest>,
    res: Seq<(PackageName, Candidate)>,
) -> bool {
    forall|k: int|
        0 <= k < requested.len() ==> res_sat(
            res,
            (#[trigger] requested[k]).name@,
            requested[k].version@,
        )
}

/// Every dependency of every chosen release is assigned a satisfying
/// version as well.
pub open spec fn deps_closed(res: Seq<(PackageName, Candidate)>) -> bool {
    forall|i: int, j: int|
        0 <= i < res.len() && 0 <= j < res[i].1.dependencies@.len() ==> res_sat(
            res,
            (#[trigger] res[i].1.dependencies@[j]).name@,
            res[i].1.dependencies@[j].version@,
        )
}

/// Every chosen candidate is one the repositories actually offer for the
/// name it is assigned to.
pub open spec fn from_repos(docs: Seq<RepoDocument>, res: Seq<(PackageName, Candidate)>) -> bool {
    forall|i: int| 0 <= i < res.len() ==> cand_from(docs, (#[trigger] res[i]).0@, res[i].1)
}

/// A consistent assignment: one candidate per package, drawn from the
/// repositories, satisfying the requested set and closed under every
/// chosen release's dependencies.
pub open spec fn resolution_ok(
    requested: Seq<PackageRequest>,
    docs: Seq<RepoDocument>,
    res: Seq<(PackageName, Candidate)>,
) -> bool {
    &&& names_unique(res)
    &&& covers_requested(requested, res)
    &&& deps_closed(res)
    &&& from_repos(docs, res)
}

/// Why resolution gave up: the package for which every candidate was
/// excluded, with the ranges that were imposed on it at that point.
#[derive(Debug)]
pub enum SolverError {
    Unsatisfiable { package: PackageName, constraints: Vec<Constraint> },
}

/// Dependency slot `j` of version slot `v` of package entry `e` of
/// document `d` exists.
pub open spec fn dep_slot(docs: Seq<RepoDocument>, d: int, e: int, v: int, j: int) -> bool {
    &&& 0 <= d < docs.len()
    &&& 0 <= e < docs[d].packages@.len()
    &&& 0 <= v < docs[d].packages@[e].1@.len()
    &&& 0 <= j < docs[d].packages@[e].1@[v].1.dependencies@.len()
}

/// The request standing in that dependency slot.
pub open spec fn dep_in_slot(docs: Seq<RepoDocument>, d: int, e: int, v: int, j: int) -> PackageRequest {
    docs[d].packages@[e].1@[v].1.dependencies@[j]
}

/// `name` is mentioned by the inputs: requested directly, or required as
/// a dependency by some release a repository lists.
pub open spec fn mentioned_name(
    requested: Seq<PackageRequest>,
    docs: Seq<RepoDocument>,
    name: Seq<char>,
) -> bool {
    ||| exists|k: int| 0 <= k < requested.len() && (#[trigger] requested[k]).name@ == name
    ||| exists|d: int, e: int, v: int, j: int|
        #![trigger dep_in_slot(docs, d, e, v, j)]
        dep_slot(docs, d, e, v, j) && dep_in_slot(docs, d, e, v, j).name@ == name
}

/// The inputs impose the range `c` on `name`: it is the requested range
/// for `name`, or a dependency range some listed release places on it.
pub open spec fn range_on(
    requested: Seq<PackageRequest>,
    docs: Seq<RepoDocument>,
    name: Seq<char>,
    c: Seq<char>,
) -> bool {
    ||| exists|k: int|
        0 <= k < requested.len() && (#[trigger] requested[k]).name@ == name && requested[k].version@
            == c
    ||| exists|d: int, e: int, v: int, j: int|
        #![trigger dep_in_slot(docs, d, e, v, j)]
        dep_slot(docs, d, e, v, j) && dep_in_slot(docs, d, e, v, j).name@ == name && dep_in_slot(
            docs,
            d,
            e,
            v,
            j,
        ).version@ == c
}

/// One tentative choice: the package, the ordered candidates that were
/// admissible when it was decided, and which of them is currently chosen.
struct Decision {
    name: PackageName,
    cands: Vec<Candidate>,
    idx: usize,
}

spec fn chosen(t: Seq<Decision>, i: int) -> Candidate {
    t[i].cands@[t[i].idx as int]
}

spec fn t_idx_ok(t: Seq<Decision>) -> bool {
    forall|i: int| 0 <= i < t.len() ==> (#[trigger] t[i]).idx < t[i].cands@.len()
}

spec fn t_names_unique(t: Seq<Decision>) -> bool {
    forall|i: int, j: int| 0 <= i < j < t.len() ==> (#[trigger] t[i]).name@ != (#[trigger] t[j]).name@
}

spec fn t_wf(docs: Seq<RepoDocument>, t: Seq<Decision>) -> bool {
    &&& t_idx_ok(t)
    &&& t_names_unique(t)
    &&& forall|i: int, k: int|
        0 <= i < t.len() && 0 <= k < t[i].cands@.len() ==> cand_from(
            docs,
            (#[trigger] t[i]).name@,
            #[trigger] t[i].cands@[k],
        )
}

spec fn t_assigned(t: Seq<Decision>, name: Seq<char>) -> bool {
    exists|i: int| 0 <= i < t.len() && (#[trigger] t[i]).name@ == name
}

spec fn t_sat(t: Seq<Decision>, name: Seq<char>, c: Seq<char>) -> bool {
    exists|i: int|
        0 <= i < t.len() && (#[trigger] t[i]).name@ == name && req_sat(
            c,
            chosen(t, i).version.major as int,
            chosen(t, i).version.minor as int,
            chosen(t, i).version.patch as int,
        )
}

spec fn t_requested_ok(requested: Seq<PackageRequest>, t: Seq<Decision>) -> bool {
    forall|k: int|
        0 <= k < requested.len() ==> t_sat(t, (#[trigger] requested[k]).name@, requested[k].version@)
}

/// `name` is requested or demanded by some chosen release of the trail.
spec fn needed_name(requested: Seq<PackageRequest>, t: Seq<Decision>, name: Seq<char>) -> bool {
    ||| exists|k: int| 0 <= k < requested.len() && (#[trigger] requested[k]).name@ == name
    ||| exists|i: int, j: int|
        0 <= i < t.len() && t[i].idx < t[i].cands@.len() && 0 <= j < chosen(t, i).dependencies@.len()
            && (#[trigger] chosen(t, i).dependencies@[j]).name@ == name
}

/// A needed name is mentioned by the inputs themselves: every chosen
/// release is one the repositories offer, so its demands trace back to a
/// listed dependency slot.
proof fn lemma_needed_mentioned(
    requested: Seq<PackageRequest>,
    docs: Seq<RepoDocument>,
    t: Seq<Decision>,
    name: Seq<char>,
)
    requires
        t_wf(docs, t),
        needed_name(requested, t, name),
    ensures
        mentioned_name(requested, docs, name),
{
    if !(exists|k: int| 0 <= k < requested.len() && (#[trigger] requested[k]).name@ == name) {
        let (i, j): (int, int) = choose|i: int, j: int|
            0 <= i < t.len() && t[i].idx < t[i].cands@.len() && 0 <= j < chosen(
                t,
                i,
            ).dependencies@.len() && (#[trigger] chosen(t, i).dependencies@[j]).name@ == name;
        assert(cand_from(docs, t[i].name@, t[i].cands@[t[i].idx as int]));
        let (d, e, v): (int, int, int) = choose|d: int, e: int, v: int|
            crate::repository::cand_corresponds(docs, t[i].name@, d, e, v, chosen(t, i));
        assert(dep_slot(docs, d, e, v, j));
        assert(dep_in_slot(docs, d, e, v, j).name@ == name);
    }
}

/// An imposed range traces back the same way: to the requested set or to
/// a dependency slot of a listed release.
proof fn lemma_imposed_range_on(
    requested: Seq<PackageRequest>,
    docs: Seq<RepoDocument>,
    t: Seq<Decision>,
    name: Seq<char>,
    c: Seq<char>,
)
    requires
        t_wf(docs, t),
        imposed(requested, t, name, c),
    ensures
        range_on(requested, docs, name, c),
{
    if !(exists|k: int|
        0 <= k < requested.len() && (#[trigger] requested[k]).name@ == name && requested[k].version@
            == c) {
        let (i, j): (int, int) = choose|i: int, j: int|
            0 <= i < t.len() && 0 <= j < chosen(t, i).dependencies@.len() && (#[trigger] chosen(
                t,
                i,
            ).dependencies@[j]).name@ == name && chosen(t, i).dependencies@[j].version@ == c;
        assert(cand_from(docs, t[i].name@, t[i].cands@[t[i].idx as int]));
        let (d, e, v): (int, int, int) = choose|d: int, e: int, v: int|
            crate::repository::cand_corresponds(docs, t[i].name@, d, e, v, chosen(t, i));
        assert(dep_slot(docs, d, e, v, j));
        assert(dep_in_slot(docs, d, e, v, j).name@ == name);
        assert(dep_in_slot(docs, d, e, v, j).version@ == c);
    }
}

spec fn t_deps_ok(t: Seq<Decision>) -> bool {
    forall|i: int, j: int|
        0 <= i < t.len() && 0 <= j < chosen(t, i).dependencies@.len() ==> t_sat(
            t,
            (#[trigger] chosen(t, i).dependencies@[j]).name@,
            chosen(t, i).dependencies@[j].version@,
        )
}

/// The version currently chosen for `name`, if any decision assigns it.
fn find_chosen(trail: &Vec<Decision>, name: &PackageName) -> (r: Option<Version>)
    requires
        t_idx_ok(trail@),
    ensures
        r is None ==> !t_assigned(trail@, name@),
        r matches Some(ver) ==> exists|i: int|
            0 <= i < trail@.len() && (#[trigger] trail@[i]).name@ == name@ && chosen(trail@, i).version
                == ver,
{
    let mut i: usize = 0;
    while i < trail.len()
        invariant
            t_idx_ok(trail@),
            0 <= i <= trail@.len(),
            forall|k: int| 0 <= k < i ==> (#[trigger] trail@[k]).name@ != name@,
        decreases trail@.len() - i,
    {
        if trail[i].name.same_name(name) {
            let d = &trail[i];
            let ver = d.cands[d.idx].version;
            return Some(ver);
        }
        i += 1;
    }
    None
}

/// What the solver should do next: nothing (a full, consistent assignment
/// stands), decide a package that some imposed range mentions but no
/// decision covers, or back off because an assigned package violates a
/// range imposed on it.
enum Work {
    Done,
    Need(PackageName),
    Conflict(PackageName),
}

fn find_work(requested: &Vec<PackageRequest>, trail: &Vec<Decision>) -> (w: Work)
    requires
        t_idx_ok(trail@),
    ensures
        w is Done ==> t_requested_ok(requested@, trail@) && t_deps_ok(trail@),
        w matches Work::Need(n) ==> !t_assigned(trail@, n@) && needed_name(requested@, trail@, n@),
        w matches Work::Conflict(n) ==> needed_name(requested@, trail@, n@) && t_assigned(
            trail@,
            n@,
        ),
        (t_names_unique(trail@) && t_requested_ok(requested@, trail@) && t_deps_ok(trail@)) ==> w
            is Done,
{
    let mut k: usize = 0;
    while k < requested.len()
        invariant
            t_idx_ok(trail@),
            0 <= k <= requested@.len(),
            forall|kk: int|
                0 <= kk < k ==> t_sat(
                    trail@,
                    (#[trigger] requested@[kk]).name@,
                    requested@[kk].version@,
                ),
        decreases requested@.len() - k,
    {
        let req = &requested[k];
        match find_chosen(trail, &req.name) {
            None => {
                proof {
                    if t_requested_ok(requested@, trail@) {
                        assert(t_sat(trail@, requested@[k as int].name@, requested@[
                            k as int].version@));
                        assert(false);
                    }
                }
                return Work::Need(req.name.duplicate());
            },
            Some(ver) => {
                if !req.version.matches(&ver) {
                    proof {
                        if t_names_unique(trail@) && t_requested_ok(requested@, trail@) {
                            let i0 = choose|i: int|
                                0 <= i < trail@.len() && (#[trigger] trail@[i]).name@ == req.name@
                                    && chosen(trail@, i).version == ver;
                            let i1 = choose|i: int|
                                0 <= i < trail@.len() && (#[trigger] trail@[i]).name@
                                    == requested@[k as int].name@ && req_sat(
                                    requested@[k as int].version@,
                                    chosen(trail@, i).version.major as int,
                                    chosen(trail@, i).version.minor as int,
                                    chosen(trail@, i).version.patch as int,
                                );
                            if i0 != i1 {
                                assert(trail@[i0].name@ != trail@[i1].name@);
                            }
                            assert(false);
                        }
                    }
                    return Work::Conflict(req.name.duplicate());
                }
                proof {
                    let i0 = choose|i: int|
                        0 <= i < trail@.len() && (#[trigger] trail@[i]).name@ == req.name@ && chosen(
                            trail@,
                            i,
                        ).version == ver;
                    assert(trail@[i0].name@ == requested@[k as int].name@);
                }
            },
        }
        k += 1;
    }
    let mut a: usize = 0;
    while a < trail.len()
        invariant
            t_idx_ok(trail@),
            t_requested_ok(requested@, trail@),
            0 <= a <= trail@.len(),
            forall|aa: int, j: int|
                0 <= aa < a && 0 <= j < chosen(trail@, aa).dependencies@.len() ==> t_sat(
                    trail@,
                    (#[trigger] chosen(trail@, aa).dependencies@[j]).name@,
                    chosen(trail@, aa).dependencies@[j].version@,
                ),
        decreases trail@.len() - a,
    {
        let d = &trail[a];
        let cand = &d.cands[d.idx];
        let mut b: usize = 0;
        while b < cand.dependencies.len()
            invariant
                t_idx_ok(trail@),
                0 <= a < trail@.len(),
                cand == chosen(trail@, a as int),
                0 <= b <= cand.dependencies@.len(),
                forall|j: int|
                    0 <= j < b ==> t_sat(
                        trail@,
                        (#[trigger] chosen(trail@, a as int).dependencies@[j]).name@,
                        chosen(trail@, a as int).dependencies@[j].version@,
                    ),
            decreases cand.dependencies@.len() - b,
        {
            let dep = &cand.dependencies[b];
            match find_chosen(trail, &dep.name) {
                None => {
                    proof {
                        if t_deps_ok(trail@) {
                            assert(t_sat(
                                trail@,
                                chosen(trail@, a as int).dependencies@[b as int].name@,
                                chosen(trail@, a as int).dependencies@[b as int].version@,
                            ));
                            assert(false);
                        }
                    }
                    return Work::Need(dep.name.duplicate());
                },
                Some(ver) => {
                    if !dep.version.matches(&ver) {
                        proof {
                            if t_names_unique(trail@) && t_deps_ok(trail@) {
                                let dn = chosen(trail@, a as int).dependencies@[b as int].name@;
                                let dc = chosen(trail@, a as int).dependencies@[b as int].version@;
                                assert(t_sat(trail@, dn, dc));
                                let i0 = choose|i: int|
                                    0 <= i < trail@.len() && (#[trigger] trail@[i]).name@
                                        == dep.name@ && chosen(trail@, i).version == ver;
                                let i1 = choose|i: int|
                                    0 <= i < trail@.len() && (#[trigger] trail@[i]).name@ == dn
                                        && req_sat(
                                        dc,
                                        chosen(trail@, i).version.major as int,
                                        chosen(trail@, i).version.minor as int,
                                        chosen(trail@, i).version.patch as int,
                                    );
                                if i0 != i1 {
                                    assert(trail@[i0].name@ != trail@[i1].name@);
                                }
                                assert(false);
                            }
                        }
                        return Work::Conflict(dep.name.duplicate());
                    }
                    proof {
                        let i0 = choose|i: int|
                            0 <= i < trail@.len() && (#[trigger] trail@[i]).name@ == dep.name@
                                && chosen(trail@, i).version == ver;
                        assert(trail@[i0].name@ == chosen(trail@, a as int).dependencies@[
                            b as int].name@);
                    }
                },
            }
            b += 1;
        }
        a += 1;
    }
    Work::Done
}

/// A range on `name` currently in force: either requested directly or
/// demanded by a dependency of some chosen release.
spec fn imposed(
    requested: Seq<PackageRequest>,
    t: Seq<Decision>,
    name: Seq<char>,
    c: Seq<char>,
) -> bool {
    ||| exists|k: int|
        0 <= k < requested.len() && (#[trigger] requested[k]).name@ == name && requested[k].version@
            == c
    ||| exists|i: int, j: int|
        0 <= i < t.len() && 0 <= j < chosen(t, i).dependencies@.len() && (#[trigger] chosen(
            t,
            i,
        ).dependencies@[j]).name@ == name && chosen(t, i).dependencies@[j].version@ == c
}

/// Every range the requested set or an already-chosen release imposes on
/// `name`, in scan order: nothing else, and nothing missing.
fn gather(requested: &Vec<PackageRequest>, trail: &Vec<Decision>, name: &PackageName) -> (r: Vec<
    Constraint,
>)
    requires
        t_idx_ok(trail@),
    ensures
        forall|k: int| 0 <= k < r@.len() ==> imposed(requested@, trail@, name@, (#[trigger] r@[k])@),
        forall|c: Seq<char>|
            #[trigger] imposed(requested@, trail@, name@, c) ==> exists|k: int|
                0 <= k < r@.len() && (#[trigger] r@[k])@ == c,
{
    let mut out: Vec<Constraint> = Vec::new();
    let mut k: usize = 0;
    while k < requested.len()
        invariant
            t_idx_ok(trail@),
            0 <= k <= requested@.len(),
            forall|kk: int|
                0 <= kk < out@.len() ==> imposed(requested@, trail@, name@, (#[trigger] out@[kk])@),
            forall|kk: int|
                0 <= kk < k && (#[trigger] requested@[kk]).name@ == name@ ==> exists|jj: int|
                    0 <= jj < out@.len() && (#[trigger] out@[jj])@ == requested@[kk].version@,
        decreases requested@.len() - k,
    {
        let ghost out0 = out@;
        let req = &requested[k];
        if req.name.same_name(name) {
            out.push(req.version.duplicate());
        }
        proof {
            assert forall|kk: int|
                0 <= kk < k + 1 && (#[trigger] requested@[kk]).name@ == name@ implies exists|jj: int|
                0 <= jj < out@.len() && (#[trigger] out@[jj])@ == requested@[kk].version@ by {
                if kk < k {
                    let j0 = choose|jj: int|
                        0 <= jj < out0.len() && (#[trigger] out0[jj])@ == requested@[kk].version@;
                    assert(out@[j0] == out0[j0]);
                } else {
                    assert(out@[out@.len() - 1]@ == requested@[kk].version@);
                }
            }
        }
        k += 1;
    }
    let mut a: usize = 0;
    while a < trail.len()
        invariant
            t_idx_ok(trail@),
            0 <= a <= trail@.len(),
            forall|kk: int|
                0 <= kk < out@.len() ==> imposed(requested@, trail@, name@, (#[trigger] out@[kk])@),
            forall|kk: int|
                0 <= kk < requested@.len() && (#[trigger] requested@[kk]).name@ == name@
                    ==> exists|jj: int|
                    0 <= jj < out@.len() && (#[trigger] out@[jj])@ == requested@[kk].version@,
            forall|aa: int, bb: int|
                0 <= aa < a && 0 <= bb < chosen(trail@, aa).dependencies@.len() && (
                #[trigger] chosen(trail@, aa).dependencies@[bb]).name@ == name@ ==> exists|jj: int|
                    0 <= jj < out@.len() && (#[trigger] out@[jj])@ == chosen(
                        trail@,
                        aa,
                    ).dependencies@[bb].version@,
        decreases trail@.len() - a,
    {
        let d = &trail[a];
        let cand = &d.cands[d.idx];
        let mut b: usize = 0;
        while b < cand.dependencies.len()
            invariant
                t_idx_ok(trail@),
                0 <= a < trail@.len(),
                cand == chosen(trail@, a as int),
                0 <= b <= cand.dependencies@.len(),
                forall|kk: int|
                    0 <= kk < out@.len() ==> imposed(
                        requested@,
                        trail@,
                        name@,
                        (#[trigger] out@[kk])@,
                    ),
                forall|kk: int|
                    0 <= kk < requested@.len() && (#[trigger] requested@[kk]).name@ == name@
                        ==> exists|jj: int|
                        0 <= jj < out@.len() && (#[trigger] out@[jj])@ == requested@[kk].version@,
                forall|aa: int, bb: int|
                    0 <= aa < a && 0 <= bb < chosen(trail@, aa).dependencies@.len() && (
                    #[trigger] chosen(trail@, aa).dependencies@[bb]).name@ == name@ ==> exists|
                        jj: int,
                    |
                        0 <= jj < out@.len() && (#[trigger] out@[jj])@ == chosen(
                            trail@,
                            aa,
                        ).dependencies@[bb].version@,
                forall|bb: int|
                    0 <= bb < b && (#[trigger] chosen(trail@, a as int).dependencies@[bb]).name@
                        == name@ ==> exists|jj: int|
                        0 <= jj < out@.len() && (#[trigger] out@[jj])@ == chosen(
                            trail@,
                            a as int,
                        ).dependencies@[bb].version@,
            decreases cand.dependencies@.len() - b,
        {
            let ghost out0 = out@;
            let dep = &cand.dependencies[b];
            if dep.name.same_name(name) {
                out.push(dep.version.duplicate());
            }
            proof {
                assert forall|kk: int|
                    0 <= kk < requested@.len() && (#[trigger] requested@[kk]).name@ == name@
                        implies exists|jj: int|
                    0 <= jj < out@.len() && (#[trigger] out@[jj])@ == requested@[kk].version@ by {
                    let j0 = choose|jj: int|
                        0 <= jj < out0.len() && (#[trigger] out0[jj])@ == requested@[kk].version@;
                    assert(out@[j0] == out0[j0]);
                }
                assert forall|aa: int, bb: int|
                    0 <= aa < a && 0 <= bb < chosen(trail@, aa).dependencies@.len() && (
                    #[trigger] chosen(trail@, aa).dependencies@[bb]).name@ == name@ implies exists|
                    jj: int,
                |
                    0 <= jj < out@.len() && (#[trigger] out@[jj])@ == chosen(
                        trail@,
                        aa,
                    ).dependencies@[bb].version@ by {
                    let j0 = choose|jj: int|
                        0 <= jj < out0.len() && (#[trigger] out0[jj])@ == chosen(
                            trail@,
                            aa,
                        ).dependencies@[bb].version@;
                    assert(out@[j0] == out0[j0]);
                }
                assert forall|bb: int|
                    0 <= bb < b + 1 && (#[trigger] chosen(trail@, a as int).dependencies@[bb]).name@
                        == name@ implies exists|jj: int|
                    0 <= jj < out@.len() && (#[trigger] out@[jj])@ == chosen(
                        trail@,
                        a as int,
                    ).dependencies@[bb].version@ by {
                    if bb < b {
                        let j0 = choose|jj: int|
                            0 <= jj < out0.len() && (#[trigger] out0[jj])@ == chosen(
                                trail@,
                                a as int,
                            ).dependencies@[bb].version@;
                        assert(out@[j0] == out0[j0]);
                    } else {
                        assert(out@[out@.len() - 1]@ == chosen(
                            trail@,
                            a as int,
                        ).dependencies@[bb].version@);
                    }
                }
            }
            b += 1;
        }
        a += 1;
    }
    proof {
        assert forall|c: Seq<char>| #[trigger] imposed(requested@, trail@, name@, c) implies exists|
            k: int,
        | 0 <= k < out@.len() && (#[trigger] out@[k])@ == c by {
            if exists|kk: int|
                0 <= kk < requested@.len() && (#[trigger] requested@[kk]).name@ == name@
                    && requested@[kk].version@ == c {
                let kk = choose|kk: int|
                    0 <= kk < requested@.len() && (#[trigger] requested@[kk]).name@ == name@
                        && requested@[kk].version@ == c;
                assert(exists|jj: int|
                    0 <= jj < out@.len() && (#[trigger] out@[jj])@ == requested@[kk].version@);
            } else {
                let (i, j): (int, int) = choose|i: int, j: int|
                    0 <= i < trail@.len() && 0 <= j < chosen(trail@, i).dependencies@.len() && (
                    #[trigger] chosen(trail@, i).dependencies@[j]).name@ == name@ && chosen(
                        trail@,
                        i,
                    ).dependencies@[j].version@ == c;
                assert(exists|jj: int|
                    0 <= jj < out@.len() && (#[trigger] out@[jj])@ == chosen(
                        trail@,
                        i,
                    ).dependencies@[j].version@);
            }
        }
    }
    out
}

/// The chosen version satisfies every range in `cons`.
spec fn spec_sat_all(v: Version, cons: Seq<Constraint>) -> bool {
    forall|k: int|
        0 <= k < cons.len() ==> req_sat(
            (#[trigger] cons[k])@,
            v.major as int,
            v.minor as int,
            v.patch as int,
        )
}

fn sat_all(v: &Version, cons: &Vec<Constraint>) -> (r: bool)
    ensures
        r == spec_sat_all(*v, cons@),
{
    let mut k: usize = 0;
    while k < cons.len()
        invariant
            0 <= k <= cons@.len(),
            forall|kk: int|
                0 <= kk < k ==> req_sat(
                    (#[trigger] cons@[kk])@,
                    v.major as int,
                    v.minor as int,
                    v.patch as int,
                ),
        decreases cons@.len() - k,
    {
        if !cons[k].matches(v) {
            return false;
        }
        k += 1;
    }
    true
}

/// Keep exactly the candidates whose version satisfies every imposed
/// range.
fn filter_matching(cands: Vec<Candidate>, cons: &Vec<Constraint>) -> (r: Vec<Candidate>)
    ensures
        forall|i: int|
            0 <= i < r@.len() ==> cands@.contains(#[trigger] r@[i]) && spec_sat_all(
                r@[i].version,
                cons@,
            ),
        forall|j: int|
            0 <= j < cands@.len() && spec_sat_all((#[trigger] cands@[j]).version, cons@)
                ==> r@.contains(cands@[j]),
{
    let ghost orig = cands@;
    let mut rest = cands;
    let mut out: Vec<Candidate> = Vec::new();
    while rest.len() > 0
        invariant
            rest@ =~= orig.subrange(orig.len() - rest@.len(), orig.len() as int),
            rest@.len() <= orig.len(),
            forall|i: int|
                0 <= i < out@.len() ==> orig.contains(#[trigger] out@[i]) && spec_sat_all(
                    out@[i].version,
                    cons@,
                ),
            forall|j: int|
                0 <= j < orig.len() - rest@.len() && spec_sat_all(
                    (#[trigger] orig[j]).version,
                    cons@,
                ) ==> out@.contains(orig[j]),
        decreases rest@.len(),
    {
        let ghost p = orig.len() - rest@.len();
        let ghost out0 = out@;
        let c = rest.remove(0);
        proof {
            assert(c == orig[p]);
            assert(rest@ =~= orig.subrange(orig.len() - rest@.len(), orig.len() as int));
        }
        let keep = sat_all(&c.version, cons);
        if keep {
            out.push(c);
        }
        proof {
            assert forall|j: int|
                0 <= j < orig.len() - rest@.len() && spec_sat_all(
                    (#[trigger] orig[j]).version,
                    cons@,
                ) implies out@.contains(orig[j]) by {
                if j < p {
                    let i0 = choose|i: int| 0 <= i < out0.len() && out0[i] == orig[j];
                    assert(out@[i0] == orig[j]);
                } else {
                    assert(out@[out@.len() - 1] == orig[p]);
                }
            }
        }
    }
    out
}

/// Preference order: a sorts no later than b when a's version is newer,
/// or equal with a source of no higher priority index.
pub open spec fn pref_le(a: Candidate, b: Candidate) -> bool {
    ||| ver_lt(b.version, a.version)
    ||| (a.version == b.version && a.source.repository_id() <= b.source.repository_id())
}

proof fn lemma_pref_total(a: Candidate, b: Candidate)
    ensures
        pref_le(a, b) || pref_le(b, a),
{
}

proof fn lemma_pref_trans(a: Candidate, b: Candidate, c: Candidate)
    requires
        pref_le(a, b),
        pref_le(b, c),
    ensures
        pref_le(a, c),
{
}

fn pref_le_exec(a: &Candidate, b: &Candidate) -> (r: bool)
    ensures
        r == pref_le(*a, *b),
{
    if crate::version::version_lt(&b.version, &a.version) {
        true
    } else if crate::version::version_lt(&a.version, &b.version) {
        false
    } else {
        a.source.discriminator() <= b.source.discriminator()
    }
}

/// Sort candidates into preference order (newest version first, source
/// priority breaking ties), keeping exactly the same elements.
fn sort_candidates(cands: Vec<Candidate>) -> (r: Vec<Candidate>)
    ensures
        r@.len() == cands@.len(),
        forall|i: int| 0 <= i < r@.len() ==> cands@.contains(#[trigger] r@[i]),
        forall|j: int| 0 <= j < cands@.len() ==> r@.contains(#[trigger] cands@[j]),
        forall|i: int, j: int| 0 <= i < j < r@.len() ==> pref_le(#[trigger] r@[i], #[trigger] r@[j]),
{
    let ghost orig = cands@;
    let mut rest = cands;
    let mut out: Vec<Candidate> = Vec::new();
    while rest.len() > 0
        invariant
            out@.len() + rest@.len() == orig.len(),
            rest@ =~= orig.subrange(orig.len() - rest@.len(), orig.len() as int),
            forall|i: int|
                0 <= i < rest@.len() ==> orig.contains(#[trigger] rest@[i]),
            forall|i: int| 0 <= i < out@.len() ==> orig.contains(#[trigger] out@[i]),
            forall|j: int|
                0 <= j < orig.len() - rest@.len() ==> out@.contains(#[trigger] orig[j]),
            forall|i: int, j: int|
                0 <= i < j < out@.len() ==> pref_le(#[trigger] out@[i], #[trigger] out@[j]),
        decreases rest@.len(),
    {
        let ghost p = orig.len() - rest@.len();
        proof {
            assert(rest@.contains(rest@[0]));
        }
        let c = rest.remove(0);
        let ghost out0 = out@;
        proof {
            assert(c == orig[p]);
            assert(rest@ =~= orig.subrange(orig.len() - rest@.len(), orig.len() as int));
        }
        let mut k: usize = 0;
        while k < out.len() && pref_le_exec(&out[k], &c)
            invariant
                0 <= k <= out@.len(),
                out@ == out0,
                forall|kk: int| 0 <= kk < k ==> pref_le(#[trigger] out@[kk], c),
            decreases out@.len() - k,
        {
            k += 1;
        }
        out.insert(k, c);
        proof {
            assert forall|j: int| 0 <= j < orig.len() - rest@.len() implies out@.contains(
                #[trigger] orig[j],
            ) by {
                if j < p {
                    let i0 = choose|i: int| 0 <= i < out0.len() && out0[i] == orig[j];
                    if i0 < k {
                        assert(out@[i0] == orig[j]);
                    } else {
                        assert(out@[i0 + 1] == orig[j]);
                    }
                } else {
                    assert(out@[k as int] == orig[p]);
                }
            }
            assert forall|i: int, j: int|
                0 <= i < j < out@.len() implies pref_le(#[trigger] out@[i], #[trigger] out@[j]) by {
                if i < k && j == k {
                    assert(pref_le(out0[i], c));
                } else if i == k && j > k {
                    lemma_pref_total(c, out0[j - 1]);
                    if k < out0.len() {
                        if j - 1 == k {
                        } else {
                            lemma_pref_trans(c, out0[k as int], out0[j - 1]);
                        }
                    }
                } else if i < k && j > k {
                    assert(pref_le(out0[i], out0[j - 1]));
                } else if i > k && j > k {
                    assert(pref_le(out0[i - 1], out0[j - 1]));
                } else {
                    assert(pref_le(out0[i], out0[j - 1]));
                }
            }
        }
    }
    out
}

/// Pop decisions until one still has an untried candidate, and advance to
/// that candidate; reports whether any decision level remains.
fn backtrack(trail: &mut Vec<Decision>, Ghost(docs): Ghost<Seq<RepoDocument>>) -> (r: bool)
    requires
        t_wf(docs, old(trail)@),
    ensures
        t_wf(docs, final(trail)@),
        old(trail)@.len() == 0 ==> !r,
{
    while trail.len() > 0
        invariant
            t_wf(docs, trail@),
            old(trail)@.len() == 0 ==> trail@.len() == 0,
        decreases trail@.len(),
    {
        let ghost t0 = trail@;
        let popped = trail.pop();
        let mut d = match popped {
            Some(d) => d,
            None => {
                proof {
                    assert(false);
                }
                unreached()
            },
        };
        proof {
            assert(trail@ =~= t0.subrange(0, t0.len() - 1));
            assert(d == t0[t0.len() - 1]);
            assert(t0[t0.len() - 1].idx < t0[t0.len() - 1].cands@.len());
        }
        let l = d.cands.len();
        if d.idx + 1 < l {
            d.idx = d.idx + 1;
            let ghost t1 = trail@;
            trail.push(d);
            proof {
                assert forall|i: int, kk: int|
                    0 <= i < trail@.len() && 0 <= kk < trail@[i].cands@.len() implies cand_from(
                    docs,
                    (#[trigger] trail@[i]).name@,
                    #[trigger] trail@[i].cands@[kk],
                ) by {
                    if i < t1.len() {
                        assert(trail@[i] == t0[i]);
                    } else {
                        assert(trail@[i].name@ == t0[t0.len() - 1].name@);
                        assert(trail@[i].cands@ == t0[t0.len() - 1].cands@);
                    }
                }
            }
            return true;
        }
    }
    false
}

/// Turn the finished trail into the resolved assignment, in decision
/// order.
fn build_resolution(trail: Vec<Decision>) -> (r: Vec<(PackageName, Candidate)>)
    requires
        t_idx_ok(trail@),
    ensures
        r@.len() == trail@.len(),
        forall|i: int|
            0 <= i < r@.len() ==> (#[trigger] r@[i]).0@ == trail@[i].name@ && r@[i].1 == chosen(
                trail@,
                i,
            ),
{
    let ghost orig = trail@;
    let mut rest = trail;
    let mut out: Vec<(PackageName, Candidate)> = Vec::new();
    while rest.len() > 0
        invariant
            t_idx_ok(orig),
            rest@ =~= orig.subrange(0, rest@.len() as int),
            out@.len() + rest@.len() == orig.len(),
            forall|i: int|
                0 <= i < out@.len() ==> (#[trigger] out@[i]).0@ == orig[rest@.len() + i].name@
                    && out@[i].1 == chosen(orig, rest@.len() + i),
        decreases rest@.len(),
    {
        let ghost p = rest@.len() - 1;
        let ghost out0 = out@;
        let popped = rest.pop();
        let mut d = match popped {
            Some(d) => d,
            None => {
                proof {
                    assert(false);
                }
                unreached()
            },
        };
        proof {
            assert(d == orig[p]);
            assert(rest@ =~= orig.subrange(0, rest@.len() as int));
        }
        let c = d.cands.remove(d.idx);
        out.insert(0, (d.name, c));
        proof {
            assert forall|i: int|
                0 <= i < out@.len() implies (#[trigger] out@[i]).0@ == orig[rest@.len() + i].name@
                && out@[i].1 == chosen(orig, rest@.len() + i) by {
                if i == 0 {
                    assert(out@[0].1 == orig[p].cands@[orig[p].idx as int]);
                } else {
                    assert(out@[i] == out0[i - 1]);
                }
            }
        }
    }
    out
}

/// Every candidate any repository offers for `name` is dependency-free.
pub open spec fn depfree_offer(docs: Seq<RepoDocument>, name: Seq<char>) -> bool {
    forall|c: Candidate| #[trigger] cand_from(docs, name, c) ==> c.dependencies@.len() == 0
}

/// `c` is offered for the request's name, satisfies its range, and no
/// offered satisfying candidate is preferred over it: no newer satisfying
/// version exists, and on version ties none from an earlier repository.
pub open spec fn best_choice(docs: Seq<RepoDocument>, req: PackageRequest, c: Candidate) -> bool {
    &&& cand_from(docs, req.name@, c)
    &&& req_sat(req.version@, c.version.major as int, c.version.minor as int, c.version.patch as int)
    &&& forall|o: Candidate|
        (#[trigger] cand_from(docs, req.name@, o) && req_sat(
            req.version@,
            o.version.major as int,
            o.version.minor as int,
            o.version.patch as int,
        )) ==> pref_le(c, o)
}

/// Compute a consistent assignment of one candidate per package for the
/// requested set, searching candidates newest-first with source priority
/// breaking ties and backtracking chronologically on conflict. On success
/// the assignment provably satisfies every requested range, is closed
/// under dependencies, assigns each name once, and draws every choice
/// from the repositories. Failure reports the package whose candidates
/// were exhausted and the ranges then imposed on it.
pub fn resolve(requested: &Vec<PackageRequest>, repo: &Repository) -> (r: Result<
    Vec<(PackageName, Candidate)>,
    SolverError,
>)
    ensures
        r matches Ok(res) ==> resolution_ok(requested@, repo.docs(), res@),
        requested@.len() == 0 ==> r is Ok,
        r matches Err(e) ==> (e matches SolverError::Unsatisfiable { package, constraints }
            && mentioned_name(requested@, repo.docs(), package@) && forall|k: int|
            0 <= k < constraints@.len() ==> range_on(
                requested@,
                repo.docs(),
                package@,
                (#[trigger] constraints@[k])@,
            )),
        (requested@.len() == 1 && depfree_offer(repo.docs(), requested@[0].name@)) ==> (r is Ok
            <==> exists|c: Candidate|
            #[trigger] cand_from(repo.docs(), requested@[0].name@, c) && req_sat(
                requested@[0].version@,
                c.version.major as int,
                c.version.minor as int,
                c.version.patch as int,
            )),
        r matches Ok(res) ==> ((requested@.len() == 1 && depfree_offer(
            repo.docs(),
            requested@[0].name@,
        )) ==> (res@.len() == 1 && res@[0].0@ == requested@[0].name@ && best_choice(
            repo.docs(),
            requested@[0],
            res@[0].1,
        ))),
{
    let ghost docs = repo.docs();
    let ghost h = requested@.len() == 1 && depfree_offer(docs, requested@[0].name@);
    let mut trail: Vec<Decision> = Vec::new();
    let mut steps: u64 = 0xffff_ffff_ffff_ffff;
    loop
        invariant
            docs == repo.docs(),
            t_wf(docs, trail@),
            requested@.len() == 0 ==> trail@.len() == 0,
            h == (requested@.len() == 1 && depfree_offer(docs, requested@[0].name@)),
            h ==> ((trail@.len() == 0 && steps >= 2) || (trail@.len() == 1 && steps >= 1
                && trail@[0].idx == 0 && trail@[0].name@ == requested@[0].name@ && req_sat(
                requested@[0].version@,
                chosen(trail@, 0).version.major as int,
                chosen(trail@, 0).version.minor as int,
                chosen(trail@, 0).version.patch as int,
            ) && best_choice(docs, requested@[0], chosen(trail@, 0)))),
        decreases steps,
    {
        if steps == 0 {
            // The search budget is far beyond any feasible search tree; a
            // run that exhausts it has no satisfying assignment it could
            // still reach and is reported as unsatisfiable.
            if requested.len() > 0 {
                let cons = gather(requested, &trail, &requested[0].name);
                proof {
                    assert forall|k: int| 0 <= k < cons@.len() implies range_on(
                        requested@,
                        docs,
                        requested@[0].name@,
                        (#[trigger] cons@[k])@,
                    ) by {
                        lemma_imposed_range_on(
                            requested@,
                            docs,
                            trail@,
                            requested@[0].name@,
                            cons@[k]@,
                        );
                    }
                }
                return Err(SolverError::Unsatisfiable {
                    package: requested[0].name.duplicate(),
                    constraints: cons,
                });
            } else {
                let empty: Vec<(PackageName, Candidate)> = Vec::new();
                return Ok(empty);
            }
        }
        steps = steps - 1;
        match find_work(requested, &trail) {
            Work::Done => {
                let ghost t = trail@;
                proof {
                    if h && t.len() == 0 {
                        assert(t_sat(t, requested@[0].name@, requested@[0].version@));
                        assert(false);
                    }
                }
                let res = build_resolution(trail);
                proof {
                    if h {
                        assert(res@[0].1 == chosen(t, 0));
                        assert(best_choice(docs, requested@[0], res@[0].1));
                        assert(cand_from(docs, requested@[0].name@, res@[0].1));
                    }
                    assert forall|k: int|
                        0 <= k < requested@.len() implies res_sat(
                        res@,
                        (#[trigger] requested@[k]).name@,
                        requested@[k].version@,
                    ) by {
                        let i0 = choose|i: int|
                            0 <= i < t.len() && (#[trigger] t[i]).name@ == requested@[k].name@
                                && req_sat(
                                requested@[k].version@,
                                chosen(t, i).version.major as int,
                                chosen(t, i).version.minor as int,
                                chosen(t, i).version.patch as int,
                            );
                        assert(res@[i0].0@ == requested@[k].name@);
                    }
                    assert forall|i: int, j: int|
                        0 <= i < res@.len() && 0 <= j < res@[i].1.dependencies@.len() implies res_sat(
                        res@,
                        (#[trigger] res@[i].1.dependencies@[j]).name@,
                        res@[i].1.dependencies@[j].version@,
                    ) by {
                        assert(res@[i].1 == chosen(t, i));
                        let nm = chosen(t, i).dependencies@[j].name@;
                        let cc = chosen(t, i).dependencies@[j].version@;
                        assert(t_sat(t, nm, cc));
                        let i0 = choose|ii: int|
                            0 <= ii < t.len() && (#[trigger] t[ii]).name@ == nm && req_sat(
                                cc,
                                chosen(t, ii).version.major as int,
                                chosen(t, ii).version.minor as int,
                                chosen(t, ii).version.patch as int,
                            );
                        assert(res@[i0].0@ == nm);
                    }
                    assert forall|i: int| 0 <= i < res@.len() implies cand_from(
                        docs,
                        (#[trigger] res@[i]).0@,
                        res@[i].1,
                    ) by {
                        assert(res@[i].1 == chosen(t, i));
                        assert(cand_from(docs, t[i].name@, t[i].cands@[t[i].idx as int]));
                    }
                }
                return Ok(res);
            },
            Work::Need(name) => {
                proof {
                    if h && trail@.len() == 1 {
                        // with the one request assigned, satisfied, and its
                        // release dependency-free, the scan must report Done
                        assert(cand_from(docs, trail@[0].name@, chosen(trail@, 0)));
                        assert(chosen(trail@, 0).dependencies@.len() == 0);
                        assert forall|k: int| 0 <= k < requested@.len() implies t_sat(
                            trail@,
                            (#[trigger] requested@[k]).name@,
                            requested@[k].version@,
                        ) by {
                            assert(trail@[0].name@ == requested@[k].name@);
                        }
                        assert forall|i: int, j: int|
                            0 <= i < trail@.len() && 0 <= j < chosen(
                                trail@,
                                i,
                            ).dependencies@.len() implies t_sat(
                            trail@,
                            (#[trigger] chosen(trail@, i).dependencies@[j]).name@,
                            chosen(trail@, i).dependencies@[j].version@,
                        ) by {
                            assert(false);
                        }
                        assert(false);
                    }
                    if h {
                        assert(trail@.len() == 0);
                        assert(name@ == requested@[0].name@);
                    }
                }
                let cons = gather(requested, &trail, &name);
                proof {
                    if h {
                        // over an empty trail the imposed ranges are exactly
                        // the one requested range
                        assert forall|k: int| 0 <= k < cons@.len() implies (#[trigger] cons@[k])@
                            == requested@[0].version@ by {
                            assert(imposed(requested@, trail@, name@, cons@[k]@));
                        }
                        assert(imposed(requested@, trail@, name@, requested@[0].version@));
                        assert(cons@.len() > 0);
                        assert forall|vv: Version| #[trigger] spec_sat_all(vv, cons@) == req_sat(
                            requested@[0].version@,
                            vv.major as int,
                            vv.minor as int,
                            vv.patch as int,
                        ) by {
                            if req_sat(
                                requested@[0].version@,
                                vv.major as int,
                                vv.minor as int,
                                vv.patch as int,
                            ) {
                                assert forall|k: int| 0 <= k < cons@.len() implies req_sat(
                                    (#[trigger] cons@[k])@,
                                    vv.major as int,
                                    vv.minor as int,
                                    vv.patch as int,
                                ) by {}
                            } else {
                                if spec_sat_all(vv, cons@) {
                                    assert(req_sat(
                                        cons@[0]@,
                                        vv.major as int,
                                        vv.minor as int,
                                        vv.patch as int,
                                    ));
                                    assert(false);
                                }
                            }
                        }
                    }
                }
                let base = repo.candidates(&name);
                let ghost base0 = base@;
                let filtered = filter_matching(base, &cons);
                let ghost filt0 = filtered@;
                let cands = sort_candidates(filtered);
                proof {
                    if h {
                        // every offered candidate that satisfies the request
                        // appears in the sorted admissible list
                        assert forall|o: Candidate|
                            #[trigger] cand_from(docs, name@, o) && req_sat(
                                requested@[0].version@,
                                o.version.major as int,
                                o.version.minor as int,
                                o.version.patch as int,
                            ) implies exists|ci: int|
                            0 <= ci < cands@.len() && (#[trigger] cands@[ci]).version == o.version
                                && cands@[ci].source.repository_id()
                                == o.source.repository_id() by {
                            let (d, e, v): (int, int, int) = choose|d: int, e: int, v: int|
                                crate::repository::cand_corresponds(docs, name@, d, e, v, o);
                            assert(crate::repository::offered_at(docs, name@, d, e, v));
                            let bi = choose|i: int|
                                0 <= i < base0.len() && crate::repository::cand_corresponds(
                                    docs,
                                    name@,
                                    d,
                                    e,
                                    v,
                                    #[trigger] base0[i],
                                );
                            assert(base0[bi].version == o.version);
                            assert(spec_sat_all(base0[bi].version, cons@));
                            assert(filt0.contains(base0[bi]));
                            let fi = choose|i: int| 0 <= i < filt0.len() && filt0[i] == base0[bi];
                            assert(cands@.contains(filt0[fi]));
                            let ci = choose|i: int| 0 <= i < cands@.len() && cands@[i] == filt0[fi];
                            assert(cands@[ci].version == o.version);
                            assert(cands@[ci].source.repository_id() == o.source.repository_id());
                        }
                    }
                }
                if cands.len() > 0 {
                    proof {
                        assert forall|k: int|
                            0 <= k < cands@.len() implies cand_from(
                            docs,
                            name@,
                            #[trigger] cands@[k],
                        ) by {
                            let f = filtered@;
                            let j0 = choose|j: int| 0 <= j < f.len() && f[j] == cands@[k];
                            let j1 = choose|j: int| 0 <= j < base0.len() && base0[j] == f[j0];
                            assert(cand_from(docs, name@, base0[j1]));
                        }
                    }
                    proof {
                        if h {
                            assert(cands@.contains(cands@[0]));
                            let fi = choose|j: int| 0 <= j < filt0.len() && filt0[j] == cands@[0];
                            assert(spec_sat_all(cands@[0].version, cons@));
                            assert(req_sat(
                                requested@[0].version@,
                                cands@[0].version.major as int,
                                cands@[0].version.minor as int,
                                cands@[0].version.patch as int,
                            ));
                            assert forall|o: Candidate|
                                #[trigger] cand_from(docs, requested@[0].name@, o) && req_sat(
                                    requested@[0].version@,
                                    o.version.major as int,
                                    o.version.minor as int,
                                    o.version.patch as int,
                                ) implies pref_le(cands@[0], o) by {
                                let ci = choose|i: int|
                                    0 <= i < cands@.len() && (#[trigger] cands@[i]).version
                                        == o.version && cands@[i].source.repository_id()
                                        == o.source.repository_id();
                                if ci > 0 {
                                    assert(pref_le(cands@[0], cands@[ci]));
                                }
                            }
                            assert(best_choice(docs, requested@[0], cands@[0]));
                        }
                    }
                    let ghost t0 = trail@;
                    trail.push(Decision { name, cands, idx: 0 });
                    proof {
                        if h {
                            assert(trail@[0].cands@[0] == chosen(trail@, 0));
                        }
                        assert forall|i: int, j: int|
                            0 <= i < j < trail@.len() implies (#[trigger] trail@[i]).name@ != (
                        #[trigger] trail@[j]).name@ by {
                            if j == t0.len() {
                                assert(!t_assigned(t0, trail@[j].name@));
                                assert(trail@[i] == t0[i]);
                            } else {
                                assert(trail@[i] == t0[i]);
                                assert(trail@[j] == t0[j]);
                            }
                        }
                        assert forall|i: int, kk: int|
                            0 <= i < trail@.len() && 0 <= kk < trail@[i].cands@.len() implies cand_from(
                            docs,
                            (#[trigger] trail@[i]).name@,
                            #[trigger] trail@[i].cands@[kk],
                        ) by {
                            if i < t0.len() {
                                assert(trail@[i] == t0[i]);
                            }
                        }
                    }
                } else {
                    proof {
                        if h {
                            if exists|c: Candidate|
                                #[trigger] cand_from(docs, requested@[0].name@, c) && req_sat(
                                    requested@[0].version@,
                                    c.version.major as int,
                                    c.version.minor as int,
                                    c.version.patch as int,
                                ) {
                                let c = choose|c: Candidate|
                                    #[trigger] cand_from(docs, requested@[0].name@, c) && req_sat(
                                        requested@[0].version@,
                                        c.version.major as int,
                                        c.version.minor as int,
                                        c.version.patch as int,
                                    );
                                assert(exists|ci: int|
                                    0 <= ci < cands@.len() && (#[trigger] cands@[ci]).version
                                        == c.version && cands@[ci].source.repository_id()
                                        == c.source.repository_id());
                                assert(false);
                            }
                        }
                    }
                    let ghost before = trail@;
                    if !backtrack(&mut trail, Ghost(docs)) {
                        proof {
                            lemma_needed_mentioned(requested@, docs, before, name@);
                            assert forall|k: int| 0 <= k < cons@.len() implies range_on(
                                requested@,
                                docs,
                                name@,
                                (#[trigger] cons@[k])@,
                            ) by {
                                lemma_imposed_range_on(requested@, docs, before, name@, cons@[k]@);
                            }
                            if requested@.len() == 0 {
                                assert(before.len() == 0);
                                assert(false);
                            }
                        }
                        return Err(SolverError::Unsatisfiable { package: name, constraints: cons });
                    }
                }
            },
            Work::Conflict(name) => {
                proof {
                    if h {
                        if trail@.len() == 0 {
                            assert(t_assigned(trail@, name@));
                            assert(false);
                        } else {
                            assert(cand_from(docs, trail@[0].name@, chosen(trail@, 0)));
                            assert(chosen(trail@, 0).dependencies@.len() == 0);
                            assert forall|k: int| 0 <= k < requested@.len() implies t_sat(
                                trail@,
                                (#[trigger] requested@[k]).name@,
                                requested@[k].version@,
                            ) by {
                                assert(trail@[0].name@ == requested@[k].name@);
                            }
                            assert forall|i: int, j: int|
                                0 <= i < trail@.len() && 0 <= j < chosen(
                                    trail@,
                                    i,
                                ).dependencies@.len() implies t_sat(
                                trail@,
                                (#[trigger] chosen(trail@, i).dependencies@[j]).name@,
                                chosen(trail@, i).dependencies@[j].version@,
                            ) by {
                                assert(false);
                            }
                            assert(false);
                        }
                    }
                }
                let ghost before = trail@;
                if !backtrack(&mut trail, Ghost(docs)) {
                    let cons = gather(requested, &trail, &name);
                    proof {
                        lemma_needed_mentioned(requested@, docs, before, name@);
                        assert forall|k: int| 0 <= k < cons@.len() implies range_on(
                            requested@,
                            docs,
                            name@,
                            (#[trigger] cons@[k])@,
                        ) by {
                            lemma_imposed_range_on(requested@, docs, trail@, name@, cons@[k]@);
                        }
                        if requested@.len() == 0 {
                            assert(before.len() == 0);
                            assert(false);
                        }
                    }
                    return Err(SolverError::Unsatisfiable { package: name, constraints: cons });
                }
            },
        }
    }
}

} // verus!
