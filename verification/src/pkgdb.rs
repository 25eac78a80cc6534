//! The transactional state store: the persisted record of requested
//! packages, kept in a line-per-package text file under the target
//! directory, read and written through a virtual filesystem. At most one
//! transaction is active per database; state is loaded lazily inside a
//! transaction, mutated in memory, and written back only on commit.

use vstd::prelude::*;

use crate::PackageName;
use crate::version::{Constraint, PackageRequest, reqs_eq};

verus! {

/// The filesystem path type of the `vfs` crate; opaque here, carried
/// through the trusted wrappers below.
#[verifier::external_type_specification]
#[verifier::external_body]
pub struct ExVfsPath(vfs::VfsPath);

/// The error type of the `vfs` crate, carried opaquely inside `DBError`.
#[verifier::external_type_specification]
#[verifier::external_body]
pub struct ExVfsError(vfs::VfsError);

/// What can go wrong in the state store.
#[derive(Debug)]
pub enum DBError {
    /// A state-accessing operation ran without an active transaction.
    NoTransaction,
    /// `begin` was called while a transaction was already active.
    TransactionActive,
    /// The filesystem refused an operation.
    FileSystem { source: vfs::VfsError },
    /// The persisted state file exists but does not parse; `offset` is the
    /// character position where reading stopped.
    InvalidState { offset: usize },
}

/// Relies on vfs::VfsPath::join: resolves a relative path segment.
#[verifier::external_body]
fn vfs_join(p: &vfs::VfsPath, seg: &str) -> (r: Result<vfs::VfsPath, vfs::VfsError>) {
    p.join(seg)
}

/// Relies on vfs::VfsPath::is_file: whether a file exists at the path.
#[verifier::external_body]
fn vfs_is_file(p: &vfs::VfsPath) -> (r: Result<bool, vfs::VfsError>) {
    p.is_file()
}

/// Relies on vfs::VfsPath::is_dir: whether a directory exists at the path.
#[verifier::external_body]
fn vfs_is_dir(p: &vfs::VfsPath) -> (r: Result<bool, vfs::VfsError>) {
    p.is_dir()
}

/// Relies on vfs::VfsPath::create_dir: creates the directory.
#[verifier::external_body]
fn vfs_create_dir(p: &vfs::VfsPath) -> (r: Result<(), vfs::VfsError>) {
    p.create_dir()
}

/// Relies on vfs::VfsPath::read_to_string: the current content of the
/// file. What it returns depends on what is on disk, so nothing more is
/// stated.
#[verifier::external_body]
fn vfs_read_to_string(p: &vfs::VfsPath) -> (r: Result<String, vfs::VfsError>) {
    p.read_to_string()
}

/// Relies on vfs::VfsPath::create_file and the writer it returns: replaces
/// the file's content with exactly the bytes of `text`.
#[verifier::external_body]
fn vfs_write_str(p: &vfs::VfsPath, text: &str) -> (r: Result<(), vfs::VfsError>) {
    let mut file = p.create_file()?;
    file.write_all(text.as_bytes()).map_err(vfs::VfsError::from)?;
    file.flush().map_err(vfs::VfsError::from)?;
    Ok(())
}

/// Relies on vfs::VfsPath::remove_file: deletes the file.
#[verifier::external_body]
fn vfs_remove_file(p: &vfs::VfsPath) -> (r: Result<(), vfs::VfsError>) {
    p.remove_file()
}

/// Relies on vfs::VfsPath::move_file: moves `src` onto `dst`, which must
/// not exist yet.
#[verifier::external_body]
fn vfs_move_file(src: &vfs::VfsPath, dst: &vfs::VfsPath) -> (r: Result<(), vfs::VfsError>) {
    src.move_file(dst)
}

/// The directory under the target that holds the database's files.
pub fn pkgdb_path(fs: &vfs::VfsPath) -> (r: Result<vfs::VfsPath, DBError>)
    ensures
        r matches Err(e) ==> e is FileSystem,
{
    match vfs_join(fs, "pkgdb") {
        Ok(p) => Ok(p),
        Err(source) => Err(DBError::FileSystem { source }),
    }
}

/// The state file inside the database directory.
pub fn state_path(fs: &vfs::VfsPath) -> (r: Result<vfs::VfsPath, DBError>)
    ensures
        r matches Err(e) ==> e is FileSystem,
{
    let dir = pkgdb_path(fs)?;
    match vfs_join(&dir, "state.txt") {
        Ok(p) => Ok(p),
        Err(source) => Err(DBError::FileSystem { source }),
    }
}

/// Where the previous state file is moved aside during a save, and where
/// a load looks when a crash mid-save left no state file behind.
fn state_backup_path(fs: &vfs::VfsPath) -> (r: Result<vfs::VfsPath, DBError>)
    ensures
        r matches Err(e) ==> e is FileSystem,
{
    let dir = pkgdb_path(fs)?;
    match vfs_join(&dir, "state.txt.old") {
        Ok(p) => Ok(p),
        Err(source) => Err(DBError::FileSystem { source }),
    }
}

/// Create `path` as a directory if nothing is there yet.
pub fn ensure_dir(path: &vfs::VfsPath) -> (r: Result<(), DBError>)
    ensures
        r matches Err(e) ==> e is FileSystem,
{
    let there = match vfs_is_dir(path) {
        Ok(b) => b,
        Err(source) => {
            return Err(DBError::FileSystem { source });
        },
    };
    if !there {
        match vfs_create_dir(path) {
            Ok(()) => (),
            Err(source) => {
                return Err(DBError::FileSystem { source });
            },
        }
    }
    Ok(())
}

/// One requested package as a line of the state file:
/// `name: range` terminated by a line break.
pub open spec fn encode_req(r: PackageRequest) -> Seq<char> {
    r.name@ + seq![':', ' '] + r.version@ + seq!['\n']
}

/// The state file's text: one line per requested package, in order.
pub open spec fn encode_reqs(rs: Seq<PackageRequest>) -> Seq<char>
    decreases rs.len(),
{
    if rs.len() == 0 {
        Seq::empty()
    } else {
        encode_req(rs[0]) + encode_reqs(rs.drop_first())
    }
}

/// Appending one request appends exactly its line.
proof fn lemma_encode_snoc(rs: Seq<PackageRequest>, i: int)
    requires
        0 <= i < rs.len(),
    ensures
        encode_reqs(rs.take(i + 1)) == encode_reqs(rs.take(i)) + encode_req(rs[i]),
    decreases i,
{
    if i == 0 {
        assert(rs.take(1).drop_first() =~= rs.take(0));
        assert(rs.take(0).len() == 0);
        assert(encode_reqs(rs.take(1)) == encode_req(rs.take(1)[0]) + encode_reqs(
            rs.take(1).drop_first(),
        ));
        assert(encode_reqs(rs.take(0)) + encode_req(rs[0]) =~= encode_req(rs[0]));
        assert(encode_reqs(rs.take(1)) =~= encode_req(rs[0]));
    } else {
        lemma_encode_snoc(rs.drop_first(), i - 1);
        assert(rs.take(i + 1).drop_first() =~= rs.drop_first().take(i));
        assert(rs.take(i).drop_first() =~= rs.drop_first().take(i - 1));
        assert(rs.take(i + 1)[0] == rs[0]);
        assert(rs.take(i)[0] == rs[0]);
        assert(encode_reqs(rs.take(i + 1)) == encode_req(rs[0]) + encode_reqs(
            rs.drop_first().take(i),
        ));
        assert(encode_reqs(rs.take(i)) == encode_req(rs[0]) + encode_reqs(
            rs.drop_first().take(i - 1),
        ));
        assert(rs.drop_first()[i - 1] == rs[i]);
        assert(encode_reqs(rs.take(i)) + encode_req(rs[i]) =~= encode_req(rs[0]) + (encode_reqs(
            rs.drop_first().take(i - 1),
        ) + encode_req(rs.drop_first()[i - 1])));
    }
}

/// Splitting a request list splits its text at the matching point.
proof fn lemma_encode_split(rs: Seq<PackageRequest>, d: int)
    requires
        0 <= d <= rs.len(),
    ensures
        encode_reqs(rs) == encode_reqs(rs.take(d)) + encode_reqs(rs.skip(d)),
    decreases d,
{
    if d == 0 {
        assert(rs.take(0) =~= Seq::<PackageRequest>::empty());
        assert(rs.skip(0) =~= rs);
        assert(encode_reqs(rs.take(0)) + encode_reqs(rs) =~= encode_reqs(rs));
    } else {
        lemma_encode_snoc(rs, d - 1);
        lemma_encode_split(rs, d - 1);
        assert(rs.skip(d - 1).len() > 0);
        assert(rs.skip(d - 1)[0] == rs[d - 1]);
        assert(rs.skip(d - 1).drop_first() =~= rs.skip(d));
        assert(encode_reqs(rs.skip(d - 1)) == encode_req(rs[d - 1]) + encode_reqs(rs.skip(d)));
        assert(encode_reqs(rs) =~= encode_reqs(rs.take(d)) + encode_reqs(rs.skip(d)));
    }
}

/// The text depends on the requests only through their views.
proof fn lemma_encode_views(a: Seq<PackageRequest>, b: Seq<PackageRequest>)
    requires
        a.len() == b.len(),
        forall|q: int|
            0 <= q < a.len() ==> (#[trigger] a[q]).name@ == b[q].name@ && a[q].version@
                == b[q].version@,
    ensures
        encode_reqs(a) == encode_reqs(b),
    decreases a.len(),
{
    if a.len() > 0 {
        assert forall|q: int| 0 <= q < a.drop_first().len() implies (#[trigger] a.drop_first()[q]).name@
            == b.drop_first()[q].name@ && a.drop_first()[q].version@
            == b.drop_first()[q].version@ by {
            assert(a.drop_first()[q] == a[q + 1]);
            assert(b.drop_first()[q] == b[q + 1]);
        }
        lemma_encode_views(a.drop_first(), b.drop_first());
        assert(encode_req(a[0]) =~= encode_req(b[0]));
        assert(encode_reqs(a) =~= encode_reqs(b));
    }
}

/// No two requests carry the same package name.
pub open spec fn reqs_unique(rs: Seq<PackageRequest>) -> bool {
    forall|i: int, j: int|
        0 <= i < j < rs.len() ==> (#[trigger] rs[i]).name@ != (#[trigger] rs[j]).name@
}

/// Requests in normalized, storable form: unique names, each name valid
/// with no uppercase letter, each range accepted by semver's grammar and
/// free of line breaks. This is exactly the shape every value built from
/// [`PackageName`] and [`Constraint`] has, spelled out over views.
pub open spec fn canonical_reqs(rs: Seq<PackageRequest>) -> bool {
    &&& reqs_unique(rs)
    &&& forall|q: int| 0 <= q < rs.len() ==> crate::valid_name_seq((#[trigger] rs[q]).name@)
    &&& forall|q: int, p: int|
        0 <= q < rs.len() && 0 <= p < rs[q].name@.len() ==> !(65 <= (#[trigger] rs[q].name@[p]) as u32
            <= 90)
    &&& forall|q: int|
        0 <= q < rs.len() ==> crate::version::req_wf((#[trigger] rs[q]).version@)
            && crate::version::no_newline(rs[q].version@)
}

/// `rs` maps `name` to the range `c`.
pub open spec fn req_maps(rs: Seq<PackageRequest>, name: Seq<char>, c: Seq<char>) -> bool {
    exists|i: int|
        0 <= i < rs.len() && (#[trigger] rs[i]).name@ == name && rs[i].version@ == c
}

/// `n` is `o` with `name` now mapped to `c`: the entry for `name` is
/// replaced in place if one exists, appended otherwise, and every other
/// entry is unchanged.
pub open spec fn upsert_rel(
    o: Seq<PackageRequest>,
    n: Seq<PackageRequest>,
    name: Seq<char>,
    c: Seq<char>,
) -> bool {
    if exists|i: int| 0 <= i < o.len() && (#[trigger] o[i]).name@ == name {
        &&& n.len() == o.len()
        &&& forall|j: int|
            0 <= j < o.len() && (#[trigger] o[j]).name@ != name ==> n[j].name@ == o[j].name@
                && n[j].version@ == o[j].version@
        &&& forall|j: int|
            0 <= j < o.len() && (#[trigger] o[j]).name@ == name ==> n[j].name@ == name
                && n[j].version@ == c
    } else {
        &&& n.len() == o.len() + 1
        &&& forall|j: int|
            0 <= j < o.len() ==> (#[trigger] n[j]).name@ == o[j].name@ && n[j].version@
                == o[j].version@
        &&& n[o.len() as int].name@ == name
        &&& n[o.len() as int].version@ == c
    }
}

/// The index of the first entry for `name`, if any.
fn find_name_index(v: &Vec<PackageRequest>, name: &PackageName) -> (r: Option<usize>)
    ensures
        r matches Some(i) ==> i < v@.len() && v@[i as int].name@ == name@,
        r is None ==> forall|i: int| 0 <= i < v@.len() ==> (#[trigger] v@[i]).name@ != name@,
{
    let mut i: usize = 0;
    while i < v.len()
        invariant
            0 <= i <= v@.len(),
            forall|k: int| 0 <= k < i ==> (#[trigger] v@[k]).name@ != name@,
        decreases v@.len() - i,
    {
        if v[i].name.same_name(name) {
            return Some(i);
        }
        i += 1;
    }
    None
}

/// The in-memory requested set: the only durable data the core owns.
#[derive(Debug)]
pub struct State {
    requested: Vec<PackageRequest>,
}

impl State {
    /// The requests held, in file order.
    pub closed spec fn reqs(&self) -> Seq<PackageRequest> {
        self.requested@
    }

    /// Names are unique: the set is a map keyed by package name.
    pub open spec fn wf(&self) -> bool {
        reqs_unique(self.reqs())
    }

    /// The empty requested set, standing in for an absent state file.
    pub fn empty() -> (r: State)
        ensures
            r.wf(),
            r.reqs().len() == 0,
    {
        State { requested: Vec::new() }
    }

    /// Read access to the requested set.
    pub fn requested_list(&self) -> (r: &Vec<PackageRequest>)
        ensures
            r@ == self.reqs(),
    {
        &self.requested
    }

    /// Record `package`, replacing any earlier request for the same name.
    pub fn upsert(&mut self, package: &PackageRequest)
        requires
            old(self).wf(),
        ensures
            final(self).wf(),
            upsert_rel(old(self).reqs(), final(self).reqs(), package.name@, package.version@),
            req_maps(final(self).reqs(), package.name@, package.version@),
    {
        let ghost o = self.requested@;
        match find_name_index(&self.requested, &package.name) {
            Some(i) => {
                self.requested.remove(i);
                self.requested.insert(i, package.duplicate());
                proof {
                    assert(self.requested@.len() == o.len());
                    assert forall|j: int| 0 <= j < o.len() && j != i implies (
                    #[trigger] self.requested@[j]).name@ == o[j].name@ && self.requested@[j].version@
                        == o[j].version@ by {
                        if j < i {
                            assert(self.requested@[j] == o[j]);
                        } else {
                            assert(self.requested@[j] == o[j]);
                        }
                    }
                    assert forall|j: int| 0 <= j < o.len() && (#[trigger] o[j]).name@ == package.name@
                        implies self.requested@[j].name@ == package.name@
                        && self.requested@[j].version@ == package.version@ by {
                        if j != i {
                            assert(o[i as int].name@ == package.name@);
                            assert(o[j].name@ != o[i as int].name@);
                        }
                    }
                }
            },
            None => {
                self.requested.push(package.duplicate());
            },
        }
    }

    /// The state file's full text for this set.
    pub fn encode(&self) -> (r: String)
        ensures
            r@ == encode_reqs(self.reqs()),
    {
        let mut out = String::new();
        proof {
            reveal_strlit(": ");
            reveal_strlit("\n");
            assert(out@ =~= encode_reqs(self.requested@.take(0)));
        }
        let mut i: usize = 0;
        while i < self.requested.len()
            invariant
                0 <= i <= self.requested@.len(),
                out@ == encode_reqs(self.requested@.take(i as int)),
            decreases self.requested@.len() - i,
        {
            let req = &self.requested[i];
            out.append(req.name.as_str());
            out.append(": ");
            out.append(req.version.as_str());
            out.append("\n");
            proof {
                reveal_strlit(": ");
                reveal_strlit("\n");
                assert((": ")@ =~= seq![':', ' ']);
                assert(("\n")@ =~= seq!['\n']);
                lemma_encode_snoc(self.requested@, i as int);
                assert(out@ =~= encode_reqs(self.requested@.take(i as int)) + encode_req(
                    self.requested@[i as int],
                ));
            }
            i += 1;
        }
        proof {
            assert(self.requested@.take(self.requested@.len() as int) =~= self.requested@);
        }
        out
    }

    /// Parse a state file. Accepts exactly the texts this store writes:
    /// per line one normalized name, a colon and space, and a version
    /// range; names unique. The parsed set re-encodes to exactly the
    /// input, so load followed by save is content-preserving.
    #[verifier::loop_isolation(false)]
    #[verifier::rlimit(80)]
    pub fn decode(s: &str) -> (r: Result<State, DBError>)
        ensures
            r matches Ok(st) ==> st.wf() && encode_reqs(st.reqs()) == s@,
            r matches Err(e) ==> e is InvalidState,
            r is Err ==> !(exists|rs: Seq<PackageRequest>| canonical_reqs(rs) && encode_reqs(rs)
                == s@),
    {
        let ghost hyp = exists|rs: Seq<PackageRequest>| canonical_reqs(rs) && encode_reqs(rs)
            == s@;
        let ghost w: Seq<PackageRequest> = if hyp {
            choose|rs: Seq<PackageRequest>| canonical_reqs(rs) && encode_reqs(rs) == s@
        } else {
            Seq::empty()
        };
        let len = s.unicode_len();
        let mut out: Vec<PackageRequest> = Vec::new();
        let mut i: usize = 0;
        proof {
            assert(encode_reqs(out@) =~= s@.take(0));
        }
        while i < len
            invariant
                len == s@.len(),
                0 <= i <= len,
                reqs_unique(out@),
                encode_reqs(out@) == s@.take(i as int),
                hyp == (exists|rs: Seq<PackageRequest>| canonical_reqs(rs) && encode_reqs(rs)
                    == s@),
                hyp ==> (canonical_reqs(w) && encode_reqs(w) == s@ && out@.len() <= w.len()
                    && forall|q: int|
                    0 <= q < out@.len() ==> (#[trigger] out@[q]).name@ == w[q].name@
                        && out@[q].version@ == w[q].version@),
            decreases len - i,
        {
            let ghost out0 = out@;
            let ghost d = out@.len() as int;
            proof {
                if hyp {
                    assert forall|q: int| 0 <= q < out0.len() implies (#[trigger] out0[q]).name@
                        == w.take(d)[q].name@ && out0[q].version@ == w.take(d)[q].version@ by {
                        assert(w.take(d)[q] == w[q]);
                    }
                    lemma_encode_views(out0, w.take(d));
                    lemma_encode_split(w, d);
                    assert(s@ =~= s@.take(i as int) + s@.skip(i as int));
                    assert(encode_reqs(w.skip(d)) =~= s@.skip(i as int));
                    if d == w.len() {
                        assert(w.skip(d) =~= Seq::<PackageRequest>::empty());
                        assert(s@.skip(i as int).len() == 0);
                        assert(false);
                    }
                    assert(w.skip(d).len() > 0);
                    assert(w.skip(d)[0] == w[d]);
                    assert(w.skip(d).drop_first() =~= w.skip(d + 1));
                    assert(encode_reqs(w.skip(d)) == encode_req(w[d]) + encode_reqs(
                        w.skip(d + 1),
                    ));
                    let nm = w[d].name@;
                    let cn = w[d].version@;
                    assert(crate::valid_name_seq(nm));
                    assert forall|p: int| 0 <= p < nm.len() implies s@[i + p] == nm[p] by {
                        assert(s@.skip(i as int)[p] == nm[p]);
                    }
                    assert(s@[i + nm.len()] == ':');
                    assert(s@[i + nm.len() + 1] == ' ');
                    assert forall|p: int| 0 <= p < cn.len() implies s@[i + nm.len() + 2 + p]
                        == cn[p] by {
                        assert(s@.skip(i as int)[nm.len() + 2 + p] == cn[p]);
                    }
                    assert(s@[i + nm.len() + 2 + cn.len()] == '\n');
                    assert(i + nm.len() + 2 + cn.len() < len);
                }
            }
            // the name runs to the first ':' of the line
            let mut k: usize = i;
            while k < len && s.get_char(k) != ':' && s.get_char(k) != '\n'
                invariant
                    len == s@.len(),
                    i <= k <= len,
                    forall|p: int| i <= p < k ==> #[trigger] s@[p] != ':' && s@[p] != '\n',
                decreases len - k,
            {
                k += 1;
            }
            proof {
                if hyp {
                    let nm = w[d].name@;
                    if k < i + nm.len() {
                        assert(s@[k as int] == nm[k - i]);
                        assert(crate::is_alnum(nm[k - i]));
                        assert(false);
                    }
                    if k > i + nm.len() {
                        assert(s@[i + nm.len()] != ':');
                        assert(false);
                    }
                    assert(k == i + nm.len() && s@[k as int] == ':' && k < len);
                }
            }
            if k >= len || s.get_char(k) != ':' {
                return Err(DBError::InvalidState { offset: k });
            }
            if k + 1 >= len || s.get_char(k + 1) != ' ' {
                return Err(DBError::InvalidState { offset: k });
            }
            // the range runs to the end of the line
            let mut m: usize = k + 2;
            while m < len && s.get_char(m) != '\n'
                invariant
                    len == s@.len(),
                    k + 2 <= m <= len,
                    forall|p: int| k + 2 <= p < m ==> #[trigger] s@[p] != '\n',
                decreases len - m,
            {
                m += 1;
            }
            proof {
                if hyp {
                    let nm = w[d].name@;
                    let cn = w[d].version@;
                    if m < k + 2 + cn.len() {
                        assert(s@[m as int] == cn[m - k - 2]);
                        assert(false);
                    }
                    if m > k + 2 + cn.len() {
                        assert(s@[i + nm.len() + 2 + cn.len()] != '\n');
                        assert(false);
                    }
                    assert(m == k + 2 + cn.len() && s@[m as int] == '\n' && m < len);
                }
            }
            if m >= len {
                return Err(DBError::InvalidState { offset: m });
            }
            let name_str = s.substring_char(i, k);
            let cons_str = s.substring_char(k + 2, m);
            proof {
                if hyp {
                    assert(name_str@ =~= w[d].name@);
                    assert(cons_str@ =~= w[d].version@);
                }
            }
            let name = match PackageName::parse(name_str) {
                Ok(n) => n,
                Err(_) => {
                    return Err(DBError::InvalidState { offset: i });
                },
            };
            // the stored form must already be normalized, so that the
            // parsed set re-encodes to the very same text
            let mut q: usize = i;
            while q < k
                invariant
                    len == s@.len(),
                    i <= q <= k <= len,
                    forall|p: int|
                        i <= p < q ==> !(65 <= #[trigger] s@[p] as u32 && s@[p] as u32 <= 90),
                decreases k - q,
            {
                let c = s.get_char(q);
                let u = c as u32;
                if 65 <= u && u <= 90 {
                    return Err(DBError::InvalidState { offset: q });
                }
                q += 1;
            }
            proof {
                assert(name_str@ =~= s@.subrange(i as int, k as int));
                assert forall|p: int| 0 <= p < name_str@.len() implies crate::lower_char(
                    #[trigger] name_str@[p],
                ) == name_str@[p] by {
                    assert(name_str@[p] == s@[i + p]);
                }
                assert(crate::lower_seq(name_str@) =~= name_str@);
                assert(name@ == name_str@);
            }
            let cons = match Constraint::parse(cons_str) {
                Some(c) => c,
                None => {
                    return Err(DBError::InvalidState { offset: k });
                },
            };
            match find_name_index(&out, &name) {
                Some(q) => {
                    proof {
                        if hyp {
                            assert(out0[q as int].name@ == w[q as int].name@);
                            assert(w[q as int].name@ != w[d].name@);
                            assert(false);
                        }
                    }
                    return Err(DBError::InvalidState { offset: i });
                },
                None => (),
            }
            let req = PackageRequest::new(name, cons);
            proof {
                assert(encode_req(req) =~= s@.subrange(i as int, k as int) + seq![':', ' ']
                    + s@.subrange(k + 2, m as int) + seq!['\n']);
                assert(s@[k as int] == ':');
                assert(s@[k + 1] == ' ');
                assert(s@[m as int] == '\n');
                assert(encode_req(req) =~= s@.subrange(i as int, m + 1));
            }
            out.push(req);
            proof {
                assert(out@.take(out@.len() - 1) =~= out0);
                lemma_encode_snoc(out@, out@.len() - 1);
                assert(out@.take(out@.len() as int) =~= out@);
                assert(encode_reqs(out@) =~= encode_reqs(out0) + encode_req(req));
                assert(s@.take(i as int) + s@.subrange(i as int, m + 1) =~= s@.take(m + 1));
                if hyp {
                    assert(out@[d].name@ == w[d].name@);
                    assert(out@[d].version@ == w[d].version@);
                }
            }
            i = m + 1;
        }
        proof {
            assert(s@.take(len as int) =~= s@);
        }
        Ok(State { requested: out })
    }

    /// Load the persisted set. An absent state file falls back to the
    /// moved-aside copy a crash mid-save may have left; if neither exists
    /// the set is empty, which is not an error. An unreadable or malformed
    /// file is one.
    pub fn load(fs: &vfs::VfsPath) -> (r: Result<State, DBError>)
        ensures
            r matches Ok(st) ==> st.wf(),
            r matches Err(e) ==> (e is FileSystem || e is InvalidState),
    {
        let path = state_path(fs)?;
        let there = match vfs_is_file(&path) {
            Ok(b) => b,
            Err(source) => {
                return Err(DBError::FileSystem { source });
            },
        };
        if there {
            let text = match vfs_read_to_string(&path) {
                Ok(t) => t,
                Err(source) => {
                    return Err(DBError::FileSystem { source });
                },
            };
            return State::decode(text.as_str());
        }
        let backup = state_backup_path(fs)?;
        let kept = match vfs_is_file(&backup) {
            Ok(b) => b,
            Err(source) => {
                return Err(DBError::FileSystem { source });
            },
        };
        if !kept {
            return Ok(State::empty());
        }
        let text = match vfs_read_to_string(&backup) {
            Ok(t) => t,
            Err(source) => {
                return Err(DBError::FileSystem { source });
            },
        };
        State::decode(text.as_str())
    }

    /// Persist the set. The encoded text goes to a fresh file first; the
    /// previous state file is then moved aside before the fresh one moves
    /// into place, so a failure or crash at any point leaves the prior
    /// content readable (directly or via the moved-aside copy that `load`
    /// falls back to). Once the new file stands, the moved-aside copy is
    /// removed again, so an absent state file afterwards really means the
    /// empty set.
    pub fn save(&self, fs: &vfs::VfsPath) -> (r: Result<(), DBError>)
        ensures
            r matches Err(e) ==> e is FileSystem,
    {
        let dir = pkgdb_path(fs)?;
        ensure_dir(&dir)?;
        let fresh = match vfs_join(&dir, "state.txt.new") {
            Ok(p) => p,
            Err(source) => {
                return Err(DBError::FileSystem { source });
            },
        };
        let text = self.encode();
        match vfs_write_str(&fresh, text.as_str()) {
            Ok(()) => (),
            Err(source) => {
                return Err(DBError::FileSystem { source });
            },
        }
        let path = state_path(fs)?;
        let backup = state_backup_path(fs)?;
        let there = match vfs_is_file(&path) {
            Ok(b) => b,
            Err(source) => {
                return Err(DBError::FileSystem { source });
            },
        };
        if there {
            let stale = match vfs_is_file(&backup) {
                Ok(b) => b,
                Err(source) => {
                    return Err(DBError::FileSystem { source });
                },
            };
            if stale {
                match vfs_remove_file(&backup) {
                    Ok(()) => (),
                    Err(source) => {
                        return Err(DBError::FileSystem { source });
                    },
                }
            }
            match vfs_move_file(&path, &backup) {
                Ok(()) => (),
                Err(source) => {
                    return Err(DBError::FileSystem { source });
                },
            }
        }
        match vfs_move_file(&fresh, &path) {
            Ok(()) => (),
            Err(source) => {
                return Err(DBError::FileSystem { source });
            },
        }
        if there {
            match vfs_remove_file(&backup) {
                Ok(()) => Ok(()),
                Err(source) => Err(DBError::FileSystem { source }),
            }
        } else {
            Ok(())
        }
    }
}

/// The injectable, identity-keyed lock registry: the set of database
/// identities whose transaction lock is held right now. Every database
/// handle that may contend over one target shares a single registry, so
/// two handles bound to the same identity can never both hold the lock.
/// The registry is in-memory; exclusion across process boundaries needs
/// an operating-system lock wrapped around it by the embedding program.
#[derive(Debug)]
pub struct LockRegistry {
    held: Vec<String>,
}

/// Some entry of `v` reads `o`.
spec fn names_hold(v: Seq<String>, o: Seq<char>) -> bool {
    exists|j: int| 0 <= j < v.len() && (#[trigger] v[j])@ == o
}

impl LockRegistry {
    /// Whether the lock for `id` is currently held.
    pub closed spec fn holds(&self, id: Seq<char>) -> bool {
        names_hold(self.held@, id)
    }

    /// A registry with no lock held.
    pub fn new() -> (r: LockRegistry)
        ensures
            forall|id: Seq<char>| !r.holds(id),
    {
        LockRegistry { held: Vec::new() }
    }

    /// Take the lock for `id`: succeeds exactly when nobody holds it, and
    /// never disturbs any other identity's lock.
    pub fn acquire(&mut self, id: &String) -> (r: bool)
        ensures
            r == !old(self).holds(id@),
            final(self).holds(id@),
            forall|o: Seq<char>|
                o != id@ ==> final(self).holds(o) == old(self).holds(o),
    {
        let mut i: usize = 0;
        while i < self.held.len()
            invariant
                0 <= i <= self.held@.len(),
                forall|j: int| 0 <= j < i ==> (#[trigger] self.held@[j])@ != id@,
            decreases self.held@.len() - i,
        {
            if self.held[i] == *id {
                return false;
            }
            i += 1;
        }
        let ghost h0 = self.held@;
        self.held.push(id.clone());
        proof {
            assert(self.held@[h0.len() as int]@ == id@);
            assert forall|o: Seq<char>| o != id@ implies #[trigger] names_hold(self.held@, o)
                == names_hold(h0, o) by {
                if names_hold(self.held@, o) {
                    let j0 = choose|j: int|
                        0 <= j < self.held@.len() && (#[trigger] self.held@[j])@ == o;
                    assert(j0 < h0.len() && h0[j0]@ == o);
                }
                if names_hold(h0, o) {
                    let j0 = choose|j: int| 0 <= j < h0.len() && (#[trigger] h0[j])@ == o;
                    assert(self.held@[j0]@ == o);
                }
            }
        }
        true
    }

    /// Free the lock for `id`, disturbing no other identity's lock.
    pub fn release(&mut self, id: &String)
        ensures
            !final(self).holds(id@),
            forall|o: Seq<char>|
                o != id@ ==> final(self).holds(o) == old(self).holds(o),
    {
        let ghost h0 = self.held@;
        let mut kept: Vec<String> = Vec::new();
        let mut i: usize = 0;
        proof {
            assert(h0.take(0) =~= Seq::<String>::empty());
        }
        while i < self.held.len()
            invariant
                h0 == self.held@,
                0 <= i <= h0.len(),
                forall|k: int| 0 <= k < kept@.len() ==> (#[trigger] kept@[k])@ != id@,
                forall|o: Seq<char>|
                    o != id@ ==> #[trigger] names_hold(h0.take(i as int), o) == names_hold(
                        kept@,
                        o,
                    ),
            decreases h0.len() - i,
        {
            let ghost k0 = kept@;
            if !(self.held[i] == *id) {
                kept.push(self.held[i].clone());
            }
            proof {
                let ghost pre = h0.take(i as int);
                let ghost cur = h0.take(i + 1);
                assert(pre.len() == i && cur.len() == i + 1);
                assert(forall|j: int| 0 <= j < i ==> #[trigger] cur[j] == pre[j]);
                assert(cur[i as int] == h0[i as int]);
                assert forall|o: Seq<char>| o != id@ implies #[trigger] names_hold(cur, o)
                    == names_hold(kept@, o) by {
                    if names_hold(cur, o) {
                        let j0 = choose|j: int| 0 <= j < cur.len() && (#[trigger] cur[j])@ == o;
                        if j0 < i {
                            assert(pre[j0]@ == o);
                            assert(names_hold(pre, o));
                            assert(names_hold(k0, o));
                            let c0 = choose|k: int|
                                0 <= k < k0.len() && (#[trigger] k0[k])@ == o;
                            assert(kept@[c0]@ == o);
                            assert(names_hold(kept@, o));
                        } else {
                            assert(h0[i as int]@ == o && o != id@);
                            assert(kept@[kept@.len() - 1]@ == o);
                            assert(names_hold(kept@, o));
                        }
                    }
                    if names_hold(kept@, o) {
                        let c0 = choose|k: int|
                            0 <= k < kept@.len() && (#[trigger] kept@[k])@ == o;
                        if c0 < k0.len() {
                            assert(k0[c0]@ == o);
                            assert(names_hold(k0, o));
                            assert(names_hold(pre, o));
                            let j0 = choose|j: int|
                                0 <= j < pre.len() && (#[trigger] pre[j])@ == o;
                            assert(cur[j0]@ == o);
                            assert(names_hold(cur, o));
                        } else {
                            assert(kept@[c0] == self.held@[i as int]);
                            assert(cur[i as int]@ == o);
                            assert(names_hold(cur, o));
                        }
                    }
                }
            }
            i += 1;
        }
        proof {
            assert(h0.take(h0.len() as int) =~= h0);
            assert forall|o: Seq<char>| o != id@ implies #[trigger] names_hold(h0, o)
                == names_hold(kept@, o) by {
                assert(names_hold(h0.take(h0.len() as int), o) == names_hold(kept@, o));
            }
        }
        self.held = kept;
    }
}

/// A handle bound to one database identity, from which transactions are
/// begun.
#[derive(Debug)]
pub struct TransactionManager {
    id: String,
}

impl TransactionManager {
    /// The database identity this handle is bound to.
    pub closed spec fn identity(&self) -> Seq<char> {
        self.id@
    }
}

/// Exclusive mutation rights over the state for one operation; holds the
/// registry lock for its identity until consumed by commit or rollback.
/// There is no implicit release on drop: a handle that is merely dropped
/// keeps the lock held, so every path must end in one of the two calls,
/// as [`crate::MQPkg::install`] does.
#[derive(Debug)]
pub struct Transaction {
    id: String,
}

impl Transaction {
    /// The identity whose lock this transaction holds.
    pub closed spec fn identity(&self) -> Seq<char> {
        self.id@
    }
}

/// One logical package database: a target filesystem, a stable identity,
/// the lazily loaded in-memory state, and whether a transaction is open.
#[derive(Debug)]
pub struct Database {
    fs: vfs::VfsPath,
    id: String,
    state: Option<State>,
    active: bool,
}

impl Database {
    /// Whether a transaction is currently open.
    pub closed spec fn is_active(&self) -> bool {
        self.active
    }

    /// The stable identity string the transaction lock is keyed by.
    pub closed spec fn identity(&self) -> Seq<char> {
        self.id@
    }

    /// The in-memory requested set, if one is loaded.
    pub closed spec fn cached(&self) -> Option<Seq<PackageRequest>> {
        match self.state {
            Some(st) => Some(st.reqs()),
            None => None,
        }
    }

    /// The loaded state, if any, is a well-formed map.
    pub open spec fn wf(&self) -> bool {
        match self.cached() {
            Some(rs) => reqs_unique(rs),
            None => true,
        }
    }

    pub fn new(fs: vfs::VfsPath, id: String) -> (r: Database)
        ensures
            !r.is_active(),
            r.cached() is None,
            r.wf(),
            r.identity() == id@,
    {
        Database { fs, id, state: None, active: false }
    }

    /// A handle bound to this database's identity.
    pub fn transaction(&self) -> (r: Result<TransactionManager, DBError>)
        ensures
            r matches Ok(m) ==> m.identity() == self.identity(),
            r is Ok,
    {
        Ok(TransactionManager { id: self.id.clone() })
    }

    /// Open the one allowed transaction by taking this identity's lock in
    /// the shared registry. Fails, changing neither the database nor any
    /// lock, while this handle is active or any other handle of the same
    /// identity holds the lock: two handles against the same identity can
    /// never both hold an active transaction.
    pub fn begin(&mut self, txnm: &TransactionManager, locks: &mut LockRegistry) -> (r: Result<
        Transaction,
        DBError,
    >)
        requires
            old(self).wf(),
            txnm.identity() == old(self).identity(),
        ensures
            final(self).wf(),
            final(self).cached() == old(self).cached(),
            final(self).identity() == old(self).identity(),
            (old(self).is_active() || old(locks).holds(old(self).identity())) ==> (r matches Err(e)
                && (e is TransactionActive) && final(self).is_active() == old(self).is_active()
                && forall|o: Seq<char>| final(locks).holds(o) == old(locks).holds(o)),
            !(old(self).is_active() || old(locks).holds(old(self).identity())) ==> (r matches Ok(t)
                && t.identity() == old(self).identity() && final(self).is_active() && final(locks).holds(old(self).identity()) && forall|o: Seq<char>|
                o != old(self).identity() ==> final(locks).holds(o) == old(locks).holds(o)),
    {
        if self.active {
            return Err(DBError::TransactionActive);
        }
        if !locks.acquire(&txnm.id) {
            return Err(DBError::TransactionActive);
        }
        self.active = true;
        Ok(Transaction { id: txnm.id.clone() })
    }

    /// Whether a transaction is open right now.
    pub fn in_transaction(&self) -> (r: bool)
        ensures
            r == self.is_active(),
    {
        self.active
    }

    /// Load the state from disk if this transaction has not touched it
    /// yet; never re-reads once loaded. Without an active transaction this
    /// is refused.
    fn load_if_needed(&mut self) -> (r: Result<(), DBError>)
        requires
            old(self).wf(),
        ensures
            final(self).wf(),
            final(self).is_active() == old(self).is_active(),
            final(self).identity() == old(self).identity(),
            !old(self).is_active() ==> (r matches Err(e) && (e is NoTransaction) && final(self).cached() == old(self).cached()),
            r is Err ==> final(self).cached() == old(self).cached(),
            r is Ok ==> (final(self).cached() is Some && (old(self).cached() is Some ==> final(self).cached() == old(self).cached())),
            (old(self).is_active() && old(self).cached() is Some) ==> r is Ok,
            (r matches Err(e) && e is NoTransaction) ==> !old(self).is_active(),
    {
        if !self.active {
            return Err(DBError::NoTransaction);
        }
        if self.state.is_none() {
            let st = State::load(&self.fs)?;
            self.state = Some(st);
        }
        Ok(())
    }

    /// Record `package` in the requested set, replacing any earlier
    /// request for the same name. Requires an active transaction; loads
    /// the state on first access.
    pub fn add(&mut self, package: &PackageRequest) -> (r: Result<(), DBError>)
        requires
            old(self).wf(),
        ensures
            final(self).wf(),
            final(self).is_active() == old(self).is_active(),
            final(self).identity() == old(self).identity(),
            !old(self).is_active() ==> (r matches Err(e) && (e is NoTransaction)),
            r is Err ==> final(self).cached() == old(self).cached(),
            r is Ok ==> (final(self).cached() matches Some(rs) && req_maps(
                rs,
                package.name@,
                package.version@,
            ) && (old(self).cached() matches Some(rs0) ==> upsert_rel(
                rs0,
                rs,
                package.name@,
                package.version@,
            ))),
            (old(self).is_active() && old(self).cached() is Some) ==> r is Ok,
            (r matches Err(e) && e is NoTransaction) ==> !old(self).is_active(),
    {
        self.load_if_needed()?;
        let mut st = match self.state.take() {
            Some(st) => st,
            None => {
                proof {
                    assert(false);
                }
                unreached()
            },
        };
        st.upsert(package);
        self.state = Some(st);
        Ok(())
    }

    /// The requested set as this transaction sees it. Requires an active
    /// transaction; loads the state on first access.
    pub fn requested(&mut self) -> (r: Result<Vec<PackageRequest>, DBError>)
        requires
            old(self).wf(),
        ensures
            final(self).wf(),
            final(self).is_active() == old(self).is_active(),
            final(self).identity() == old(self).identity(),
            !old(self).is_active() ==> (r matches Err(e) && (e is NoTransaction)),
            r is Err ==> final(self).cached() == old(self).cached(),
            r matches Ok(v) ==> (final(self).cached() matches Some(rs) && reqs_eq(v@, rs) && (old(self).cached() matches Some(rs0) ==> rs == rs0)),
            (old(self).is_active() && old(self).cached() is Some) ==> r is Ok,
            (r matches Err(e) && e is NoTransaction) ==> !old(self).is_active(),
    {
        self.load_if_needed()?;
        let st = match &self.state {
            Some(st) => st,
            None => {
                proof {
                    assert(false);
                }
                unreached()
            },
        };
        Ok(crate::version::duplicate_requests(st.requested_list()))
    }

    /// Write the transaction's state to disk, then release the lock and
    /// discard the in-memory copy; the lock is released even when the
    /// write fails, and a failed write leaves the previous file content
    /// behind. A state never touched inside the transaction is loaded
    /// first, so what is written is what the transaction saw.
    pub fn commit(&mut self, txn: Transaction, locks: &mut LockRegistry) -> (r: Result<
        (),
        DBError,
    >)
        requires
            old(self).wf(),
        ensures
            final(self).wf(),
            final(self).identity() == old(self).identity(),
            !old(self).is_active() ==> (r matches Err(e) && (e is NoTransaction) && final(self).is_active() == old(self).is_active() && final(self).cached() == old(self).cached()
                && forall|o: Seq<char>| final(locks).holds(o) == old(locks).holds(o)),
            old(self).is_active() ==> (!final(self).is_active() && final(self).cached() is None
                && !final(locks).holds(txn.identity()) && forall|o: Seq<char>|
                o != txn.identity() ==> final(locks).holds(o) == old(locks).holds(o)),
            (r matches Err(e) && e is NoTransaction) ==> !old(self).is_active(),
    {
        if !self.active {
            return Err(DBError::NoTransaction);
        }
        let outcome = match self.state.take() {
            Some(st) => Ok(st),
            None => State::load(&self.fs),
        };
        self.active = false;
        let written = match outcome {
            Ok(st) => st.save(&self.fs),
            Err(e) => Err(e),
        };
        locks.release(&txn.id);
        written
    }

    /// Release the transaction without writing: the in-memory state is
    /// discarded, the persisted file untouched, and the lock freed so the
    /// next `begin` succeeds.
    pub fn rollback(&mut self, txn: Transaction, locks: &mut LockRegistry)
        ensures
            final(self).wf(),
            !final(self).is_active(),
            final(self).cached() is None,
            final(self).identity() == old(self).identity(),
            !final(locks).holds(txn.identity()),
            forall|o: Seq<char>|
                o != txn.identity() ==> final(locks).holds(o) == old(locks).holds(o),
    {
        self.state = None;
        self.active = false;
        locks.release(&txn.id);
    }
}

} // verus!
