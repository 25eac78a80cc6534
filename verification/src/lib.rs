//! Package manager core: validated package identifiers, semantic-version
//! constraints, candidate aggregation across prioritized repositories, a
//! backtracking dependency resolver, and a transactional on-disk store of
//! the user's requested packages.

pub mod pkgdb;
pub mod repository;
pub mod resolver;
pub mod version;

use vstd::prelude::*;

verus! {

/// Why a piece of text was rejected as a package name.
#[derive(Debug, PartialEq, Eq, Clone)]
pub enum PackageNameError {
    /// The input was empty.
    TooShort,
    /// The first character is not an ASCII letter.
    NoStartingAlpha { name: String, character: char },
    /// A character after the first is not ASCII alphanumeric.
    InvalidCharacter { name: String, character: char },
}

/// An ASCII letter, either case.
pub open spec fn is_alpha(c: char) -> bool {
    (97 <= c as u32 && c as u32 <= 122) || (65 <= c as u32 && c as u32 <= 90)
}

/// An ASCII letter or digit.
pub open spec fn is_alnum(c: char) -> bool {
    is_alpha(c) || (48 <= c as u32 && c as u32 <= 57)
}

/// ASCII uppercase letters mapped to lowercase; everything else unchanged.
pub open spec fn lower_char(c: char) -> char {
    if 65 <= c as u32 && c as u32 <= 90 {
        ((c as u32) + 32) as char
    } else {
        c
    }
}

/// Character-wise ASCII lowercasing.
pub open spec fn lower_seq(s: Seq<char>) -> Seq<char> {
    Seq::new(s.len(), |i: int| lower_char(s[i]))
}

/// A syntactically valid package name: non-empty, starts with an ASCII
/// letter, all characters ASCII alphanumeric.
pub open spec fn valid_name_seq(s: Seq<char>) -> bool {
    &&& s.len() > 0
    &&& is_alpha(s[0])
    &&& forall|i: int| 0 <= i < s.len() ==> is_alnum(#[trigger] s[i])
}

/// `s[j]` is the first character of `s` that is not alphanumeric.
pub open spec fn first_invalid_at(s: Seq<char>, j: int) -> bool {
    &&& 0 <= j < s.len()
    &&& !is_alnum(s[j])
    &&& forall|k: int| 0 <= k < j ==> is_alnum(#[trigger] s[k])
}

fn alpha_char(c: char) -> (r: bool)
    ensures
        r == is_alpha(c),
{
    let u = c as u32;
    (97 <= u && u <= 122) || (65 <= u && u <= 90)
}

fn alnum_char(c: char) -> (r: bool)
    ensures
        r == is_alnum(c),
{
    let u = c as u32;
    alpha_char(c) || (48 <= u && u <= 57)
}

/// Relies on str::to_ascii_lowercase: ASCII uppercase letters are replaced
/// by their lowercase counterparts, all other characters are unchanged.
#[verifier::external_body]
fn ascii_lowercase(s: &str) -> (r: String)
    ensures
        r@ == lower_seq(s@),
{
    s.to_ascii_lowercase()
}

/// A normalized, case-folded package identifier. The only way to obtain one
/// is [`PackageName::parse`], so every value is non-empty, starts with an
/// ASCII letter, and is entirely lowercase ASCII alphanumeric.
#[derive(Debug, PartialEq, Eq, Hash)]
pub struct PackageName {
    text: String,
}

impl View for PackageName {
    type V = Seq<char>;

    closed spec fn view(&self) -> Seq<char> {
        self.text@
    }
}

impl PackageName {
    #[verifier::type_invariant]
    spec fn inv(self) -> bool {
        valid_name_seq(self.text@) && lower_seq(self.text@) == self.text@
    }

    /// Validate and normalize `value` into a package name.
    ///
    /// Rejections carry the offending input and character: empty input is
    /// too short; a non-letter first character is reported as such; the
    /// first non-alphanumeric character is reported otherwise.
    pub fn parse(value: &str) -> (r: Result<PackageName, PackageNameError>)
        ensures
            r matches Ok(n) ==> valid_name_seq(value@) && n@ == lower_seq(value@),
            valid_name_seq(value@) ==> r is Ok,
            value@.len() == 0 ==> r == Result::<PackageName, PackageNameError>::Err(
                PackageNameError::TooShort,
            ),
            (value@.len() > 0 && !is_alpha(value@[0])) ==> (r matches Err(e) && (e matches
                PackageNameError::NoStartingAlpha { name, character } && name@ == value@
                && character == value@[0])),
            (value@.len() > 0 && is_alpha(value@[0]) && !valid_name_seq(value@)) ==> (r matches
                Err(e) && e matches PackageNameError::InvalidCharacter { name, character }
                && name@ == value@ && exists|j: int| first_invalid_at(value@, j) && character
                == value@[j]),
            r matches Err(PackageNameError::InvalidCharacter { name, character }) ==> name@
                == value@ && exists|j: int| first_invalid_at(value@, j) && character == value@[j],
    {
        let len = value.unicode_len();
        if len == 0 {
            return Err(PackageNameError::TooShort);
        }
        let first = value.get_char(0);
        if !alpha_char(first) {
            return Err(PackageNameError::NoStartingAlpha {
                name: value.to_owned(),
                character: first,
            });
        }
        let mut i: usize = 0;
        while i < len
            invariant
                len == value@.len(),
                0 < len,
                is_alpha(value@[0]),
                0 <= i <= len,
                forall|k: int| 0 <= k < i ==> is_alnum(#[trigger] value@[k]),
            decreases len - i,
        {
            let c = value.get_char(i);
            if !alnum_char(c) {
                return Err(PackageNameError::InvalidCharacter {
                    name: value.to_owned(),
                    character: c,
                });
            }
            i += 1;
        }
        let text = ascii_lowercase(value);
        proof {
            lemma_lower_preserves_valid(value@);
            lemma_lower_idempotent(value@);
        }
        Ok(PackageName { text })
    }

    /// The normalized textual form of the name.
    pub fn as_str(&self) -> (r: &str)
        ensures
            r@ == self@,
    {
        self.text.as_str()
    }

    /// Name equality (already case-folded on both sides).
    pub fn same_name(&self, other: &PackageName) -> (r: bool)
        ensures
            r == (self@ == other@),
    {
        self.text == other.text
    }

    /// A fresh copy with the same normalized text.
    pub fn duplicate(&self) -> (r: PackageName)
        ensures
            r@ == self@,
    {
        proof {
            use_type_invariant(self);
        }
        PackageName { text: self.text.clone() }
    }
}

impl core::str::FromStr for PackageName {
    type Err = PackageNameError;

    fn from_str(value: &str) -> Result<PackageName, PackageNameError> {
        PackageName::parse(value)
    }
}

/// Lowercasing keeps a name valid: case does not affect which characters
/// are letters or alphanumeric.
pub proof fn lemma_lower_preserves_valid(s: Seq<char>)
    requires
        valid_name_seq(s),
    ensures
        valid_name_seq(lower_seq(s)),
{
    assert forall|i: int| 0 <= i < lower_seq(s).len() implies is_alnum(#[trigger] lower_seq(s)[i]) by {
        assert(is_alnum(s[i]));
    }
}

/// Lowercasing is idempotent.
pub proof fn lemma_lower_idempotent(s: Seq<char>)
    ensures
        lower_seq(lower_seq(s)) == lower_seq(s),
{
    assert(lower_seq(lower_seq(s)) =~= lower_seq(s));
}

/// Why a package-manager operation failed.
#[derive(Debug)]
pub enum MQPkgError {
    DBError { source: crate::pkgdb::DBError },
}

/// `ps[k]` is the last request for its name within `ps[..end]`.
pub open spec fn latest_request_before(ps: Seq<version::PackageRequest>, k: int, end: int) -> bool {
    0 <= k < end <= ps.len() && forall|j: int| k < j < end ==> (#[trigger] ps[j]).name@ != ps[k].name@
}

/// `ps[k]` is the last request for its name in all of `ps`.
pub open spec fn latest_request_at(ps: Seq<version::PackageRequest>, k: int) -> bool {
    latest_request_before(ps, k, ps.len() as int)
}

/// The package manager: a handle over one target environment's package
/// database.
#[derive(Debug)]
pub struct MQPkg {
    db: crate::pkgdb::Database,
}

impl MQPkg {
    /// Whether this handle currently holds an open transaction.
    pub closed spec fn is_active(&self) -> bool {
        self.db.is_active()
    }

    /// Whether the database's in-memory state is well formed.
    pub closed spec fn wf(&self) -> bool {
        self.db.wf()
    }

    /// The in-memory requested set, if one is loaded.
    pub closed spec fn cached(&self) -> Option<Seq<version::PackageRequest>> {
        self.db.cached()
    }

    /// The identity string this handle's transaction lock is keyed by.
    pub closed spec fn identity(&self) -> Seq<char> {
        self.db.identity()
    }

    /// A manager over the database rooted at `fs`, identified by `id`
    /// (derived by the caller from the canonicalized target path).
    pub fn new(fs: vfs::VfsPath, id: String) -> (r: Result<MQPkg, MQPkgError>)
        ensures
            r is Ok,
            r matches Ok(m) ==> !m.is_active() && m.wf() && m.cached() is None && m.identity()
                == id@,
    {
        let db = crate::pkgdb::Database::new(fs, id);
        Ok(MQPkg { db })
    }

    /// Record one requested package, replacing any earlier request for
    /// the same name; requires an active transaction and otherwise fails
    /// with the no-transaction error before touching anything.
    pub fn add(&mut self, package: &version::PackageRequest) -> (r: Result<(), MQPkgError>)
        requires
            old(self).wf(),
        ensures
            final(self).wf(),
            final(self).is_active() == old(self).is_active(),
            final(self).identity() == old(self).identity(),
            !old(self).is_active() ==> r is Err,
            (old(self).is_active() && old(self).cached() is Some) ==> r is Ok,
            r is Err ==> final(self).cached() == old(self).cached(),
            r is Ok ==> (final(self).cached() matches Some(rs) && crate::pkgdb::req_maps(
                rs,
                package.name@,
                package.version@,
            ) && (old(self).cached() matches Some(rs0) ==> crate::pkgdb::upsert_rel(
                rs0,
                rs,
                package.name@,
                package.version@,
            ))),
    {
        match self.db.add(package) {
            Ok(()) => Ok(()),
            Err(source) => Err(MQPkgError::DBError { source }),
        }
    }

    /// Record every given package in the requested set, inside one
    /// transaction: begin (taking this identity's lock from the shared
    /// registry), add each in order, then commit; any failure rolls back
    /// without writing. The lock is released on every path, and on
    /// success the returned snapshot is the set that was committed: it
    /// maps each package's name to the last range given for it.
    pub fn install(
        &mut self,
        packages: &[version::PackageRequest],
        locks: &mut crate::pkgdb::LockRegistry,
    ) -> (r: Result<Vec<version::PackageRequest>, MQPkgError>)
        requires
            old(self).wf(),
        ensures
            final(self).wf(),
            final(self).identity() == old(self).identity(),
            old(self).is_active() ==> r is Err,
            (!old(self).is_active() && old(locks).holds(old(self).identity())) ==> r is Err,
            r is Ok ==> !final(self).is_active(),
            (!old(self).is_active() && !old(locks).holds(old(self).identity())) ==> (!final(self).is_active() && !final(locks).holds(old(self).identity()) && forall|o: Seq<char>|
                o != old(self).identity() ==> final(locks).holds(o) == old(locks).holds(o)),
            r matches Ok(v) ==> forall|k: int|
                latest_request_at(packages@, k) ==> crate::pkgdb::req_maps(
                    v@,
                    (#[trigger] packages@[k]).name@,
                    packages@[k].version@,
                ),
    {
        let ghost ps = packages@;
        let txnm = match self.db.transaction() {
            Ok(t) => t,
            Err(source) => {
                return Err(MQPkgError::DBError { source });
            },
        };
        let txn = match self.db.begin(&txnm, locks) {
            Ok(t) => t,
            Err(source) => {
                return Err(MQPkgError::DBError { source });
            },
        };
        let mut i: usize = 0;
        while i < packages.len()
            invariant
                ps == packages@,
                self.db.wf(),
                self.db.is_active(),
                self.db.identity() == old(self).identity(),
                txn.identity() == old(self).identity(),
                locks.holds(old(self).identity()),
                forall|o: Seq<char>|
                    o != old(self).identity() ==> locks.holds(o) == old(locks).holds(o),
                0 <= i <= ps.len(),
                i > 0 ==> (self.db.cached() matches Some(rs) && forall|k: int|
                    latest_request_before(ps, k, i as int) ==> crate::pkgdb::req_maps(
                        rs,
                        (#[trigger] ps[k]).name@,
                        ps[k].version@,
                    )),
            decreases ps.len() - i,
        {
            let ghost cached0 = self.db.cached();
            match self.db.add(&packages[i]) {
                Ok(()) => (),
                Err(source) => {
                    self.db.rollback(txn, locks);
                    return Err(MQPkgError::DBError { source });
                },
            }
            proof {
                let rs_new = self.db.cached()->Some_0;
                assert forall|k: int| latest_request_before(ps, k, i + 1) implies crate::pkgdb::req_maps(
                    rs_new,
                    (#[trigger] ps[k]).name@,
                    ps[k].version@,
                ) by {
                    if k == i {
                    } else {
                        assert(latest_request_before(ps, k, i as int));
                        assert(ps[k].name@ != ps[i as int].name@);
                        let rs0 = cached0->Some_0;
                        let j0 = choose|j: int|
                            0 <= j < rs0.len() && (#[trigger] rs0[j]).name@ == ps[k].name@
                                && rs0[j].version@ == ps[k].version@;
                        assert(rs_new[j0].name@ == ps[k].name@ && rs_new[j0].version@
                            == ps[k].version@);
                    }
                }
            }
            i += 1;
        }
        let got = match self.db.requested() {
            Ok(v) => v,
            Err(source) => {
                self.db.rollback(txn, locks);
                return Err(MQPkgError::DBError { source });
            },
        };
        proof {
            let rs = self.db.cached()->Some_0;
            assert forall|k: int| latest_request_at(ps, k) implies crate::pkgdb::req_maps(
                got@,
                (#[trigger] ps[k]).name@,
                ps[k].version@,
            ) by {
                assert(latest_request_before(ps, k, ps.len() as int));
                assert(ps.len() > 0);
                let j0 = choose|j: int|
                    0 <= j < rs.len() && (#[trigger] rs[j]).name@ == ps[k].name@ && rs[j].version@
                        == ps[k].version@;
                assert(got@[j0].name@ == ps[k].name@ && got@[j0].version@ == ps[k].version@);
            }
        }
        match self.db.commit(txn, locks) {
            Ok(()) => Ok(got),
            Err(source) => Err(MQPkgError::DBError { source }),
        }
    }
}

/// Case-insensitive normalization: parsing the lowercased form of a valid
/// identifier accepts and yields the same name as parsing the original, and
/// parsing is idempotent on its own output. Stated over the specification
/// functions that [`PackageName::parse`]'s contract uses: a valid input's
/// lowercase form is itself valid, and lowercasing it again changes nothing.
pub proof fn lemma_parse_case_insensitive(s: Seq<char>)
    requires
        valid_name_seq(s),
    ensures
        valid_name_seq(lower_seq(s)),
        lower_seq(lower_seq(s)) == lower_seq(s),
{
    lemma_lower_preserves_valid(s);
    lemma_lower_idempotent(s);
}

} // verus!
