use vstd::prelude::*;

use crate::store::{DBOps, StoreError};
use sysinfo::SystemExt;

verus! {

/// Smallest read buffer a scan uses, in bytes.
pub const MIN_BUFFER: u64 = 65536;

/// Largest read buffer a scan uses, in bytes.
pub const MAX_BUFFER: u64 = 1073741824;

/// The read-buffer size for `available` bytes of free memory: half of it,
/// clamped to `MIN_BUFFER..=MAX_BUFFER`.
pub open spec fn budget_spec(available: u64) -> int {
    let half = available as int / 2;
    if half < MIN_BUFFER {
        MIN_BUFFER as int
    } else if half > MAX_BUFFER {
        MAX_BUFFER as int
    } else {
        half
    }
}

pub fn buffer_budget(available: u64) -> (r: usize)
    ensures
        r == budget_spec(available),
{
    let half = available / 2;
    if half < MIN_BUFFER {
        MIN_BUFFER as usize
    } else if half > MAX_BUFFER {
        MAX_BUFFER as usize
    } else {
        half as usize
    }
}

/// Relies on `std::path::Path::exists`: whether the path names something on
/// disk now; nothing is promised of the answer.
#[verifier::external_body]
fn path_exists(p: &str) -> (r: bool) {
    std::path::Path::new(p).exists()
}

/// Relies on sysinfo's `System::new_all` and `SystemExt::available_memory`:
/// the free memory of the machine in bytes; nothing is promised of it.
#[verifier::external_body]
fn available_memory() -> (r: u64) {
    sysinfo::System::new_all().available_memory()
}

/// Relies on chrono's `Local::now` and `DateTime::format`: the local time now,
/// as text; nothing is promised of it.
#[verifier::external_body]
fn local_timestamp() -> (r: String) {
    chrono::Local::now().format("%Y-%m-%d %H:%M:%S").to_string()
}

/// One match of a scan: the file, the signature it matched and when.
pub struct ScanResult {
    pub hash: String,
    pub path: String,
    pub timestamp: String,
}

/// What became of one file of a scan.
#[derive(Clone, Copy, PartialEq, Eq, Debug)]
pub enum Visit {
    /// No digest: the file could not be read, or was empty.
    Skipped,
    /// Its digest is not a known signature.
    Clean,
    /// Its digest is a known signature.
    Matched,
    /// The store failed; the file counts as clean.
    LookupFailed,
}

/// A regular file met by a walk, with its digest if it could be taken.
pub struct ScannedFile {
    pub path: String,
    pub digest: Option<String>,
}

#[derive(Debug)]
pub enum ScanError {
    /// The scan root does not exist.
    InvalidPath,
    Store(StoreError),
}

/// A scan session: the root to scan, the store to check digests against, and
/// what was found so far.
pub struct FileScanner {
    pub db_conn: DBOps,
    /// Paths of the files whose digest is a known signature.
    pub dirty_files: Vec<String>,
    pub scanloc: String,
    /// One entry per match, in the order found.
    pub log: Vec<ScanResult>,
    /// The read-buffer size for digests, in bytes.
    pub max_ram: usize,
    /// Files that gave a digest.
    pub analysed: u64,
    /// Files that gave none.
    pub skipped: u64,
}

/// The paths of the first `i` files whose outcome is a match, in order.
pub open spec fn matched_paths(files: Seq<ScannedFile>, vs: Seq<Visit>, i: nat) -> Seq<Seq<char>>
    decreases i,
{
    if i == 0 {
        Seq::empty()
    } else {
        let p = matched_paths(files, vs, (i - 1) as nat);
        if vs[i - 1] is Matched {
            p.push(files[i - 1].path@)
        } else {
            p
        }
    }
}

/// The (digest, path) pairs of the first `i` files whose outcome is a match,
/// in order.
pub open spec fn matched_entries(files: Seq<ScannedFile>, vs: Seq<Visit>, i: nat) -> Seq<
    (Seq<char>, Seq<char>),
>
    decreases i,
{
    if i == 0 {
        Seq::empty()
    } else {
        let p = matched_entries(files, vs, (i - 1) as nat);
        if vs[i - 1] is Matched {
            p.push((files[i - 1].digest->0@, files[i - 1].path@))
        } else {
            p
        }
    }
}

/// The (digest, path) pairs of a result log.
pub open spec fn entries(log: Seq<ScanResult>) -> Seq<(Seq<char>, Seq<char>)> {
    log.map_values(|e: ScanResult| (e.hash@, e.path@))
}

/// What a visit of `f` may give when the store is `db`: skipped exactly when
/// there is no digest, matched only on a signature and clean only on none.
pub open spec fn visit_fits(f: ScannedFile, db: DBOps, v: Visit) -> bool {
    &&& (v is Skipped <==> f.digest is None)
    &&& v is Matched ==> db.holds(f.digest->0@)
    &&& v is Clean ==> !db.holds(f.digest->0@)
}

/// The number of files among the first `i` that have a digest.
pub open spec fn digested(files: Seq<ScannedFile>, i: nat) -> nat
    decreases i,
{
    if i == 0 {
        0
    } else {
        digested(files, (i - 1) as nat) + if files[i - 1].digest is Some {
            1nat
        } else {
            0nat
        }
    }
}

pub open spec fn paths(v: Seq<String>) -> Seq<Seq<char>> {
    v.map_values(|s: String| s@)
}

proof fn lemma_matched_prefix(files: Seq<ScannedFile>, vs: Seq<Visit>, v: Visit, i: nat)
    requires
        i <= vs.len(),
    ensures
        matched_paths(files, vs.push(v), i) == matched_paths(files, vs, i),
        matched_entries(files, vs.push(v), i) == matched_entries(files, vs, i),
    decreases i,
{
    if i > 0 {
        lemma_matched_prefix(files, vs, v, (i - 1) as nat);
        assert(vs.push(v)[i - 1] == vs[i - 1]);
    }
}

proof fn lemma_digested_le(files: Seq<ScannedFile>, i: nat)
    requires
        i <= files.len(),
    ensures
        digested(files, i) <= i,
    decreases i,
{
    if i > 0 {
        lemma_digested_le(files, (i - 1) as nat);
    }
}

impl FileScanner {
    /// A session over `scanloc`, checking against the store in `db_file`. The
    /// read buffer is sized from the free memory now.
    pub fn new(scanloc: &str, db_file: &str) -> (r: Result<Self, ScanError>)
        ensures
            r matches Ok(s) ==> {
                &&& s.db_conn.wf()
                &&& s.db_conn.file() == db_file@
                &&& s.scanloc@ == scanloc@
                &&& s.dirty_files@.len() == 0
                &&& s.log@.len() == 0
                &&& s.analysed == 0
                &&& s.skipped == 0
                &&& MIN_BUFFER <= s.max_ram <= MAX_BUFFER
            },
    {
        if !path_exists(scanloc) {
            return Err(ScanError::InvalidPath);
        }
        let db = match DBOps::new(db_file) {
            Ok(d) => d,
            Err(e) => return Err(ScanError::Store(e)),
        };
        let max_ram = buffer_budget(available_memory());
        Ok(FileScanner {
            db_conn: db,
            dirty_files: Vec::new(),
            scanloc: scanloc.to_owned(),
            log: Vec::new(),
            max_ram,
            analysed: 0,
            skipped: 0,
        })
    }

    /// Takes in one regular file of the walk. A file without a digest is
    /// skipped. Otherwise it is analysed, and if its digest is a known
    /// signature its path is recorded and a match logged. A failed lookup
    /// counts as not found.
    pub fn visit_file(&mut self, path: String, digest: Option<String>) -> (r: Visit)
        requires
            old(self).analysed < u64::MAX,
            old(self).skipped < u64::MAX,
        ensures
            final(self).db_conn == old(self).db_conn,
            final(self).scanloc == old(self).scanloc,
            final(self).max_ram == old(self).max_ram,
            digest is None <==> r is Skipped,
            r is Skipped ==> final(self).skipped == old(self).skipped + 1 && final(self).analysed
                == old(self).analysed,
            !(r is Skipped) ==> final(self).analysed == old(self).analysed + 1
                && final(self).skipped == old(self).skipped,
            r is Matched ==> {
                &&& old(self).db_conn.holds(digest->0@)
                &&& final(self).dirty_files@ == old(self).dirty_files@.push(path)
                &&& final(self).log@.len() == old(self).log@.len() + 1
                &&& final(self).log@.last().hash@ == digest->0@
                &&& final(self).log@.last().path@ == path@
                &&& final(self).log@.drop_last() == old(self).log@
            },
            r is Clean ==> !old(self).db_conn.holds(digest->0@),
            !(r is Matched) ==> final(self).dirty_files@ == old(self).dirty_files@
                && final(self).log@ == old(self).log@,
    {
        match digest {
            None => {
                self.skipped = self.skipped + 1;
                Visit::Skipped
            },
            Some(hash) => {
                self.analysed = self.analysed + 1;
                match self.db_conn.hash_exists(hash.as_str()) {
                    Ok(true) => {
                        let entry = ScanResult {
                            hash,
                            path: path.clone(),
                            timestamp: local_timestamp(),
                        };
                        self.dirty_files.push(path);
                        self.log.push(entry);
                        Visit::Matched
                    },
                    Ok(false) => Visit::Clean,
                    Err(_) => Visit::LookupFailed,
                }
            },
        }
    }

    /// Takes in the regular files of a walk, in order, and returns what
    /// became of each. Every file is counted once, as analysed or skipped;
    /// the files matched are recorded and logged, in walk order, and no
    /// others.
    pub fn search_files(&mut self, files: &Vec<ScannedFile>) -> (vs: Vec<Visit>)
        requires
            old(self).analysed + files@.len() < u64::MAX,
            old(self).skipped + files@.len() < u64::MAX,
        ensures
            final(self).db_conn == old(self).db_conn,
            final(self).scanloc == old(self).scanloc,
            final(self).max_ram == old(self).max_ram,
            vs@.len() == files@.len(),
            forall|j: int|
                0 <= j < files@.len() ==> #[trigger] visit_fits(
                    files@[j],
                    old(self).db_conn,
                    vs@[j],
                ),
            final(self).analysed == old(self).analysed + digested(files@, files@.len()),
            final(self).analysed + final(self).skipped == old(self).analysed + old(self).skipped
                + files@.len(),
            paths(final(self).dirty_files@) == paths(old(self).dirty_files@) + matched_paths(
                files@,
                vs@,
                files@.len(),
            ),
            entries(final(self).log@) == entries(old(self).log@) + matched_entries(
                files@,
                vs@,
                files@.len(),
            ),
    {
        let mut vs: Vec<Visit> = Vec::new();
        let mut i: usize = 0;
        while i < files.len()
            invariant
                i <= files@.len(),
                vs@.len() == i,
                self.db_conn == old(self).db_conn,
                self.scanloc == old(self).scanloc,
                self.max_ram == old(self).max_ram,
                old(self).analysed + files@.len() < u64::MAX,
                old(self).skipped + files@.len() < u64::MAX,
                self.analysed == old(self).analysed + digested(files@, i as nat),
                self.analysed + self.skipped == old(self).analysed + old(self).skipped + i,
                forall|j: int|
                    0 <= j < i ==> #[trigger] visit_fits(files@[j], old(self).db_conn, vs@[j]),
                paths(self.dirty_files@) == paths(old(self).dirty_files@) + matched_paths(
                    files@,
                    vs@,
                    i as nat,
                ),
                entries(self.log@) == entries(old(self).log@) + matched_entries(
                    files@,
                    vs@,
                    i as nat,
                ),
            decreases files@.len() - i,
        {
            proof {
                lemma_digested_le(files@, i as nat);
            }
            let ghost dirty0 = self.dirty_files@;
            let ghost log0 = self.log@;
            let ghost vs0 = vs@;
            let f = &files[i];
            let v = self.visit_file(f.path.clone(), f.digest.clone());
            vs.push(v);
            proof {
                lemma_matched_prefix(files@, vs0, v, i as nat);
                assert(vs@ == vs0.push(v));
                assert(visit_fits(files@[i as int], old(self).db_conn, vs@[i as int]));
                if v is Matched {
                    assert(paths(self.dirty_files@) =~= paths(dirty0).push(f.path@));
                    assert(self.log@ =~= self.log@.drop_last().push(self.log@.last()));
                    assert(entries(self.log@) =~= entries(log0).push((f.digest->0@, f.path@)));
                }
                assert(paths(self.dirty_files@) =~= paths(old(self).dirty_files@) + matched_paths(
                    files@,
                    vs@,
                    (i + 1) as nat,
                ));
                assert(entries(self.log@) =~= entries(old(self).log@) + matched_entries(
                    files@,
                    vs@,
                    (i + 1) as nat,
                ));
            }
            i = i + 1;
        }
        vs
    }
}

} // verus!
