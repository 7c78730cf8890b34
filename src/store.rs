use vstd::prelude::*;
use vstd::multiset::Multiset;
use vstd::string::StringSliceAdditionalSpecFns;

verus! {

broadcast use vstd::multiset::group_multiset_axioms;

/// The contents of every table of a database: table name to the multiset of
/// hash strings it holds.
pub type Tables = Map<Seq<char>, Multiset<Seq<char>>>;

#[verifier::external_type_specification]
#[verifier::external_body]
pub struct ExConnection(rusqlite::Connection);

#[verifier::external_type_specification]
#[verifier::external_body]
pub struct ExSqliteError(rusqlite::Error);

/// What a connection reads from each table now, its own uncommitted writes
/// included. The store assumes that no other writer uses the same file, and
/// that the file holds no tables but the two of `Table`: SQLite ignores case
/// in table names, so another table whose name differs from one of them only
/// in case would not be told apart.
pub uninterp spec fn tables_of(c: rusqlite::Connection) -> Tables;

/// The committed contents that an open transaction would roll back to;
/// `None` while the connection is in autocommit mode.
pub uninterp spec fn snapshot_of(c: rusqlite::Connection) -> Option<Tables>;

/// The table that the secondary index `idx` covers, if the index exists.
pub uninterp spec fn index_of(c: rusqlite::Connection) -> Option<Seq<char>>;

/// The two tables the store knows: the queried one, and the backup kept while
/// an update is running.
#[derive(Clone, Copy, PartialEq, Eq, Debug)]
pub enum Table {
    Active,
    Backup,
}

pub open spec fn table_key(t: Table) -> Seq<char> {
    match t {
        Table::Active => "signatures"@,
        Table::Backup => "old"@,
    }
}

pub open spec fn active_key() -> Seq<char> {
    table_key(Table::Active)
}

pub proof fn lemma_keys_distinct()
    ensures
        table_key(Table::Active) != table_key(Table::Backup),
{
    reveal_strlit("signatures");
    reveal_strlit("old");
    assert(table_key(Table::Active).len() != table_key(Table::Backup).len());
}

/// The statements the store sends to the database.
#[derive(Clone, Copy, PartialEq, Eq, Debug)]
pub enum Stmt {
    CreateTable,
    CreateIndex,
    DropIndex,
    DropTable(Table),
    DropTableIfExists(Table),
    Rename(Table, Table),
    Vacuum,
    Begin,
    Commit,
    Rollback,
    Insert,
    Delete,
}

pub open spec fn stmt_text(s: Stmt) -> Seq<char> {
    match s {
        Stmt::CreateTable => "CREATE TABLE IF NOT EXISTS signatures (hash varchar(32))"@,
        Stmt::CreateIndex => "CREATE INDEX IF NOT EXISTS idx ON signatures (hash)"@,
        Stmt::DropIndex => "DROP INDEX IF EXISTS idx"@,
        Stmt::DropTable(Table::Active) => "DROP TABLE signatures"@,
        Stmt::DropTable(Table::Backup) => "DROP TABLE old"@,
        Stmt::DropTableIfExists(Table::Active) => "DROP TABLE IF EXISTS signatures"@,
        Stmt::DropTableIfExists(Table::Backup) => "DROP TABLE IF EXISTS old"@,
        Stmt::Rename(Table::Active, Table::Active) => "ALTER TABLE signatures RENAME TO signatures"@,
        Stmt::Rename(Table::Active, Table::Backup) => "ALTER TABLE signatures RENAME TO old"@,
        Stmt::Rename(Table::Backup, Table::Active) => "ALTER TABLE old RENAME TO signatures"@,
        Stmt::Rename(Table::Backup, Table::Backup) => "ALTER TABLE old RENAME TO old"@,
        Stmt::Vacuum => "VACUUM"@,
        Stmt::Begin => "BEGIN"@,
        Stmt::Commit => "COMMIT"@,
        Stmt::Rollback => "ROLLBACK"@,
        Stmt::Insert => "INSERT INTO signatures(hash) VALUES (?1)"@,
        Stmt::Delete => "DELETE FROM signatures WHERE hash = ?1"@,
    }
}

/// Statements that bind one hash string.
pub open spec fn stmt_arity(s: Stmt) -> nat {
    match s {
        Stmt::Insert | Stmt::Delete => 1,
        _ => 0,
    }
}

/// The SQL text of a statement.
pub fn sql_of(s: Stmt) -> (r: &'static str)
    ensures
        r@ == stmt_text(s),
{
    match s {
        Stmt::CreateTable => "CREATE TABLE IF NOT EXISTS signatures (hash varchar(32))",
        Stmt::CreateIndex => "CREATE INDEX IF NOT EXISTS idx ON signatures (hash)",
        Stmt::DropIndex => "DROP INDEX IF EXISTS idx",
        Stmt::DropTable(Table::Active) => "DROP TABLE signatures",
        Stmt::DropTable(Table::Backup) => "DROP TABLE old",
        Stmt::DropTableIfExists(Table::Active) => "DROP TABLE IF EXISTS signatures",
        Stmt::DropTableIfExists(Table::Backup) => "DROP TABLE IF EXISTS old",
        Stmt::Rename(Table::Active, Table::Active) => "ALTER TABLE signatures RENAME TO signatures",
        Stmt::Rename(Table::Active, Table::Backup) => "ALTER TABLE signatures RENAME TO old",
        Stmt::Rename(Table::Backup, Table::Active) => "ALTER TABLE old RENAME TO signatures",
        Stmt::Rename(Table::Backup, Table::Backup) => "ALTER TABLE old RENAME TO old",
        Stmt::Vacuum => "VACUUM",
        Stmt::Begin => "BEGIN",
        Stmt::Commit => "COMMIT",
        Stmt::Rollback => "ROLLBACK",
        Stmt::Insert => "INSERT INTO signatures(hash) VALUES (?1)",
        Stmt::Delete => "DELETE FROM signatures WHERE hash = ?1",
    }
}

/// What a data or schema statement that succeeded did to the tables.
pub open spec fn table_effect(s: Stmt, arg: Seq<char>, t: Tables, t2: Tables) -> bool {
    let a = active_key();
    match s {
        Stmt::CreateTable => t2 == (if t.contains_key(a) {
            t
        } else {
            t.insert(a, Multiset::empty())
        }),
        Stmt::CreateIndex | Stmt::DropIndex | Stmt::Vacuum => t2 == t,
        Stmt::DropTable(x) => t.contains_key(table_key(x)) && t2 == t.remove(table_key(x)),
        Stmt::DropTableIfExists(x) => t2 == t.remove(table_key(x)),
        Stmt::Rename(x, y) => t.contains_key(table_key(x)) && !t.contains_key(table_key(y))
            && t2 == t.remove(table_key(x)).insert(table_key(y), t[table_key(x)]),
        Stmt::Insert => t.contains_key(a) && t2 == t.insert(a, t[a].insert(arg)),
        Stmt::Delete => t.contains_key(a) && t2 == t.insert(a, t[a].update(arg, 0)),
        _ => t2 == t,
    }
}

/// Where the index stands after a data or schema statement that succeeded:
/// it is created over the active table unless it exists, dropped with its
/// table, and carried along when its table is renamed.
pub open spec fn index_effect(s: Stmt, idx: Option<Seq<char>>) -> Option<Seq<char>> {
    match s {
        Stmt::CreateIndex => if idx is None {
            Some(active_key())
        } else {
            idx
        },
        Stmt::DropIndex => None,
        Stmt::DropTable(x) | Stmt::DropTableIfExists(x) => if idx == Some(table_key(x)) {
            None
        } else {
            idx
        },
        Stmt::Rename(x, y) => if idx == Some(table_key(x)) {
            Some(table_key(y))
        } else {
            idx
        },
        _ => idx,
    }
}

/// One successful statement, over the tables and the transaction snapshot.
pub open spec fn step_ok(
    s: Stmt,
    arg: Seq<char>,
    t: Tables,
    snap: Option<Tables>,
    t2: Tables,
    snap2: Option<Tables>,
) -> bool {
    match s {
        Stmt::Begin => snap is None && t2 == t && snap2 == Some(t),
        Stmt::Commit => snap is Some && t2 == t && snap2 is None,
        Stmt::Rollback => snap is Some && t2 == snap->0 && snap2 is None,
        _ => table_effect(s, arg, t, t2) && snap2 == snap,
    }
}

/// One failed statement: nothing changed, or the open transaction was rolled
/// back as a whole.
pub open spec fn step_err(
    s: Stmt,
    t: Tables,
    snap: Option<Tables>,
    t2: Tables,
    snap2: Option<Tables>,
) -> bool {
    match s {
        Stmt::Rollback => snap2 is None && t2 == (match snap {
            Some(m) => m,
            None => t,
        }),
        _ => (t2 == t && snap2 == snap) || (snap is Some && t2 == snap->0 && snap2 is None),
    }
}

/// Relies on rusqlite's `Connection::execute`: SQLite runs one statement
/// atomically. On success it has the effect of its SQL text; on failure it had
/// none, save that some errors inside a transaction roll the transaction back.
/// A failed ROLLBACK means that no transaction was open. The index follows
/// `index_effect`; a statement that failed without ending a transaction left
/// it as it was.
#[verifier::external_body]
fn execute(c: &mut rusqlite::Connection, s: Stmt, sql: &str, args: &Vec<String>) -> (r: Result<
    usize,
    rusqlite::Error,
>)
    requires
        sql@ == stmt_text(s),
        args@.len() == stmt_arity(s),
    ensures
        match r {
            Ok(_) => step_ok(
                s,
                if args@.len() > 0 {
                    args@[0]@
                } else {
                    Seq::empty()
                },
                tables_of(*old(c)),
                snapshot_of(*old(c)),
                tables_of(*final(c)),
                snapshot_of(*final(c)),
            ),
            Err(_) => step_err(
                s,
                tables_of(*old(c)),
                snapshot_of(*old(c)),
                tables_of(*final(c)),
                snapshot_of(*final(c)),
            ),
        },
        r is Ok && !(s is Rollback) ==> index_of(*final(c)) == index_effect(s, index_of(*old(c))),
        r is Err && snapshot_of(*final(c)) == snapshot_of(*old(c)) ==> index_of(*final(c))
            == index_of(*old(c)),
{
    c.execute(sql, rusqlite::params_from_iter(args.iter()))
}

/// Relies on rusqlite's `Connection::is_autocommit`: true exactly when no
/// transaction is open.
#[verifier::external_body]
fn in_autocommit(c: &rusqlite::Connection) -> (r: bool)
    ensures
        r == (snapshot_of(*c) is None),
{
    c.is_autocommit()
}

/// Relies on rusqlite's `Connection::open`: a new connection is in autocommit
/// mode.
#[verifier::external_body]
fn open_connection(path: &str) -> (r: Result<rusqlite::Connection, rusqlite::Error>)
    ensures
        r matches Ok(c) ==> snapshot_of(c) is None,
{
    rusqlite::Connection::open(path)
}

/// The queries the store sends: the row count of the active table, the
/// number of rows equal to one hash, and whether the backup table exists.
#[derive(Clone, Copy, PartialEq, Eq, Debug)]
pub enum Query {
    CountAll,
    CountHash,
    HasBackup,
}

pub open spec fn query_text(q: Query) -> Seq<char> {
    match q {
        Query::CountAll => "SELECT COUNT(*) FROM signatures"@,
        Query::CountHash => "SELECT COUNT(*) FROM signatures WHERE hash = ?1"@,
        Query::HasBackup => "SELECT COUNT(*) FROM sqlite_master WHERE type = 'table' AND name = 'old'"@,
    }
}

pub open spec fn query_arity(q: Query) -> nat {
    match q {
        Query::CountAll | Query::HasBackup => 0,
        Query::CountHash => 1,
    }
}

/// The SQL text of a query.
pub fn query_sql(q: Query) -> (r: &'static str)
    ensures
        r@ == query_text(q),
{
    match q {
        Query::CountAll => "SELECT COUNT(*) FROM signatures",
        Query::CountHash => "SELECT COUNT(*) FROM signatures WHERE hash = ?1",
        Query::HasBackup => "SELECT COUNT(*) FROM sqlite_master WHERE type = 'table' AND name = 'old'",
    }
}

/// Relies on rusqlite's `Connection::query_row` and `Row::get`: a COUNT(*)
/// query over an existing table returns the number of matching rows. `=` on
/// text compares exactly and case-sensitively; `sqlite_master` lists each
/// table once.
#[verifier::external_body]
fn query_count(c: &rusqlite::Connection, q: Query, sql: &str, args: &Vec<String>) -> (r: Result<
    i64,
    rusqlite::Error,
>)
    requires
        sql@ == query_text(q),
        args@.len() == query_arity(q),
    ensures
        r matches Ok(n) ==> match q {
            Query::CountAll => tables_of(*c).contains_key(active_key()) && n == tables_of(
                *c,
            )[active_key()].len(),
            Query::CountHash => tables_of(*c).contains_key(active_key()) && n == tables_of(
                *c,
            )[active_key()].count(args@[0]@),
            Query::HasBackup => n == (if tables_of(*c).contains_key(table_key(Table::Backup)) {
                1int
            } else {
                0int
            }),
        },
{
    c.query_row(sql, rusqlite::params_from_iter(args.iter()), |row| row.get(0))
}

pub open spec fn is_hex_lower(c: char) -> bool {
    ('0' <= c && c <= '9') || ('a' <= c && c <= 'f')
}

/// A well-formed signature: 32 lowercase hexadecimal digits, the textual form
/// of a 128-bit digest. Lookups compare exactly and digests are written in
/// lowercase, so a signature in uppercase could never match a file: such a
/// record is treated as malformed and skipped rather than stored.
pub open spec fn is_valid_hash(s: Seq<char>) -> bool {
    s.len() == 32 && forall|i: int| 0 <= i < s.len() ==> is_hex_lower(#[trigger] s[i])
}

/// Tells whether a record is a well-formed signature.
pub fn valid_hash(s: &str) -> (r: bool)
    ensures
        r == is_valid_hash(s@),
{
    if !s.is_ascii() {
        return false;
    }
    proof {
        vstd::string::is_ascii_spec_bytes(s);
    }
    let b = s.as_bytes();
    if b.len() != 32 {
        return false;
    }
    let mut i: usize = 0;
    while i < b.len()
        invariant
            b@ == s.spec_bytes(),
            b@ =~= Seq::new(s@.len(), |k: int| s@[k] as u8),
            vstd::string::is_ascii(s),
            b@.len() == 32,
            0 <= i <= 32,
            forall|k: int| 0 <= k < i ==> is_hex_lower(#[trigger] s@[k]),
        decreases 32 - i,
    {
        let x = b[i];
        assert(x == s@[i as int] as u8);
        assert('\0' <= s@[i as int] <= '\u{7f}');
        if !((48 <= x && x <= 57) || (97 <= x && x <= 102)) {
            assert(!is_hex_lower(s@[i as int]));
            return false;
        }
        i = i + 1;
    }
    true
}

/// The views of a list of records.
pub open spec fn views(hs: Seq<String>) -> Seq<Seq<char>> {
    hs.map_values(|h: String| h@)
}

/// The records among the first `i` whose outcome is true.
pub open spec fn picked(hs: Seq<Seq<char>>, ok: Seq<bool>, i: nat) -> Multiset<Seq<char>>
    decreases i,
{
    if i == 0 {
        Multiset::empty()
    } else {
        let m = picked(hs, ok, (i - 1) as nat);
        if ok[i - 1] {
            m.insert(hs[i - 1])
        } else {
            m
        }
    }
}

/// `m` with every copy of each of the first `i` records whose outcome is true
/// taken out.
pub open spec fn removed(m: Multiset<Seq<char>>, hs: Seq<Seq<char>>, ok: Seq<bool>, i: nat) -> Multiset<
    Seq<char>,
>
    decreases i,
{
    if i == 0 {
        m
    } else {
        let r = removed(m, hs, ok, (i - 1) as nat);
        if ok[i - 1] {
            r.update(hs[i - 1], 0)
        } else {
            r
        }
    }
}

/// The number of true outcomes among the first `i`.
pub open spec fn true_count(ok: Seq<bool>, i: nat) -> nat
    decreases i,
{
    if i == 0 {
        0
    } else {
        true_count(ok, (i - 1) as nat) + if ok[i - 1] {
            1nat
        } else {
            0nat
        }
    }
}

/// A per-record outcome of a batch: one flag per record, set for the records
/// that were applied, which are all well-formed; `done` counts the flags set
/// and `skipped` the others.
pub open spec fn batch_outcome(hs: Seq<Seq<char>>, ok: Seq<bool>, done: nat, skipped: nat) -> bool {
    &&& ok.len() == hs.len()
    &&& done == true_count(ok, ok.len())
    &&& done + skipped == hs.len()
    &&& forall|j: int| 0 <= j < hs.len() && #[trigger] ok[j] ==> is_valid_hash(hs[j])
}

/// The tables once the active table exists.
pub open spec fn with_active(t: Tables) -> Tables {
    if t.contains_key(active_key()) {
        t
    } else {
        t.insert(active_key(), Multiset::empty())
    }
}

/// The tables after a batch insert that applied the flagged records.
pub open spec fn after_insert(t: Tables, hs: Seq<Seq<char>>, ok: Seq<bool>) -> Tables {
    with_active(t).insert(active_key(), with_active(t)[active_key()].add(picked(hs, ok, hs.len())))
}

/// The tables after a batch removal that applied the flagged records.
pub open spec fn after_remove(t: Tables, hs: Seq<Seq<char>>, ok: Seq<bool>) -> Tables {
    with_active(t).insert(active_key(), removed(with_active(t)[active_key()], hs, ok, hs.len()))
}

/// `t2` is `t` after a batch insert of `hs` that inserted `n` records and
/// skipped `k`.
pub open spec fn inserted_batch(t: Tables, hs: Seq<Seq<char>>, t2: Tables, n: nat, k: nat) -> bool {
    exists|ok: Seq<bool>| #[trigger]
        batch_outcome(hs, ok, n, k) && t2 == after_insert(t, hs, ok)
}

/// `t2` is `t` after a batch removal of `hs` that applied `n` records and
/// skipped `k`.
pub open spec fn removed_batch(t: Tables, hs: Seq<Seq<char>>, t2: Tables, n: nat, k: nat) -> bool {
    exists|ok: Seq<bool>| #[trigger]
        batch_outcome(hs, ok, n, k) && t2 == after_remove(t, hs, ok)
}

/// One flag per record, set only on well-formed ones.
pub open spec fn fill_outcome(hs: Seq<Seq<char>>, ok: Seq<bool>) -> bool {
    &&& ok.len() == hs.len()
    &&& forall|j: int| 0 <= j < hs.len() && #[trigger] ok[j] ==> is_valid_hash(hs[j])
}

/// `m` holds the well-formed records of `hs` that the database accepted.
pub open spec fn filled_from(hs: Seq<Seq<char>>, m: Multiset<Seq<char>>) -> bool {
    exists|ok: Seq<bool>| #[trigger] fill_outcome(hs, ok) && m == picked(hs, ok, hs.len())
}

pub proof fn lemma_true_count_le(ok: Seq<bool>, i: nat)
    requires
        i <= ok.len(),
    ensures
        true_count(ok, i) <= i,
    decreases i,
{
    if i > 0 {
        lemma_true_count_le(ok, (i - 1) as nat);
    }
}

pub proof fn lemma_prefix_stable(ok: Seq<bool>, b: bool, hs: Seq<Seq<char>>, m: Multiset<Seq<char>>, i: nat)
    requires
        i <= ok.len(),
    ensures
        picked(hs, ok.push(b), i) == picked(hs, ok, i),
        removed(m, hs, ok.push(b), i) == removed(m, hs, ok, i),
        true_count(ok.push(b), i) == true_count(ok, i),
    decreases i,
{
    if i > 0 {
        lemma_prefix_stable(ok, b, hs, m, (i - 1) as nat);
        assert(ok.push(b)[i - 1] == ok[i - 1]);
    }
}

/// A batch applies every flagged record.
pub proof fn lemma_picked_contains(hs: Seq<Seq<char>>, ok: Seq<bool>, i: nat, j: int)
    requires
        0 <= j < i,
        i <= ok.len(),
        i <= hs.len(),
        ok[j],
    ensures
        picked(hs, ok, i).count(hs[j]) > 0,
    decreases i,
{
    if j < i - 1 {
        lemma_picked_contains(hs, ok, (i - 1) as nat, j);
    }
}

/// Only records of the batch are applied.
pub proof fn lemma_picked_only(hs: Seq<Seq<char>>, ok: Seq<bool>, i: nat, h: Seq<char>)
    requires
        i <= ok.len(),
        i <= hs.len(),
        forall|j: int| 0 <= j < i ==> hs[j] != h,
    ensures
        picked(hs, ok, i).count(h) == 0,
    decreases i,
{
    if i > 0 {
        lemma_picked_only(hs, ok, (i - 1) as nat, h);
    }
}

/// Failure of the underlying database.
#[derive(Debug)]
pub enum StoreError {
    Sqlite(rusqlite::Error),
    /// The row count does not fit the count type.
    CountOutOfRange,
}

/// Failure of a full replace of the signatures.
#[derive(Debug)]
pub enum UpdateError {
    /// A step before the active table was moved aside failed; nothing changed.
    Store(StoreError),
    /// A step between moving the active table aside and dropping it failed
    /// (inserting, rebuilding the index, counting, dropping the backup); the
    /// previous signatures are back in place.
    RolledBack(StoreError),
    /// A step failed, and so did putting the previous signatures back; they
    /// are left in the backup table.
    Restore { cause: StoreError, restore: StoreError },
    /// Compacting the file failed once the new signatures were in place,
    /// indexed, and the backup gone.
    Compact(StoreError),
}

/// The signature store: one connection to a database file holding the active
/// table of signatures.
pub struct DBOps {
    db_conn: rusqlite::Connection,
    db_file: String,
}

impl DBOps {
    /// The contents of the database's tables, as this store reads them.
    pub closed spec fn tables(&self) -> Tables {
        tables_of(self.db_conn)
    }

    /// No transaction is left open between calls.
    pub closed spec fn wf(&self) -> bool {
        snapshot_of(self.db_conn) is None
    }

    /// The table the secondary index covers, if there is one.
    pub closed spec fn index(&self) -> Option<Seq<char>> {
        index_of(self.db_conn)
    }

    /// The secondary index exists over the active table.
    pub open spec fn indexed(&self) -> bool {
        self.index() == Some(active_key())
    }

    pub closed spec fn file(&self) -> Seq<char> {
        self.db_file@
    }

    /// The signatures that lookups see, empty while the active table is absent.
    pub open spec fn active(&self) -> Multiset<Seq<char>> {
        if self.tables().contains_key(active_key()) {
            self.tables()[active_key()]
        } else {
            Multiset::empty()
        }
    }

    /// Whether a lookup of `h` finds it.
    pub open spec fn holds(&self, h: Seq<char>) -> bool {
        self.active().count(h) > 0
    }

    fn run(&mut self, s: Stmt) -> (r: Result<(), StoreError>)
        requires
            stmt_arity(s) == 0,
        ensures
            final(self).file() == old(self).file(),
            match r {
                Ok(_) => step_ok(
                    s,
                    Seq::empty(),
                    old(self).tables(),
                    snapshot_of(old(self).db_conn),
                    final(self).tables(),
                    snapshot_of(final(self).db_conn),
                ),
                Err(_) => step_err(
                    s,
                    old(self).tables(),
                    snapshot_of(old(self).db_conn),
                    final(self).tables(),
                    snapshot_of(final(self).db_conn),
                ),
            },
            r is Ok && !(s is Rollback) ==> final(self).index() == index_effect(s, old(self).index()),
            r is Err && snapshot_of(final(self).db_conn) == snapshot_of(old(self).db_conn)
                ==> final(self).index() == old(self).index(),
    {
        let args: Vec<String> = Vec::new();
        match execute(&mut self.db_conn, s, sql_of(s), &args) {
            Ok(_) => Ok(()),
            Err(e) => Err(StoreError::Sqlite(e)),
        }
    }

    /// Opens the database file and makes sure the active table exists.
    pub fn new(db_file: &str) -> (r: Result<Self, StoreError>)
        ensures
            r matches Ok(s) ==> s.wf() && s.file() == db_file@ && s.tables().contains_key(
                active_key(),
            ),
    {
        let conn = match open_connection(db_file) {
            Ok(c) => c,
            Err(e) => return Err(StoreError::Sqlite(e)),
        };
        let mut ret = DBOps { db_conn: conn, db_file: db_file.to_owned() };
        match ret.init_table() {
            Ok(()) => Ok(ret),
            Err(e) => Err(e),
        }
    }

    /// Creates the active table, empty, unless it exists.
    pub fn init_table(&mut self) -> (r: Result<(), StoreError>)
        requires
            old(self).wf(),
        ensures
            final(self).wf(),
            final(self).file() == old(self).file(),
            r is Ok ==> final(self).tables() == (if old(self).tables().contains_key(active_key()) {
                old(self).tables()
            } else {
                old(self).tables().insert(active_key(), Multiset::empty())
            }),
            r is Ok ==> final(self).tables().contains_key(active_key()),
            r is Err ==> final(self).tables() == old(self).tables(),
            final(self).index() == old(self).index(),
    {
        self.run(Stmt::CreateTable)
    }

    /// Builds the secondary index over the active table, in place of any
    /// index of that name; the contents stay as they are.
    pub fn create_index(&mut self) -> (r: Result<(), StoreError>)
        requires
            old(self).wf(),
        ensures
            final(self).wf(),
            final(self).file() == old(self).file(),
            final(self).tables() == old(self).tables(),
            r is Ok ==> final(self).indexed(),
    {
        match self.run(Stmt::DropIndex) {
            Ok(()) => {},
            Err(e) => return Err(e),
        }
        self.run(Stmt::CreateIndex)
    }

    /// Drops the secondary index if there is one; the contents stay as they
    /// are.
    pub fn drop_index(&mut self) -> (r: Result<(), StoreError>)
        requires
            old(self).wf(),
        ensures
            final(self).wf(),
            final(self).file() == old(self).file(),
            final(self).tables() == old(self).tables(),
            r is Ok ==> final(self).index() is None,
            r is Err ==> final(self).index() == old(self).index(),
    {
        self.run(Stmt::DropIndex)
    }

    /// Drops a table with its contents.
    pub fn drop(&mut self, table: Table) -> (r: Result<(), StoreError>)
        requires
            old(self).wf(),
        ensures
            final(self).wf(),
            final(self).file() == old(self).file(),
            r is Ok ==> old(self).tables().contains_key(table_key(table)) && final(self).tables()
                == old(self).tables().remove(table_key(table)),
            r is Err ==> final(self).tables() == old(self).tables(),
            final(self).index() == (if r is Ok && old(self).index() == Some(table_key(table)) {
                None
            } else {
                old(self).index()
            }),
    {
        self.run(Stmt::DropTable(table))
    }

    /// Reclaims free space in the database file; the contents stay as they
    /// are.
    pub fn vacuum(&mut self) -> (r: Result<(), StoreError>)
        requires
            old(self).wf(),
        ensures
            final(self).wf(),
            final(self).file() == old(self).file(),
            final(self).tables() == old(self).tables(),
            final(self).index() == old(self).index(),
    {
        self.run(Stmt::Vacuum)
    }

    /// Renames table `from` to `to`, dropping whatever `to` held before.
    pub fn rename(&mut self, from: Table, to: Table) -> (r: Result<(), StoreError>)
        requires
            old(self).wf(),
        ensures
            final(self).wf(),
            final(self).file() == old(self).file(),
            r is Ok ==> from != to && old(self).tables().contains_key(table_key(from))
                && final(self).tables() == old(self).tables().remove(table_key(from)).insert(
                table_key(to),
                old(self).tables()[table_key(from)],
            ),
            r is Err ==> final(self).tables() == old(self).tables() || final(self).tables()
                == old(self).tables().remove(table_key(to)),
    {
        proof {
            lemma_keys_distinct();
        }
        let ghost t0 = self.tables();
        self.run(Stmt::DropTableIfExists(to))?;
        let r = self.run(Stmt::Rename(from, to));
        proof {
            if r is Ok {
                assert(from != to);
                assert(self.tables() =~= t0.remove(table_key(from)).insert(
                    table_key(to),
                    t0[table_key(from)],
                ));
            }
        }
        r
    }

    fn run_hash(&mut self, s: Stmt, h: &String) -> (r: Result<(), StoreError>)
        requires
            stmt_arity(s) == 1,
        ensures
            final(self).file() == old(self).file(),
            match r {
                Ok(_) => step_ok(
                    s,
                    h@,
                    old(self).tables(),
                    snapshot_of(old(self).db_conn),
                    final(self).tables(),
                    snapshot_of(final(self).db_conn),
                ),
                Err(_) => step_err(
                    s,
                    old(self).tables(),
                    snapshot_of(old(self).db_conn),
                    final(self).tables(),
                    snapshot_of(final(self).db_conn),
                ),
            },
            r is Ok && !(s is Rollback) ==> final(self).index() == index_effect(s, old(self).index()),
            r is Err && snapshot_of(final(self).db_conn) == snapshot_of(old(self).db_conn)
                ==> final(self).index() == old(self).index(),
    {
        let mut args: Vec<String> = Vec::new();
        args.push(h.clone());
        match execute(&mut self.db_conn, s, sql_of(s), &args) {
            Ok(_) => Ok(()),
            Err(e) => Err(StoreError::Sqlite(e)),
        }
    }

    /// Inserts a batch of records in one transaction. Each record stands on
    /// its own: a malformed one, or one the database refuses, is skipped and
    /// the others go on. Returns the numbers inserted and skipped.
    pub fn insert_hashes(&mut self, hashes: &Vec<String>) -> (r: Result<(usize, usize), StoreError>)
        requires
            old(self).wf(),
        ensures
            final(self).wf(),
            final(self).file() == old(self).file(),
            r matches Ok((n, k)) ==> inserted_batch(
                old(self).tables(),
                views(hashes@),
                final(self).tables(),
                n as nat,
                k as nat,
            ),
            r is Err ==> final(self).tables() == old(self).tables() || final(self).tables()
                == with_active(old(self).tables()),
            r is Err ==> final(self).active() == old(self).active(),
    {
        let ghost a = active_key();
        let ghost hv = views(hashes@);
        let ghost t0 = self.tables();
        if let Err(e) = self.init_table() {
            return Err(e);
        }
        proof {
            assert(t0.insert(a, Multiset::empty()).remove(a) =~= t0.remove(a));
        }
        if let Err(e) = self.run(Stmt::Begin) {
            return Err(e);
        }
        let ghost t = self.tables();
        proof {
            assert(t[a].add(picked(hv, Seq::<bool>::empty(), 0)) =~= t[a]);
            assert(t.insert(a, t[a]) =~= t);
        }
        let mut inserted: usize = 0;
        let mut skipped: usize = 0;
        let ghost mut ok: Seq<bool> = Seq::empty();
        let mut i: usize = 0;
        while i < hashes.len()
            invariant
                i <= hashes.len(),
                hv == views(hashes@),
                t == with_active(t0),
                t0 == old(self).tables(),
                t.contains_key(a),
                a == active_key(),
                self.file() == old(self).file(),
                ok.len() == i,
                inserted == true_count(ok, i as nat),
                inserted + skipped == i,
                forall|j: int| 0 <= j < i && #[trigger] ok[j] ==> is_valid_hash(hv[j]),
                snapshot_of(self.db_conn) == Some(t),
                self.tables() == t.insert(a, t[a].add(picked(hv, ok, i as nat))),
            decreases hashes.len() - i,
        {
            let h = &hashes[i];
            proof {
                lemma_prefix_stable(ok, true, hv, Multiset::empty(), i as nat);
                lemma_prefix_stable(ok, false, hv, Multiset::empty(), i as nat);
                lemma_true_count_le(ok, i as nat);
            }
            let ghost before = self.tables();
            let ghost ok_true = ok.push(true);
            let ghost ok_false = ok.push(false);
            if !valid_hash(h.as_str()) {
                skipped = skipped + 1;
                proof {
                    ok = ok_false;
                }
            } else {
                match self.run_hash(Stmt::Insert, h) {
                    Ok(()) => {
                        inserted = inserted + 1;
                        proof {
                            assert(hv[i as int] == h@);
                            ok = ok_true;
                            assert(t[a].add(picked(hv, ok, (i + 1) as nat)) =~= t[a].add(
                                picked(hv, ok_true, i as nat),
                            ).insert(h@));
                            assert(self.tables() =~= t.insert(
                                a,
                                t[a].add(picked(hv, ok, (i + 1) as nat)),
                            ));
                        }
                    },
                    Err(e) => {
                        if in_autocommit(&self.db_conn) {
                            proof {
                                assert(snapshot_of(self.db_conn) is None);
                                assert(self.tables() == t);
                                assert(self.active() == old(self).active());
                            }
                            return Err(e);
                        }
                        skipped = skipped + 1;
                        proof {
                            ok = ok_false;
                        }
                    },
                }
            }
            i = i + 1;
        }
        match self.run(Stmt::Commit) {
            Ok(()) => {
                proof {
                    assert(self.tables() == after_insert(t0, hv, ok));
                    assert(batch_outcome(hv, ok, inserted as nat, skipped as nat));
                    assert(inserted_batch(t0, hv, self.tables(), inserted as nat, skipped as nat));
                }
                Ok((inserted, skipped))
            },
            Err(e) => {
                let _ = self.run(Stmt::Rollback);
                Err(e)
            },
        }
    }

    /// Removes every copy of each record of a batch, in one transaction. Each
    /// record stands on its own: a malformed one, or one the database
    /// refuses, is skipped and the others go on. Returns the numbers of
    /// records applied and skipped.
    pub fn remove_hashes(&mut self, hashes: &Vec<String>) -> (r: Result<(usize, usize), StoreError>)
        requires
            old(self).wf(),
        ensures
            final(self).wf(),
            final(self).file() == old(self).file(),
            r matches Ok((n, k)) ==> removed_batch(
                old(self).tables(),
                views(hashes@),
                final(self).tables(),
                n as nat,
                k as nat,
            ),
            r is Err ==> final(self).tables() == old(self).tables() || final(self).tables()
                == with_active(old(self).tables()),
            r is Err ==> final(self).active() == old(self).active(),
    {
        let ghost a = active_key();
        let ghost hv = views(hashes@);
        let ghost t0 = self.tables();
        if let Err(e) = self.init_table() {
            return Err(e);
        }
        proof {
            assert(t0.insert(a, Multiset::empty()).remove(a) =~= t0.remove(a));
        }
        if let Err(e) = self.run(Stmt::Begin) {
            return Err(e);
        }
        let ghost t = self.tables();
        proof {
            assert(t.insert(a, removed(t[a], hv, Seq::<bool>::empty(), 0)) =~= t);
        }
        let mut removed_n: usize = 0;
        let mut skipped: usize = 0;
        let ghost mut ok: Seq<bool> = Seq::empty();
        let mut i: usize = 0;
        while i < hashes.len()
            invariant
                i <= hashes.len(),
                hv == views(hashes@),
                t == with_active(t0),
                t0 == old(self).tables(),
                t.contains_key(a),
                a == active_key(),
                self.file() == old(self).file(),
                ok.len() == i,
                removed_n == true_count(ok, i as nat),
                removed_n + skipped == i,
                forall|j: int| 0 <= j < i && #[trigger] ok[j] ==> is_valid_hash(hv[j]),
                snapshot_of(self.db_conn) == Some(t),
                self.tables() == t.insert(a, removed(t[a], hv, ok, i as nat)),
            decreases hashes.len() - i,
        {
            let h = &hashes[i];
            proof {
                lemma_prefix_stable(ok, true, hv, t[a], i as nat);
                lemma_prefix_stable(ok, false, hv, t[a], i as nat);
                lemma_true_count_le(ok, i as nat);
            }
            let ghost before = self.tables();
            let ghost ok_true = ok.push(true);
            let ghost ok_false = ok.push(false);
            if !valid_hash(h.as_str()) {
                skipped = skipped + 1;
                proof {
                    ok = ok_false;
                }
            } else {
                match self.run_hash(Stmt::Delete, h) {
                    Ok(()) => {
                        removed_n = removed_n + 1;
                        proof {
                            assert(hv[i as int] == h@);
                            ok = ok_true;
                            assert(self.tables() =~= t.insert(
                                a,
                                removed(t[a], hv, ok, (i + 1) as nat),
                            ));
                        }
                    },
                    Err(e) => {
                        if in_autocommit(&self.db_conn) {
                            proof {
                                assert(snapshot_of(self.db_conn) is None);
                                assert(self.tables() == t);
                                assert(self.active() == old(self).active());
                            }
                            return Err(e);
                        }
                        skipped = skipped + 1;
                        proof {
                            ok = ok_false;
                        }
                    },
                }
            }
            i = i + 1;
        }
        match self.run(Stmt::Commit) {
            Ok(()) => {
                proof {
                    assert(self.tables() == after_remove(t0, hv, ok));
                    assert(batch_outcome(hv, ok, removed_n as nat, skipped as nat));
                    assert(removed_batch(t0, hv, self.tables(), removed_n as nat, skipped as nat));
                }
                Ok((removed_n, skipped))
            },
            Err(e) => {
                let _ = self.run(Stmt::Rollback);
                Err(e)
            },
        }
    }

    /// Puts the backup table back as the active one after a failed step of an
    /// update.
    fn undo_update(&mut self, cause: StoreError, prev: Ghost<Multiset<Seq<char>>>) -> (r:
        UpdateError)
        requires
            old(self).wf(),
            old(self).tables().contains_key(table_key(Table::Backup)),
            old(self).tables()[table_key(Table::Backup)] == prev@,
        ensures
            final(self).wf(),
            final(self).file() == old(self).file(),
            r is RolledBack || r is Restore,
            r is RolledBack ==> final(self).active() == prev@,
            r is Restore ==> final(self).tables().contains_key(table_key(Table::Backup))
                && final(self).tables()[table_key(Table::Backup)] == prev@,
    {
        proof {
            lemma_keys_distinct();
        }
        let ghost t = self.tables();
        match self.rename(Table::Backup, Table::Active) {
            Ok(()) => UpdateError::RolledBack(cause),
            Err(e) => {
                assert(t.remove(active_key()).contains_key(table_key(Table::Backup)));
                UpdateError::Restore { cause, restore: e }
            },
        }
    }

    /// Replaces the signatures with `records` as a whole. The active table is
    /// renamed to the backup table and a fresh one is filled and indexed; if
    /// any of that fails, the fresh table is dropped and the backup renamed
    /// back. Then the backup is dropped and the file compacted, and the new
    /// number of signatures is returned.
    pub fn update_db(&mut self, records: &Vec<String>) -> (r: Result<u32, UpdateError>)
        requires
            old(self).wf(),
        ensures
            final(self).wf(),
            final(self).file() == old(self).file(),
            (r is Ok || r matches Err(UpdateError::Compact(_))) ==> {
                &&& final(self).tables().contains_key(active_key())
                &&& !final(self).tables().contains_key(table_key(Table::Backup))
                &&& final(self).tables().remove(active_key()) == old(self).tables().remove(
                    active_key(),
                ).remove(table_key(Table::Backup))
                &&& filled_from(views(records@), final(self).active())
                &&& final(self).indexed()
            },
            r matches Ok(n) ==> n == final(self).active().len(),
            r matches Err(UpdateError::Store(_)) ==> final(self).active() == old(self).active(),
            r matches Err(UpdateError::RolledBack(_)) ==> final(self).active() == old(
                self,
            ).active(),
            r matches Err(UpdateError::Restore { .. }) ==> final(self).tables().contains_key(
                table_key(Table::Backup),
            ) && final(self).tables()[table_key(Table::Backup)] == old(self).active(),
    {
        proof {
            lemma_keys_distinct();
        }
        let ghost a = active_key();
        let ghost b = table_key(Table::Backup);
        let ghost prev = old(self).active();
        match self.init_table() {
            Ok(()) => {},
            Err(e) => return Err(UpdateError::Store(e)),
        }
        assert(self.tables()[a] == prev);
        match self.rename(Table::Active, Table::Backup) {
            Ok(()) => {},
            Err(e) => return Err(UpdateError::Store(e)),
        }
        let ghost t2 = self.tables();
        assert(t2[b] == prev && !t2.contains_key(a));
        let ghost mut ok: Seq<bool> = Seq::empty();
        match self.insert_hashes(records) {
            Ok((n, k)) => {
                proof {
                    ok = choose|o: Seq<bool>|
                        #[trigger] batch_outcome(views(records@), o, n as nat, k as nat)
                            && self.tables() == after_insert(t2, views(records@), o);
                    assert(self.tables()[a] =~= picked(
                        views(records@),
                        ok,
                        records@.len(),
                    ));
                }
            },
            Err(e) => {
                return Err(self.undo_update(e, Ghost(prev)));
            },
        }
        let ghost t3 = self.tables();
        assert(t3.contains_key(b) && t3[b] == prev);
        if let Err(e) = self.drop_index() {
            return Err(self.undo_update(e, Ghost(prev)));
        }
        if let Err(e) = self.create_index() {
            return Err(self.undo_update(e, Ghost(prev)));
        }
        let n = match self.count_hashes() {
            Ok(n) => n,
            Err(e) => return Err(self.undo_update(e, Ghost(prev))),
        };
        if let Err(e) = self.drop(Table::Backup) {
            return Err(self.undo_update(e, Ghost(prev)));
        }
        proof {
            assert(self.tables()[a] == t3[a]);
            assert(self.tables().remove(a) =~= old(self).tables().remove(a).remove(b));
            assert(fill_outcome(views(records@), ok));
        }
        match self.vacuum() {
            Ok(()) => Ok(n),
            Err(e) => Err(UpdateError::Compact(e)),
        }
    }

    /// Puts the backup table back in place of the active one, as an update
    /// that was cut short between its rename and its end would have. Returns
    /// whether there was a backup; without one nothing changes.
    pub fn restore_backup(&mut self) -> (r: Result<bool, StoreError>)
        requires
            old(self).wf(),
        ensures
            final(self).wf(),
            final(self).file() == old(self).file(),
            r matches Ok(true) ==> old(self).tables().contains_key(table_key(Table::Backup))
                && final(self).tables() == old(self).tables().remove(
                table_key(Table::Backup),
            ).insert(active_key(), old(self).tables()[table_key(Table::Backup)]),
            r matches Ok(false) ==> !old(self).tables().contains_key(table_key(Table::Backup))
                && final(self).tables() == old(self).tables(),
            r is Err ==> final(self).tables().remove(active_key()) == old(self).tables().remove(
                active_key(),
            ),
    {
        proof {
            lemma_keys_distinct();
        }
        let args: Vec<String> = Vec::new();
        let n = match query_count(
            &self.db_conn,
            Query::HasBackup,
            query_sql(Query::HasBackup),
            &args,
        ) {
            Ok(n) => n,
            Err(e) => return Err(StoreError::Sqlite(e)),
        };
        if n == 0 {
            return Ok(false);
        }
        match self.rename(Table::Backup, Table::Active) {
            Ok(()) => Ok(true),
            Err(e) => Err(e),
        }
    }

    /// Whether `hash_str` is in the active table: an exact, case-sensitive
    /// match.
    pub fn hash_exists(&self, hash_str: &str) -> (r: Result<bool, StoreError>)
        ensures
            r matches Ok(b) ==> b == self.holds(hash_str@),
    {
        let mut args: Vec<String> = Vec::new();
        args.push(hash_str.to_owned());
        match query_count(&self.db_conn, Query::CountHash, query_sql(Query::CountHash), &args) {
            Ok(n) => Ok(n > 0),
            Err(e) => Err(StoreError::Sqlite(e)),
        }
    }

    /// The number of records in the active table.
    pub fn count_hashes(&self) -> (r: Result<u32, StoreError>)
        ensures
            r matches Ok(n) ==> n == self.active().len(),
            r matches Err(StoreError::CountOutOfRange) ==> self.active().len() > u32::MAX,
    {
        let args: Vec<String> = Vec::new();
        match query_count(&self.db_conn, Query::CountAll, query_sql(Query::CountAll), &args) {
            Ok(n) => {
                if 0 <= n && n <= u32::MAX as i64 {
                    Ok(n as u32)
                } else {
                    Err(StoreError::CountOutOfRange)
                }
            },
            Err(e) => Err(StoreError::Sqlite(e)),
        }
    }
}

/// Lookup after a batch insert: every record the batch applied is found, and
/// a hash that was neither stored before nor in the batch is not.
pub proof fn lemma_lookup_after_insert(
    before: DBOps,
    after: DBOps,
    hs: Seq<Seq<char>>,
    ok: Seq<bool>,
    h: Seq<char>,
)
    requires
        ok.len() == hs.len(),
        after.tables() == after_insert(before.tables(), hs, ok),
    ensures
        (exists|j: int| 0 <= j < hs.len() && #[trigger] ok[j] && hs[j] == h) ==> after.holds(h),
        !before.holds(h) && (forall|j: int| 0 <= j < hs.len() ==> #[trigger] hs[j] != h)
            ==> !after.holds(h),
{
    let a = active_key();
    let base = with_active(before.tables())[a];
    assert(after.tables().contains_key(a));
    assert(after.active() == base.add(picked(hs, ok, hs.len())));
    if exists|j: int| 0 <= j < hs.len() && #[trigger] ok[j] && hs[j] == h {
        let j = choose|j: int| 0 <= j < hs.len() && #[trigger] ok[j] && hs[j] == h;
        lemma_picked_contains(hs, ok, hs.len(), j);
    }
    if !before.holds(h) && (forall|j: int| 0 <= j < hs.len() ==> #[trigger] hs[j] != h) {
        lemma_picked_only(hs, ok, hs.len(), h);
        assert(base.count(h) == 0);
    }
}

/// The number of well-formed records among the first `i`.
pub open spec fn valid_count(hs: Seq<Seq<char>>, i: nat) -> nat
    decreases i,
{
    if i == 0 {
        0
    } else {
        valid_count(hs, (i - 1) as nat) + if is_valid_hash(hs[i - 1]) {
            1nat
        } else {
            0nat
        }
    }
}

proof fn lemma_full_outcome(hs: Seq<Seq<char>>, ok: Seq<bool>, i: nat)
    requires
        ok.len() == hs.len(),
        i <= hs.len(),
        forall|j: int| 0 <= j < hs.len() && #[trigger] ok[j] ==> is_valid_hash(hs[j]),
    ensures
        true_count(ok, i) <= valid_count(hs, i),
        true_count(ok, i) == valid_count(hs, i) ==> forall|j: int|
            0 <= j < i && is_valid_hash(#[trigger] hs[j]) ==> ok[j],
    decreases i,
{
    if i > 0 {
        lemma_full_outcome(hs, ok, (i - 1) as nat);
    }
}

/// A batch insert that reports as many records inserted as the batch has
/// well-formed ones has stored every one of them: each is found by a lookup
/// afterwards.
pub proof fn lemma_full_insert_found(
    before: DBOps,
    after: DBOps,
    hs: Seq<Seq<char>>,
    n: nat,
    k: nat,
    j: int,
)
    requires
        inserted_batch(before.tables(), hs, after.tables(), n, k),
        n == valid_count(hs, hs.len()),
        0 <= j < hs.len(),
        is_valid_hash(hs[j]),
    ensures
        after.holds(hs[j]),
{
    let ok = choose|ok: Seq<bool>| #[trigger]
        batch_outcome(hs, ok, n, k) && after.tables() == after_insert(before.tables(), hs, ok);
    lemma_full_outcome(hs, ok, hs.len());
    assert(ok[j]);
    lemma_lookup_after_insert(before, after, hs, ok, hs[j]);
}

/// Lookups read the contents of the active table alone: two states of the
/// store with the same contents, one with the secondary index and one
/// without, answer every lookup alike.
pub proof fn lemma_index_transparent(before: DBOps, after: DBOps, h: Seq<char>)
    requires
        after.tables() == before.tables(),
    ensures
        after.holds(h) == before.holds(h),
{
}

} // verus!
