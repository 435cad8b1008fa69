//! Persistent key-value cache.  One sqlite table of unique keys maps each
//! key to a text value; a write replaces the previous value (upsert).  The
//! store is modelled as a map from key characters to value characters.
//! The model — reads and writes exact, `None` meaning absent — holds of
//! an exclusively held store, which the in-memory constructor yields.  A
//! store opened from a file may be shared with another connection or
//! process, so a read of one returns whatever is stored at that moment
//! and the model pins nothing; a failed read or write falls open as the
//! surrounding pipeline expects.

use vstd::prelude::*;

verus! {

#[verifier::external_type_specification]
#[verifier::external_body]
pub struct ExConnection(rusqlite::Connection);

#[verifier::external_type_specification]
#[verifier::external_body]
pub struct ExRusqliteError(rusqlite::Error);

/// The rows of the `kv` table reachable through a connection: each stored
/// key maps to the text stored under it.
pub uninterp spec fn kv_contents(c: rusqlite::Connection) -> Map<Seq<char>, Seq<char>>;

/// The store behind the connection is exclusively held: it is reached
/// through this one connection alone, and any `kv` table in it is the
/// unique-keyed one this module creates.  A fresh in-memory database is
/// exclusively held; a database opened from a file may be shared with
/// another connection or process, or carry a foreign `kv` table, so no
/// wrapper claims this of one.
pub uninterp spec fn kv_exclusive(c: rusqlite::Connection) -> bool;

/// Relies on rusqlite::Connection::open_in_memory: a fresh in-memory
/// database holds no rows at all and is reachable through the returned
/// connection alone.
#[verifier::external_body]
fn conn_open_in_memory() -> (r: Result<rusqlite::Connection, rusqlite::Error>)
    ensures
        r is Ok ==> kv_contents(r->Ok_0) == (Map::<Seq<char>, Seq<char>>::empty()),
        r is Ok ==> kv_exclusive(r->Ok_0),
{
    rusqlite::Connection::open_in_memory()
}

/// Relies on rusqlite::Connection::open: the opened file keeps whatever
/// rows were stored before, so nothing is claimed about the contents.
#[verifier::external_body]
fn conn_open_path(path: &str) -> (r: Result<rusqlite::Connection, rusqlite::Error>) {
    rusqlite::Connection::open(path)
}

/// Relies on rusqlite::Connection::execute running
/// `create table if not exists`: on an exclusively held store — where no
/// interleaved outside write exists — it neither adds nor removes rows,
/// and the table it leaves behind is the one this module's statements
/// expect.  Executing it neither shares the store nor makes it exclusive.
#[verifier::external_body]
fn conn_create_kv_table(c: &mut rusqlite::Connection) -> (r: Result<(), rusqlite::Error>)
    ensures
        kv_exclusive(*old(c)) ==> kv_contents(*final(c)) == kv_contents(*old(c)),
        kv_exclusive(*final(c)) == kv_exclusive(*old(c)),
{
    match c.execute("create table if not exists kv (key text unique, value text)", ()) {
        Ok(_) => Ok(()),
        Err(e) => Err(e),
    }
}

/// Relies on rusqlite::Connection::query_row selecting from the `kv`
/// table.  Only on an exclusively held store is the result a function of
/// the connection: there a returned row is exactly the stored text of a
/// present key, and `None` — every read error being folded into it — can
/// only mean absent, no lock contention or foreign table existing to fail
/// a read.  A shared store returns whatever is stored at that moment,
/// which the model cannot pin.
#[verifier::external_body]
fn kv_query(c: &rusqlite::Connection, key: &str) -> (r: Option<String>)
    ensures
        kv_exclusive(*c) ==> (r matches Some(v) ==> kv_contents(*c).contains_key(key@) && v@
            == kv_contents(*c)[key@]),
        kv_exclusive(*c) && r is None ==> !kv_contents(*c).contains_key(key@),
{
    c.query_row("SELECT value FROM kv WHERE key = ?", (key,), |row| row.get(0)).ok()
}

/// Relies on rusqlite::Connection::execute running `REPLACE INTO` on the
/// `kv` table.  On the unique-keyed table of an exclusively held store a
/// success replaces exactly the one row and a failure, statements being
/// atomic, changes none; on a shared or foreign store nothing is claimed.
/// Executing a statement neither shares the store nor reshapes the table.
#[verifier::external_body]
fn kv_replace(c: &mut rusqlite::Connection, key: &str, value: &str) -> (r: Result<
    (),
    rusqlite::Error,
>)
    ensures
        kv_exclusive(*old(c)) && r is Ok ==> kv_contents(*final(c)) == kv_contents(
            *old(c),
        ).insert(key@, value@),
        kv_exclusive(*old(c)) && r is Err ==> kv_contents(*final(c)) == kv_contents(*old(c)),
        kv_exclusive(*final(c)) == kv_exclusive(*old(c)),
{
    match c.execute("REPLACE INTO kv (key, value) VALUES (?1, ?2)", (key, value)) {
        Ok(_) => Ok(()),
        Err(e) => Err(e),
    }
}

/// The storage layer failed to open the store or to write a row.
#[derive(Debug)]
pub struct DbError;

/// Simple persistent key-value store with upsert semantics.
pub struct Db {
    connection: rusqlite::Connection,
}

impl View for Db {
    type V = Map<Seq<char>, Seq<char>>;

    closed spec fn view(&self) -> Map<Seq<char>, Seq<char>> {
        kv_contents(self.connection)
    }
}

impl Db {
    /// The store is exclusively held: nothing but this value reaches it,
    /// so reads and writes behave exactly as the map model says.
    pub closed spec fn exclusive(&self) -> bool {
        kv_exclusive(self.connection)
    }

    /// Creates or opens the store backed by the given sqlite file.  A file
    /// from an earlier run keeps its rows, so nothing is known of the
    /// contents of the opened store.
    pub fn new(db_path: &str) -> (r: Result<Db, DbError>) {
        let conn = match conn_open_path(db_path) {
            Ok(c) => c,
            Err(_) => {
                return Err(DbError);
            },
        };
        let mut conn = conn;
        match conn_create_kv_table(&mut conn) {
            Ok(u) => u,
            Err(_) => {
                return Err(DbError);
            },
        };
        Ok(Db { connection: conn })
    }

    /// Creates an empty in-memory store, which is exclusively held.
    pub fn new_in_memory() -> (r: Result<Db, DbError>)
        ensures
            r matches Ok(db) ==> db@ == Map::<Seq<char>, Seq<char>>::empty() && db.exclusive(),
    {
        let conn = match conn_open_in_memory() {
            Ok(c) => c,
            Err(_) => {
                return Err(DbError);
            },
        };
        let mut conn = conn;
        match conn_create_kv_table(&mut conn) {
            Ok(u) => u,
            Err(_) => {
                return Err(DbError);
            },
        };
        Ok(Db { connection: conn })
    }

    /// Looks a key up.  On an exclusively held store a returned value is
    /// exactly the stored text of a present key and `None` means absent.
    /// A shared store returns whatever is stored at that moment, or
    /// `None` for an absent key or a failed read, the last two
    /// deliberately indistinguishable (fail open).
    pub fn get(&self, key: &str) -> (r: Option<String>)
        ensures
            self.exclusive() ==> (r matches Some(v) ==> self@.contains_key(key@) && v@
                == self@[key@]),
            self.exclusive() && r is None ==> !self@.contains_key(key@),
    {
        kv_query(&self.connection, key)
    }

    /// Stores a value under a key, replacing any previous value.  On an
    /// exclusively held store a success is exactly the upsert and a
    /// failure leaves the store unchanged; of a shared one nothing is
    /// claimed, and the caller treats a failure as non-fatal either way.
    pub fn put(&mut self, key: &str, value: &str) -> (r: Result<(), DbError>)
        ensures
            old(self).exclusive() && r is Ok ==> final(self)@ == old(self)@.insert(key@, value@),
            old(self).exclusive() && r is Err ==> final(self)@ == old(self)@,
            final(self).exclusive() == old(self).exclusive(),
    {
        match kv_replace(&mut self.connection, key, value) {
            Ok(u) => Ok(u),
            Err(_) => Err(DbError),
        }
    }
}

/// Round trip of the store: after an upsert the key is present and holds
/// exactly the written value, and every other key is untouched.
pub proof fn lemma_put_get_round_trip(
    m: Map<Seq<char>, Seq<char>>,
    key: Seq<char>,
    value: Seq<char>,
    other: Seq<char>,
)
    requires
        other != key,
    ensures
        m.insert(key, value).contains_key(key),
        m.insert(key, value)[key] == value,
        m.insert(key, value).contains_key(other) == m.contains_key(other),
        m.contains_key(other) ==> m.insert(key, value)[other] == m[other],
{
}

} // verus!
