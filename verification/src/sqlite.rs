use vstd::prelude::*;

use crate::collection::{Collection, Snippet, SnippetV, map_of, pairs_of, wf_pairs};
use crate::error::StorageError;
use crate::timestamp::{Timestamp, lemma_rfc3339_injective, parse_rfc3339, rfc3339};

verus! {

// ---------------------------------------------------------------------------
// The relational backend: one table `snippets(name PRIMARY KEY, content,
// created_at)` in a single-file database. The driver calls are trusted and
// kept as thin as possible; everything between them — turning rows into a
// collection and a collection into rows — is verified. Saving deletes all
// rows and reinserts one per entry, so the persisted state is exactly the
// given collection, as with the file backend.
// ---------------------------------------------------------------------------
#[verifier::external_type_specification]
#[verifier::external_body]
pub struct ExConnection(rusqlite::Connection);

/// The stamp text `s` is the rendering of some well-formed timestamp.
pub open spec fn stamp_parses(s: Seq<char>) -> bool {
    exists|t: Timestamp| t.wf() && rfc3339(t) == s
}

/// The timestamp a canonical stamp text denotes; meaningful when
/// `stamp_parses(s)` holds, and then unique since the format is injective.
pub open spec fn stamp_of(s: Seq<char>) -> Timestamp {
    choose|t: Timestamp| t.wf() && rfc3339(t) == s
}

/// The values of a vector of rows.
pub open spec fn rows_view(rows: Seq<(String, String, String)>) -> Seq<
    (Seq<char>, Seq<char>, Seq<char>),
> {
    rows.map_values(|p: (String, String, String)| (p.0@, p.1@, p.2@))
}

/// The collection a sequence of rows denotes; a later duplicate name wins,
/// though rows read from the table are unique by its primary key.
pub open spec fn map_rows(rs: Seq<(Seq<char>, Seq<char>, Seq<char>)>) -> Map<Seq<char>, SnippetV>
    decreases rs.len(),
{
    if rs.len() == 0 {
        Map::empty()
    } else {
        map_rows(rs.drop_last()).insert(
            rs.last().0,
            SnippetV { content: rs.last().1, created_at: stamp_of(rs.last().2) },
        )
    }
}

/// The rows that persist a sequence of entries, stamps in the fixed format.
pub open spec fn rows_render(s: Seq<(Seq<char>, SnippetV)>) -> Seq<
    (Seq<char>, Seq<char>, Seq<char>),
> {
    s.map_values(|p: (Seq<char>, SnippetV)| (p.0, p.1.content, rfc3339(p.1.created_at)))
}

/// Relies on rusqlite::Connection::open: opens or creates the database file
/// at the path; any driver failure is a startup error.
#[verifier::external_body]
fn open_db(path: &str) -> (r: Result<rusqlite::Connection, StorageError>) {
    match rusqlite::Connection::open(path) {
        Ok(c) => Ok(c),
        Err(_) => Err(StorageError::Init),
    }
}

/// Relies on rusqlite::Connection::execute running CREATE TABLE IF NOT
/// EXISTS: creates the snippets table when absent and is a no-op when it
/// already exists, so construction is idempotent.
#[verifier::external_body]
fn create_table(conn: &rusqlite::Connection) -> (r: Result<(), StorageError>)
    ensures
        r matches Err(e) ==> e == StorageError::Init,
{
    let sql =
        "CREATE TABLE IF NOT EXISTS snippets (name TEXT PRIMARY KEY, content TEXT NOT NULL, created_at TEXT NOT NULL)";
    match conn.execute(sql, []) {
        Ok(_) => Ok(()),
        Err(_) => Err(StorageError::Init),
    }
}

/// Relies on rusqlite::Connection::execute running DELETE: removes every row.
#[verifier::external_body]
fn delete_all(conn: &rusqlite::Connection) -> (r: Result<(), StorageError>)
    ensures
        r matches Err(e) ==> e == StorageError::Io,
{
    match conn.execute("DELETE FROM snippets", []) {
        Ok(_) => Ok(()),
        Err(_) => Err(StorageError::Io),
    }
}

/// Relies on rusqlite::Connection::execute running INSERT with the three
/// column values bound as parameters.
#[verifier::external_body]
fn insert_row(conn: &rusqlite::Connection, name: &str, content: &str, created_at: &str) -> (r:
    Result<(), StorageError>)
    ensures
        r matches Err(e) ==> e == StorageError::Io,
{
    let sql = "INSERT INTO snippets (name, content, created_at) VALUES (?1, ?2, ?3)";
    match conn.execute(sql, (name, content, created_at)) {
        Ok(_) => Ok(()),
        Err(_) => Err(StorageError::Io),
    }
}

/// Relies on rusqlite::Connection::prepare and Statement::query_map running
/// SELECT: every row of the table, as plain string triples.
#[verifier::external_body]
fn select_rows(conn: &rusqlite::Connection) -> (r: Result<
    Vec<(String, String, String)>,
    StorageError,
>)
    ensures
        r matches Err(e) ==> e == StorageError::Io,
{
    let run = || -> rusqlite::Result<Vec<(String, String, String)>> {
        let mut stmt = conn.prepare("SELECT name, content, created_at FROM snippets")?;
        let rows = stmt.query_map([], |row| Ok((row.get(0)?, row.get(1)?, row.get(2)?)))?;
        rows.collect()
    };
    match run() {
        Ok(v) => Ok(v),
        Err(_) => Err(StorageError::Io),
    }
}

/// Build the collection a row list denotes: parse every stored stamp (a
/// malformed one means corrupted state and is a fatal parse error) and key
/// the records by name.
pub fn collection_from_rows(rows: &Vec<(String, String, String)>) -> (r: Result<
    Collection,
    StorageError,
>)
    ensures
        r matches Ok(c) ==> c.wf() && c@ == map_rows(rows_view(rows@)) && (forall|i: int|
            0 <= i < rows@.len() ==> stamp_parses(#[trigger] rows_view(rows@)[i].2)),
        r matches Err(e) ==> e == StorageError::Parse && (exists|i: int|
            0 <= i < rows@.len() && !stamp_parses(#[trigger] rows_view(rows@)[i].2)),
{
    let ghost rv = rows_view(rows@);
    let n = rows.len();
    let mut col = Collection::new();
    let mut i: usize = 0;
    proof {
        assert(rv.subrange(0, 0) =~= Seq::<(Seq<char>, Seq<char>, Seq<char>)>::empty());
    }
    while i < n
        invariant
            rv == rows_view(rows@),
            n == rows@.len(),
            i <= n,
            col.wf(),
            col@ == map_rows(rv.subrange(0, i as int)),
            forall|j: int| 0 <= j < i ==> stamp_parses(#[trigger] rv[j].2),
        decreases n - i,
    {
        let row = &rows[i];
        let stamp = match parse_rfc3339(row.2.as_str()) {
            Ok(t) => t,
            Err(_) => {
                proof {
                    assert(rv[i as int].2 == row.2@);
                    assert(!stamp_parses(rv[i as int].2));
                }
                return Err(StorageError::Parse);
            },
        };
        proof {
            assert(rv[i as int].2 == row.2@);
            assert(stamp_parses(rv[i as int].2));
            lemma_rfc3339_injective(stamp_of(row.2@), stamp);
            assert(stamp_of(rv[i as int].2) == stamp);
        }
        col.insert(row.0.clone(), Snippet { content: row.1.clone(), created_at: stamp });
        proof {
            let pre = rv.subrange(0, i as int);
            let cur = rv.subrange(0, i + 1);
            assert(cur.drop_last() =~= pre);
            assert(cur.last() == rv[i as int]);
            assert(col@ =~= map_rows(cur));
        }
        i = i + 1;
    }
    proof {
        assert(rv.subrange(0, n as int) =~= rv);
    }
    Ok(col)
}

/// The rows that persist a collection, one per entry, stamps rendered in
/// the fixed format.
pub fn rows_from_collection(col: &Collection) -> (r: Vec<(String, String, String)>)
    requires
        col.wf(),
    ensures
        rows_view(r@) == rows_render(pairs_of(col.entries@)),
{
    let ghost pairs = pairs_of(col.entries@);
    let n = col.entries.len();
    let mut out: Vec<(String, String, String)> = Vec::new();
    let mut i: usize = 0;
    proof {
        assert(rows_view(out@) =~= rows_render(pairs.subrange(0, 0)));
    }
    while i < n
        invariant
            col.wf(),
            pairs == pairs_of(col.entries@),
            n == col.entries@.len(),
            i <= n,
            rows_view(out@) == rows_render(pairs.subrange(0, i as int)),
        decreases n - i,
    {
        let e = &col.entries[i];
        proof {
            assert(pairs[i as int] == (e.0@, e.1@));
            assert(pairs[i as int].1.created_at.wf());
        }
        let stamp = e.1.created_at.format();
        let ghost prev = out@;
        out.push((e.0.clone(), e.1.content.clone(), stamp));
        proof {
            assert(rows_view(prev).len() == prev.len());
            assert(rows_render(pairs.subrange(0, i as int)).len() == pairs.subrange(
                0,
                i as int,
            ).len());
            assert(prev.len() == i);
            assert forall|j: int| 0 <= j < i as int implies rows_view(out@)[j] == rows_render(
                pairs.subrange(0, i + 1),
            )[j] by {
                assert(out@[j] == prev[j]);
                assert(rows_view(out@)[j] == rows_view(prev)[j]);
                assert(pairs.subrange(0, i + 1)[j] == pairs.subrange(0, i as int)[j]);
                assert(rows_render(pairs.subrange(0, i as int))[j] == rows_view(prev)[j]);
            }
            assert(out@[i as int] == (e.0, e.1.content, stamp));
            assert(rows_view(out@)[i as int] == (e.0@, e.1.content@, rfc3339(e.1.created_at)));
            assert(pairs.subrange(0, i + 1)[i as int] == pairs[i as int]);
            assert(rows_render(pairs.subrange(0, i + 1))[i as int] == (
                pairs[i as int].0,
                pairs[i as int].1.content,
                rfc3339(pairs[i as int].1.created_at),
            ));
            assert(rows_view(out@) =~= rows_render(pairs.subrange(0, i + 1)));
        }
        i = i + 1;
    }
    proof {
        assert(pairs.subrange(0, n as int) =~= pairs);
    }
    out
}

/// Round trip through the table's rows: the rows that persist a collection
/// denote exactly that collection, and every stamp they carry parses. With
/// the contracts of `rows_from_collection` and `collection_from_rows`, a
/// load that follows a save rebuilds the saved collection.
pub proof fn lemma_rows_round_trip(s: Seq<(Seq<char>, SnippetV)>)
    requires
        wf_pairs(s),
    ensures
        map_rows(rows_render(s)) == map_of(s),
        forall|i: int| 0 <= i < s.len() ==> stamp_parses(#[trigger] rows_render(s)[i].2),
    decreases s.len(),
{
    assert forall|i: int| 0 <= i < s.len() implies stamp_parses(
        #[trigger] rows_render(s)[i].2,
    ) by {
        assert(rows_render(s)[i].2 == rfc3339(s[i].1.created_at));
        assert(s[i].1.created_at.wf());
    }
    if s.len() == 0 {
        assert(rows_render(s).len() == 0);
        assert(map_rows(rows_render(s)) =~= map_of(s));
    } else {
        let d = s.drop_last();
        assert(wf_pairs(d)) by {
            assert(forall|i: int| 0 <= i < d.len() ==> d[i] == s[i]);
        }
        lemma_rows_round_trip(d);
        assert(rows_render(s).drop_last() =~= rows_render(d));
        let last = s.last();
        assert(rows_render(s).last() == (last.0, last.1.content, rfc3339(last.1.created_at)));
        assert(last.1.created_at.wf());
        lemma_rfc3339_injective(stamp_of(rfc3339(last.1.created_at)), last.1.created_at);
        assert(SnippetV {
            content: last.1.content,
            created_at: stamp_of(rfc3339(last.1.created_at)),
        } == last.1);
        assert(map_rows(rows_render(s)) =~= map_of(s));
    }
}

/// The relational storage: an open handle to the single-file database.
pub struct SqliteStorage {
    conn: rusqlite::Connection,
}

impl SqliteStorage {
    /// Open (or create) the database and ensure the snippets table exists.
    /// Safe to run on every startup: the schema statement is idempotent and
    /// neither duplicates nor alters existing rows.
    pub fn new(path: String) -> (r: Result<SqliteStorage, StorageError>)
        ensures
            r matches Err(e) ==> e == StorageError::Init,
    {
        let conn = match open_db(path.as_str()) {
            Ok(c) => c,
            Err(_) => {
                return Err(StorageError::Init);
            },
        };
        match create_table(&conn) {
            Ok(_) => Ok(SqliteStorage { conn }),
            Err(e) => Err(e),
        }
    }

    /// Select all rows and build the collection. A malformed stored stamp is
    /// corrupted state: a fatal parse error, not a recoverable condition.
    pub fn load(&self) -> (r: Result<Collection, StorageError>)
        ensures
            r matches Ok(c) ==> c.wf(),
            r matches Err(e) ==> e == StorageError::Io || e == StorageError::Parse,
    {
        let rows = match select_rows(&self.conn) {
            Ok(v) => v,
            Err(e) => {
                return Err(e);
            },
        };
        collection_from_rows(&rows)
    }

    /// Replace the table's contents with exactly the given collection:
    /// delete every row, then insert one row per entry.
    pub fn save(&self, col: &Collection) -> (r: Result<(), StorageError>)
        requires
            col.wf(),
        ensures
            r matches Err(e) ==> e == StorageError::Io,
    {
        let rows = rows_from_collection(col);
        match delete_all(&self.conn) {
            Ok(_) => {},
            Err(e) => {
                return Err(e);
            },
        }
        let n = rows.len();
        let mut i: usize = 0;
        while i < n
            invariant
                n == rows@.len(),
                i <= n,
            decreases n - i,
        {
            let row = &rows[i];
            match insert_row(&self.conn, row.0.as_str(), row.1.as_str(), row.2.as_str()) {
                Ok(_) => {},
                Err(e) => {
                    return Err(e);
                },
            }
            i = i + 1;
        }
        Ok(())
    }
}

} // verus!
