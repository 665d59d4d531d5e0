//! The `telemetry_bindings` table: metrics bound to canonical node ids.
//!
//! A row belongs to one workspace and is found by `(workspace_key, id)`: two
//! workspaces that share a database may both use a metric id such as
//! `tel-p99-001`.

use vstd::prelude::*;

use crate::millis::Millis;
use crate::text;

verus! {

/// One row of the table.
#[derive(Debug, PartialEq)]
pub struct TelemetryBinding {
    pub workspace_key: String,
    pub id: String,
    pub canonical_node_id: String,
    pub file_path: String,
    pub function_name: String,
    pub p50_ms: Millis,
    pub p99_ms: Millis,
    pub alloc_bytes: i64,
    pub call_count: i64,
    pub is_hotspot: bool,
    pub environment: String,
    pub created_at: String,
    pub updated_at: String,
}

/// The mathematical value of a row.
#[verifier::ext_equal]
pub struct BindingView {
    pub workspace_key: Seq<char>,
    pub id: Seq<char>,
    pub canonical_node_id: Seq<char>,
    pub file_path: Seq<char>,
    pub function_name: Seq<char>,
    pub p50_ms: Millis,
    pub p99_ms: Millis,
    pub alloc_bytes: i64,
    pub call_count: i64,
    pub is_hotspot: bool,
    pub environment: Seq<char>,
    pub created_at: Seq<char>,
    pub updated_at: Seq<char>,
}

impl View for TelemetryBinding {
    type V = BindingView;

    open spec fn view(&self) -> BindingView {
        BindingView {
            workspace_key: self.workspace_key@,
            id: self.id@,
            canonical_node_id: self.canonical_node_id@,
            file_path: self.file_path@,
            function_name: self.function_name@,
            p50_ms: self.p50_ms,
            p99_ms: self.p99_ms,
            alloc_bytes: self.alloc_bytes,
            call_count: self.call_count,
            is_hotspot: self.is_hotspot,
            environment: self.environment@,
            created_at: self.created_at@,
            updated_at: self.updated_at@,
        }
    }
}

impl Clone for TelemetryBinding {
    fn clone(&self) -> (copy: Self)
        ensures
            copy == *self,
    {
        TelemetryBinding {
            workspace_key: self.workspace_key.clone(),
            id: self.id.clone(),
            canonical_node_id: self.canonical_node_id.clone(),
            file_path: self.file_path.clone(),
            function_name: self.function_name.clone(),
            p50_ms: self.p50_ms,
            p99_ms: self.p99_ms,
            alloc_bytes: self.alloc_bytes,
            call_count: self.call_count,
            is_hotspot: self.is_hotspot,
            environment: self.environment.clone(),
            created_at: self.created_at.clone(),
            updated_at: self.updated_at.clone(),
        }
    }
}

/// The values of a list of rows.
pub open spec fn views(rows: Seq<TelemetryBinding>) -> Seq<BindingView> {
    rows.map_values(|row: TelemetryBinding| row@)
}

/// A column that may not be null was given no number.
#[derive(Debug, Clone, Copy, PartialEq, Eq, Structural)]
pub enum DbError {
    P50NotNull,
    P99NotNull,
}

/// Whether the row has the given key.
pub open spec fn has_key(row: BindingView, workspace_key: Seq<char>, id: Seq<char>) -> bool {
    row.workspace_key == workspace_key && row.id == id
}

/// Whether a row with the given key is in the table.
pub open spec fn contains_key(
    rows: Seq<BindingView>,
    workspace_key: Seq<char>,
    id: Seq<char>,
) -> bool {
    exists|i: int| 0 <= i < rows.len() && has_key(#[trigger] rows[i], workspace_key, id)
}

/// Where the row with the given key stands.
pub open spec fn key_index(
    rows: Seq<BindingView>,
    workspace_key: Seq<char>,
    id: Seq<char>,
) -> int {
    choose|i: int| 0 <= i < rows.len() && has_key(#[trigger] rows[i], workspace_key, id)
}

/// The row with the given key, if there is one.
pub open spec fn lookup(
    rows: Seq<BindingView>,
    workspace_key: Seq<char>,
    id: Seq<char>,
) -> Option<BindingView> {
    if contains_key(rows, workspace_key, id) {
        Some(rows[key_index(rows, workspace_key, id)])
    } else {
        None
    }
}

/// What storing `row` fails with; the latency columns are `NOT NULL` and hold
/// only numbers.
pub open spec fn store_error(row: BindingView) -> Option<DbError> {
    if row.p50_ms.is_nan_spec() {
        Some(DbError::P50NotNull)
    } else if row.p99_ms.is_nan_spec() {
        Some(DbError::P99NotNull)
    } else {
        None
    }
}

/// Whether `row` can be stored.
pub open spec fn storable(row: BindingView) -> bool {
    store_error(row) is None
}

/// What the table keeps of `row`: a latency column has only one zero, so that a
/// negative one becomes positive.
pub open spec fn as_stored(row: BindingView) -> BindingView {
    BindingView {
        p50_ms: row.p50_ms.unsigned_zero_spec(),
        p99_ms: row.p99_ms.unsigned_zero_spec(),
        ..row
    }
}

/// Whether `rows` are the rows of a table: no key occurs twice, and the latency
/// columns hold numbers, and no negative zero.
pub open spec fn is_table(rows: Seq<BindingView>) -> bool {
    &&& forall|i: int, j: int|
        0 <= i < j < rows.len() ==> !has_key(
            #[trigger] rows[i],
            (#[trigger] rows[j]).workspace_key,
            rows[j].id,
        )
    &&& forall|i: int|
        0 <= i < rows.len() ==> storable(#[trigger] rows[i]) && as_stored(rows[i]) == rows[i]
}

/// What becomes of a stored row when `row` is stored under the same key: all of
/// `row`, but for the time of creation.
pub open spec fn replaced(stored: BindingView, row: BindingView) -> BindingView {
    BindingView { created_at: stored.created_at, ..as_stored(row) }
}

/// The table after `row` was stored.
pub open spec fn upserted(rows: Seq<BindingView>, row: BindingView) -> Seq<BindingView> {
    if contains_key(rows, row.workspace_key, row.id) {
        let i = key_index(rows, row.workspace_key, row.id);
        rows.update(i, replaced(rows[i], row))
    } else {
        rows.push(as_stored(row))
    }
}

/// The table after all of `batch` was stored, in order.
pub open spec fn upserted_all(
    rows: Seq<BindingView>,
    batch: Seq<BindingView>,
) -> Seq<BindingView>
    decreases batch.len(),
{
    if batch.len() == 0 {
        rows
    } else {
        upserted(upserted_all(rows, batch.drop_last()), batch.last())
    }
}

/// `row` put into rows that are ordered by falling p99, behind its equals.
pub open spec fn ranked_with(rows: Seq<BindingView>, row: BindingView) -> Seq<BindingView>
    decreases rows.len(),
{
    if rows.len() > 0 && row.p99_ms.exceeds_spec(rows.last().p99_ms) {
        ranked_with(rows.drop_last(), row).push(rows.last())
    } else {
        rows.push(row)
    }
}

/// `rows` ordered by falling p99; rows of equal p99 keep their order.
pub open spec fn ranked(rows: Seq<BindingView>) -> Seq<BindingView>
    decreases rows.len(),
{
    if rows.len() == 0 {
        rows
    } else {
        ranked_with(ranked(rows.drop_last()), rows.last())
    }
}

/// The rows of one workspace.
pub open spec fn of_workspace(rows: Seq<BindingView>, workspace_key: Seq<char>) -> Seq<
    BindingView,
> {
    rows.filter(|row: BindingView| row.workspace_key == workspace_key)
}

/// The rows of one workspace that are bound to one node.
pub open spec fn of_node(
    rows: Seq<BindingView>,
    workspace_key: Seq<char>,
    node_id: Seq<char>,
) -> Seq<BindingView> {
    rows.filter(
        |row: BindingView|
            row.workspace_key == workspace_key && row.canonical_node_id == node_id,
    )
}

/// The hotspots of one workspace.
pub open spec fn hotspots_of(rows: Seq<BindingView>, workspace_key: Seq<char>) -> Seq<
    BindingView,
> {
    rows.filter(|row: BindingView| row.workspace_key == workspace_key && row.is_hotspot)
}

/// The rows of the table, in the order in which their keys were first stored.
#[derive(Debug)]
pub struct TelemetryDb {
    rows: Vec<TelemetryBinding>,
}

impl View for TelemetryDb {
    type V = Seq<BindingView>;

    closed spec fn view(&self) -> Seq<BindingView> {
        views(self.rows@)
    }
}

impl TelemetryDb {
    /// Whether the rows are those of a table.
    pub open spec fn wf(&self) -> bool {
        is_table(self@)
    }

    /// An empty table.
    pub fn new() -> (db: Self)
        ensures
            db.wf(),
            db@ == Seq::<BindingView>::empty(),
    {
        let db = TelemetryDb { rows: Vec::new() };
        assert(db@ =~= Seq::<BindingView>::empty());
        db
    }

    /// A table that holds `rows`, stored in order.
    ///
    /// Fails at the first row that cannot be stored.
    pub fn from_rows(rows: &Vec<TelemetryBinding>) -> (r: Result<Self, DbError>)
        ensures
            match r {
                Ok(db) => {
                    &&& db.wf()
                    &&& db@ == upserted_all(Seq::empty(), views(rows@))
                    &&& forall|i: int| 0 <= i < rows@.len() ==> storable((#[trigger] rows@[i])@)
                },
                Err(e) => exists|k: int|
                    {
                        &&& 0 <= k < rows@.len()
                        &&& store_error((#[trigger] rows@[k])@) == Some(e)
                        &&& forall|i: int| 0 <= i < k ==> storable((#[trigger] rows@[i])@)
                    },
            },
    {
        let mut db = TelemetryDb::new();
        let mut i: usize = 0;
        assert(views(rows@).take(0) =~= Seq::<BindingView>::empty());
        while i < rows.len()
            invariant
                i <= rows.len(),
                db.wf(),
                db@ == upserted_all(Seq::empty(), views(rows@).take(i as int)),
                forall|j: int| 0 <= j < i ==> storable((#[trigger] rows@[j])@),
            decreases rows.len() - i,
        {
            assert(views(rows@).take(i + 1).drop_last() =~= views(rows@).take(i as int));
            match db.upsert(&rows[i]) {
                Ok(()) => {},
                Err(e) => {
                    assert(store_error(rows@[i as int]@) == Some(e));
                    return Err(e);
                },
            }
            i += 1;
        }
        assert(views(rows@).take(i as int) =~= views(rows@));
        Ok(db)
    }

    /// Where the row with the given key stands.
    fn position(&self, workspace_key: &str, id: &str) -> (r: Option<usize>)
        requires
            self.wf(),
        ensures
            match r {
                Some(i) => {
                    &&& i < self.rows@.len()
                    &&& contains_key(self@, workspace_key@, id@)
                    &&& i == key_index(self@, workspace_key@, id@)
                },
                None => !contains_key(self@, workspace_key@, id@),
            },
    {
        let mut i: usize = 0;
        while i < self.rows.len()
            invariant
                i <= self.rows.len(),
                self.wf(),
                forall|j: int| 0 <= j < i ==> !has_key(#[trigger] self@[j], workspace_key@, id@),
            decreases self.rows.len() - i,
        {
            let row: &TelemetryBinding = &self.rows[i];
            assert(self@[i as int] == row@);
            if text::same_text(&row.workspace_key, workspace_key) && text::same_text(&row.id, id) {
                proof {
                    lemma_key_index(self@, i as int);
                }
                return Some(i);
            }
            i += 1;
        }
        None
    }

    /// Stores one row under `(workspace_key, id)`.
    ///
    /// A row that is already there keeps its time of creation; everything else
    /// is taken from `b`. A latency of negative zero is stored as zero. Fails, and
    /// changes nothing, where a latency is no number.
    pub fn upsert(&mut self, b: &TelemetryBinding) -> (r: Result<(), DbError>)
        requires
            old(self).wf(),
        ensures
            final(self).wf(),
            match r {
                Ok(()) => storable(b@) && final(self)@ == upserted(old(self)@, b@),
                Err(e) => store_error(b@) == Some(e) && final(self)@ == old(self)@,
            },
    {
        if b.p50_ms.is_nan() {
            return Err(DbError::P50NotNull);
        }
        if b.p99_ms.is_nan() {
            return Err(DbError::P99NotNull);
        }
        let ghost before = self@;
        let mut row: TelemetryBinding = b.clone();
        row.p50_ms = b.p50_ms.unsigned_zero();
        row.p99_ms = b.p99_ms.unsigned_zero();
        match self.position(&b.workspace_key, &b.id) {
            Some(i) => {
                row.created_at = self.rows[i].created_at.clone();
                self.rows.set(i, row);
                assert(self@ =~= upserted(before, b@));
            },
            None => {
                self.rows.push(row);
                assert(self@ =~= upserted(before, b@));
            },
        }
        proof {
            lemma_upserted_is_table(before, b@);
        }
        Ok(())
    }

    /// The row with the given key.
    pub fn get(&self, workspace_key: &str, metric_id: &str) -> (r: Option<TelemetryBinding>)
        requires
            self.wf(),
        ensures
            match r {
                Some(row) => lookup(self@, workspace_key@, metric_id@) == Some(row@),
                None => lookup(self@, workspace_key@, metric_id@) is None,
            },
    {
        match self.position(workspace_key, metric_id) {
            Some(i) => Some(self.rows[i].clone()),
            None => None,
        }
    }

    /// All rows of a workspace that are bound to a node, by falling p99.
    pub fn query_by_node(&self, workspace_key: &str, node_id: &str) -> (r: Vec<TelemetryBinding>)
        ensures
            views(r@) == ranked(of_node(self@, workspace_key@, node_id@)),
    {
        let ghost keep = |row: BindingView|
            row.workspace_key == workspace_key@ && row.canonical_node_id == node_id@;
        let mut found: Vec<TelemetryBinding> = Vec::new();
        let mut i: usize = 0;
        proof {
            reveal(Seq::filter);
            assert(self@.take(0).filter(keep) =~= Seq::<BindingView>::empty());
            assert(views(found@) =~= ranked(self@.take(0).filter(keep)));
        }
        while i < self.rows.len()
            invariant
                i <= self.rows.len(),
                keep == |row: BindingView|
                    row.workspace_key == workspace_key@ && row.canonical_node_id == node_id@,
                views(found@) == ranked(self@.take(i as int).filter(keep)),
            decreases self.rows.len() - i,
        {
            let row: &TelemetryBinding = &self.rows[i];
            proof {
                assert(self@[i as int] == row@);
                lemma_filter_next(self@, i as int, keep);
            }
            if text::same_text(&row.workspace_key, workspace_key) && text::same_text(
                &row.canonical_node_id,
                node_id,
            ) {
                insert_ranked(&mut found, row);
            }
            i += 1;
        }
        assert(self@.take(i as int) =~= self@);
        found
    }

    /// All hotspots of a workspace, by falling p99.
    pub fn query_hotspots(&self, workspace_key: &str) -> (r: Vec<TelemetryBinding>)
        ensures
            views(r@) == ranked(hotspots_of(self@, workspace_key@)),
    {
        let ghost keep = |row: BindingView| row.workspace_key == workspace_key@ && row.is_hotspot;
        let mut found: Vec<TelemetryBinding> = Vec::new();
        let mut i: usize = 0;
        proof {
            reveal(Seq::filter);
            assert(self@.take(0).filter(keep) =~= Seq::<BindingView>::empty());
            assert(views(found@) =~= ranked(self@.take(0).filter(keep)));
        }
        while i < self.rows.len()
            invariant
                i <= self.rows.len(),
                keep == |row: BindingView| row.workspace_key == workspace_key@ && row.is_hotspot,
                views(found@) == ranked(self@.take(i as int).filter(keep)),
            decreases self.rows.len() - i,
        {
            let row: &TelemetryBinding = &self.rows[i];
            proof {
                assert(self@[i as int] == row@);
                lemma_filter_next(self@, i as int, keep);
            }
            if text::same_text(&row.workspace_key, workspace_key) && row.is_hotspot {
                insert_ranked(&mut found, row);
            }
            i += 1;
        }
        assert(self@.take(i as int) =~= self@);
        found
    }

    /// How many rows a workspace has.
    pub fn count(&self, workspace_key: &str) -> (n: usize)
        ensures
            n == of_workspace(self@, workspace_key@).len(),
    {
        let ghost keep = |row: BindingView| row.workspace_key == workspace_key@;
        let mut n: usize = 0;
        let mut i: usize = 0;
        proof {
            reveal(Seq::filter);
            assert(self@.take(0).filter(keep) =~= Seq::<BindingView>::empty());
        }
        while i < self.rows.len()
            invariant
                n <= i <= self.rows.len(),
                keep == |row: BindingView| row.workspace_key == workspace_key@,
                n == self@.take(i as int).filter(keep).len(),
            decreases self.rows.len() - i,
        {
            let row: &TelemetryBinding = &self.rows[i];
            proof {
                assert(self@[i as int] == row@);
                lemma_filter_next(self@, i as int, keep);
            }
            if text::same_text(&row.workspace_key, workspace_key) {
                n += 1;
            }
            i += 1;
        }
        assert(self@.take(i as int) =~= self@);
        n
    }

    /// How many hotspots a workspace has.
    pub fn count_hotspots(&self, workspace_key: &str) -> (n: usize)
        ensures
            n == hotspots_of(self@, workspace_key@).len(),
    {
        let ghost keep = |row: BindingView| row.workspace_key == workspace_key@ && row.is_hotspot;
        let mut n: usize = 0;
        let mut i: usize = 0;
        proof {
            reveal(Seq::filter);
            assert(self@.take(0).filter(keep) =~= Seq::<BindingView>::empty());
        }
        while i < self.rows.len()
            invariant
                n <= i <= self.rows.len(),
                keep == |row: BindingView| row.workspace_key == workspace_key@ && row.is_hotspot,
                n == self@.take(i as int).filter(keep).len(),
            decreases self.rows.len() - i,
        {
            let row: &TelemetryBinding = &self.rows[i];
            proof {
                assert(self@[i as int] == row@);
                lemma_filter_next(self@, i as int, keep);
            }
            if text::same_text(&row.workspace_key, workspace_key) && row.is_hotspot {
                n += 1;
            }
            i += 1;
        }
        assert(self@.take(i as int) =~= self@);
        n
    }
}

/// Puts a copy of `row` into rows that are ordered by falling p99.
fn insert_ranked(rows: &mut Vec<TelemetryBinding>, row: &TelemetryBinding)
    ensures
        views(final(rows)@) == ranked_with(views(old(rows)@), row@),
{
    let ghost before = views(rows@);
    let mut at: usize = rows.len();
    while at > 0 && row.p99_ms.exceeds(rows[at - 1].p99_ms)
        invariant
            at <= rows.len(),
            views(rows@) == before,
            forall|i: int|
                at <= i < before.len() ==> row.p99_ms.exceeds_spec(#[trigger] before[i].p99_ms),
        decreases at,
    {
        at -= 1;
    }
    proof {
        lemma_ranked_with_position(before, row@, at as int);
    }
    rows.insert(at, row.clone());
    assert(views(rows@) =~= before.insert(at as int, row@));
}

/// `ranked_with` puts the row before all the rows whose p99 it exceeds.
proof fn lemma_ranked_with_position(rows: Seq<BindingView>, row: BindingView, at: int)
    requires
        0 <= at <= rows.len(),
        forall|i: int|
            at <= i < rows.len() ==> row.p99_ms.exceeds_spec(#[trigger] rows[i].p99_ms),
        at > 0 ==> !row.p99_ms.exceeds_spec(rows[at - 1].p99_ms),
    ensures
        ranked_with(rows, row) == rows.insert(at, row),
    decreases rows.len(),
{
    if at < rows.len() {
        lemma_ranked_with_position(rows.drop_last(), row, at);
        assert(rows.drop_last().insert(at, row).push(rows.last()) =~= rows.insert(at, row));
    } else {
        assert(rows.insert(at, row) =~= rows.push(row));
    }
}

/// One row more, filtered.
proof fn lemma_filter_next(rows: Seq<BindingView>, i: int, keep: spec_fn(BindingView) -> bool)
    requires
        0 <= i < rows.len(),
    ensures
        keep(rows[i]) ==> rows.take(i + 1).filter(keep) == rows.take(i).filter(keep).push(rows[i])
            && ranked(rows.take(i + 1).filter(keep)) == ranked_with(
            ranked(rows.take(i).filter(keep)),
            rows[i],
        ),
        !keep(rows[i]) ==> rows.take(i + 1).filter(keep) == rows.take(i).filter(keep),
{
    reveal(Seq::filter);
    assert(rows.take(i + 1).drop_last() =~= rows.take(i));
    let f = rows.take(i).filter(keep);
    assert(f.push(rows[i]).drop_last() =~= f);
}

/// In a table the key of a row leads to that row.
pub proof fn lemma_key_index(rows: Seq<BindingView>, i: int)
    requires
        is_table(rows),
        0 <= i < rows.len(),
    ensures
        contains_key(rows, rows[i].workspace_key, rows[i].id),
        key_index(rows, rows[i].workspace_key, rows[i].id) == i,
{
    assert(has_key(rows[i], rows[i].workspace_key, rows[i].id));
    let k = key_index(rows, rows[i].workspace_key, rows[i].id);
    assert(0 <= k < rows.len() && has_key(rows[k], rows[i].workspace_key, rows[i].id));
}

/// Storing a row leaves a table.
pub proof fn lemma_upserted_is_table(rows: Seq<BindingView>, row: BindingView)
    requires
        is_table(rows),
        storable(row),
    ensures
        is_table(upserted(rows, row)),
{
    let after = upserted(rows, row);
    if contains_key(rows, row.workspace_key, row.id) {
        let k = key_index(rows, row.workspace_key, row.id);
        assert(0 <= k < rows.len() && has_key(rows[k], row.workspace_key, row.id));
        assert forall|i: int, j: int| 0 <= i < j < after.len() implies !has_key(
            #[trigger] after[i],
            (#[trigger] after[j]).workspace_key,
            after[j].id,
        ) by {
            assert(!has_key(rows[i], rows[j].workspace_key, rows[j].id));
        }
    }
}

/// Reading a key back gives what was stored under it: the row as the table keeps
/// it, or, where the key was known, that row with the old time of creation.
pub proof fn stored_row_is_found(rows: Seq<BindingView>, row: BindingView)
    requires
        is_table(rows),
        storable(row),
    ensures
        lookup(upserted(rows, row), row.workspace_key, row.id) == Some(
            match lookup(rows, row.workspace_key, row.id) {
                Some(stored) => replaced(stored, row),
                None => as_stored(row),
            },
        ),
{
    lemma_upserted_is_table(rows, row);
    let after = upserted(rows, row);
    if contains_key(rows, row.workspace_key, row.id) {
        let k = key_index(rows, row.workspace_key, row.id);
        assert(0 <= k < rows.len() && has_key(rows[k], row.workspace_key, row.id));
        lemma_key_index(after, k);
    } else {
        lemma_key_index(after, rows.len() as int);
    }
}

/// Storing a row changes nothing under any other key.
pub proof fn other_keys_are_kept(
    rows: Seq<BindingView>,
    row: BindingView,
    workspace_key: Seq<char>,
    id: Seq<char>,
)
    requires
        is_table(rows),
        storable(row),
        !has_key(row, workspace_key, id),
    ensures
        lookup(upserted(rows, row), workspace_key, id) == lookup(rows, workspace_key, id),
{
    lemma_upserted_is_table(rows, row);
    let after = upserted(rows, row);
    if contains_key(rows, row.workspace_key, row.id) {
        let k = key_index(rows, row.workspace_key, row.id);
        assert(0 <= k < rows.len() && has_key(rows[k], row.workspace_key, row.id));
    }
    if contains_key(rows, workspace_key, id) {
        let i = key_index(rows, workspace_key, id);
        assert(0 <= i < rows.len() && has_key(rows[i], workspace_key, id));
        assert(after[i] == rows[i]);
        lemma_key_index(after, i);
        lemma_key_index(rows, i);
    } else if contains_key(after, workspace_key, id) {
        let i = key_index(after, workspace_key, id);
        assert(0 <= i < after.len() && has_key(after[i], workspace_key, id));
        assert(i < rows.len() && after[i] == rows[i]);
    }
}

/// Storing a row of one workspace leaves every other workspace as it was: its
/// rows, and so what is found in it by node, by hotspot or by counting.
pub proof fn other_workspaces_are_kept(
    rows: Seq<BindingView>,
    row: BindingView,
    workspace_key: Seq<char>,
    node_id: Seq<char>,
)
    requires
        row.workspace_key != workspace_key,
    ensures
        of_workspace(upserted(rows, row), workspace_key) == of_workspace(rows, workspace_key),
        of_node(upserted(rows, row), workspace_key, node_id) == of_node(
            rows,
            workspace_key,
            node_id,
        ),
        hotspots_of(upserted(rows, row), workspace_key) == hotspots_of(rows, workspace_key),
{
    lemma_upserted_elsewhere(
        rows,
        row,
        workspace_key,
        |r: BindingView| r.workspace_key == workspace_key,
    );
    lemma_upserted_elsewhere(
        rows,
        row,
        workspace_key,
        |r: BindingView| r.workspace_key == workspace_key && r.canonical_node_id == node_id,
    );
    lemma_upserted_elsewhere(
        rows,
        row,
        workspace_key,
        |r: BindingView| r.workspace_key == workspace_key && r.is_hotspot,
    );
}

/// Storing a row of another workspace changes nothing of what a filter on one
/// workspace keeps.
proof fn lemma_upserted_elsewhere(
    rows: Seq<BindingView>,
    row: BindingView,
    workspace_key: Seq<char>,
    keep: spec_fn(BindingView) -> bool,
)
    requires
        row.workspace_key != workspace_key,
        forall|r: BindingView| #[trigger] keep(r) ==> r.workspace_key == workspace_key,
    ensures
        upserted(rows, row).filter(keep) == rows.filter(keep),
{
    reveal(Seq::filter);
    if contains_key(rows, row.workspace_key, row.id) {
        let k = key_index(rows, row.workspace_key, row.id);
        assert(0 <= k < rows.len() && has_key(rows[k], row.workspace_key, row.id));
        lemma_filter_update(rows, k, replaced(rows[k], row), keep);
    } else {
        assert(rows.push(as_stored(row)).drop_last() =~= rows);
    }
}

/// Replacing a row that a filter drops by another one that it drops.
proof fn lemma_filter_update(
    rows: Seq<BindingView>,
    k: int,
    row: BindingView,
    keep: spec_fn(BindingView) -> bool,
)
    requires
        0 <= k < rows.len(),
        !keep(rows[k]),
        !keep(row),
    ensures
        rows.update(k, row).filter(keep) == rows.filter(keep),
    decreases rows.len(),
{
    reveal(Seq::filter);
    let after = rows.update(k, row);
    if k == rows.len() - 1 {
        assert(after.drop_last() =~= rows.drop_last());
    } else {
        assert(after.drop_last() =~= rows.drop_last().update(k, row));
        lemma_filter_update(rows.drop_last(), k, row, keep);
    }
}

/// Storing the same row twice is the same as storing it once.
pub proof fn storing_again_changes_nothing(rows: Seq<BindingView>, row: BindingView)
    requires
        is_table(rows),
        storable(row),
    ensures
        upserted(upserted(rows, row), row) == upserted(rows, row),
{
    lemma_upserted_is_table(rows, row);
    let after = upserted(rows, row);
    if contains_key(rows, row.workspace_key, row.id) {
        let k = key_index(rows, row.workspace_key, row.id);
        assert(0 <= k < rows.len() && has_key(rows[k], row.workspace_key, row.id));
        lemma_key_index(after, k);
    } else {
        lemma_key_index(after, rows.len() as int);
    }
    assert(upserted(after, row) =~= after);
}

/// A known key adds no row to its workspace, and a new one adds one.
pub proof fn upsert_replaces_or_adds_one(rows: Seq<BindingView>, row: BindingView)
    ensures
        of_workspace(upserted(rows, row), row.workspace_key).len() == of_workspace(
            rows,
            row.workspace_key,
        ).len() + if contains_key(rows, row.workspace_key, row.id) {
            0int
        } else {
            1int
        },
{
    reveal(Seq::filter);
    let keep = |r: BindingView| r.workspace_key == row.workspace_key;
    if contains_key(rows, row.workspace_key, row.id) {
        let k = key_index(rows, row.workspace_key, row.id);
        assert(0 <= k < rows.len() && has_key(rows[k], row.workspace_key, row.id));
        lemma_filter_update_len(rows, k, replaced(rows[k], row), keep);
    } else {
        assert(rows.push(as_stored(row)).drop_last() =~= rows);
    }
}

/// Replacing a row that a filter keeps by another one that it keeps.
proof fn lemma_filter_update_len(
    rows: Seq<BindingView>,
    k: int,
    row: BindingView,
    keep: spec_fn(BindingView) -> bool,
)
    requires
        0 <= k < rows.len(),
        keep(rows[k]),
        keep(row),
    ensures
        rows.update(k, row).filter(keep).len() == rows.filter(keep).len(),
    decreases rows.len(),
{
    reveal(Seq::filter);
    let after = rows.update(k, row);
    if k == rows.len() - 1 {
        assert(after.drop_last() =~= rows.drop_last());
    } else {
        assert(after.drop_last() =~= rows.drop_last().update(k, row));
        lemma_filter_update_len(rows.drop_last(), k, row, keep);
    }
}

/// A table that is written out and stored again row by row is the same table.
pub proof fn table_loads_as_it_was(rows: Seq<BindingView>)
    requires
        is_table(rows),
    ensures
        upserted_all(Seq::empty(), rows) == rows,
    decreases rows.len(),
{
    if rows.len() > 0 {
        let head = rows.drop_last();
        assert forall|i: int, j: int| 0 <= i < j < head.len() implies !has_key(
            #[trigger] head[i],
            (#[trigger] head[j]).workspace_key,
            head[j].id,
        ) by {
            assert(!has_key(rows[i], rows[j].workspace_key, rows[j].id));
        }
        assert forall|i: int| 0 <= i < head.len() implies storable(#[trigger] head[i])
            && as_stored(head[i]) == head[i] by {
            assert(storable(rows[i]));
        }
        assert(as_stored(rows[rows.len() - 1]) == rows[rows.len() - 1]);
        table_loads_as_it_was(head);
        let last = rows.last();
        if contains_key(head, last.workspace_key, last.id) {
            let i = key_index(head, last.workspace_key, last.id);
            assert(0 <= i < head.len() && has_key(head[i], last.workspace_key, last.id));
            assert(!has_key(rows[i], rows[rows.len() - 1].workspace_key, rows[rows.len() - 1].id));
        }
        assert(head.push(last) =~= rows);
    } else {
        assert(rows =~= Seq::<BindingView>::empty());
    }
}

/// A query hands out exactly the rows that it selects, ordered by falling p99.
pub proof fn ranking_orders_and_keeps_rows(rows: Seq<BindingView>)
    requires
        forall|i: int| 0 <= i < rows.len() ==> storable(#[trigger] rows[i]),
    ensures
        ranked(rows).len() == rows.len(),
        ranked(rows).to_multiset() == rows.to_multiset(),
        forall|i: int, j: int|
            0 <= i < j < rows.len() ==> (#[trigger] ranked(rows)[i]).p99_ms.units() >= (
            #[trigger] ranked(rows)[j]).p99_ms.units(),
        forall|i: int| 0 <= i < rows.len() ==> storable(#[trigger] ranked(rows)[i]),
    decreases rows.len(),
{
    if rows.len() > 0 {
        let head = rows.drop_last();
        assert forall|i: int| 0 <= i < head.len() implies storable(#[trigger] head[i]) by {
            assert(storable(rows[i]));
        }
        ranking_orders_and_keeps_rows(head);
        assert(storable(rows.last()));
        lemma_ranked_with(ranked(head), rows.last());
        assert(head.push(rows.last()) =~= rows);
        broadcast use vstd::seq_lib::group_to_multiset_ensures;

        assert(rows.to_multiset() =~= head.to_multiset().insert(rows.last()));
    } else {
        assert(ranked(rows) =~= rows);
    }
}

/// Putting a row into ordered rows keeps them ordered and adds that row.
proof fn lemma_ranked_with(rows: Seq<BindingView>, row: BindingView)
    requires
        storable(row),
        forall|i: int| 0 <= i < rows.len() ==> storable(#[trigger] rows[i]),
        forall|i: int, j: int|
            0 <= i < j < rows.len() ==> (#[trigger] rows[i]).p99_ms.units() >= (
            #[trigger] rows[j]).p99_ms.units(),
    ensures
        ranked_with(rows, row).len() == rows.len() + 1,
        ranked_with(rows, row).to_multiset() == rows.to_multiset().insert(row),
        forall|i: int, j: int|
            0 <= i < j < rows.len() + 1 ==> (#[trigger] ranked_with(
                rows,
                row,
            )[i]).p99_ms.units() >= (#[trigger] ranked_with(rows, row)[j]).p99_ms.units(),
        forall|i: int|
            0 <= i < rows.len() + 1 ==> storable(#[trigger] ranked_with(rows, row)[i]),
        forall|i: int|
            0 <= i < rows.len() + 1 ==> (#[trigger] ranked_with(rows, row)[i]).p99_ms.units()
                >= row.p99_ms.units() || (exists|k: int|
                0 <= k < rows.len() && rows[k] == ranked_with(rows, row)[i]),
    decreases rows.len(),
{
    broadcast use vstd::seq_lib::group_to_multiset_ensures;

    if rows.len() > 0 && row.p99_ms.exceeds_spec(rows.last().p99_ms) {
        let head = rows.drop_last();
        lemma_ranked_with(head, row);
        let front = ranked_with(head, row);
        assert(ranked_with(rows, row) == front.push(rows.last()));
        assert forall|i: int| 0 <= i < front.len() implies (#[trigger] front[i]).p99_ms.units()
            >= rows.last().p99_ms.units() by {
            if front[i].p99_ms.units() < row.p99_ms.units() {
                let k = choose|k: int| 0 <= k < head.len() && head[k] == front[i];
                assert(rows[k] == front[i]);
            }
        }
        assert(head.push(rows.last()) =~= rows);
        assert(rows.to_multiset() =~= head.to_multiset().insert(rows.last()));
        assert(ranked_with(rows, row).to_multiset() =~= rows.to_multiset().insert(row));
        assert forall|i: int| 0 <= i < rows.len() + 1 implies (#[trigger] ranked_with(
            rows,
            row,
        )[i]).p99_ms.units() >= row.p99_ms.units() || (exists|k: int|
            0 <= k < rows.len() && rows[k] == ranked_with(rows, row)[i]) by {
            if i == rows.len() {
                assert(rows[rows.len() - 1] == ranked_with(rows, row)[i]);
            } else if front[i].p99_ms.units() < row.p99_ms.units() {
                let k = choose|k: int| 0 <= k < head.len() && head[k] == front[i];
                assert(rows[k] == ranked_with(rows, row)[i]);
            }
        }
    } else {
        assert forall|i: int| 0 <= i < rows.len() implies rows.push(row)[i] == #[trigger] rows[i]
            && rows[i].p99_ms.units() >= row.p99_ms.units() by {
            assert(storable(rows[i]));
            assert(storable(rows.last()));
        }
        assert(rows.push(row).to_multiset() =~= rows.to_multiset().insert(row));
    }
}

/// The hotspots of a workspace are among its rows, so they are no more than
/// those, and a query for them hands out as many as are counted.
pub proof fn hotspots_are_rows_of_the_workspace(rows: Seq<BindingView>, workspace_key: Seq<char>)
    requires
        is_table(rows),
    ensures
        hotspots_of(rows, workspace_key).len() <= of_workspace(rows, workspace_key).len(),
        ranked(hotspots_of(rows, workspace_key)).len() == hotspots_of(rows, workspace_key).len(),
        forall|i: int|
            0 <= i < hotspots_of(rows, workspace_key).len() ==> {
                let row = #[trigger] hotspots_of(rows, workspace_key)[i];
                row.is_hotspot && row.workspace_key == workspace_key && rows.contains(row)
            },
{
    let hot = |row: BindingView| row.workspace_key == workspace_key && row.is_hotspot;
    let all = |row: BindingView| row.workspace_key == workspace_key;
    lemma_filter_narrows(rows, hot, all);
    lemma_filter_members(rows, hot);
    assert forall|i: int| 0 <= i < rows.filter(hot).len() implies storable(
        #[trigger] rows.filter(hot)[i],
    ) by {
        assert(rows.contains(rows.filter(hot)[i]));
    }
    ranking_orders_and_keeps_rows(rows.filter(hot));
}

/// A narrower filter keeps no more rows.
proof fn lemma_filter_narrows(
    rows: Seq<BindingView>,
    narrow: spec_fn(BindingView) -> bool,
    wide: spec_fn(BindingView) -> bool,
)
    requires
        forall|r: BindingView| #[trigger] narrow(r) ==> wide(r),
    ensures
        rows.filter(narrow).len() <= rows.filter(wide).len(),
    decreases rows.len(),
{
    reveal(Seq::filter);
    if rows.len() > 0 {
        lemma_filter_narrows(rows.drop_last(), narrow, wide);
    }
}

/// What a filter keeps was there and passes it.
proof fn lemma_filter_members(rows: Seq<BindingView>, keep: spec_fn(BindingView) -> bool)
    ensures
        forall|i: int|
            0 <= i < rows.filter(keep).len() ==> keep(#[trigger] rows.filter(keep)[i])
                && rows.contains(rows.filter(keep)[i]),
    decreases rows.len(),
{
    reveal(Seq::filter);
    if rows.len() > 0 {
        let head = rows.drop_last();
        lemma_filter_members(head, keep);
        assert forall|i: int| 0 <= i < rows.filter(keep).len() implies keep(
            #[trigger] rows.filter(keep)[i],
        ) && rows.contains(rows.filter(keep)[i]) by {
            if i < head.filter(keep).len() {
                assert(head.contains(head.filter(keep)[i]));
                let k = choose|k: int| 0 <= k < head.len() && head[k] == head.filter(keep)[i];
                assert(rows[k] == rows.filter(keep)[i]);
            } else {
                assert(rows[rows.len() - 1] == rows.filter(keep)[i]);
            }
        }
    }
}

/// A filter keeps exactly the rows that pass it.
proof fn lemma_filter_has_all(rows: Seq<BindingView>, keep: spec_fn(BindingView) -> bool)
    ensures
        forall|r: BindingView| #[trigger]
            rows.filter(keep).contains(r) <==> rows.contains(r) && keep(r),
{
    lemma_filter_members(rows, keep);
    assert forall|r: BindingView| #[trigger]
        rows.filter(keep).contains(r) <==> rows.contains(r) && keep(r) by {
        if rows.contains(r) && keep(r) {
            let i = choose|i: int| 0 <= i < rows.len() && rows[i] == r;
            rows.lemma_filter_contains(keep, i);
        }
        if rows.filter(keep).contains(r) {
            let i = choose|i: int| 0 <= i < rows.filter(keep).len() && rows.filter(keep)[i] == r;
            assert(keep(rows.filter(keep)[i]));
        }
    }
}

/// A row comes out of a query by node if and only if it is in the table, in that
/// workspace and bound to that node; out of a query for hotspots if and only if
/// it is a hotspot of that workspace.
pub proof fn queries_are_exact(
    rows: Seq<BindingView>,
    workspace_key: Seq<char>,
    node_id: Seq<char>,
    row: BindingView,
)
    requires
        is_table(rows),
    ensures
        ranked(of_node(rows, workspace_key, node_id)).contains(row) <==> rows.contains(row)
            && row.workspace_key == workspace_key && row.canonical_node_id == node_id,
        ranked(hotspots_of(rows, workspace_key)).contains(row) <==> rows.contains(row)
            && row.workspace_key == workspace_key && row.is_hotspot,
{
    lemma_ranked_filter_contains(
        rows,
        |r: BindingView| r.workspace_key == workspace_key && r.canonical_node_id == node_id,
        row,
    );
    lemma_ranked_filter_contains(
        rows,
        |r: BindingView| r.workspace_key == workspace_key && r.is_hotspot,
        row,
    );
}

/// Ordering what a filter kept neither adds nor drops a row.
proof fn lemma_ranked_filter_contains(
    rows: Seq<BindingView>,
    keep: spec_fn(BindingView) -> bool,
    row: BindingView,
)
    requires
        is_table(rows),
    ensures
        ranked(rows.filter(keep)).contains(row) <==> rows.contains(row) && keep(row),
{
    let kept = rows.filter(keep);
    lemma_filter_has_all(rows, keep);
    lemma_filter_members(rows, keep);
    assert forall|i: int| 0 <= i < kept.len() implies storable(#[trigger] kept[i]) by {
        assert(rows.contains(kept[i]));
    }
    ranking_orders_and_keeps_rows(kept);
    broadcast use vstd::seq_lib::group_to_multiset_ensures;

    assert(ranked(kept).contains(row) <==> ranked(kept).to_multiset().count(row) > 0);
    assert(kept.contains(row) <==> kept.to_multiset().count(row) > 0);
}

/// A metric is bound to one node at a time: once it is stored with a new node,
/// no query by another node finds it any more.
pub proof fn rebinding_moves_the_metric(
    rows: Seq<BindingView>,
    row: BindingView,
    node_id: Seq<char>,
    found: BindingView,
)
    requires
        is_table(rows),
        storable(row),
        node_id != row.canonical_node_id,
        ranked(of_node(upserted(rows, row), row.workspace_key, node_id)).contains(found),
    ensures
        found.id != row.id,
{
    lemma_upserted_is_table(rows, row);
    let after = upserted(rows, row);
    queries_are_exact(after, row.workspace_key, node_id, found);
    if found.id == row.id {
        let i = choose|i: int| 0 <= i < after.len() && after[i] == found;
        lemma_key_index(after, i);
        stored_row_is_found(rows, row);
    }
}

/// The value of a row has each column under its own name.
pub proof fn row_value_has_its_columns(row: TelemetryBinding)
    ensures
        row@.workspace_key == row.workspace_key@,
        row@.id == row.id@,
        row@.canonical_node_id == row.canonical_node_id@,
        row@.file_path == row.file_path@,
        row@.function_name == row.function_name@,
        row@.p50_ms.bits == row.p50_ms.bits,
        row@.p99_ms.bits == row.p99_ms.bits,
        row@.alloc_bytes == row.alloc_bytes,
        row@.call_count == row.call_count,
        row@.is_hotspot == row.is_hotspot,
        row@.environment == row.environment@,
        row@.created_at == row.created_at@,
        row@.updated_at == row.updated_at@,
{
}

/// The values of a list of rows are those of the rows, one by one.
pub proof fn row_values_come_one_by_one(rows: Seq<TelemetryBinding>)
    ensures
        views(rows).len() == rows.len(),
        forall|i: int| 0 <= i < rows.len() ==> #[trigger] views(rows)[i] == rows[i]@,
{
}

/// Looking up a key gives a row with that key out of the table, and gives none only
/// where no row has it.
pub proof fn lookup_finds_the_key(rows: Seq<BindingView>, workspace_key: Seq<char>, id: Seq<char>)
    ensures
        match lookup(rows, workspace_key, id) {
            Some(row) => rows.contains(row) && row.workspace_key == workspace_key && row.id == id,
            None => forall|i: int|
                0 <= i < rows.len() ==> (#[trigger] rows[i]).workspace_key != workspace_key
                    || rows[i].id != id,
        },
{
    if contains_key(rows, workspace_key, id) {
        let k = key_index(rows, workspace_key, id);
        assert(0 <= k < rows.len() && has_key(rows[k], workspace_key, id));
    } else {
        assert forall|i: int| 0 <= i < rows.len() implies (#[trigger] rows[i]).workspace_key
            != workspace_key || rows[i].id != id by {
            assert(!has_key(rows[i], workspace_key, id));
        }
    }
}

/// A row is refused exactly where a latency is no number, by the bits of it; the
/// first of the two latencies is complained of first.
pub proof fn rows_without_numbers_are_refused(row: BindingView)
    ensures
        ({
            let p50_is_none = row.p50_ms.bits as int % 0x8000_0000_0000_0000
                > 0x7ff0_0000_0000_0000;
            let p99_is_none = row.p99_ms.bits as int % 0x8000_0000_0000_0000
                > 0x7ff0_0000_0000_0000;
            &&& storable(row) <==> !p50_is_none && !p99_is_none
            &&& store_error(row) == Some(DbError::P50NotNull) <==> p50_is_none
            &&& store_error(row) == Some(DbError::P99NotNull) <==> !p50_is_none && p99_is_none
        }),
{
}

/// Rows are those of a table exactly where no two have the same workspace and id, and
/// every latency is a number other than a negative zero.
pub proof fn tables_have_unique_keys_and_numbers(rows: Seq<BindingView>)
    ensures
        is_table(rows) <==> {
            &&& forall|i: int, j: int|
                0 <= i < j < rows.len() ==> (#[trigger] rows[i]).workspace_key != (
                #[trigger] rows[j]).workspace_key || rows[i].id != rows[j].id
            &&& forall|i: int|
                0 <= i < rows.len() ==> {
                    &&& !(#[trigger] rows[i]).p50_ms.is_nan_spec()
                    &&& !rows[i].p99_ms.is_nan_spec()
                    &&& rows[i].p50_ms.bits != 0x8000_0000_0000_0000
                    &&& rows[i].p99_ms.bits != 0x8000_0000_0000_0000
                }
        },
{
    if is_table(rows) {
        assert forall|i: int, j: int| 0 <= i < j < rows.len() implies (
        #[trigger] rows[i]).workspace_key != (#[trigger] rows[j]).workspace_key || rows[i].id
            != rows[j].id by {
            assert(!has_key(rows[i], rows[j].workspace_key, rows[j].id));
        }
    }
}

/// Storing a row under a key that the table has changes that one row, in every
/// column but the time of creation, and leaves all others where they were.
pub proof fn known_key_changes_its_row(rows: Seq<BindingView>, row: BindingView, i: int)
    requires
        is_table(rows),
        0 <= i < rows.len(),
        rows[i].workspace_key == row.workspace_key,
        rows[i].id == row.id,
    ensures
        upserted(rows, row).len() == rows.len(),
        forall|j: int|
            0 <= j < rows.len() && j != i ==> #[trigger] upserted(rows, row)[j] == rows[j],
        upserted(rows, row)[i].created_at == rows[i].created_at,
        ({
            let kept = upserted(rows, row)[i];
            &&& kept.workspace_key == row.workspace_key
            &&& kept.id == row.id
            &&& kept.canonical_node_id == row.canonical_node_id
            &&& kept.file_path == row.file_path
            &&& kept.function_name == row.function_name
            &&& kept.p50_ms.units() == row.p50_ms.units()
            &&& kept.p99_ms.units() == row.p99_ms.units()
            &&& row.p50_ms.bits != 0x8000_0000_0000_0000 ==> kept.p50_ms == row.p50_ms
            &&& row.p99_ms.bits != 0x8000_0000_0000_0000 ==> kept.p99_ms == row.p99_ms
            &&& kept.alloc_bytes == row.alloc_bytes
            &&& kept.call_count == row.call_count
            &&& kept.is_hotspot == row.is_hotspot
            &&& kept.environment == row.environment
            &&& kept.updated_at == row.updated_at
        }),
{
    lemma_key_index(rows, i);
}

/// Storing a row under a new key adds it at the end, and leaves all others where they
/// were.
pub proof fn new_key_adds_a_row(rows: Seq<BindingView>, row: BindingView)
    requires
        forall|i: int|
            0 <= i < rows.len() ==> (#[trigger] rows[i]).workspace_key != row.workspace_key
                || rows[i].id != row.id,
    ensures
        upserted(rows, row).len() == rows.len() + 1,
        forall|j: int| 0 <= j < rows.len() ==> #[trigger] upserted(rows, row)[j] == rows[j],
        upserted(rows, row)[rows.len() as int].created_at == row.created_at,
        ({
            let kept = upserted(rows, row)[rows.len() as int];
            &&& kept.workspace_key == row.workspace_key
            &&& kept.id == row.id
            &&& kept.canonical_node_id == row.canonical_node_id
            &&& kept.file_path == row.file_path
            &&& kept.function_name == row.function_name
            &&& kept.p50_ms.units() == row.p50_ms.units()
            &&& kept.p99_ms.units() == row.p99_ms.units()
            &&& row.p50_ms.bits != 0x8000_0000_0000_0000 ==> kept.p50_ms == row.p50_ms
            &&& row.p99_ms.bits != 0x8000_0000_0000_0000 ==> kept.p99_ms == row.p99_ms
            &&& kept.alloc_bytes == row.alloc_bytes
            &&& kept.call_count == row.call_count
            &&& kept.is_hotspot == row.is_hotspot
            &&& kept.environment == row.environment
            &&& kept.updated_at == row.updated_at
        }),
{
    if contains_key(rows, row.workspace_key, row.id) {
        let k = key_index(rows, row.workspace_key, row.id);
        assert(0 <= k < rows.len() && has_key(rows[k], row.workspace_key, row.id));
    }
}

/// A batch is stored row by row, however long it is.
pub proof fn batches_are_stored_row_by_row(
    rows: Seq<BindingView>,
    batch: Seq<BindingView>,
    row: BindingView,
)
    ensures
        upserted_all(rows, Seq::empty()) == rows,
        upserted_all(rows, batch.push(row)) == upserted(upserted_all(rows, batch), row),
{
    assert(batch.push(row).drop_last() =~= batch);
}

/// One row more in the table is one row more in what is selected, at its end, where
/// the row is in the workspace, bound to the node or a hotspot, and otherwise nothing
/// changes.
pub proof fn selections_take_each_row_once(
    rows: Seq<BindingView>,
    row: BindingView,
    workspace_key: Seq<char>,
    node_id: Seq<char>,
)
    ensures
        of_workspace(Seq::empty(), workspace_key).len() == 0,
        of_node(Seq::empty(), workspace_key, node_id).len() == 0,
        hotspots_of(Seq::empty(), workspace_key).len() == 0,
        of_workspace(rows.push(row), workspace_key) == of_workspace(rows, workspace_key) + (
        if row.workspace_key == workspace_key {
            seq![row]
        } else {
            seq![]
        }),
        of_node(rows.push(row), workspace_key, node_id) == of_node(rows, workspace_key, node_id) + (
        if row.workspace_key == workspace_key && row.canonical_node_id == node_id {
            seq![row]
        } else {
            seq![]
        }),
        hotspots_of(rows.push(row), workspace_key) == hotspots_of(rows, workspace_key) + (
        if row.workspace_key == workspace_key && row.is_hotspot {
            seq![row]
        } else {
            seq![]
        }),
{
    reveal(Seq::filter);
    assert(rows.push(row).drop_last() =~= rows);
}

/// One row more is put into the ordered rows behind all that are not smaller and
/// before all that are, which stay in their order. Its place is handed back.
pub proof fn ranking_puts_each_row_at_its_place(rows: Seq<BindingView>, row: BindingView) -> (at:
    int)
    requires
        storable(row),
        forall|i: int| 0 <= i < rows.len() ==> storable(#[trigger] rows[i]),
    ensures
        ranked(Seq::empty()).len() == 0,
        0 <= at <= rows.len(),
        ranked(rows).len() == rows.len(),
        ranked(rows.push(row)) == ranked(rows).insert(at, row),
        forall|i: int|
            0 <= i < at ==> (#[trigger] ranked(rows)[i]).p99_ms.units() >= row.p99_ms.units(),
        forall|i: int|
            at <= i < rows.len() ==> (#[trigger] ranked(rows)[i]).p99_ms.units()
                < row.p99_ms.units(),
{
    ranking_orders_and_keeps_rows(rows);
    assert(rows.push(row).drop_last() =~= rows);
    let at = lemma_place(ranked(rows), row);
    lemma_ranked_with_position(ranked(rows), row, at);
    at
}

/// Where a row belongs among ordered rows.
proof fn lemma_place(rows: Seq<BindingView>, row: BindingView) -> (at: int)
    requires
        storable(row),
        forall|i: int| 0 <= i < rows.len() ==> storable(#[trigger] rows[i]),
        forall|i: int, j: int|
            0 <= i < j < rows.len() ==> (#[trigger] rows[i]).p99_ms.units() >= (
            #[trigger] rows[j]).p99_ms.units(),
    ensures
        0 <= at <= rows.len(),
        forall|i: int| 0 <= i < at ==> (#[trigger] rows[i]).p99_ms.units() >= row.p99_ms.units(),
        forall|i: int|
            at <= i < rows.len() ==> (#[trigger] rows[i]).p99_ms.units() < row.p99_ms.units()
                && row.p99_ms.exceeds_spec(rows[i].p99_ms),
        at > 0 ==> !row.p99_ms.exceeds_spec(rows[at - 1].p99_ms),
    decreases rows.len(),
{
    if rows.len() > 0 && row.p99_ms.exceeds_spec(rows.last().p99_ms) {
        let head = rows.drop_last();
        assert(forall|i: int| 0 <= i < head.len() ==> head[i] == rows[i]);
        let at = lemma_place(head, row);
        assert forall|i: int| at <= i < rows.len() implies (#[trigger] rows[i]).p99_ms.units()
            < row.p99_ms.units() && row.p99_ms.exceeds_spec(rows[i].p99_ms) by {
            if i < head.len() {
                assert(head[i] == rows[i]);
            }
        }
        assert forall|i: int| 0 <= i < at implies (#[trigger] rows[i]).p99_ms.units()
            >= row.p99_ms.units() by {
            assert(head[i] == rows[i]);
        }
        at
    } else {
        assert forall|i: int| 0 <= i < rows.len() implies (#[trigger] rows[i]).p99_ms.units()
            >= row.p99_ms.units() by {
            assert(storable(rows[rows.len() - 1]));
            assert(rows.last() == rows[rows.len() - 1]);
        }
        rows.len() as int
    }
}

} // verus!
