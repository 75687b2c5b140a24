//! The migration engine: it takes a store from its recorded version to the
//! newest version of a catalog, step by step.
//!
//! The engine applies the steps whose version is above the recorded one, in
//! the order of the catalog, and records the version of each step once all
//! its statements are executed. A statement that fails ends the run: the
//! version of its step is not recorded, and what the statements before it
//! did stays done. There is no way back to an earlier version.

use vstd::prelude::*;
use crate::catalog::{
    MigrationStep, Statement, StepView, catalog, is_ordered, lemma_catalog_ordered,
    sqlite_migrations, steps_view,
};
use crate::model::{StatementError, StoreState};
use crate::schema::{LATEST_VERSION, final_schema};
use crate::store::Store;
use crate::title::title_of;

verus! {

/// Why a migration ended before the store reached the newest version.
#[derive(Clone, Copy, PartialEq, Eq, Structural, Debug)]
pub enum MigrationError {
    /// The recorded version is above every version of the catalog: a newer
    /// catalog made the store. Nothing is applied and nothing is undone.
    VersionSkew { recorded: i64, newest: i64 },
    /// A statement of the step `version` failed; `statement` is its place
    /// among the statements of the step. The version is not recorded.
    StepFailure { version: i64, statement: usize, cause: StatementError },
}

/// A statement that failed, with the store as the statements before it left
/// it.
pub struct StatementFailure {
    pub store: StoreState,
    pub statement: int,
    pub cause: StatementError,
}

/// The store after the first `count` statements, each executed on what the
/// one before it left; or the first of them that fails.
pub open spec fn run_statements(s: StoreState, statements: Seq<Statement>, count: nat) -> Result<
    StoreState,
    StatementFailure,
>
    decreases count,
{
    if count == 0 {
        Ok(s)
    } else {
        match run_statements(s, statements, (count - 1) as nat) {
            Ok(t) => match t.execute(statements[count - 1]) {
                Ok(u) => Ok(u),
                Err(cause) => Err(StatementFailure { store: t, statement: count - 1, cause }),
            },
            Err(failure) => Err(failure),
        }
    }
}

/// How far a migration came.
pub struct Progress {
    /// The store as the migration left it.
    pub store: StoreState,
    /// The versions of the steps that were applied, in the order in which
    /// they were.
    pub applied: Seq<i64>,
    /// Why the migration ended early, if it did.
    pub failure: Option<MigrationError>,
}

/// A migration that has not begun.
pub open spec fn not_begun(s: StoreState) -> Progress {
    Progress { store: s, applied: Seq::empty(), failure: None }
}

/// The progress after one more step: a step whose version the store has
/// reached is passed over; any other is applied, and its version recorded
/// unless one of its statements fails. After a failure nothing is applied.
pub open spec fn advance(p: Progress, step: StepView) -> Progress {
    if p.failure is Some || step.version <= p.store.version {
        p
    } else {
        match run_statements(p.store, step.statements, step.statements.len()) {
            Ok(t) => Progress {
                store: t.record_version(step.version),
                applied: p.applied.push(step.version),
                failure: None,
            },
            Err(f) => Progress {
                store: f.store,
                applied: p.applied,
                failure: Some(
                    MigrationError::StepFailure {
                        version: step.version,
                        statement: f.statement as usize,
                        cause: f.cause,
                    },
                ),
            },
        }
    }
}

/// The progress after the first `count` steps of the catalog.
pub open spec fn run_steps(s: StoreState, steps: Seq<StepView>, count: nat) -> Progress
    decreases count,
{
    if count == 0 {
        not_begun(s)
    } else {
        advance(run_steps(s, steps, (count - 1) as nat), steps[count - 1])
    }
}

/// The newest version of a catalog: that of its last step, which in an
/// ordered catalog is above all others, or 0 where the catalog has no step.
pub open spec fn newest_version(steps: Seq<StepView>) -> i64 {
    if steps.len() == 0 {
        0
    } else {
        steps.last().version
    }
}

/// What the migration of a store by a catalog comes to. A store whose
/// recorded version is above the newest of the catalog is left alone.
/// Any other store goes through all the steps.
pub open spec fn migration(s: StoreState, steps: Seq<StepView>) -> Progress {
    if s.version > newest_version(steps) {
        Progress {
            store: s,
            applied: Seq::empty(),
            failure: Some(
                MigrationError::VersionSkew { recorded: s.version, newest: newest_version(steps) },
            ),
        }
    } else {
        run_steps(s, steps, steps.len())
    }
}

/// The newest version of a catalog: that of its last step, or 0 where it
/// has none.
pub fn newest(steps: &Vec<MigrationStep>) -> (version: i64)
    ensures
        version == newest_version(steps_view(steps@)),
{
    if steps.len() == 0 {
        0
    } else {
        steps[steps.len() - 1].version
    }
}

/// The places of the steps of a catalog, in its order.
pub open spec fn places(steps: Seq<StepView>) -> Seq<usize> {
    Seq::new(steps.len(), |i: int| i as usize)
}

/// Whether the step at a place has a version above `recorded`.
pub open spec fn is_pending(steps: Seq<StepView>, recorded: i64) -> spec_fn(usize) -> bool {
    |place: usize| steps[place as int].version > recorded
}

/// Picks the steps that a store at the version `recorded` has yet to get:
/// the places, in the order of the catalog, of the steps whose version is
/// above `recorded`. Their versions are those that a migration by an
/// ordered catalog applies.
pub fn pending_steps(recorded: i64, steps: &Vec<MigrationStep>) -> (pending: Vec<usize>)
    ensures
        pending@ == places(steps_view(steps@)).filter(is_pending(steps_view(steps@), recorded)),
        pending@.len() == versions(steps_view(steps@)).filter(above(recorded)).len(),
        forall|k: int|
            0 <= k < pending@.len() ==> (#[trigger] pending@[k]) < steps@.len() && steps_view(
                steps@,
            )[pending@[k] as int].version == versions(steps_view(steps@)).filter(
                above(recorded),
            )[k],
{
    let ghost views = steps_view(steps@);
    let ghost all = places(views);
    let ghost pass = is_pending(views, recorded);
    let ghost found = versions(views);
    let mut pending: Vec<usize> = Vec::new();
    let mut i: usize = 0;
    proof {
        reveal(Seq::filter);
        assert(all.take(0) =~= Seq::empty());
        assert(found.take(0) =~= Seq::empty());
    }
    while i < steps.len()
        invariant
            i <= steps@.len(),
            views == steps_view(steps@),
            all == places(views),
            pass == is_pending(views, recorded),
            found == versions(views),
            pending@ == all.take(i as int).filter(pass),
            pending@.len() == found.take(i as int).filter(above(recorded)).len(),
            forall|k: int|
                0 <= k < pending@.len() ==> (#[trigger] pending@[k]) < steps@.len()
                    && views[pending@[k] as int].version == found.take(i as int).filter(
                    above(recorded),
                )[k],
        decreases steps.len() - i,
    {
        proof {
            assert(all.take(i + 1) =~= all.take(i as int).push(i));
            all.take(i as int).lemma_filter_push(i, pass);
            assert(found.take(i + 1) =~= found.take(i as int).push(views[i as int].version));
            found.take(i as int).lemma_filter_push(views[i as int].version, above(recorded));
        }
        if steps[i].version > recorded {
            pending.push(i);
        }
        i += 1;
    }
    proof {
        assert(all.take(i as int) =~= all);
        assert(found.take(i as int) =~= found);
    }
    pending
}

/// Once a migration has failed, further steps change nothing.
pub proof fn lemma_failure_ends_run(s: StoreState, steps: Seq<StepView>, count: nat, more: nat)
    requires
        run_steps(s, steps, count).failure is Some,
        count <= more,
    ensures
        run_steps(s, steps, more) == run_steps(s, steps, count),
    decreases more,
{
    if count < more {
        lemma_failure_ends_run(s, steps, count, (more - 1) as nat);
    }
}

/// Executes the statements of one step, in order, and records the version
/// of the step when all are done.
fn apply_step(store: &mut Store, step: &MigrationStep) -> (result: Result<(), MigrationError>)
    requires
        old(store).wf(),
        step@.version > old(store)@.version,
    ensures
        final(store).wf(),
        match result {
            Ok(_) => {
                &&& run_statements(old(store)@, step@.statements, step@.statements.len())
                    matches Ok(t)
                &&& final(store)@ == t.record_version(step@.version)
            },
            Err(e) => {
                &&& run_statements(old(store)@, step@.statements, step@.statements.len())
                    matches Err(f)
                &&& final(store)@ == f.store
                &&& e == (MigrationError::StepFailure {
                    version: step@.version,
                    statement: f.statement as usize,
                    cause: f.cause,
                })
            },
        },
{
    let ghost before = store@;
    let ghost statements = step@.statements;
    let mut failure: Option<MigrationError> = None;
    let mut i: usize = 0;
    while i < step.statements.len() && failure.is_none()
        invariant
            statements == step@.statements,
            i <= statements.len(),
            store.wf(),
            store@.version == before.version,
            failure is None ==> run_statements(before, statements, i as nat) == Ok::<
                StoreState,
                StatementFailure,
            >(store@),
            failure is Some ==> {
                &&& run_statements(before, statements, statements.len()) matches Err(f)
                &&& store@ == f.store
                &&& failure == Some(
                    MigrationError::StepFailure {
                        version: step@.version,
                        statement: f.statement as usize,
                        cause: f.cause,
                    },
                )
            },
        decreases step.statements.len() - i + if failure is None { 1nat } else { 0nat },
    {
        let ghost current = store@;
        proof {
            crate::laws::lemma_execute(current, statements[i as int]);
        }
        match store.execute(step.statements[i]) {
            Ok(_) => {
                i += 1;
            },
            Err(cause) => {
                proof {
                    assert(run_statements(before, statements, (i + 1) as nat) == Err::<
                        StoreState,
                        StatementFailure,
                    >(StatementFailure { store: current, statement: i as int, cause }));
                    lemma_statement_failure_ends_step(
                        before,
                        statements,
                        (i + 1) as nat,
                        statements.len(),
                    );
                }
                failure = Some(
                    MigrationError::StepFailure { version: step.version, statement: i, cause },
                );
            },
        }
    }
    match failure {
        Some(e) => Err(e),
        None => {
            store.record_version(step.version);
            Ok(())
        },
    }
}

/// Once a statement has failed, the statements after it are not executed.
pub proof fn lemma_statement_failure_ends_step(
    s: StoreState,
    statements: Seq<Statement>,
    count: nat,
    more: nat,
)
    requires
        run_statements(s, statements, count) is Err,
        count <= more,
    ensures
        run_statements(s, statements, more) == run_statements(s, statements, count),
    decreases more,
{
    if count < more {
        lemma_statement_failure_ends_step(s, statements, count, (more - 1) as nat);
    }
}

/// Migrates the store by the catalog `steps`: applies every step whose
/// version is above the recorded one, in the order of the catalog, and
/// returns the versions of the steps that it applied. A store that is above
/// the newest version of the catalog is refused and left alone. A statement
/// that fails ends the run with the store as it then is.
///
/// The engine trusts the order of the catalog: it neither sorts the steps
/// nor looks for a version that occurs twice. `check_ordered` tells whether
/// a catalog is in order, and `lemma_migration` says what a migration by
/// such a catalog comes to.
pub fn migrate(store: &mut Store, steps: &Vec<MigrationStep>) -> (result: Result<
    Vec<i64>,
    MigrationError,
>)
    requires
        old(store).wf(),
    ensures
        final(store).wf(),
        final(store)@ == migration(old(store)@, steps_view(steps@)).store,
        match result {
            Ok(applied) => {
                &&& migration(old(store)@, steps_view(steps@)).failure is None
                &&& applied@ == migration(old(store)@, steps_view(steps@)).applied
            },
            Err(e) => migration(old(store)@, steps_view(steps@)).failure == Some(e),
        },
{
    let ghost before = store@;
    let ghost views = steps_view(steps@);
    let newest_known = newest(steps);
    if store.version() > newest_known {
        return Err(MigrationError::VersionSkew { recorded: store.version(), newest: newest_known });
    }
    let mut applied: Vec<i64> = Vec::new();
    let mut failure: Option<MigrationError> = None;
    let mut i: usize = 0;
    while i < steps.len() && failure.is_none()
        invariant
            i <= steps@.len(),
            views == steps_view(steps@),
            store.wf(),
            failure is None ==> run_steps(before, views, i as nat) == (Progress {
                store: store@,
                applied: applied@,
                failure: None,
            }),
            failure is Some ==> run_steps(before, views, views.len()) == (Progress {
                store: store@,
                applied: applied@,
                failure,
            }),
        decreases steps.len() - i + if failure is None { 1nat } else { 0nat },
    {
        let step = &steps[i];
        assert(views[i as int] == step@);
        if step.version > store.version() {
            match apply_step(store, step) {
                Ok(_) => {
                    applied.push(step.version);
                    i += 1;
                },
                Err(e) => {
                    proof {
                        assert(run_steps(before, views, (i + 1) as nat).failure == Some(e));
                        lemma_failure_ends_run(before, views, (i + 1) as nat, views.len());
                    }
                    failure = Some(e);
                },
            }
        } else {
            i += 1;
        }
    }
    match failure {
        Some(e) => Err(e),
        None => Ok(applied),
    }
}

/// The versions of the steps, in the order of the catalog.
pub open spec fn versions(steps: Seq<StepView>) -> Seq<i64> {
    steps.map_values(|step: StepView| step.version)
}

/// The versions above `recorded`.
pub open spec fn above(recorded: i64) -> spec_fn(i64) -> bool {
    |version: i64| version > recorded
}

/// Whether `t` has every table and column that `s` has, as many notes, and
/// has assigned the same identifiers.
pub open spec fn grown_from(s: StoreState, t: StoreState) -> bool {
    &&& s.folders_table ==> t.folders_table
    &&& s.note_table ==> t.note_table
    &&& s.title_column ==> t.title_column
    &&& t.notes.len() == s.notes.len()
    &&& t.last_folder_id == s.last_folder_id
    &&& t.last_note_id == s.last_note_id
}

/// Executing statements leaves the store valid and at its recorded version,
/// with every table and column that it had, whether they all succeed or one
/// of them fails.
pub proof fn lemma_run_statements(s: StoreState, statements: Seq<Statement>, count: nat)
    requires
        s.valid(),
        count <= statements.len(),
    ensures
        match run_statements(s, statements, count) {
            Ok(t) => t.valid() && t.version == s.version && t.folders == s.folders && grown_from(
                s,
                t,
            ),
            Err(f) => f.store.valid() && f.store.version == s.version && f.store.folders
                == s.folders && grown_from(s, f.store) && 0 <= f.statement < count,
        },
    decreases count,
{
    if count > 0 {
        lemma_run_statements(s, statements, (count - 1) as nat);
        match run_statements(s, statements, (count - 1) as nat) {
            Ok(t) => {
                crate::laws::lemma_execute(t, statements[count - 1]);
            },
            Err(_) => {},
        }
    }
}

/// A migration never lowers the recorded version, never takes a table, a
/// column or a row away, never touches a folder, and leaves the store
/// valid. After a failure the recorded version is below that of the step
/// that failed: a step that is not applied in full is not recorded.
pub proof fn lemma_run_steps(s: StoreState, steps: Seq<StepView>, count: nat)
    requires
        s.valid(),
        count <= steps.len(),
    ensures
        run_steps(s, steps, count).store.valid(),
        run_steps(s, steps, count).store.version >= s.version,
        run_steps(s, steps, count).store.folders == s.folders,
        grown_from(s, run_steps(s, steps, count).store),
        run_steps(s, steps, count).failure matches Some(e) ==> {
            &&& e matches MigrationError::StepFailure { version, .. }
            &&& run_steps(s, steps, count).store.version < version
        },
    decreases count,
{
    if count > 0 {
        lemma_run_steps(s, steps, (count - 1) as nat);
        let p = run_steps(s, steps, (count - 1) as nat);
        let step = steps[count - 1];
        if !(p.failure is Some || step.version <= p.store.version) {
            lemma_run_statements(p.store, step.statements, step.statements.len());
        }
    }
}

/// In an ordered catalog the engine applies exactly the steps whose version
/// is above the one that the store began with, and the store is then at the
/// version of the last step it met, or where it began if it met none above.
pub proof fn lemma_run_steps_ordered(s: StoreState, steps: Seq<StepView>, count: nat)
    requires
        s.valid(),
        is_ordered(steps),
        count <= steps.len(),
        run_steps(s, steps, count).failure is None,
    ensures
        run_steps(s, steps, count).applied == versions(steps).take(count as int).filter(
            above(s.version),
        ),
        run_steps(s, steps, count).store.version == if count > 0 && steps[count - 1].version
            > s.version {
            steps[count - 1].version
        } else {
            s.version
        },
    decreases count,
{
    reveal(Seq::filter);
    let all = versions(steps);
    if count == 0 {
        assert(all.take(0) =~= Seq::empty());
    } else {
        let p = run_steps(s, steps, (count - 1) as nat);
        let step = steps[count - 1];
        lemma_run_steps_ordered(s, steps, (count - 1) as nat);
        if count > 1 {
            assert(steps[count - 2].version < steps[count - 1].version);
        }
        assert(all.take(count as int) =~= all.take(count - 1).push(step.version));
        all.take(count - 1).lemma_filter_push(step.version, above(s.version));
        if step.version > p.store.version {
            lemma_run_steps(s, steps, (count - 1) as nat);
            lemma_run_statements(p.store, step.statements, step.statements.len());
        }
    }
}

/// A store that has reached every version of the steps goes through them
/// untouched.
pub proof fn lemma_nothing_pending(s: StoreState, steps: Seq<StepView>, count: nat)
    requires
        count <= steps.len(),
        forall|i: int| 0 <= i < count ==> (#[trigger] steps[i]).version <= s.version,
    ensures
        run_steps(s, steps, count) == not_begun(s),
    decreases count,
{
    if count > 0 {
        lemma_nothing_pending(s, steps, (count - 1) as nat);
        assert(steps[count - 1].version <= s.version);
    }
}

/// What a migration by an ordered catalog comes to.
///
/// The store stays valid, its recorded version never falls, it keeps every
/// table, column and row, and its folders stay as they are. A store above
/// the newest version is refused and left as it is. After a failure the
/// recorded version is below that of the step that failed. After a success
/// the store is at the newest version, the steps applied are exactly those
/// above the version it began with, and a second migration finds nothing to
/// do: no step is applied twice.
pub proof fn lemma_migration(s: StoreState, steps: Seq<StepView>)
    requires
        s.valid(),
        is_ordered(steps),
    ensures
        migration(s, steps).store.valid(),
        migration(s, steps).store.version >= s.version,
        migration(s, steps).store.folders == s.folders,
        grown_from(s, migration(s, steps).store),
        s.version > newest_version(steps) <==> migration(s, steps).failure
            is Some && migration(s, steps).failure.unwrap() is VersionSkew,
        s.version > newest_version(steps) ==> migration(s, steps).store == s,
        migration(s, steps).failure matches Some(MigrationError::StepFailure { version, .. })
            ==> migration(s, steps).store.version < version,
        migration(s, steps).failure is None ==> {
            &&& migration(s, steps).store.version == newest_version(steps)
            &&& migration(s, steps).applied == versions(steps).filter(above(s.version))
            &&& migration(migration(s, steps).store, steps) == not_begun(migration(s, steps).store)
        },
{
    let n = steps.len();
    lemma_run_steps(s, steps, n);
    if s.version <= newest_version(steps) {
        let p = run_steps(s, steps, n);
        if p.failure is None {
            lemma_run_steps_ordered(s, steps, n);
            assert(versions(steps).take(n as int) =~= versions(steps));
            assert forall|i: int| 0 <= i < n implies (#[trigger] steps[i]).version
                <= p.store.version by {
                if i < n - 1 {
                    assert(steps[i].version < steps[n - 1].version);
                }
            }
            lemma_nothing_pending(p.store, steps, n);
        }
    }
}

/// Whether the statement has nothing left to do in the store: executing it
/// leaves the store as it is.
pub open spec fn is_settled(s: StoreState, statement: Statement) -> bool {
    s.execute(statement) == Ok::<StoreState, StatementError>(s)
}

/// A statement that was executed has nothing left to do, and executing
/// other statements does not change that: what a statement built is not
/// taken down, and a title that was derived from a content is derived from
/// it again.
pub proof fn lemma_settled(s: StoreState, statement: Statement, other: Statement)
    ensures
        s.execute(statement) matches Ok(t) ==> is_settled(t, statement),
        is_settled(s, statement) ==> (s.execute(other) matches Ok(t) ==> is_settled(t, statement)),
{
    match s.execute(statement) {
        Ok(t) => {
            match t.execute(statement) {
                Ok(u) => {
                    assert(u.notes =~= t.notes);
                },
                Err(_) => {},
            }
        },
        Err(_) => {},
    }
    if is_settled(s, statement) {
        match s.execute(other) {
            Ok(t) => {
                match t.execute(statement) {
                    Ok(u) => {
                        if statement == Statement::BackfillNoteTitles {
                            assert(s.execute(statement)->Ok_0.notes == s.notes);
                            assert forall|i: int| 0 <= i < s.notes.len() implies s.notes[i].title
                                == Some(title_of(s.notes[i].content)) by {
                                assert(s.execute(statement)->Ok_0.notes[i] == s.notes[i]);
                            }
                        }
                        assert(u.notes =~= t.notes);
                    },
                    Err(_) => {},
                }
            },
            Err(_) => {},
        }
    }
}

/// The statements of a step that were executed have nothing left to do in
/// the store that they left, whether the step came to its end or not.
pub proof fn lemma_executed_statements_settled(
    s: StoreState,
    statements: Seq<Statement>,
    count: nat,
    i: int,
)
    requires
        count <= statements.len(),
        0 <= i < count,
    ensures
        run_statements(s, statements, count) matches Ok(t) ==> is_settled(t, statements[i]),
        run_statements(s, statements, count) matches Err(f) ==> i < f.statement ==> is_settled(
            f.store,
            statements[i],
        ),
        run_statements(s, statements, count) matches Err(f) ==> 0 <= f.statement < count,
    decreases count,
{
    let before = run_statements(s, statements, (count - 1) as nat);
    if count > 1 && i < count - 1 {
        lemma_executed_statements_settled(s, statements, (count - 1) as nat, i);
    } else if count > 1 {
        lemma_executed_statements_settled(s, statements, (count - 1) as nat, 0);
    }
    match before {
        Ok(t) => {
            lemma_settled(t, statements[count - 1], statements[count - 1]);
            if i < count - 1 {
                lemma_settled(t, statements[i], statements[count - 1]);
            }
        },
        Err(_) => {},
    }
}

/// A step that failed can be tried again without harm: the statements that
/// were executed before the failure leave the store as it is, and the
/// attempt comes to the statement that failed with the store as the first
/// attempt left it. So the second attempt fails as the first did, unless
/// what made the statement fail has been mended.
pub proof fn lemma_retry(s: StoreState, statements: Seq<Statement>, count: nat)
    requires
        count <= statements.len(),
    ensures
        run_statements(s, statements, count) matches Ok(t) ==> run_statements(
            t,
            statements,
            count,
        ) == Ok::<StoreState, StatementFailure>(t),
        run_statements(s, statements, count) matches Err(f) ==> run_statements(
            f.store,
            statements,
            count,
        ) == Err::<StoreState, StatementFailure>(f),
{
    match run_statements(s, statements, count) {
        Ok(t) => {
            lemma_settled_statements_pass(s, statements, count, t, count);
        },
        Err(f) => {
            lemma_executed_statements_settled(s, statements, count, 0);
            lemma_failure_is_at_its_statement(s, statements, count);
            lemma_statement_failure_ends_step(s, statements, (f.statement + 1) as nat, count);
            lemma_settled_statements_pass(
                s,
                statements,
                count,
                f.store,
                f.statement as nat,
            );
            assert(run_statements(f.store, statements, (f.statement + 1) as nat) == Err::<
                StoreState,
                StatementFailure,
            >(f));
            lemma_statement_failure_ends_step(
                f.store,
                statements,
                (f.statement + 1) as nat,
                count,
            );
        },
    }
}

/// A failure is that of the statement at which the run ended: the
/// statements before it were executed, and it failed on what they left.
proof fn lemma_failure_is_at_its_statement(s: StoreState, statements: Seq<Statement>, count: nat)
    requires
        count <= statements.len(),
        run_statements(s, statements, count) is Err,
    ensures
        ({
            let f = run_statements(s, statements, count)->Err_0;
            &&& 0 <= f.statement < count
            &&& run_statements(s, statements, f.statement as nat) == Ok::<
                StoreState,
                StatementFailure,
            >(f.store)
            &&& f.store.execute(statements[f.statement]) == Err::<StoreState, StatementError>(
                f.cause,
            )
            &&& run_statements(s, statements, (f.statement + 1) as nat) == Err::<
                StoreState,
                StatementFailure,
            >(f)
        }),
    decreases count,
{
    if count > 0 {
        if run_statements(s, statements, (count - 1) as nat) is Err {
            lemma_failure_is_at_its_statement(s, statements, (count - 1) as nat);
        }
    }
}

/// Statements that have nothing left to do in a store leave it as it is.
proof fn lemma_settled_statements_pass(
    s: StoreState,
    statements: Seq<Statement>,
    count: nat,
    t: StoreState,
    upto: nat,
)
    requires
        upto <= count <= statements.len(),
        run_statements(s, statements, count) matches Ok(u) ==> u == t,
        run_statements(s, statements, count) matches Err(f) ==> f.store == t && upto
            <= f.statement,
    ensures
        run_statements(t, statements, upto) == Ok::<StoreState, StatementFailure>(t),
    decreases upto,
{
    if upto > 0 {
        lemma_settled_statements_pass(s, statements, count, t, (upto - 1) as nat);
        lemma_executed_statements_settled(s, statements, count, upto - 1);
    }
}

/// Whether the store holds what the catalog has made by the version that
/// the store records: `folders` from version 1, `note` from version 2, the
/// title column from version 3.
pub open spec fn follows_catalog(s: StoreState) -> bool {
    &&& s.version >= 1 ==> s.folders_table
    &&& s.version >= 2 ==> s.note_table
    &&& s.version >= 3 ==> s.title_column
}

/// The catalog takes every store that it has made so far to the latest
/// version, from whatever version the store is at, and to the same schema.
///
/// No statement fails. The store then has both tables with all their
/// columns, the folders and the contents of the notes are as they were, and
/// where the step of version 3 was applied every note has the title derived
/// from its content.
pub proof fn lemma_catalog_converges(s: StoreState)
    requires
        s.valid(),
        s.version <= LATEST_VERSION,
        follows_catalog(s),
    ensures
        migration(s, catalog()).failure is None,
        migration(s, catalog()).store.valid(),
        migration(s, catalog()).store.version == LATEST_VERSION,
        migration(s, catalog()).store.schema() == final_schema(),
        follows_catalog(migration(s, catalog()).store),
        migration(s, catalog()).applied == versions(catalog()).filter(above(s.version)),
        migration(s, catalog()).store.folders == s.folders,
        grown_from(s, migration(s, catalog()).store),
        forall|i: int|
            0 <= i < s.notes.len() ==> {
                let n = #[trigger] migration(s, catalog()).store.notes[i];
                &&& n.id == s.notes[i].id
                &&& n.content == s.notes[i].content
                &&& n.date_created == s.notes[i].date_created
                &&& n.folder_id == s.notes[i].folder_id
                &&& n.title == if s.version < LATEST_VERSION {
                    Some(title_of(n.content))
                } else {
                    s.notes[i].title
                }
            },
{
    let steps = catalog();
    lemma_catalog_ordered();
    reveal_with_fuel(run_steps, 4);
    reveal_with_fuel(run_statements, 3);
    let at_start = run_steps(s, steps, 0);
    let after_first = run_steps(s, steps, 1);
    let after_second = run_steps(s, steps, 2);
    let after_third = run_steps(s, steps, 3);
    assert(after_first == advance(at_start, steps[0]));
    assert(after_second == advance(after_first, steps[1]));
    assert(after_third == advance(after_second, steps[2]));
    lemma_run_steps(s, steps, 1);
    lemma_run_steps(s, steps, 2);
    lemma_run_steps(s, steps, 3);
    assert(steps[0].statements.len() == 1 && steps[1].statements.len() == 1
        && steps[2].statements.len() == 2);
    assert(after_first.failure is None);
    assert(after_first.store.folders_table);
    assert(after_first.store.notes == s.notes);
    assert(after_first.store.title_column == s.title_column);
    assert(after_second.failure is None);
    assert(after_second.store.folders_table && after_second.store.note_table);
    assert(after_second.store.notes == s.notes);
    assert(after_second.store.title_column == s.title_column);
    assert(after_third.failure is None);
    assert(after_third.store.folders_table && after_third.store.note_table);
    assert(after_third.store.title_column);
    lemma_migration(s, steps);
    assert(after_third.store.notes.len() == s.notes.len());
    assert forall|i: int| 0 <= i < s.notes.len() implies {
        let n = #[trigger] after_third.store.notes[i];
        &&& n.id == s.notes[i].id
        &&& n.content == s.notes[i].content
        &&& n.date_created == s.notes[i].date_created
        &&& n.folder_id == s.notes[i].folder_id
        &&& n.title == if s.version < LATEST_VERSION {
            Some(title_of(n.content))
        } else {
            s.notes[i].title
        }
    } by {}
}

/// From version 0 the catalog takes a store to the latest version, with
/// both tables and all their columns, whatever the store holds.
pub proof fn lemma_fresh_store_reaches_latest(s: StoreState)
    requires
        s.valid(),
        s.version == 0,
    ensures
        migration(s, catalog()).failure is None,
        migration(s, catalog()).store.version == LATEST_VERSION,
        migration(s, catalog()).store.schema() == final_schema(),
        migration(s, catalog()).applied == seq![1i64, 2i64, 3i64],
{
    lemma_catalog_converges(s);
    reveal_with_fuel(Seq::filter, 4);
    let all = versions(catalog());
    assert(all =~= seq![1i64, 2i64, 3i64]);
    assert(all.drop_last() =~= seq![1i64, 2i64]);
    assert(all.drop_last().drop_last() =~= seq![1i64]);
    assert(all.drop_last().drop_last().drop_last() =~= Seq::<i64>::empty());
    assert(all.filter(above(0)) =~= seq![1i64, 2i64, 3i64]);
}

/// At the latest version the catalog finds nothing to do: no statement is
/// executed, no step is recorded, and the store is as it was.
pub proof fn lemma_latest_store_untouched(s: StoreState)
    requires
        s.version == LATEST_VERSION,
    ensures
        migration(s, catalog()) == not_begun(s),
{
    lemma_nothing_pending(s, catalog(), 3);
}

/// Migrates the store by the catalog of this library. A store at version 0
/// comes to the latest version with both tables and all their columns, and
/// a store at the latest version is left as it is.
pub fn initialize(store: &mut Store) -> (result: Result<Vec<i64>, MigrationError>)
    requires
        old(store).wf(),
    ensures
        final(store).wf(),
        final(store)@ == migration(old(store)@, catalog()).store,
        match result {
            Ok(applied) => {
                &&& migration(old(store)@, catalog()).failure is None
                &&& applied@ == migration(old(store)@, catalog()).applied
            },
            Err(e) => migration(old(store)@, catalog()).failure == Some(e),
        },
        old(store)@.version == 0 ==> {
            &&& result is Ok
            &&& result->Ok_0@ == seq![1i64, 2i64, 3i64]
            &&& final(store)@.version == LATEST_VERSION
            &&& final(store)@.schema() == final_schema()
        },
        old(store)@.version == LATEST_VERSION ==> {
            &&& result is Ok
            &&& result->Ok_0@.len() == 0
            &&& final(store)@ == old(store)@
        },
{
    proof {
        if store@.version == 0 {
            lemma_fresh_store_reaches_latest(store@);
        }
        if store@.version == LATEST_VERSION {
            lemma_latest_store_untouched(store@);
        }
    }
    let steps = sqlite_migrations();
    migrate(store, &steps)
}

/// A fresh store that the catalog has taken to the latest version: it has
/// both tables with all their columns, and no row in them.
pub proof fn lemma_fresh_store_migrated()
    ensures
        migration(StoreState::fresh(), catalog()).store == StoreState::latest(),
        StoreState::latest().valid(),
        StoreState::latest().schema() == final_schema(),
{
    let s = StoreState::fresh();
    lemma_catalog_converges(s);
    let t = migration(s, catalog()).store;
    assert(t.folders =~= StoreState::latest().folders);
    assert(t.notes =~= StoreState::latest().notes);
}

/// A new store at the latest version: a fresh store, migrated by the catalog
/// of this library.
pub fn open_store() -> (store: Store)
    ensures
        store.wf(),
        store@ == StoreState::latest(),
{
    let mut store = Store::new();
    proof {
        lemma_fresh_store_migrated();
    }
    let _ = initialize(&mut store);
    store
}

} // verus!
