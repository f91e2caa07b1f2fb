//! Any number of operations at the same time: where all of them take the same lock, they come out as
//! if they had been performed one after the other, in the order in which they took it.

use vstd::prelude::*;

use crate::directory::{run, Desk, Fate, Setting};
use crate::history::{history_lines, is_complete, MessageView};
use crate::identity::record_holds;
use crate::keys::{data_name, law_file_names_are_distinct, lock_name};
use crate::script::{
    ActionView, EditView, OperationView, OutcomeView, ReactionView, StepView, StoreErrorView,
};
use crate::store_laws::{
    edit_outcome, edited, holds, law_append_adds_a_line, law_append_then_load, law_edit_is_atomic,
    law_edit_then_load, law_resolve_returns_the_recorded_id, law_rotate_records_before_clearing,
    recorded, succeeded, unchanged, SessionOperation,
};

verus! {

/// An operation on a session, and the id that it records should it mint one.
pub struct Call {
    pub key: Seq<char>,
    pub operation: SessionOperation,
    pub id: Seq<char>,
}

impl Call {
    /// The operation before it has begun.
    pub open spec fn start(self) -> OperationView {
        self.operation.on(self.key)
    }
}

/// An operation among others: how its actions have ended so far, what it holds, and where it stands.
pub struct Party<E> {
    pub log: Seq<Fate<E>>,
    pub desk: Desk,
    pub at: StepView<E>,
}

/// Operations on one directory.
pub struct Group<E> {
    pub files: Map<Seq<char>, Seq<u8>>,
    pub parties: Seq<Party<E>>,
}

/// Whether an action waits for a lock that another operation holds. Locks are held until an
/// operation is finished.
pub open spec fn waits_for<E>(action: ActionView, other: Party<E>) -> bool {
    other.at is Perform && match action {
        ActionView::LockMutations => other.desk.shared_lock,
        ActionView::LockKey { name } => other.desk.key_lock == Some(name),
        _ => false,
    }
}

/// Where an operation stands after an action.
pub open spec fn stepped<E>(
    setting: Setting,
    desk: Desk,
    operation: OperationView,
    id: Seq<char>,
    fate: Fate<E>,
) -> (Desk, StepView<E>) {
    let (after, event) = desk.happens(setting, operation.script[0], fate);
    (
        after,
        match operation.after(event) {
            ReactionView::Step(step) => step,
            ReactionView::Mint(task) => StepView::Perform(task.with_id(id)),
        },
    )
}

/// What an operation holds, on these files.
pub open spec fn on_files(desk: Desk, files: Map<Seq<char>, Seq<u8>>) -> Desk {
    Desk { files, ..desk }
}

impl<E> Party<E> {
    /// An operation that has not begun.
    pub open spec fn starting(call: Call) -> Party<E> {
        Party {
            log: Seq::empty(),
            desk: Desk::at(Map::empty()),
            at: StepView::Perform(call.start()),
        }
    }

    /// The files and the operation after its next action, which ends as `fate` says.
    pub open spec fn acted(
        self,
        setting: Setting,
        call: Call,
        files: Map<Seq<char>, Seq<u8>>,
        fate: Fate<E>,
    ) -> (Map<Seq<char>, Seq<u8>>, Party<E>) {
        let (desk, at) = stepped(
            setting,
            on_files(self.desk, files),
            self.at->Perform_0,
            call.id,
            fate,
        );
        (desk.files, Party { log: self.log.push(fate), desk, at })
    }

    /// What the operation has returned.
    pub open spec fn returned(self) -> Option<Result<OutcomeView, StoreErrorView<E>>> {
        match self.at {
            StepView::Finished(result) => Some(result),
            StepView::Perform(_) => None,
        }
    }

    /// Whether the operation has taken the lock: the shared one, or that of a session.
    pub open spec fn took_lock(self, shared: bool) -> bool {
        if shared {
            self.desk.shared_lock
        } else {
            self.desk.key_lock is Some
        }
    }
}

impl<E> Group<E> {
    /// Operations that have not begun.
    pub open spec fn starting(files: Map<Seq<char>, Seq<u8>>, calls: Seq<Call>) -> Group<E> {
        Group { files, parties: calls.map_values(|call: Call| Party::starting(call)) }
    }

    /// Whether the next action of an operation waits for another operation.
    pub open spec fn waits(self, i: int) -> bool {
        exists|j: int|
            0 <= j < self.parties.len() && j != i && waits_for(
                self.parties[i].at->Perform_0.script[0],
                #[trigger] self.parties[j],
            )
    }

    /// The operations after a turn of one of them, whose action ends as `fate` says. Nothing happens
    /// where it is finished or waits.
    pub open spec fn turned(
        self,
        setting: Setting,
        calls: Seq<Call>,
        i: int,
        fate: Fate<E>,
    ) -> Group<E> {
        if 0 <= i < self.parties.len() && self.parties[i].at is Perform && !self.waits(i) {
            let (files, party) = self.parties[i].acted(setting, calls[i], self.files, fate);
            Group { files, parties: self.parties.update(i, party) }
        } else {
            self
        }
    }
}

/// The operations after some turns. A turn says whose it is, and how its action ends.
pub open spec fn interleaved<E>(
    setting: Setting,
    files: Map<Seq<char>, Seq<u8>>,
    calls: Seq<Call>,
    turns: Seq<(int, Fate<E>)>,
) -> Group<E>
    decreases turns.len(),
{
    if turns.len() == 0 {
        Group::starting(files, calls)
    } else {
        let (i, fate) = turns.last();
        interleaved(setting, files, calls, turns.drop_last()).turned(setting, calls, i, fate)
    }
}

/// The operations that have taken the lock, in the order in which they took it.
pub open spec fn lock_order<E>(
    setting: Setting,
    files: Map<Seq<char>, Seq<u8>>,
    calls: Seq<Call>,
    shared: bool,
    turns: Seq<(int, Fate<E>)>,
) -> Seq<int>
    decreases turns.len(),
{
    if turns.len() == 0 {
        Seq::empty()
    } else {
        let before = interleaved(setting, files, calls, turns.drop_last());
        let now = interleaved(setting, files, calls, turns);
        let order = lock_order(setting, files, calls, shared, turns.drop_last());
        let i = turns.last().0;
        if 0 <= i < calls.len() && !before.parties[i].took_lock(shared)
            && now.parties[i].took_lock(shared) {
            order.push(i)
        } else {
            order
        }
    }
}

/// Where an operation stands after some actions.
pub open spec fn trace<E>(
    setting: Setting,
    desk: Desk,
    operation: OperationView,
    id: Seq<char>,
    fates: Seq<Fate<E>>,
) -> (Desk, StepView<E>)
    decreases fates.len(),
{
    if fates.len() == 0 {
        (desk, StepView::Perform(operation))
    } else {
        let (before, at) = trace(setting, desk, operation, id, fates.drop_last());
        match at {
            StepView::Finished(_) => (before, at),
            StepView::Perform(next) => stepped(setting, before, next, id, fates.last()),
        }
    }
}

spec fn resumed<E>(
    setting: Setting,
    reached: (Desk, StepView<E>),
    id: Seq<char>,
    fates: Seq<Fate<E>>,
) -> (Desk, Option<Result<OutcomeView, StoreErrorView<E>>>) {
    match reached.1 {
        StepView::Finished(result) => (reached.0, Some(result)),
        StepView::Perform(operation) => run(setting, reached.0, operation, id, fates),
    }
}

proof fn lemma_resumed<E>(
    setting: Setting,
    desk: Desk,
    operation: OperationView,
    id: Seq<char>,
    fates: Seq<Fate<E>>,
    n: int,
)
    requires
        0 <= n <= fates.len(),
    ensures
        resumed(setting, trace(setting, desk, operation, id, fates.take(n)), id, fates.skip(n))
            == run(setting, desk, operation, id, fates),
    decreases n,
{
    if n == 0 {
        assert(fates.skip(0) =~= fates);
    } else {
        lemma_resumed(setting, desk, operation, id, fates, n - 1);
        assert(fates.take(n).drop_last() =~= fates.take(n - 1));
        assert(fates.skip(n - 1).skip(1) =~= fates.skip(n));
        assert(fates.skip(n - 1)[0] == fates[n - 1]);
    }
}

/// Where an operation stands after some actions is where it ends when it is broken off there.
proof fn lemma_trace_is_run<E>(
    setting: Setting,
    desk: Desk,
    operation: OperationView,
    id: Seq<char>,
    fates: Seq<Fate<E>>,
)
    ensures
        ({
            let (after, at) = trace(setting, desk, operation, id, fates);
            run(setting, desk, operation, id, fates) == (
                after,
                match at {
                    StepView::Finished(result) => Some(result),
                    StepView::Perform(_) => None,
                },
            )
        }),
{
    let n = fates.len() as int;
    lemma_resumed(setting, desk, operation, id, fates, n);
    assert(fates.take(n) =~= fates);
    assert(fates.skip(n).len() == 0);
}

impl SessionOperation {
    /// Whether the operation takes the lock that all stores share.
    pub open spec fn takes_shared_lock(self) -> bool {
        self is Append || self is Edit || self is Delete
    }

    /// Whether the operation takes the lock of the session.
    pub open spec fn takes_key_lock(self) -> bool {
        self is Append || self is Delete || self is Resolve || self is Rotate
    }
}

/// Whether all operations take one lock: the shared one, or that of a session, whose lock file has
/// this name.
pub open spec fn take_one_lock(calls: Seq<Call>, shared: bool, lock: Seq<char>) -> bool {
    forall|i: int|
        0 <= i < calls.len() ==> if shared {
            (#[trigger] calls[i]).operation.takes_shared_lock()
        } else {
            calls[i].operation.takes_key_lock() && lock_name(calls[i].key) == lock
        }
}

/// The files once operations were performed one after the other, in this order. What has happened in
/// each is in its log.
pub open spec fn in_order<E>(
    setting: Setting,
    files: Map<Seq<char>, Seq<u8>>,
    calls: Seq<Call>,
    parties: Seq<Party<E>>,
    order: Seq<int>,
) -> Map<Seq<char>, Seq<u8>>
    decreases order.len(),
{
    if order.len() == 0 {
        files
    } else {
        let i = order.last();
        let before = in_order(setting, files, calls, parties, order.drop_last());
        run(setting, Desk::at(before), calls[i].start(), calls[i].id, parties[i].log).0.files
    }
}

/// Whether the operation that comes `m`-th in an order returned what it returns when it is performed
/// after those before it.
pub open spec fn returned_in_order<E>(
    setting: Setting,
    files: Map<Seq<char>, Seq<u8>>,
    calls: Seq<Call>,
    parties: Seq<Party<E>>,
    order: Seq<int>,
    m: int,
) -> bool {
    let i = order[m];
    let before = in_order(setting, files, calls, parties, order.take(m));
    parties[i].returned() == run(
        setting,
        Desk::at(before),
        calls[i].start(),
        calls[i].id,
        parties[i].log,
    ).1
}

/// Where the lock stands in the script of an operation that takes it.
spec fn lock_position(operation: SessionOperation, shared: bool) -> int {
    if shared {
        0
    } else if operation is Append || operation is Delete {
        2
    } else {
        1
    }
}

spec fn locks_no_key(script: Seq<ActionView>) -> bool {
    forall|i: int| 0 <= i < script.len() ==> #[trigger] script[i] !is LockKey
}

/// An operation that has not taken the lock yet, or gave up before: the files do not matter to it.
spec fn outside<E>(setting: Setting, call: Call, shared: bool, p: Party<E>) -> bool {
    &&& forall|files: Map<Seq<char>, Seq<u8>>|
        #[trigger] trace(setting, Desk::at(files), call.start(), call.id, p.log) == (
            on_files(p.desk, files),
            p.at,
        )
    &&& !p.took_lock(shared)
    &&& match p.at {
        StepView::Finished(result) => result is Err,
        StepView::Perform(at) => {
            &&& at == OperationView {
                script: call.start().script.skip(p.log.len() as int),
                next: call.start().next,
            }
            &&& p.log.len() <= lock_position(call.operation, shared)
        },
    }
}

/// An operation that has taken the lock, and came from `files` to `now`.
spec fn inside<E>(
    setting: Setting,
    call: Call,
    shared: bool,
    files: Map<Seq<char>, Seq<u8>>,
    p: Party<E>,
    now: Map<Seq<char>, Seq<u8>>,
) -> bool {
    &&& trace(setting, Desk::at(files), call.start(), call.id, p.log) == (
        on_files(p.desk, now),
        p.at,
    )
    &&& p.took_lock(shared)
    &&& !shared ==> {
        &&& p.desk.key_lock == Some(lock_name(call.key))
        &&& p.at matches StepView::Perform(at) ==> locks_no_key(at.script)
    }
}

proof fn lemma_no_key_is_locked_later<E>(
    setting: Setting,
    desk: Desk,
    operation: OperationView,
    id: Seq<char>,
    fate: Fate<E>,
)
    requires
        locks_no_key(operation.script.skip(1)),
    ensures
        stepped(setting, desk, operation, id, fate).1 matches StepView::Perform(next)
            ==> locks_no_key(next.script),
{
}

proof fn lemma_inside<E>(
    setting: Setting,
    call: Call,
    shared: bool,
    files: Map<Seq<char>, Seq<u8>>,
    p: Party<E>,
    now: Map<Seq<char>, Seq<u8>>,
    fate: Fate<E>,
)
    requires
        inside(setting, call, shared, files, p, now),
        p.at is Perform,
    ensures
        ({
            let (after, moved) = p.acted(setting, call, now, fate);
            inside(setting, call, shared, files, moved, after)
        }),
{
    let at = p.at->Perform_0;
    let (desk, next) = stepped(setting, on_files(p.desk, now), at, call.id, fate);
    assert(p.log.push(fate).drop_last() =~= p.log);
    assert(on_files(desk, desk.files) == desk);
    if !shared {
        assert(at.script[0] !is LockKey);
        lemma_no_key_is_locked_later(setting, on_files(p.desk, now), at, call.id, fate);
    }
}

/// An action of an operation that does not have the lock: it stays without and leaves the files
/// alone, or takes the lock with its next action.
#[verifier::spinoff_prover]
proof fn lemma_outside<E>(
    setting: Setting,
    call: Call,
    shared: bool,
    p: Party<E>,
    now: Map<Seq<char>, Seq<u8>>,
    fate: Fate<E>,
)
    requires
        outside(setting, call, shared, p),
        p.at is Perform,
        if shared {
            call.operation.takes_shared_lock()
        } else {
            call.operation.takes_key_lock()
        },
    ensures
        ({
            let (files, moved) = p.acted(setting, call, now, fate);
            ||| outside(setting, call, shared, moved) && files == now
            ||| {
                &&& inside(setting, call, shared, now, moved, files)
                &&& p.at->Perform_0.script[0] == if shared {
                    ActionView::LockMutations
                } else {
                    ActionView::LockKey { name: lock_name(call.key) }
                }
            }
        }),
{
    let at = p.at->Perform_0;
    let start = call.start();
    let n = p.log.len() as int;
    let (files, moved) = p.acted(setting, call, now, fate);
    assert(moved.log.drop_last() =~= p.log);
    assert(at.script[0] == start.script[n]);
    assert(at.script.skip(1) =~= start.script.skip(n + 1));
    assert(on_files(moved.desk, files) == moved.desk);
    assert(trace(setting, Desk::at(now), start, call.id, p.log) == (on_files(p.desk, now), p.at));
    if n == lock_position(call.operation, shared) && fate is Succeeds {
        assert(inside(setting, call, shared, now, moved, files));
    } else {
        assert forall|any: Map<Seq<char>, Seq<u8>>|
            #[trigger] trace(setting, Desk::at(any), start, call.id, moved.log) == (
                on_files(moved.desk, any),
                moved.at,
            ) by {
            assert(trace(setting, Desk::at(any), start, call.id, p.log) == (
                on_files(p.desk, any),
                p.at,
            ));
        }
    }
}

/// What holds of operations that take one lock: those that have taken it came out one after the
/// other, all but the last of them are finished, and the others have left no trace.
spec fn serial<E>(
    setting: Setting,
    files: Map<Seq<char>, Seq<u8>>,
    calls: Seq<Call>,
    shared: bool,
    group: Group<E>,
    order: Seq<int>,
) -> bool {
    &&& group.parties.len() == calls.len()
    &&& order.no_duplicates()
    &&& forall|m: int| 0 <= m < order.len() ==> 0 <= #[trigger] order[m] < calls.len()
    &&& forall|i: int|
        0 <= i < calls.len() && !order.contains(i) ==> outside(
            setting,
            calls[i],
            shared,
            #[trigger] group.parties[i],
        )
    &&& forall|m: int|
        0 <= m < order.len() ==> inside(
            setting,
            calls[#[trigger] order[m]],
            shared,
            in_order(setting, files, calls, group.parties, order.take(m)),
            group.parties[order[m]],
            in_order(setting, files, calls, group.parties, order.take(m + 1)),
        )
    &&& forall|m: int|
        0 <= m < order.len() - 1 ==> group.parties[#[trigger] order[m]].at is Finished
    &&& group.files == in_order(setting, files, calls, group.parties, order)
}

/// Operations that are not in an order do not matter to it.
proof fn lemma_frame<E>(
    setting: Setting,
    files: Map<Seq<char>, Seq<u8>>,
    calls: Seq<Call>,
    parties: Seq<Party<E>>,
    order: Seq<int>,
    i: int,
    party: Party<E>,
)
    requires
        0 <= i < parties.len(),
        forall|m: int| 0 <= m < order.len() ==> 0 <= #[trigger] order[m] < parties.len(),
        forall|m: int| 0 <= m < order.len() ==> #[trigger] order[m] != i,
    ensures
        in_order(setting, files, calls, parties.update(i, party), order) == in_order(
            setting,
            files,
            calls,
            parties,
            order,
        ),
    decreases order.len(),
{
    if order.len() > 0 {
        let fewer = order.drop_last();
        assert forall|m: int| 0 <= m < fewer.len() implies 0 <= #[trigger] fewer[m] < parties.len()
            && fewer[m] != i by {
            assert(order[m] == fewer[m]);
        }
        lemma_frame(setting, files, calls, parties, fewer, i, party);
        assert(order[order.len() - 1] == order.last());
    }
}

/// The same of the beginnings of an order.
proof fn lemma_frames<E>(
    setting: Setting,
    files: Map<Seq<char>, Seq<u8>>,
    calls: Seq<Call>,
    parties: Seq<Party<E>>,
    order: Seq<int>,
    n: int,
    i: int,
    party: Party<E>,
)
    requires
        0 <= i < parties.len(),
        0 <= n <= order.len(),
        forall|m: int| 0 <= m < order.len() ==> 0 <= #[trigger] order[m] < parties.len(),
        forall|m: int| 0 <= m < n ==> #[trigger] order[m] != i,
    ensures
        forall|m: int|
            0 <= m <= n ==> in_order(
                setting,
                files,
                calls,
                parties.update(i, party),
                #[trigger] order.take(m),
            ) == in_order(setting, files, calls, parties, order.take(m)),
{
    assert forall|m: int| 0 <= m <= n implies in_order(
        setting,
        files,
        calls,
        parties.update(i, party),
        #[trigger] order.take(m),
    ) == in_order(setting, files, calls, parties, order.take(m)) by {
        assert forall|k: int| 0 <= k < m implies 0 <= #[trigger] order.take(m)[k] < parties.len()
            && order.take(m)[k] != i by {
            assert(order[k] == order.take(m)[k]);
        }
        lemma_frame(setting, files, calls, parties, order.take(m), i, party);
    }
}

proof fn lemma_inside_is_run<E>(
    setting: Setting,
    call: Call,
    shared: bool,
    files: Map<Seq<char>, Seq<u8>>,
    p: Party<E>,
    now: Map<Seq<char>, Seq<u8>>,
)
    requires
        inside(setting, call, shared, files, p, now),
    ensures
        run(setting, Desk::at(files), call.start(), call.id, p.log).0.files == now,
        run(setting, Desk::at(files), call.start(), call.id, p.log).1 == p.returned(),
{
    lemma_trace_is_run(setting, Desk::at(files), call.start(), call.id, p.log);
}

/// The order after a turn.
spec fn order_after<E>(
    before: Group<E>,
    now: Group<E>,
    shared: bool,
    order: Seq<int>,
    i: int,
) -> Seq<int> {
    if 0 <= i < before.parties.len() && !before.parties[i].took_lock(shared)
        && now.parties[i].took_lock(shared) {
        order.push(i)
    } else {
        order
    }
}

#[verifier::spinoff_prover]
proof fn lemma_stays_outside<E>(
    setting: Setting,
    files: Map<Seq<char>, Seq<u8>>,
    calls: Seq<Call>,
    shared: bool,
    group: Group<E>,
    order: Seq<int>,
    i: int,
    party: Party<E>,
)
    requires
        serial(setting, files, calls, shared, group, order),
        0 <= i < calls.len(),
        !order.contains(i),
        outside(setting, calls[i], shared, party),
    ensures
        serial(
            setting,
            files,
            calls,
            shared,
            Group { files: group.files, parties: group.parties.update(i, party) },
            order,
        ),
{
    let new = group.parties.update(i, party);
    assert forall|m: int| 0 <= m < order.len() implies #[trigger] order[m] != i by {
        assert(order.contains(order[m]));
    }
    lemma_frames(setting, files, calls, group.parties, order, order.len() as int, i, party);
    assert(order.take(order.len() as int) =~= order);
    assert forall|m: int| 0 <= m < order.len() implies inside(
        setting,
        calls[#[trigger] order[m]],
        shared,
        in_order(setting, files, calls, new, order.take(m)),
        new[order[m]],
        in_order(setting, files, calls, new, order.take(m + 1)),
    ) by {
        assert(new[order[m]] == group.parties[order[m]]);
    }
}

#[verifier::spinoff_prover]
proof fn lemma_goes_inside<E>(
    setting: Setting,
    files: Map<Seq<char>, Seq<u8>>,
    calls: Seq<Call>,
    shared: bool,
    group: Group<E>,
    order: Seq<int>,
    i: int,
    party: Party<E>,
    now: Map<Seq<char>, Seq<u8>>,
)
    requires
        serial(setting, files, calls, shared, group, order),
        0 <= i < calls.len(),
        !order.contains(i),
        inside(setting, calls[i], shared, group.files, party, now),
        order.len() > 0 ==> group.parties[order.last()].at is Finished,
    ensures
        serial(
            setting,
            files,
            calls,
            shared,
            Group { files: now, parties: group.parties.update(i, party) },
            order.push(i),
        ),
{
    let new = group.parties.update(i, party);
    let longer = order.push(i);
    let n = order.len() as int;
    assert forall|m: int| 0 <= m < order.len() implies #[trigger] order[m] != i by {
        assert(order.contains(order[m]));
    }
    lemma_frames(setting, files, calls, group.parties, order, n, i, party);
    assert(order.take(n) =~= order);
    assert(longer.take(n) =~= order);
    assert(longer.take(n + 1) =~= longer);
    assert(longer.drop_last() =~= order);
    lemma_inside_is_run(setting, calls[i], shared, group.files, party, now);
    assert(in_order(setting, files, calls, new, longer) == now);
    assert forall|m: int| 0 <= m < longer.len() implies inside(
        setting,
        calls[#[trigger] longer[m]],
        shared,
        in_order(setting, files, calls, new, longer.take(m)),
        new[longer[m]],
        in_order(setting, files, calls, new, longer.take(m + 1)),
    ) by {
        if m < n {
            assert(longer[m] == order[m]);
            assert(longer.take(m) =~= order.take(m));
            assert(longer.take(m + 1) =~= order.take(m + 1));
            assert(new[order[m]] == group.parties[order[m]]);
        }
    }
    assert forall|m: int| 0 <= m < longer.len() - 1 implies new[#[trigger] longer[m]].at is Finished by {
        assert(longer[m] == order[m]);
    }
    assert forall|j: int| 0 <= j < calls.len() && !longer.contains(j) implies outside(
        setting,
        calls[j],
        shared,
        #[trigger] new[j],
    ) by {
        assert(longer[n] == i);
        if order.contains(j) {
            let m = choose|m: int| 0 <= m < order.len() && order[m] == j;
            assert(longer[m] == j);
        }
        assert(new[j] == group.parties[j]);
    }
    assert forall|m: int| 0 <= m < longer.len() implies 0 <= #[trigger] longer[m] < calls.len() by {
        if m < n {
            assert(longer[m] == order[m]);
        }
    }
}

#[verifier::spinoff_prover]
proof fn lemma_stays_inside<E>(
    setting: Setting,
    files: Map<Seq<char>, Seq<u8>>,
    calls: Seq<Call>,
    shared: bool,
    group: Group<E>,
    order: Seq<int>,
    i: int,
    party: Party<E>,
    now: Map<Seq<char>, Seq<u8>>,
)
    requires
        serial(setting, files, calls, shared, group, order),
        order.len() > 0,
        order.last() == i,
        inside(
            setting,
            calls[i],
            shared,
            in_order(setting, files, calls, group.parties, order.drop_last()),
            party,
            now,
        ),
    ensures
        serial(
            setting,
            files,
            calls,
            shared,
            Group { files: now, parties: group.parties.update(i, party) },
            order,
        ),
{
    let new = group.parties.update(i, party);
    let n = order.len() - 1;
    assert(order[n] == i);
    assert(0 <= i < calls.len());
    assert forall|m: int| 0 <= m < n implies #[trigger] order[m] != i by {
        assert(order[n] == i);
    }
    lemma_frames(setting, files, calls, group.parties, order, n, i, party);
    assert(order.take(n) =~= order.drop_last());
    assert(order.take(n + 1) =~= order);
    lemma_inside_is_run(
        setting,
        calls[i],
        shared,
        in_order(setting, files, calls, group.parties, order.drop_last()),
        party,
        now,
    );
    assert(in_order(setting, files, calls, new, order) == now);
    assert forall|m: int| 0 <= m < order.len() implies inside(
        setting,
        calls[#[trigger] order[m]],
        shared,
        in_order(setting, files, calls, new, order.take(m)),
        new[order[m]],
        in_order(setting, files, calls, new, order.take(m + 1)),
    ) by {
        if m < n {
            assert(new[order[m]] == group.parties[order[m]]);
        }
    }
    assert forall|j: int| 0 <= j < calls.len() && !order.contains(j) implies outside(
        setting,
        calls[j],
        shared,
        #[trigger] new[j],
    ) by {
        assert(order.contains(order[n]));
        assert(new[j] == group.parties[j]);
    }
}

#[verifier::spinoff_prover]
proof fn lemma_turn<E>(
    setting: Setting,
    files: Map<Seq<char>, Seq<u8>>,
    calls: Seq<Call>,
    shared: bool,
    lock: Seq<char>,
    group: Group<E>,
    order: Seq<int>,
    i: int,
    fate: Fate<E>,
)
    requires
        take_one_lock(calls, shared, lock),
        serial(setting, files, calls, shared, group, order),
    ensures
        ({
            let now = group.turned(setting, calls, i, fate);
            serial(setting, files, calls, shared, now, order_after(group, now, shared, order, i))
        }),
{
    let now = group.turned(setting, calls, i, fate);
    if 0 <= i < group.parties.len() && group.parties[i].at is Perform && !group.waits(i) {
        let p = group.parties[i];
        let (after, moved) = p.acted(setting, calls[i], group.files, fate);
        if order.contains(i) {
            let m = choose|m: int| 0 <= m < order.len() && order[m] == i;
            assert(m == order.len() - 1) by {
                if m < order.len() - 1 {
                    assert(group.parties[order[m]].at is Finished);
                }
            }
            assert(order.take(m) =~= order.drop_last());
            assert(order.take(m + 1) =~= order);
            let before = in_order(setting, files, calls, group.parties, order.drop_last());
            assert(inside(setting, calls[order[m]], shared, before, p, group.files));
            lemma_inside(setting, calls[i], shared, before, p, group.files, fate);
            lemma_stays_inside(setting, files, calls, shared, group, order, i, moved, after);
        } else {
            assert(outside(setting, calls[i], shared, group.parties[i]));
            lemma_outside(setting, calls[i], shared, p, group.files, fate);
            if outside(setting, calls[i], shared, moved) && after == group.files {
                lemma_stays_outside(setting, files, calls, shared, group, order, i, moved);
            } else {
                if order.len() > 0 {
                    let n = order.len() - 1;
                    let j = order[n];
                    assert(inside(
                        setting,
                        calls[order[n]],
                        shared,
                        in_order(setting, files, calls, group.parties, order.take(n)),
                        group.parties[order[n]],
                        in_order(setting, files, calls, group.parties, order.take(n + 1)),
                    ));
                    assert(order.contains(j));
                    if group.parties[j].at is Perform {
                        assert(waits_for(p.at->Perform_0.script[0], group.parties[j]));
                        assert(group.waits(i));
                    }
                }
                lemma_goes_inside(
                    setting,
                    files,
                    calls,
                    shared,
                    group,
                    order,
                    i,
                    moved,
                    after,
                );
            }
        }
    }
}

proof fn lemma_serial<E>(
    setting: Setting,
    files: Map<Seq<char>, Seq<u8>>,
    calls: Seq<Call>,
    shared: bool,
    lock: Seq<char>,
    turns: Seq<(int, Fate<E>)>,
)
    requires
        take_one_lock(calls, shared, lock),
    ensures
        serial(
            setting,
            files,
            calls,
            shared,
            interleaved(setting, files, calls, turns),
            lock_order(setting, files, calls, shared, turns),
        ),
    decreases turns.len(),
{
    let group = interleaved(setting, files, calls, turns);
    if turns.len() == 0 {
        assert forall|i: int| 0 <= i < calls.len() implies outside(
            setting,
            calls[i],
            shared,
            #[trigger] group.parties[i],
        ) by {
            let p = group.parties[i];
            let start = calls[i].start();
            assert(start.script.skip(0) =~= start.script);
            assert forall|any: Map<Seq<char>, Seq<u8>>|
                #[trigger] trace(setting, Desk::at(any), start, calls[i].id, p.log) == (
                    on_files(p.desk, any),
                    p.at,
                ) by {}
        }
    } else {
        let fewer = turns.drop_last();
        lemma_serial(setting, files, calls, shared, lock, fewer);
        let before = interleaved(setting, files, calls, fewer);
        let order = lock_order(setting, files, calls, shared, fewer);
        let (i, fate) = turns.last();
        lemma_turn(setting, files, calls, shared, lock, before, order, i, fate);
    }
}

/// Any number of operations that all take the shared lock, or all take the lock of one session,
/// never mix: in whatever order their actions are performed, the files and what the operations
/// return are as if each had been performed after those that took the lock before it. All of these
/// but the last are finished. An operation that has not taken the lock has left no trace, and has
/// returned at most a failure.
pub proof fn law_operations_take_turns<E>(
    setting: Setting,
    files: Map<Seq<char>, Seq<u8>>,
    calls: Seq<Call>,
    shared: bool,
    lock: Seq<char>,
    turns: Seq<(int, Fate<E>)>,
)
    requires
        take_one_lock(calls, shared, lock),
    ensures
        ({
            let group = interleaved(setting, files, calls, turns);
            let order = lock_order(setting, files, calls, shared, turns);
            &&& group.parties.len() == calls.len()
            &&& order.no_duplicates()
            &&& forall|m: int| 0 <= m < order.len() ==> 0 <= #[trigger] order[m] < calls.len()
            &&& group.files == in_order(setting, files, calls, group.parties, order)
            &&& forall|m: int|
                0 <= m < order.len() ==> #[trigger] returned_in_order(
                    setting,
                    files,
                    calls,
                    group.parties,
                    order,
                    m,
                )
            &&& forall|m: int|
                0 <= m < order.len() - 1 ==> group.parties[#[trigger] order[m]].returned() is Some
            &&& forall|i: int|
                0 <= i < calls.len() && !order.contains(i) ==> !succeeded(
                    (#[trigger] group.parties[i]).returned(),
                )
        }),
{
    lemma_serial(setting, files, calls, shared, lock, turns);
    let group = interleaved(setting, files, calls, turns);
    let order = lock_order(setting, files, calls, shared, turns);
    assert forall|m: int| 0 <= m < order.len() implies #[trigger] returned_in_order(
        setting,
        files,
        calls,
        group.parties,
        order,
        m,
    ) by {
        let i = order[m];
        lemma_inside_is_run(
            setting,
            calls[order[m]],
            shared,
            in_order(setting, files, calls, group.parties, order.take(m)),
            group.parties[order[m]],
            in_order(setting, files, calls, group.parties, order.take(m + 1)),
        );
    }
}

/// An operation whose next action takes a lock does not move while another operation that holds the
/// lock is not finished.
pub proof fn law_a_lock_is_waited_for<E>(
    setting: Setting,
    calls: Seq<Call>,
    group: Group<E>,
    i: int,
    holder: int,
    fate: Fate<E>,
)
    requires
        0 <= i < group.parties.len(),
        0 <= holder < group.parties.len(),
        holder != i,
        group.parties[i].at is Perform,
        group.parties[holder].at is Perform,
        ({
            let held = group.parties[holder].desk;
            match group.parties[i].at->Perform_0.script[0] {
                ActionView::LockMutations => held.shared_lock,
                ActionView::LockKey { name } => held.key_lock == Some(name),
                _ => false,
            }
        }),
    ensures
        group.turned(setting, calls, i, fate) == group,
{
    assert(waits_for(group.parties[i].at->Perform_0.script[0], group.parties[holder]));
}

/// The order in which operations took the lock only grows at its end.
pub proof fn law_lock_order_is_settled<E>(
    setting: Setting,
    files: Map<Seq<char>, Seq<u8>>,
    calls: Seq<Call>,
    shared: bool,
    turns: Seq<(int, Fate<E>)>,
    n: int,
)
    requires
        0 <= n <= turns.len(),
    ensures
        lock_order(setting, files, calls, shared, turns.take(n)).is_prefix_of(
            lock_order(setting, files, calls, shared, turns),
        ),
    decreases turns.len(),
{
    let early = lock_order(setting, files, calls, shared, turns.take(n));
    let order = lock_order(setting, files, calls, shared, turns);
    if n == turns.len() {
        assert(turns.take(n) =~= turns);
        assert(early =~= order.subrange(0, early.len() as int));
    } else {
        let fewer = turns.drop_last();
        assert(fewer.take(n) =~= turns.take(n));
        law_lock_order_is_settled(setting, files, calls, shared, fewer, n);
        let before = lock_order(setting, files, calls, shared, fewer);
        assert(early =~= order.subrange(0, early.len() as int)) by {
            assert forall|k: int| 0 <= k < early.len() implies early[k] == order[k] by {
                assert(before.subrange(0, early.len() as int)[k] == before[k]);
            }
        }
    }
}

/// Whether all of these operations resolve the id of one session, with ids that a record can hold.
pub open spec fn all_resolve(calls: Seq<Call>, key: Seq<char>) -> bool {
    forall|i: int|
        0 <= i < calls.len() ==> (#[trigger] calls[i]).operation is Resolve && calls[i].key == key
            && calls[i].id.len() > 0 && record_holds(calls[i].id)
}

/// Whether an operation has returned the id that is recorded for a session.
pub open spec fn returned_the_recorded_id<E>(
    files: Map<Seq<char>, Seq<u8>>,
    key: Seq<char>,
    party: Party<E>,
) -> bool {
    recorded(files, key) matches Some(Some(id)) && party.returned() == Some(
        Ok::<OutcomeView, StoreErrorView<E>>(OutcomeView::Id(id)),
    )
}

proof fn lemma_resolutions<E>(
    setting: Setting,
    files: Map<Seq<char>, Seq<u8>>,
    calls: Seq<Call>,
    key: Seq<char>,
    parties: Seq<Party<E>>,
    order: Seq<int>,
    n: int,
)
    requires
        all_resolve(calls, key),
        0 <= n <= order.len(),
        forall|m: int| 0 <= m < order.len() ==> 0 <= #[trigger] order[m] < calls.len(),
        forall|m: int|
            0 <= m < order.len() ==> #[trigger] returned_in_order(
                setting,
                files,
                calls,
                parties,
                order,
                m,
            ),
    ensures
        forall|m: int|
            #![trigger order[m]]
            0 <= m < n && succeeded(parties[order[m]].returned()) ==> returned_the_recorded_id(
                in_order(setting, files, calls, parties, order.take(n)),
                key,
                parties[order[m]],
            ),
    decreases n,
{
    if n > 0 {
        lemma_resolutions(setting, files, calls, key, parties, order, n - 1);
        let last = order[n - 1];
        let before = in_order(setting, files, calls, parties, order.take(n - 1));
        assert(order.take(n).drop_last() =~= order.take(n - 1));
        assert(order.take(n).last() == last);
        assert(returned_in_order(setting, files, calls, parties, order, n - 1));
        assert(calls[last].operation is Resolve);
        law_resolve_returns_the_recorded_id(
            setting,
            before,
            key,
            calls[last].id,
            parties[last].log,
        );
        law_file_names_are_distinct(key, key);
    }
}

/// However many resolutions of one session are under way at the same time, be it of different
/// stores: all that succeed return one id, and it is the one that is recorded.
pub proof fn law_concurrent_resolutions_agree<E>(
    setting: Setting,
    files: Map<Seq<char>, Seq<u8>>,
    calls: Seq<Call>,
    key: Seq<char>,
    turns: Seq<(int, Fate<E>)>,
    i: int,
)
    requires
        all_resolve(calls, key),
        0 <= i < calls.len(),
        succeeded(interleaved(setting, files, calls, turns).parties[i].returned()),
    ensures
        ({
            let group = interleaved(setting, files, calls, turns);
            returned_the_recorded_id(group.files, key, group.parties[i])
        }),
{
    let group = interleaved(setting, files, calls, turns);
    let order = lock_order(setting, files, calls, false, turns);
    assert(take_one_lock(calls, false, lock_name(key)));
    law_operations_take_turns(setting, files, calls, false, lock_name(key), turns);
    lemma_resolutions(
        setting,
        files,
        calls,
        key,
        group.parties,
        order,
        order.len() as int,
    );
    assert(order.take(order.len() as int) =~= order);
    assert(order.contains(i)) by {
        if !order.contains(i) {
            assert(!succeeded(group.parties[i].returned()));
        }
    }
    let m = choose|m: int| 0 <= m < order.len() && order[m] == i;
    assert(succeeded(group.parties[order[m]].returned()));
}

/// Whether one of these operations rotates a session and all others resolve its id, with ids that a
/// record can hold.
pub open spec fn one_rotates(calls: Seq<Call>, key: Seq<char>, rotation: int) -> bool {
    &&& 0 <= rotation < calls.len()
    &&& forall|i: int|
        0 <= i < calls.len() ==> (#[trigger] calls[i]).key == key && calls[i].id.len() > 0
            && record_holds(calls[i].id) && if i == rotation {
            calls[i].operation is Rotate
        } else {
            calls[i].operation is Resolve
        }
}

/// Whether an operation comes before another in an order.
pub open spec fn comes_before(order: Seq<int>, first: int, second: int) -> bool {
    exists|a: int, b: int|
        0 <= a < b < order.len() && #[trigger] order[a] == first && #[trigger] order[b] == second
}

/// What holds once the first `n` operations of an order were performed, of which one may be the
/// rotation.
spec fn raced<E>(
    setting: Setting,
    files: Map<Seq<char>, Seq<u8>>,
    calls: Seq<Call>,
    key: Seq<char>,
    rotation: int,
    initial: Seq<char>,
    parties: Seq<Party<E>>,
    order: Seq<int>,
    n: int,
) -> bool {
    let now = in_order(setting, files, calls, parties, order.take(n));
    let rotated = calls[rotation].id;
    &&& if exists|m: int| 0 <= m < n && #[trigger] order[m] == rotation {
        if succeeded(parties[rotation].returned()) {
            &&& parties[rotation].returned()->0->Ok_0 == OutcomeView::Id(rotated)
            &&& recorded(now, key) == Some(Some(rotated))
            &&& holds(now, data_name(key), Seq::empty())
        } else {
            recorded(now, key) == Some(Some(initial)) || recorded(now, key) == Some(Some(rotated))
        }
    } else {
        recorded(now, key) == Some(Some(initial))
    }
    &&& forall|m: int|
        #![trigger order[m]]
        0 <= m < n && order[m] != rotation && succeeded(parties[order[m]].returned())
            ==> returned_around(parties, order, rotation, rotated, initial, order[m])
}

/// What an operation that resolves has returned beside a rotation: the initial id where it took the
/// lock first, the rotated one where a rotation that succeeds did, and one of the two in any case.
pub open spec fn returned_around<E>(
    parties: Seq<Party<E>>,
    order: Seq<int>,
    rotation: int,
    rotated: Seq<char>,
    initial: Seq<char>,
    i: int,
) -> bool {
    let returned = parties[i].returned()->0->Ok_0;
    &&& returned == OutcomeView::Id(initial) || returned == OutcomeView::Id(rotated)
    &&& !comes_before(order, rotation, i) ==> returned == OutcomeView::Id(initial)
    &&& comes_before(order, rotation, i) && succeeded(parties[rotation].returned()) ==> returned
        == OutcomeView::Id(rotated)
}

#[verifier::spinoff_prover]
proof fn lemma_raced<E>(
    setting: Setting,
    files: Map<Seq<char>, Seq<u8>>,
    calls: Seq<Call>,
    key: Seq<char>,
    rotation: int,
    initial: Seq<char>,
    parties: Seq<Party<E>>,
    order: Seq<int>,
    n: int,
)
    requires
        one_rotates(calls, key, rotation),
        recorded(files, key) == Some(Some(initial)),
        order.no_duplicates(),
        0 <= n <= order.len(),
        forall|m: int| 0 <= m < order.len() ==> 0 <= #[trigger] order[m] < calls.len(),
        forall|m: int|
            0 <= m < order.len() ==> #[trigger] returned_in_order(
                setting,
                files,
                calls,
                parties,
                order,
                m,
            ),
    ensures
        raced(setting, files, calls, key, rotation, initial, parties, order, n),
    decreases n,
{
    if n == 0 {
        assert(order.take(0) =~= Seq::<int>::empty());
    } else {
        lemma_raced(setting, files, calls, key, rotation, initial, parties, order, n - 1);
        let last = order[n - 1];
        let rotated = calls[rotation].id;
        let log = parties[last].log;
        let before = in_order(setting, files, calls, parties, order.take(n - 1));
        let now = in_order(setting, files, calls, parties, order.take(n));
        assert(order.take(n).drop_last() =~= order.take(n - 1));
        assert(order.take(n).last() == last);
        assert(returned_in_order(setting, files, calls, parties, order, n - 1));
        assert(calls[last].key == key);
        assert(calls[rotation].key == key && record_holds(rotated));
        law_file_names_are_distinct(key, key);
        if last == rotation {
            law_rotate_records_before_clearing(setting, before, key, rotated, log);
            assert(!(exists|m: int| 0 <= m < n - 1 && #[trigger] order[m] == rotation)) by {
                if exists|m: int| 0 <= m < n - 1 && #[trigger] order[m] == rotation {
                    let m = choose|m: int| 0 <= m < n - 1 && #[trigger] order[m] == rotation;
                    assert(order[m] != order[n - 1]);
                }
            }
        } else {
            law_resolve_returns_the_recorded_id(setting, before, key, calls[last].id, log);
            assert(recorded(now, key) == recorded(before, key));
            assert(unchanged(before, now, data_name(key)));
            let passed = exists|m: int| 0 <= m < n - 1 && #[trigger] order[m] == rotation;
            assert(comes_before(order, rotation, last) == passed) by {
                if passed {
                    let m = choose|m: int| 0 <= m < n - 1 && #[trigger] order[m] == rotation;
                    assert(order[m] == rotation && order[n - 1] == last);
                }
                if comes_before(order, rotation, last) {
                    let (a, b) = choose|a: int, b: int|
                        0 <= a < b < order.len() && #[trigger] order[a] == rotation
                            && #[trigger] order[b] == last;
                    assert(b == n - 1);
                    assert(0 <= a < n - 1 && order[a] == rotation);
                }
            }
        }
    }
}

/// Resolutions of a session that race with a rotation of it, in whatever order their actions are
/// performed: each that succeeds returns the id of before or the rotated one, and which of the two
/// is settled by which took the lock first. Once the rotation has succeeded, it has returned the
/// rotated id, that id is recorded whatever resolutions come after it, and no message is stored.
pub proof fn law_resolutions_race_with_a_rotation<E>(
    setting: Setting,
    files: Map<Seq<char>, Seq<u8>>,
    calls: Seq<Call>,
    key: Seq<char>,
    rotation: int,
    initial: Seq<char>,
    turns: Seq<(int, Fate<E>)>,
)
    requires
        one_rotates(calls, key, rotation),
        recorded(files, key) == Some(Some(initial)),
    ensures
        ({
            let group = interleaved(setting, files, calls, turns);
            let order = lock_order(setting, files, calls, false, turns);
            let rotated = calls[rotation].id;
            &&& initial.len() > 0
            &&& forall|i: int|
                0 <= i < calls.len() && i != rotation && succeeded(
                    (#[trigger] group.parties[i]).returned(),
                ) ==> returned_around(group.parties, order, rotation, rotated, initial, i)
            &&& succeeded(group.parties[rotation].returned()) ==> {
                &&& group.parties[rotation].returned()->0->Ok_0 == OutcomeView::Id(rotated)
                &&& recorded(group.files, key) == Some(Some(rotated))
                &&& holds(group.files, data_name(key), Seq::empty())
                &&& setting.stored(group.files, key) == Seq::<MessageView>::empty()
            }
        }),
{
    let group = interleaved(setting, files, calls, turns);
    let order = lock_order(setting, files, calls, false, turns);
    assert(take_one_lock(calls, false, lock_name(key)));
    law_operations_take_turns(setting, files, calls, false, lock_name(key), turns);
    let n = order.len() as int;
    lemma_raced(setting, files, calls, key, rotation, initial, group.parties, order, n);
    assert(order.take(n) =~= order);
    assert forall|i: int|
        0 <= i < calls.len() && i != rotation && succeeded(
            (#[trigger] group.parties[i]).returned(),
        ) implies returned_around(
        group.parties,
        order,
        rotation,
        calls[rotation].id,
        initial,
        i,
    ) by {
        assert(order.contains(i));
        let m = choose|m: int| 0 <= m < order.len() && order[m] == i;
        assert(order[m] != rotation);
    }
    if succeeded(group.parties[rotation].returned()) {
        assert(order.contains(rotation));
        let m = choose|m: int| 0 <= m < order.len() && order[m] == rotation;
        assert(0 <= m < n && order[m] == rotation);
        let none = Seq::<u8>::empty();
        assert(setting.read(none) =~= Seq::<MessageView>::empty()) by {
            assert(history_lines(none).map_values(setting.decode) =~= Seq::empty());
        }
    }
}

/// Two operations that take one lock and succeed: both have taken it, one before the other.
#[verifier::spinoff_prover]
proof fn lemma_two<E>(
    setting: Setting,
    files: Map<Seq<char>, Seq<u8>>,
    calls: Seq<Call>,
    shared: bool,
    lock: Seq<char>,
    turns: Seq<(int, Fate<E>)>,
)
    requires
        take_one_lock(calls, shared, lock),
        calls.len() == 2,
        succeeded(interleaved(setting, files, calls, turns).parties[0].returned()),
        succeeded(interleaved(setting, files, calls, turns).parties[1].returned()),
    ensures
        ({
            let group = interleaved(setting, files, calls, turns);
            let order = lock_order(setting, files, calls, shared, turns);
            let (a, b) = (order[0], order[1]);
            let (p, q) = (group.parties[a], group.parties[b]);
            let first = run(setting, Desk::at(files), calls[a].start(), calls[a].id, p.log);
            let between = first.0.files;
            let second = run(setting, Desk::at(between), calls[b].start(), calls[b].id, q.log);
            &&& order == seq![0int, 1] || order == seq![1int, 0]
            &&& p.returned() == first.1
            &&& q.returned() == second.1
            &&& group.files == second.0.files
        }),
{
    let group = interleaved(setting, files, calls, turns);
    let order = lock_order(setting, files, calls, shared, turns);
    law_operations_take_turns(setting, files, calls, shared, lock, turns);
    assert(order.contains(0) && order.contains(1)) by {
        if !order.contains(0) {
            assert(!succeeded(group.parties[0].returned()));
        }
        if !order.contains(1) {
            assert(!succeeded(group.parties[1].returned()));
        }
    }
    let m = choose|m: int| 0 <= m < order.len() && order[m] == 0;
    let n = choose|n: int| 0 <= n < order.len() && order[n] == 1;
    assert(order.len() == 2) by {
        if order.len() > 2 {
            let k = if m != 0 && n != 0 {
                0int
            } else if m != 1 && n != 1 {
                1
            } else {
                2
            };
            assert(0 <= order[k] < 2);
            assert(order[k] != order[m] && order[k] != order[n]);
        }
    }
    assert(order =~= seq![0int, 1] || order =~= seq![1int, 0]);
    assert(returned_in_order(setting, files, calls, group.parties, order, 0));
    assert(returned_in_order(setting, files, calls, group.parties, order, 1));
    assert(order.take(0) =~= Seq::<int>::empty());
    assert(order.take(1).drop_last() =~= Seq::<int>::empty());
    assert(order.drop_last() =~= order.take(1));
    assert(order.take(1).last() == order[0]);
    reveal_with_fuel(in_order, 3);
}

/// An append and a rotation at the same time: the message is cleared with the rest, or it is the
/// only one.
#[verifier::spinoff_prover]
pub proof fn law_append_and_rotation_do_not_mix<E>(
    setting: Setting,
    files: Map<Seq<char>, Seq<u8>>,
    key: Seq<char>,
    message: MessageView,
    id: Seq<char>,
    turns: Seq<(int, Fate<E>)>,
)
    requires
        setting.keeps(message),
    ensures
        ({
            let append = SessionOperation::Append(message);
            let rotate = SessionOperation::Rotate;
            let calls = seq![
                Call { key, operation: append, id },
                Call { key, operation: rotate, id },
            ];
            let group = interleaved(setting, files, calls, turns);
            let order = lock_order(setting, files, calls, false, turns);
            succeeded(group.parties[0].returned()) && succeeded(group.parties[1].returned()) ==> {
                ||| order == seq![0int, 1] && setting.stored(group.files, key) == Seq::<
                    MessageView,
                >::empty()
                ||| order == seq![1int, 0] && setting.stored(group.files, key) == seq![message]
            }
        }),
{
    let append = SessionOperation::Append(message);
    let rotate = SessionOperation::Rotate;
    let calls = seq![Call { key, operation: append, id }, Call { key, operation: rotate, id }];
    let group = interleaved(setting, files, calls, turns);
    let order = lock_order(setting, files, calls, false, turns);
    let none = Seq::<u8>::empty();
    assert(setting.read(none) =~= Seq::<MessageView>::empty()) by {
        assert(history_lines(none).map_values(setting.decode) =~= Seq::empty());
    }
    if succeeded(group.parties[0].returned()) && succeeded(group.parties[1].returned()) {
        lemma_two(setting, files, calls, false, lock_name(key), turns);
        let (p, q) = (group.parties[0], group.parties[1]);
        if order == seq![0int, 1] {
            let between = run(setting, Desk::at(files), append.on(key), id, p.log).0;
            law_rotate_records_before_clearing(setting, between.files, key, id, q.log);
        } else {
            let between = run(setting, Desk::at(files), rotate.on(key), id, q.log).0;
            law_rotate_records_before_clearing(setting, files, key, id, q.log);
            law_append_then_load(setting, between.files, key, message, id, p.log);
            assert(Seq::<MessageView>::empty().push(message) =~= seq![message]);
        }
    }
}

/// An append to a session, and an edit of it.
pub open spec fn append_and_edit(
    key: Seq<char>,
    message: MessageView,
    edit: EditView,
    id: Seq<char>,
) -> Seq<Call> {
    seq![
        Call { key, operation: SessionOperation::Append(message), id },
        Call { key, operation: SessionOperation::Edit(edit), id },
    ]
}

/// An append and an edit at the same time: no message is lost. Where the edit took the lock first,
/// the message comes after what the edit left; otherwise the edit saw the message too.
#[verifier::spinoff_prover]
pub proof fn law_append_and_edit_do_not_mix<E>(
    setting: Setting,
    files: Map<Seq<char>, Seq<u8>>,
    key: Seq<char>,
    message: MessageView,
    edit: EditView,
    id: Seq<char>,
    turns: Seq<(int, Fate<E>)>,
)
    requires
        setting.keeps(message),
        setting.keeps_all(setting.stored(files, key)),
        edit matches EditView::UpdateLast(new) ==> setting.keeps(new),
        is_complete(Desk::at(files).content(data_name(key))),
        ({
            let calls = append_and_edit(key, message, edit, id);
            let log = interleaved(setting, files, calls, turns).parties[1].log;
            log.len() > 1 ==> log[1] is Succeeds
        }),
    ensures
        ({
            let calls = append_and_edit(key, message, edit, id);
            let group = interleaved(setting, files, calls, turns);
            let order = lock_order(setting, files, calls, true, turns);
            let before = setting.stored(files, key);
            let after = setting.stored(group.files, key);
            let (appended, changed) = (group.parties[0].returned(), group.parties[1].returned());
            succeeded(appended) && succeeded(changed) ==> {
                &&& appended->0->Ok_0 == OutcomeView::Done
                &&& {
                    ||| {
                        &&& order == seq![1int, 0]
                        &&& changed->0->Ok_0 == edit_outcome(edit, before)
                        &&& after == edited(edit, before).push(message)
                    }
                    ||| {
                        &&& order == seq![0int, 1]
                        &&& changed->0->Ok_0 == edit_outcome(edit, before.push(message))
                        &&& after == edited(edit, before.push(message))
                    }
                }
            }
        }),
{
    let (append, change) = (SessionOperation::Append(message), SessionOperation::Edit(edit));
    let calls = append_and_edit(key, message, edit, id);
    let group = interleaved(setting, files, calls, turns);
    let order = lock_order(setting, files, calls, true, turns);
    if succeeded(group.parties[0].returned()) && succeeded(group.parties[1].returned()) {
        lemma_two(setting, files, calls, true, lock_name(key), turns);
        let (p, q) = (group.parties[0], group.parties[1]);
        if order == seq![0int, 1] {
            let between = run(setting, Desk::at(files), append.on(key), id, p.log).0;
            law_append_adds_a_line(setting, files, key, message, id, p.log);
            law_append_then_load(setting, files, key, message, id, p.log);
            law_edit_then_load(setting, between.files, key, edit, id, q.log);
        } else {
            let between = run(setting, Desk::at(files), change.on(key), id, q.log).0;
            law_edit_then_load(setting, files, key, edit, id, q.log);
            law_edit_is_atomic(setting, files, key, edit, id, q.log);
            law_append_adds_a_line(setting, between.files, key, message, id, p.log);
            law_append_then_load(setting, between.files, key, message, id, p.log);
        }
    }
}

/// An append that begins while an edit is under way does not succeed before the edit is finished.
/// After `n` turns the edit has taken the lock, and the append has not.
pub proof fn law_append_waits_for_an_edit<E>(
    setting: Setting,
    files: Map<Seq<char>, Seq<u8>>,
    key: Seq<char>,
    message: MessageView,
    edit: EditView,
    id: Seq<char>,
    turns: Seq<(int, Fate<E>)>,
    n: int,
)
    requires
        0 <= n <= turns.len(),
        lock_order(
            setting,
            files,
            append_and_edit(key, message, edit, id),
            true,
            turns.take(n),
        ) == seq![1int],
    ensures
        ({
            let calls = append_and_edit(key, message, edit, id);
            let group = interleaved(setting, files, calls, turns);
            let order = lock_order(setting, files, calls, true, turns);
            &&& order[0] == 1
            &&& succeeded(group.parties[0].returned()) ==> {
                &&& order == seq![1int, 0]
                &&& group.parties[1].returned() is Some
            }
        }),
{
    let calls = append_and_edit(key, message, edit, id);
    let group = interleaved(setting, files, calls, turns);
    let order = lock_order(setting, files, calls, true, turns);
    let early = lock_order(setting, files, calls, true, turns.take(n));
    law_lock_order_is_settled(setting, files, calls, true, turns, n);
    law_operations_take_turns(setting, files, calls, true, lock_name(key), turns);
    assert(order[0] == 1) by {
        assert(early[0] == order.subrange(0, 1)[0]);
    }
    if succeeded(group.parties[0].returned()) {
        assert(order.contains(0));
        let m = choose|m: int| 0 <= m < order.len() && order[m] == 0;
        assert(order.len() == 2) by {
            if order.len() > 2 {
                let k = if m == 1 {
                    2int
                } else {
                    1
                };
                assert(0 <= order[k] < 2);
                assert(order[k] != order[0] && order[k] != order[m]);
            }
        }
        assert(order =~= seq![1int, 0]);
        assert(group.parties[order[0]].returned() is Some);
    }
}

/// An append that begins while an edit is under way comes after it: once both have succeeded, the
/// edit has returned what it returns of the messages of before, and the session has what the edit
/// left, and then the message.
pub proof fn law_append_follows_an_edit<E>(
    setting: Setting,
    files: Map<Seq<char>, Seq<u8>>,
    key: Seq<char>,
    message: MessageView,
    edit: EditView,
    id: Seq<char>,
    turns: Seq<(int, Fate<E>)>,
    n: int,
)
    requires
        setting.keeps(message),
        setting.keeps_all(setting.stored(files, key)),
        edit matches EditView::UpdateLast(new) ==> setting.keeps(new),
        is_complete(Desk::at(files).content(data_name(key))),
        0 <= n <= turns.len(),
        ({
            let calls = append_and_edit(key, message, edit, id);
            let group = interleaved(setting, files, calls, turns);
            let log = group.parties[1].log;
            &&& log.len() > 1 ==> log[1] is Succeeds
            &&& lock_order(setting, files, calls, true, turns.take(n)) == seq![1int]
            &&& succeeded(group.parties[0].returned())
            &&& succeeded(group.parties[1].returned())
        }),
    ensures
        ({
            let calls = append_and_edit(key, message, edit, id);
            let group = interleaved(setting, files, calls, turns);
            let before = setting.stored(files, key);
            &&& group.parties[0].returned()->0->Ok_0 == OutcomeView::Done
            &&& group.parties[1].returned()->0->Ok_0 == edit_outcome(edit, before)
            &&& setting.stored(group.files, key) == edited(edit, before).push(message)
        }),
{
    law_append_and_edit_do_not_mix(setting, files, key, message, edit, id, turns);
    law_append_waits_for_an_edit(setting, files, key, message, edit, id, turns, n);
    assert(seq![0int, 1][0] == 0);
}

} // verus!
