//! The table of awaited handles: which handles the executor watches, and who
//! waits on each.

use vstd::prelude::*;
use crate::handle::HandleRef;
use crate::task::TaskId;
use crate::work_queue::QueueWaker;

verus! {

/// One waiter of a handle: the task that waits, and the waker to invoke when
/// the handle is signaled.
pub struct Waiter {
    pub id: TaskId,
    pub waker: QueueWaker,
}

/// One row of the table: a handle and its waiters, oldest first.
pub ghost struct Watch {
    pub handle: HandleRef,
    pub waiters: Seq<Waiter>,
}

/// The table as a value: its rows in the order in which the handles were
/// first waited on.
pub ghost struct Table {
    pub entries: Seq<Watch>,
}

/// The test that keeps every waiter but those of task `id`.
pub open spec fn is_other(id: TaskId) -> spec_fn(Waiter) -> bool {
    |waiter: Waiter| waiter.id != id
}

/// What becomes of a row when task `id`, which has asked for the waits
/// `awaiting`, completes.
pub open spec fn completion_of(awaiting: Seq<u32>, id: TaskId) -> spec_fn(Watch) -> Option<Watch> {
    |watch: Watch| watch.after_completion(awaiting, id)
}

impl Watch {
    /// The row without the waiters of task `id`.
    pub open spec fn without_task(self, id: TaskId) -> Watch {
        Watch { handle: self.handle, waiters: self.waiters.filter(is_other(id)) }
    }

    /// Task `id` waits on the handle of this row.
    pub open spec fn mentions(self, id: TaskId) -> bool {
        exists|k: int| 0 <= k < self.waiters.len() && (#[trigger] self.waiters[k]).id == id
    }

    /// The row after task `id` has completed: if the task had asked to wait on
    /// this handle, its waiters are gone from the row, and a row that this
    /// leaves without waiters is gone itself.
    pub open spec fn after_completion(self, awaiting: Seq<u32>, id: TaskId) -> Option<Watch> {
        if awaiting.contains(self.handle.raw) {
            let rest = self.without_task(id);
            if rest.waiters.len() > 0 {
                Some(rest)
            } else {
                None
            }
        } else {
            Some(self)
        }
    }
}

impl Table {
    /// The watched handles, in the order of the rows. This is the list that
    /// the kernel is asked to wait on.
    pub open spec fn handles(self) -> Seq<HandleRef> {
        self.entries.map_values(|watch: Watch| watch.handle)
    }

    /// No handle has two rows, and every row has a waiter: a handle is in the
    /// table exactly as long as somebody waits on it.
    pub open spec fn wf(self) -> bool {
        &&& forall|i: int, j: int|
            0 <= i < j < self.entries.len() ==> (#[trigger] self.entries[i]).handle != (
            #[trigger] self.entries[j]).handle
        &&& forall|i: int|
            0 <= i < self.entries.len() ==> (#[trigger] self.entries[i]).waiters.len() > 0
    }

    /// Some row is for `handle`.
    pub open spec fn watches(self, handle: HandleRef) -> bool {
        exists|i: int| 0 <= i < self.entries.len() && (#[trigger] self.entries[i]).handle == handle
    }

    /// The row of `handle`, if the handle is watched.
    pub open spec fn position(self, handle: HandleRef) -> Option<int> {
        if self.watches(handle) {
            Some(
                choose|i: int|
                    0 <= i < self.entries.len() && (#[trigger] self.entries[i]).handle == handle,
            )
        } else {
            None
        }
    }

    /// The waiters of `handle`, oldest first; none if the handle is not watched.
    pub open spec fn waiters_of(self, handle: HandleRef) -> Seq<Waiter> {
        match self.position(handle) {
            Some(i) => self.entries[i].waiters,
            None => Seq::empty(),
        }
    }

    /// Task `id` waits on some handle of the table.
    pub open spec fn mentions(self, id: TaskId) -> bool {
        exists|i: int| 0 <= i < self.entries.len() && (#[trigger] self.entries[i]).mentions(id)
    }

    /// The table after `waiter` has registered for `handle`: the waiter stands
    /// last in the row of the handle, and a handle that was not watched gets a
    /// new row at the end.
    pub open spec fn registered(self, handle: HandleRef, waiter: Waiter) -> Table {
        match self.position(handle) {
            Some(i) => Table {
                entries: self.entries.update(
                    i,
                    Watch { handle, waiters: self.entries[i].waiters.push(waiter) },
                ),
            },
            None => Table { entries: self.entries.push(Watch { handle, waiters: seq![waiter] }) },
        }
    }

    /// The table without its row `index`.
    pub open spec fn without(self, index: int) -> Table {
        Table { entries: self.entries.remove(index) }
    }

    /// The table after the waits of task `id` on the handle with number `raw`
    /// have been dropped, and with them the row, if task `id` was its only
    /// waiter.
    pub open spec fn released(self, raw: u32, id: TaskId) -> Table {
        match self.position(HandleRef { raw }) {
            Some(i) => {
                let rest = self.entries[i].without_task(id);
                if rest.waiters.len() > 0 {
                    Table { entries: self.entries.update(i, rest) }
                } else {
                    self.without(i)
                }
            },
            None => self,
        }
    }

    /// The table after task `id` has completed, having asked for the waits
    /// `awaiting`: each row is treated as [`Watch::after_completion`] says.
    pub open spec fn swept(self, awaiting: Seq<u32>, id: TaskId) -> Table {
        Table { entries: self.entries.filter_map(completion_of(awaiting, id)) }
    }

    /// In a table without double rows, the row of a handle is the one row that
    /// holds it.
    pub proof fn lemma_position(self, handle: HandleRef, i: int)
        requires
            self.wf(),
            0 <= i < self.entries.len(),
            self.entries[i].handle == handle,
        ensures
            self.position(handle) == Some(i),
    {
    }

    /// Registering keeps the table in order.
    pub proof fn lemma_registered_wf(self, handle: HandleRef, waiter: Waiter)
        requires
            self.wf(),
        ensures
            self.registered(handle, waiter).wf(),
    {
        let after = self.registered(handle, waiter);
        match self.position(handle) {
            Some(i) => {
                assert forall|a: int, b: int| 0 <= a < b < after.entries.len() implies (
                #[trigger] after.entries[a]).handle != (#[trigger] after.entries[b]).handle by {
                    assert(after.entries[a].handle == self.entries[a].handle);
                    assert(after.entries[b].handle == self.entries[b].handle);
                }
                assert forall|a: int| 0 <= a < after.entries.len() implies (
                #[trigger] after.entries[a]).waiters.len() > 0 by {
                    if a != i {
                        assert(after.entries[a] == self.entries[a]);
                    }
                }
            },
            None => {
                assert forall|a: int, b: int| 0 <= a < b < after.entries.len() implies (
                #[trigger] after.entries[a]).handle != (#[trigger] after.entries[b]).handle by {
                    assert(after.entries[a] == self.entries[a]);
                    if b < self.entries.len() {
                        assert(after.entries[b] == self.entries[b]);
                    }
                }
                assert forall|a: int| 0 <= a < after.entries.len() implies (
                #[trigger] after.entries[a]).waiters.len() > 0 by {
                    if a < self.entries.len() {
                        assert(after.entries[a] == self.entries[a]);
                    }
                }
            },
        }
    }

    /// Taking a row out keeps the table in order.
    pub proof fn lemma_without_wf(self, index: int)
        requires
            self.wf(),
            0 <= index < self.entries.len(),
        ensures
            self.without(index).wf(),
    {
        let after = self.without(index);
        assert forall|a: int, b: int| 0 <= a < b < after.entries.len() implies (
        #[trigger] after.entries[a]).handle != (#[trigger] after.entries[b]).handle by {
            let a0 = if a < index { a } else { a + 1 };
            let b0 = if b < index { b } else { b + 1 };
            assert(after.entries[a] == self.entries[a0]);
            assert(after.entries[b] == self.entries[b0]);
        }
        assert forall|a: int| 0 <= a < after.entries.len() implies (
        #[trigger] after.entries[a]).waiters.len() > 0 by {
            let a0 = if a < index { a } else { a + 1 };
            assert(after.entries[a] == self.entries[a0]);
        }
    }
}

/// A list whose entries all pass a test is left as it is by the filter.
pub proof fn lemma_filter_keeps_all<A>(list: Seq<A>, test: spec_fn(A) -> bool)
    requires
        forall|k: int| 0 <= k < list.len() ==> test(#[trigger] list[k]),
    ensures
        list.filter(test) == list,
    decreases list.len(),
{
    reveal(Seq::filter);
    if list.len() > 0 {
        let front = list.drop_last();
        assert forall|k: int| 0 <= k < front.len() implies test(#[trigger] front[k]) by {
            assert(front[k] == list[k]);
        }
        lemma_filter_keeps_all(front, test);
        assert(front.push(list.last()) == list);
    }
}

/// Every entry of a filtered list passes the test and stood in the list.
pub proof fn lemma_filter_sound<A>(list: Seq<A>, test: spec_fn(A) -> bool, k: int)
    requires
        0 <= k < list.filter(test).len(),
    ensures
        test(list.filter(test)[k]),
        list.contains(list.filter(test)[k]),
    decreases list.len(),
{
    reveal(Seq::filter);
    if list.len() > 0 {
        let front = list.drop_last();
        if k < front.filter(test).len() {
            lemma_filter_sound(front, test, k);
            let j = choose|j: int| 0 <= j < front.len() && front[j] == front.filter(test)[k];
            assert(list[j] == front[j]);
        } else {
            assert(list[list.len() - 1] == list.last());
        }
    }
}

/// An entry that passes the test stands in the filtered list.
pub proof fn lemma_filter_complete<A>(list: Seq<A>, test: spec_fn(A) -> bool, k: int)
    requires
        0 <= k < list.len(),
        test(list[k]),
    ensures
        list.filter(test).contains(list[k]),
    decreases list.len(),
{
    reveal(Seq::filter);
    let front = list.drop_last();
    if k < front.len() {
        assert(front[k] == list[k]);
        lemma_filter_complete(front, test, k);
        let m = choose|m: int| 0 <= m < front.filter(test).len() && front.filter(test)[m] == list[k];
        assert(list.filter(test)[m] == list[k]);
    } else {
        assert(list.last() == list[k]);
        assert(list.filter(test)[front.filter(test).len() as int] == list[k]);
    }
}

impl Watch {
    /// Dropping the waiters of a task twice is dropping them once.
    pub proof fn lemma_without_task_again(self, id: TaskId)
        ensures
            self.without_task(id).without_task(id) == self.without_task(id),
            !self.without_task(id).mentions(id),
    {
        let once = self.waiters.filter(is_other(id));
        assert forall|k: int| 0 <= k < once.len() implies is_other(id)(#[trigger] once[k]) by {
            lemma_filter_sound(self.waiters, is_other(id), k);
        }
        lemma_filter_keeps_all(once, is_other(id));
    }
}

impl Table {
    /// The table of the rows before the last one.
    pub open spec fn front(self) -> Table {
        Table { entries: self.entries.drop_last() }
    }

    /// The rows before the last one are in order if the table is.
    pub proof fn lemma_front_wf(self)
        requires
            self.wf(),
            self.entries.len() > 0,
        ensures
            self.front().wf(),
            !self.front().watches(self.entries.last().handle),
    {
        let front = self.front();
        assert forall|a: int, b: int| 0 <= a < b < front.entries.len() implies (
        #[trigger] front.entries[a]).handle != (#[trigger] front.entries[b]).handle by {
            assert(front.entries[a] == self.entries[a]);
            assert(front.entries[b] == self.entries[b]);
        }
        assert forall|a: int| 0 <= a < front.entries.len() implies (
        #[trigger] front.entries[a]).waiters.len() > 0 by {
            assert(front.entries[a] == self.entries[a]);
        }
        if front.watches(self.entries.last().handle) {
            let a = choose|a: int|
                0 <= a < front.entries.len() && (#[trigger] front.entries[a]).handle
                    == self.entries.last().handle;
            assert(front.entries[a] == self.entries[a]);
            assert(self.entries[self.entries.len() - 1] == self.entries.last());
        }
    }

    /// How the sweep of a table follows from the sweep of its front.
    pub proof fn lemma_swept_unfold(self, awaiting: Seq<u32>, id: TaskId)
        requires
            self.entries.len() > 0,
        ensures
            self.swept(awaiting, id).entries == match self.entries.last().after_completion(
                awaiting,
                id,
            ) {
                Some(row) => self.front().swept(awaiting, id).entries.push(row),
                None => self.front().swept(awaiting, id).entries,
            },
    {
        reveal(Seq::filter_map);
        let f = completion_of(awaiting, id);
        assert(f(self.entries.last()) == self.entries.last().after_completion(awaiting, id));
        match f(self.entries.last()) {
            Some(row) => {
                assert(self.entries.drop_last().filter_map(f) + seq![row]
                    =~= self.entries.drop_last().filter_map(f).push(row));
            },
            None => {},
        }
    }

    /// What a sweep leaves: a table in order, whose rows are rows of the table
    /// before, as they were or without the waiters of the completed task.
    pub proof fn lemma_swept_rows(self, awaiting: Seq<u32>, id: TaskId)
        requires
            self.wf(),
        ensures
            self.swept(awaiting, id).wf(),
            forall|handle: HandleRef|
                self.swept(awaiting, id).watches(handle) ==> self.watches(handle),
            forall|i: int|
                0 <= i < self.swept(awaiting, id).entries.len() ==> self.row_left(
                    awaiting,
                    id,
                    #[trigger] self.swept(awaiting, id).entries[i],
                ),
        decreases self.entries.len(),
    {
        reveal(Seq::filter_map);
        let after = self.swept(awaiting, id);
        if self.entries.len() == 0 {
            assert(after.entries.len() == 0);
        } else {
            let front = self.front();
            let last = self.entries.last();
            let n = self.entries.len() - 1;
            self.lemma_front_wf();
            self.lemma_swept_unfold(awaiting, id);
            front.lemma_swept_rows(awaiting, id);
            let before = front.swept(awaiting, id);
            assert(self.entries[n] == last);
            assert forall|i: int| 0 <= i < after.entries.len() implies self.row_left(
                awaiting,
                id,
                #[trigger] after.entries[i],
            ) by {
                if i < before.entries.len() {
                    assert(after.entries[i] == before.entries[i]);
                    assert(front.row_left(awaiting, id, before.entries[i]));
                    let j = choose|j: int|
                        0 <= j < front.entries.len() && front.row_kept(
                            awaiting,
                            id,
                            j,
                            before.entries[i],
                        );
                    assert(front.entries[j] == self.entries[j]);
                    assert(self.row_kept(awaiting, id, j, after.entries[i]));
                } else {
                    assert(self.row_kept(awaiting, id, n, after.entries[i]));
                }
            }
            assert forall|handle: HandleRef| after.watches(handle) implies self.watches(
                handle,
            ) by {
                let i = choose|i: int|
                    0 <= i < after.entries.len() && (#[trigger] after.entries[i]).handle == handle;
                assert(self.row_left(awaiting, id, after.entries[i]));
                let j = choose|j: int|
                    0 <= j < self.entries.len() && self.row_kept(
                        awaiting,
                        id,
                        j,
                        after.entries[i],
                    );
                assert(self.entries[j].handle == handle);
            }
            assert forall|a: int, b: int| 0 <= a < b < after.entries.len() implies (
            #[trigger] after.entries[a]).handle != (#[trigger] after.entries[b]).handle by {
                assert(after.entries[a] == before.entries[a]);
                if b < before.entries.len() {
                    assert(after.entries[b] == before.entries[b]);
                } else {
                    assert(after.entries[b].handle == last.handle);
                    assert(before.watches(before.entries[a].handle));
                }
            }
            assert forall|a: int| 0 <= a < after.entries.len() implies (
            #[trigger] after.entries[a]).waiters.len() > 0 by {
                if a < before.entries.len() {
                    assert(after.entries[a] == before.entries[a]);
                }
            }
        }
    }

    /// Row `j` of this table, as the completion of task `id` leaves it, is
    /// `row`.
    pub open spec fn row_kept(self, awaiting: Seq<u32>, id: TaskId, j: int, row: Watch) -> bool {
        self.entries[j].after_completion(awaiting, id) == Some(row)
    }

    /// Some row of this table, as the completion of task `id` leaves it, is
    /// `row`.
    pub open spec fn row_left(self, awaiting: Seq<u32>, id: TaskId, row: Watch) -> bool {
        exists|j: int| 0 <= j < self.entries.len() && #[trigger] self.row_kept(awaiting, id, j, row)
    }

    /// Dropping the waits on one handle keeps the table in order.
    pub proof fn lemma_released_wf(self, raw: u32, id: TaskId)
        requires
            self.wf(),
        ensures
            self.released(raw, id).wf(),
    {
        match self.position(HandleRef { raw }) {
            Some(i) => {
                let rest = self.entries[i].without_task(id);
                if rest.waiters.len() > 0 {
                    let after = self.released(raw, id);
                    assert forall|a: int, b: int| 0 <= a < b < after.entries.len() implies (
                    #[trigger] after.entries[a]).handle != (#[trigger] after.entries[b]).handle by {
                        assert(after.entries[a].handle == self.entries[a].handle);
                        assert(after.entries[b].handle == self.entries[b].handle);
                    }
                    assert forall|a: int| 0 <= a < after.entries.len() implies (
                    #[trigger] after.entries[a]).waiters.len() > 0 by {
                        if a != i {
                            assert(after.entries[a] == self.entries[a]);
                        }
                    }
                } else {
                    self.lemma_without_wf(i);
                }
            },
            None => {},
        }
    }

    /// A row for another handle, added at the end, stays out of the way when
    /// the waits on the handle with number `raw` are dropped.
    pub proof fn lemma_released_push(self, row: Watch, raw: u32, id: TaskId)
        requires
            (Table { entries: self.entries.push(row) }).wf(),
            row.handle.raw != raw,
        ensures
            (Table { entries: self.entries.push(row) }).released(raw, id).entries == self.released(
                raw,
                id,
            ).entries.push(row),
    {
        let longer = Table { entries: self.entries.push(row) };
        let handle = HandleRef { raw };
        assert(longer.front().entries == self.entries);
        longer.lemma_front_wf();
        if self.watches(handle) {
            let i = choose|i: int|
                0 <= i < self.entries.len() && (#[trigger] self.entries[i]).handle == handle;
            assert(longer.entries[i] == self.entries[i]);
            self.lemma_position(handle, i);
            longer.lemma_position(handle, i);
            let rest = self.entries[i].without_task(id);
            if rest.waiters.len() > 0 {
                assert(longer.entries.update(i, rest) == self.entries.update(i, rest).push(row));
            } else {
                assert(longer.entries.remove(i) == self.entries.remove(i).push(row));
            }
        } else {
            if longer.watches(handle) {
                let i = choose|i: int|
                    0 <= i < longer.entries.len() && (#[trigger] longer.entries[i]).handle
                        == handle;
                if i < self.entries.len() {
                    assert(longer.entries[i] == self.entries[i]);
                }
            }
        }
    }

    /// Sweeping for no wait at all changes nothing.
    pub proof fn lemma_swept_nothing(self, id: TaskId)
        ensures
            self.swept(Seq::empty(), id) == self,
        decreases self.entries.len(),
    {
        reveal(Seq::filter_map);
        if self.entries.len() > 0 {
            self.front().lemma_swept_nothing(id);
            self.lemma_swept_unfold(Seq::empty(), id);
            assert(self.front().entries.push(self.entries.last()) == self.entries);
        } else {
            assert(self.swept(Seq::empty(), id).entries == self.entries);
        }
    }

    /// Sweeping for one more wait is dropping the waits on that handle from
    /// what the sweep for the waits before it has left.
    pub proof fn lemma_swept_push(self, awaiting: Seq<u32>, raw: u32, id: TaskId)
        requires
            self.wf(),
        ensures
            self.swept(awaiting.push(raw), id) == self.swept(awaiting, id).released(raw, id),
        decreases self.entries.len(),
    {
        let more = awaiting.push(raw);
        let handle = HandleRef { raw };
        assert forall|x: u32| more.contains(x) == (awaiting.contains(x) || x == raw) by {
            if awaiting.contains(x) {
                let k = choose|k: int| 0 <= k < awaiting.len() && awaiting[k] == x;
                assert(more[k] == x);
            }
            if x == raw {
                assert(more[awaiting.len() as int] == x);
            }
            if more.contains(x) {
                let k = choose|k: int| 0 <= k < more.len() && more[k] == x;
                if k < awaiting.len() {
                    assert(awaiting[k] == x);
                }
            }
        }
        if self.entries.len() == 0 {
            reveal(Seq::filter_map);
            assert(self.swept(awaiting, id).entries.len() == 0);
            assert(self.swept(more, id).entries.len() == 0);
            assert(self.swept(more, id).entries == self.swept(awaiting, id).released(
                raw,
                id,
            ).entries);
        } else {
            let front = self.front();
            let last = self.entries.last();
            self.lemma_front_wf();
            self.lemma_swept_unfold(awaiting, id);
            self.lemma_swept_unfold(more, id);
            self.lemma_swept_rows(awaiting, id);
            front.lemma_swept_rows(awaiting, id);
            front.lemma_swept_push(awaiting, raw, id);
            let before = front.swept(awaiting, id);
            let whole = self.swept(awaiting, id);
            if last.handle.raw != raw {
                match last.after_completion(awaiting, id) {
                    Some(row) => {
                        assert(whole.entries == before.entries.push(row));
                        before.lemma_released_push(row, raw, id);
                    },
                    None => {},
                }
            } else {
                assert(last.handle == handle);
                assert(!before.watches(handle));
                assert(before.released(raw, id) == before);
                let rest = last.without_task(id);
                last.lemma_without_task_again(id);
                if awaiting.contains(raw) {
                    if rest.waiters.len() > 0 {
                        let n = before.entries.len() as int;
                        assert(whole.entries[n] == rest);
                        whole.lemma_position(handle, n);
                        assert(whole.entries.update(n, rest) == whole.entries);
                    } else {
                        assert(!whole.watches(handle));
                    }
                } else {
                    let n = before.entries.len() as int;
                    assert(whole.entries == before.entries.push(last));
                    assert(whole.entries[n] == last);
                    whole.lemma_position(handle, n);
                    if rest.waiters.len() > 0 {
                        assert(whole.entries.update(n, rest) == before.entries.push(rest));
                    } else {
                        assert(whole.entries.remove(n) == before.entries);
                    }
                }
            }
        }
    }

    /// `waiter` waits on `handle`.
    pub open spec fn holds(self, handle: HandleRef, waiter: Waiter) -> bool {
        exists|i: int, k: int|
            0 <= i < self.entries.len() && 0 <= k < self.entries[i].waiters.len()
                && self.entries[i].handle == handle && #[trigger] self.entries[i].waiters[k]
                == waiter
    }

    /// After a registration, the waits are those from before and the new one.
    pub proof fn lemma_registered_holds(
        self,
        handle: HandleRef,
        waiter: Waiter,
        other_handle: HandleRef,
        other: Waiter,
    )
        requires
            self.wf(),
        ensures
            self.registered(handle, waiter).holds(other_handle, other) <==> self.holds(
                other_handle,
                other,
            ) || (other_handle == handle && other == waiter),
    {
        let after = self.registered(handle, waiter);
        if after.holds(other_handle, other) {
            let (i, k) = choose|i: int, k: int|
                0 <= i < after.entries.len() && 0 <= k < after.entries[i].waiters.len()
                    && after.entries[i].handle == other_handle
                    && #[trigger] after.entries[i].waiters[k] == other;
            match self.position(handle) {
                Some(p) => {
                    if i == p {
                        if k < self.entries[p].waiters.len() {
                            assert(self.entries[p].waiters[k] == other);
                        }
                    } else {
                        assert(self.entries[i].waiters[k] == other);
                    }
                },
                None => {
                    if i < self.entries.len() {
                        assert(self.entries[i].waiters[k] == other);
                    }
                },
            }
        }
        if self.holds(other_handle, other) {
            let (i, k) = choose|i: int, k: int|
                0 <= i < self.entries.len() && 0 <= k < self.entries[i].waiters.len()
                    && self.entries[i].handle == other_handle
                    && #[trigger] self.entries[i].waiters[k] == other;
            assert(after.entries[i].waiters[k] == other);
        }
        if other_handle == handle && other == waiter {
            match self.position(handle) {
                Some(p) => {
                    assert(after.entries[p].waiters[self.entries[p].waiters.len() as int]
                        == waiter);
                },
                None => {
                    assert(after.entries[self.entries.len() as int].waiters[0] == waiter);
                },
            }
        }
    }

    /// Taking a row out adds no wait.
    pub proof fn lemma_without_holds(self, index: int, handle: HandleRef, waiter: Waiter)
        requires
            0 <= index < self.entries.len(),
            self.without(index).holds(handle, waiter),
        ensures
            self.holds(handle, waiter),
    {
        let after = self.without(index);
        let (i, k) = choose|i: int, k: int|
            0 <= i < after.entries.len() && 0 <= k < after.entries[i].waiters.len()
                && after.entries[i].handle == handle && #[trigger] after.entries[i].waiters[k]
                == waiter;
        let j = if i < index { i } else { i + 1 };
        assert(after.entries[i] == self.entries[j]);
        assert(self.entries[j].waiters[k] == waiter);
    }

    /// A sweep adds no wait.
    pub proof fn lemma_swept_holds(
        self,
        awaiting: Seq<u32>,
        id: TaskId,
        handle: HandleRef,
        waiter: Waiter,
    )
        requires
            self.wf(),
            self.swept(awaiting, id).holds(handle, waiter),
        ensures
            self.holds(handle, waiter),
    {
        let after = self.swept(awaiting, id);
        self.lemma_swept_rows(awaiting, id);
        let (i, k) = choose|i: int, k: int|
            0 <= i < after.entries.len() && 0 <= k < after.entries[i].waiters.len()
                && after.entries[i].handle == handle && #[trigger] after.entries[i].waiters[k]
                == waiter;
        assert(self.row_left(awaiting, id, after.entries[i]));
        let j = choose|j: int|
            0 <= j < self.entries.len() && self.row_kept(awaiting, id, j, after.entries[i]);
        if after.entries[i] == self.entries[j] {
            assert(self.entries[j].waiters[k] == waiter);
        } else {
            lemma_filter_sound(self.entries[j].waiters, is_other(id), k);
            let m = choose|m: int|
                0 <= m < self.entries[j].waiters.len() && self.entries[j].waiters[m] == waiter;
            assert(self.entries[j].waiters[m] == waiter);
        }
    }

    /// A row that the completion of task `id` leaves is a row of the swept
    /// table.
    pub proof fn lemma_swept_keeps_row(self, awaiting: Seq<u32>, id: TaskId, j: int)
        requires
            0 <= j < self.entries.len(),
            self.entries[j].after_completion(awaiting, id).is_some(),
        ensures
            self.swept(awaiting, id).entries.contains(
                self.entries[j].after_completion(awaiting, id).unwrap(),
            ),
        decreases self.entries.len(),
    {
        let after = self.swept(awaiting, id);
        let before = self.front().swept(awaiting, id);
        let row = self.entries[j].after_completion(awaiting, id).unwrap();
        self.lemma_swept_unfold(awaiting, id);
        if j == self.entries.len() - 1 {
            assert(self.entries[j] == self.entries.last());
            assert(after.entries[before.entries.len() as int] == row);
        } else {
            assert(self.front().entries[j] == self.entries[j]);
            self.front().lemma_swept_keeps_row(awaiting, id, j);
            let i = choose|i: int| 0 <= i < before.entries.len() && before.entries[i] == row;
            assert(after.entries[i] == row);
        }
    }

    /// A sweep for one task keeps the waits of every other task.
    pub proof fn lemma_swept_keeps(
        self,
        awaiting: Seq<u32>,
        id: TaskId,
        handle: HandleRef,
        waiter: Waiter,
    )
        requires
            self.holds(handle, waiter),
            waiter.id != id,
        ensures
            self.swept(awaiting, id).holds(handle, waiter),
    {
        let after = self.swept(awaiting, id);
        let (j, k) = choose|j: int, k: int|
            0 <= j < self.entries.len() && 0 <= k < self.entries[j].waiters.len()
                && self.entries[j].handle == handle && #[trigger] self.entries[j].waiters[k]
                == waiter;
        lemma_filter_complete(self.entries[j].waiters, is_other(id), k);
        let row = self.entries[j].after_completion(awaiting, id).unwrap();
        self.lemma_swept_keeps_row(awaiting, id, j);
        let i = choose|i: int| 0 <= i < after.entries.len() && after.entries[i] == row;
        let m = choose|m: int| 0 <= m < row.waiters.len() && row.waiters[m] == waiter;
        assert(after.entries[i].waiters[m] == waiter);
    }

    /// Taking a row out keeps the waits on every other handle, and leaves no
    /// wait on the handle of the row.
    pub proof fn lemma_without_keeps(self, index: int, handle: HandleRef, waiter: Waiter)
        requires
            self.wf(),
            0 <= index < self.entries.len(),
            self.holds(handle, waiter),
        ensures
            self.without(index).holds(handle, waiter) <==> self.entries[index].handle != handle,
    {
        let after = self.without(index);
        let (j, k) = choose|j: int, k: int|
            0 <= j < self.entries.len() && 0 <= k < self.entries[j].waiters.len()
                && self.entries[j].handle == handle && #[trigger] self.entries[j].waiters[k]
                == waiter;
        if self.entries[index].handle != handle {
            let i = if j < index { j } else { j - 1 };
            assert(after.entries[i] == self.entries[j]);
            assert(after.entries[i].waiters[k] == waiter);
        }
        if after.holds(handle, waiter) {
            let (i, m) = choose|i: int, m: int|
                0 <= i < after.entries.len() && 0 <= m < after.entries[i].waiters.len()
                    && after.entries[i].handle == handle && #[trigger] after.entries[i].waiters[m]
                    == waiter;
            let i0 = if i < index { i } else { i + 1 };
            assert(after.entries[i] == self.entries[i0]);
        }
    }

    /// A sweep for all the waits of a task leaves no wait of the task behind.
    pub proof fn lemma_swept_forgets(self, awaiting: Seq<u32>, id: TaskId)
        requires
            self.wf(),
            forall|j: int|
                0 <= j < self.entries.len() && (#[trigger] self.entries[j]).mentions(id)
                    ==> awaiting.contains(self.entries[j].handle.raw),
        ensures
            !self.swept(awaiting, id).mentions(id),
    {
        let after = self.swept(awaiting, id);
        self.lemma_swept_rows(awaiting, id);
        if after.mentions(id) {
            let i = choose|i: int|
                0 <= i < after.entries.len() && (#[trigger] after.entries[i]).mentions(id);
            assert(self.row_left(awaiting, id, after.entries[i]));
            let j = choose|j: int|
                0 <= j < self.entries.len() && self.row_kept(awaiting, id, j, after.entries[i]);
            self.entries[j].lemma_without_task_again(id);
        }
    }
}

/// Drops the waiters of task `id` from `list`, and keeps the others in order.
pub fn retain_others(list: &mut Vec<Waiter>, id: TaskId)
    ensures
        final(list)@ == old(list)@.filter(is_other(id)),
{
    let ghost given = list@;
    let ghost mut seen: int = 0;
    let mut i: usize = 0;
    while i < list.len()
        invariant
            0 <= i <= list.len(),
            0 <= seen <= given.len(),
            list@.take(i as int) == given.take(seen).filter(is_other(id)),
            list@.skip(i as int) == given.skip(seen),
        decreases list.len() - i,
    {
        proof {
            reveal(Seq::filter);
            assert(given.skip(seen).len() == list@.skip(i as int).len());
            assert(list@[i as int] == list@.skip(i as int)[0]);
            assert(given[seen] == given.skip(seen)[0]);
            assert(given.take(seen + 1).drop_last() == given.take(seen));
            assert(given.take(seen + 1).last() == given[seen]);
        }
        if list[i].id == id {
            let ghost before = list@;
            list.remove(i);
            proof {
                assert(list@.take(i as int) == before.take(i as int));
                assert(list@.skip(i as int) == before.skip(i as int).skip(1));
                assert(given.skip(seen + 1) == given.skip(seen).skip(1));
            }
        } else {
            proof {
                assert(list@.take(i as int + 1) == list@.take(i as int).push(list@[i as int]));
                assert(list@.skip(i as int + 1) == list@.skip(i as int).skip(1));
                assert(given.skip(seen + 1) == given.skip(seen).skip(1));
            }
            i = i + 1;
        }
        proof {
            seen = seen + 1;
        }
    }
    proof {
        assert(given.skip(seen).len() == 0);
        assert(given.take(seen) == given);
        assert(list@.take(i as int) == list@);
    }
}

/// The table of awaited handles.
///
/// The handles stand in a list of their own, which is what the kernel is
/// asked to wait on; the waiters of the handle at an index stand at the same
/// index of a second list.
pub struct Waitables {
    handles: Vec<HandleRef>,
    waiters: Vec<Vec<Waiter>>,
}

impl View for Waitables {
    type V = Table;

    closed spec fn view(&self) -> Table {
        Table {
            entries: Seq::new(
                self.handles@.len(),
                |i: int| Watch { handle: self.handles@[i], waiters: self.waiters@[i]@ },
            ),
        }
    }
}

impl Waitables {
    /// The two lists are equally long, and the table is in order.
    pub closed spec fn wf(&self) -> bool {
        &&& self.handles@.len() == self.waiters@.len()
        &&& self@.wf()
    }

    /// What is in order as a list is in order as a table.
    pub proof fn lemma_wf(&self)
        requires
            self.wf(),
        ensures
            self@.wf(),
    {
    }

    /// An empty table.
    pub fn new() -> (table: Waitables)
        ensures
            table.wf(),
            table@.entries == Seq::<Watch>::empty(),
    {
        let table = Waitables { handles: Vec::new(), waiters: Vec::new() };
        assert(table@.entries =~= Seq::<Watch>::empty());
        table
    }

    /// The number of watched handles.
    pub fn len(&self) -> (len: usize)
        requires
            self.wf(),
        ensures
            len == self@.entries.len(),
    {
        self.handles.len()
    }

    /// Whether no handle is watched.
    pub fn is_empty(&self) -> (empty: bool)
        requires
            self.wf(),
        ensures
            empty == (self@.entries.len() == 0),
    {
        self.handles.len() == 0
    }

    /// The watched handles, in the order of the rows: the list to wait on.
    pub fn handles(&self) -> (handles: &Vec<HandleRef>)
        requires
            self.wf(),
        ensures
            handles@ == self@.handles(),
    {
        assert(self.handles@ =~= self@.handles());
        &self.handles
    }

    /// The waiters of the handle in row `index`, oldest first.
    pub fn waiters(&self, index: usize) -> (waiters: &Vec<Waiter>)
        requires
            self.wf(),
            index < self@.entries.len(),
        ensures
            waiters@ == self@.entries[index as int].waiters,
    {
        &self.waiters[index]
    }

    /// The row of `handle`, if the handle is watched.
    pub fn position(&self, handle: HandleRef) -> (found: Option<usize>)
        requires
            self.wf(),
        ensures
            match found {
                Some(i) => self@.position(handle) == Some(i as int) && i < self@.entries.len(),
                None => self@.position(handle).is_none(),
            },
    {
        let mut i: usize = 0;
        while i < self.handles.len()
            invariant
                self.wf(),
                0 <= i <= self.handles@.len(),
                forall|k: int| 0 <= k < i ==> (#[trigger] self@.entries[k]).handle != handle,
            decreases self.handles.len() - i,
        {
            if self.handles[i] == handle {
                proof {
                    self@.lemma_position(handle, i as int);
                }
                return Some(i);
            }
            i = i + 1;
        }
        None
    }

    /// Registers `waiter` for `handle`, behind the waiters that the handle has.
    pub fn register(&mut self, handle: HandleRef, waiter: Waiter)
        requires
            old(self).wf(),
        ensures
            final(self).wf(),
            final(self)@ == old(self)@.registered(handle, waiter),
    {
        proof {
            old(self)@.lemma_registered_wf(handle, waiter);
        }
        match self.position(handle) {
            Some(i) => {
                self.waiters[i].push(waiter);
                assert(self@.entries =~= old(self)@.registered(handle, waiter).entries);
            },
            None => {
                self.handles.push(handle);
                let mut list: Vec<Waiter> = Vec::new();
                list.push(waiter);
                self.waiters.push(list);
                assert(self@.entries =~= old(self)@.registered(handle, waiter).entries);
            },
        }
    }

    /// Takes row `index` out of the table and hands back its waiters, oldest
    /// first. This is what a signal on the handle of that row calls for.
    pub fn take(&mut self, index: usize) -> (waiters: Vec<Waiter>)
        requires
            old(self).wf(),
            index < old(self)@.entries.len(),
        ensures
            final(self).wf(),
            final(self)@ == old(self)@.without(index as int),
            waiters@ == old(self)@.entries[index as int].waiters,
    {
        proof {
            old(self)@.lemma_without_wf(index as int);
        }
        self.handles.remove(index);
        let waiters = self.waiters.remove(index);
        assert(self@.entries =~= old(self)@.without(index as int).entries);
        waiters
    }

    /// Drops the waits of task `id` on the handle with number `raw`, and the
    /// row of that handle if this leaves it without waiters.
    pub fn release(&mut self, raw: u32, id: TaskId)
        requires
            old(self).wf(),
        ensures
            final(self).wf(),
            final(self)@ == old(self)@.released(raw, id),
    {
        proof {
            old(self)@.lemma_released_wf(raw, id);
        }
        match self.position(HandleRef::new(raw)) {
            Some(i) => {
                retain_others(&mut self.waiters[i], id);
                if self.waiters[i].len() == 0 {
                    self.handles.remove(i);
                    self.waiters.remove(i);
                    assert(self@.entries =~= old(self)@.released(raw, id).entries);
                } else {
                    assert(self@.entries =~= old(self)@.released(raw, id).entries);
                }
            },
            None => {},
        }
    }

    /// Forgets task `id`, which has completed after asking for the waits
    /// `awaiting`: for each of them in turn, the waits of the task on that
    /// handle are dropped, and the handle with them if nobody else waits on it.
    pub fn sweep(&mut self, awaiting: &Vec<u32>, id: TaskId)
        requires
            old(self).wf(),
        ensures
            final(self).wf(),
            final(self)@ == old(self)@.swept(awaiting@, id),
    {
        proof {
            old(self)@.lemma_swept_nothing(id);
            assert(awaiting@.take(0) == Seq::<u32>::empty());
        }
        let mut k: usize = 0;
        while k < awaiting.len()
            invariant
                0 <= k <= awaiting.len(),
                old(self).wf(),
                self.wf(),
                self@ == old(self)@.swept(awaiting@.take(k as int), id),
            decreases awaiting.len() - k,
        {
            proof {
                old(self)@.lemma_swept_push(awaiting@.take(k as int), awaiting@[k as int], id);
                assert(awaiting@.take(k as int + 1) == awaiting@.take(k as int).push(
                    awaiting@[k as int],
                ));
            }
            self.release(awaiting[k], id);
            k = k + 1;
        }
        assert(awaiting@.take(k as int) == awaiting@);
    }
}

} // verus!
