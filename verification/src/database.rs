//! The backend façade: one root tree, one point of mutation entry, and a
//! running/terminated life cycle.

use vstd::prelude::*;
use crate::command::{Command, CommandResult, Operation};
use crate::event::StoreEvent;
use crate::model::{
    empty_tbl, m_add_listener, m_path_listeners, m_remove_listener, m_set, m_set_lands, path_view,
    table_view, table_wf, tbl_listeners, tbl_size, value_view,
};
use crate::table::Table;
use std::collections::VecDeque;

verus! {

/// The life cycle of a backend: it accepts commands while running;
/// termination is the only transition out, and no command is accepted after
/// it.
#[derive(Clone, Copy, Debug, PartialEq, Eq, Structural)]
pub enum DatabaseState {
    Running,
    Terminated,
}

/// The backend: the exclusive owner of one root storage tree, and the
/// single point through which commands mutate it.
pub struct Database {
    pub root: Table,
    pub state: DatabaseState,
}

/// Validity of a backend: its tree is well-formed.
pub open spec fn database_wf(db: Database) -> bool {
    table_wf(db.root)
}

/// What executing `cmd` against `pre` must produce.  A terminated backend
/// rejects every command.  A running backend answers every command:
/// termination stops it; a read changes nothing; a write without a usable
/// address (no path, an empty path, or no argument) changes nothing; a
/// landing write stores its argument, reports one modified row, and emits
/// one event per listener on the written path, nearest the root first; a
/// write dropped by a scalar in its way reports no modified row and emits
/// nothing.
pub open spec fn execute_post(
    pre: Database,
    cmd: Command,
    post: Database,
    r: Option<(CommandResult, Vec<StoreEvent>)>,
) -> bool {
    if pre.state is Terminated {
        r is None && post == pre
    } else {
        match r {
            None => false,
            Some((res, events)) => match cmd.operation {
                Operation::Terminate => post.state is Terminated && post.root == pre.root
                    && res.modified_row_count == 0 && events@.len() == 0,
                Operation::Read => post == pre && res.modified_row_count == 0 && events@.len()
                    == 0,
                Operation::Write => post.state is Running && match cmd.path {
                    None => post.root == pre.root && res.modified_row_count == 0 && events@.len()
                        == 0,
                    Some(pv) => if pv@.len() == 0 || cmd.args@.len() == 0 {
                        post.root == pre.root && res.modified_row_count == 0 && events@.len() == 0
                    } else {
                        let tv = table_view(pre.root);
                        let p = path_view(pv@);
                        let v = value_view(cmd.args@[0]);
                        table_view(post.root) == m_set(tv, p, v) && if m_set_lands(tv, p) {
                            res.modified_row_count == 1 && events_match(
                                events@,
                                m_path_listeners(m_set(tv, p, v), p),
                                pv@,
                            )
                        } else {
                            res.modified_row_count == 0 && events@.len() == 0
                        }
                    },
                },
            },
        }
    }
}

/// The events carry exactly the given targets in order, and each names the
/// written path and the write operation.
pub open spec fn events_match(events: Seq<StoreEvent>, ids: Seq<usize>, path: Seq<String>) -> bool {
    &&& events.len() == ids.len()
    &&& forall|i: int| #![trigger events[i]]
        0 <= i < events.len() ==> {
            &&& events[i].target == ids[i]
            &&& events[i].content.operation is Write
            &&& path_view(events[i].content.path@) == path_view(path)
        }
}

/// The room the store machine needs for `cmd`: a landing write's resulting
/// tree footprint must fit the machine's word.
pub open spec fn execute_fits(pre: Database, cmd: Command) -> bool {
    pre.state is Running && cmd.operation is Write ==> match cmd.path {
        Some(pv) => pv@.len() > 0 && cmd.args@.len() > 0 ==> tbl_size(
            m_set(table_view(pre.root), path_view(pv@), value_view(cmd.args@[0])),
        ) <= usize::MAX,
        None => true,
    }
}

/// A path handed over as a double-ended queue of its segments.
fn to_deque(path: &Vec<String>) -> (r: VecDeque<String>)
    ensures
        r@.len() == path@.len(),
        path_view(r@) == path_view(path@),
{
    let n: usize = path.len();
    let mut r: VecDeque<String> = VecDeque::new();
    let mut j: usize = 0;
    while j < n
        invariant
            j <= n,
            n == path@.len(),
            r@.len() == j,
            forall|i: int| 0 <= i < j ==> #[trigger] r@[i]@ == path@[i]@,
        decreases n - j,
    {
        r.push_back(path[j].clone());
        j = j + 1;
    }
    proof {
        assert(path_view(r@) =~= path_view(path@));
    }
    r
}

/// A copy of a path, segment by segment.
fn copy_path(path: &Vec<String>) -> (r: Vec<String>)
    ensures
        r@.len() == path@.len(),
        path_view(r@) == path_view(path@),
{
    let n: usize = path.len();
    let mut r: Vec<String> = Vec::new();
    let mut j: usize = 0;
    while j < n
        invariant
            j <= n,
            n == path@.len(),
            r@.len() == j,
            forall|i: int| 0 <= i < j ==> #[trigger] r@[i]@ == path@[i]@,
        decreases n - j,
    {
        r.push(path[j].clone());
        j = j + 1;
    }
    proof {
        assert(path_view(r@) =~= path_view(path@));
    }
    r
}

impl Database {
    /// A fresh backend: an empty tree, running.
    pub fn new() -> (r: Database)
        ensures
            database_wf(r),
            r.state is Running,
            table_view(r.root) == empty_tbl(),
    {
        Database { root: Table::new(), state: DatabaseState::Running }
    }

    /// The root storage node.
    pub fn table(&self) -> (r: &Table)
        ensures
            r == &self.root,
    {
        &self.root
    }

    /// Exclusive access to the root storage node.
    pub fn table_mut(&mut self) -> (r: &mut Table)
        ensures
            *r == old(self).root,
            final(self).root == *final(r),
            final(self).state == old(self).state,
    {
        &mut self.root
    }

    /// Whether the backend still accepts commands.
    pub fn is_running(&self) -> (r: bool)
        ensures
            r == (self.state is Running),
    {
        match self.state {
            DatabaseState::Running => true,
            DatabaseState::Terminated => false,
        }
    }

    /// Registers a listener on the field addressed by `path`; the change is
    /// folded into every affected cached count.  Returns whether a
    /// registration happened.
    pub fn add_listener(&mut self, path: &VecDeque<String>, id: usize) -> (added: bool)
        requires
            database_wf(*old(self)),
            tbl_listeners(m_add_listener(table_view(old(self).root), path_view(path@), id))
                <= usize::MAX,
        ensures
            database_wf(*final(self)),
            final(self).state == old(self).state,
            table_view(final(self).root) == m_add_listener(
                table_view(old(self).root),
                path_view(path@),
                id,
            ),
            tbl_listeners(table_view(final(self).root)) == tbl_listeners(
                table_view(old(self).root),
            ) + (if added {
                1nat
            } else {
                0nat
            }),
    {
        self.root.add_listener_at(path, id)
    }

    /// Unregisters a listener from the field addressed by `path`; the
    /// change is folded into every affected cached count.  Returns whether
    /// a registration was removed.
    pub fn remove_listener(&mut self, path: &VecDeque<String>, id: usize) -> (removed: bool)
        requires
            database_wf(*old(self)),
        ensures
            database_wf(*final(self)),
            final(self).state == old(self).state,
            table_view(final(self).root) == m_remove_listener(
                table_view(old(self).root),
                path_view(path@),
                id,
            ),
            tbl_listeners(table_view(final(self).root)) + (if removed {
                1nat
            } else {
                0nat
            }) == tbl_listeners(table_view(old(self).root)),
    {
        self.root.remove_listener_at(path, id)
    }

    /// Executes one command, per `execute_post`: rejected with `None` once
    /// the backend is terminated; otherwise the outcome summary together
    /// with one event per listener owed a notification.
    pub fn execute(&mut self, cmd: &Command) -> (r: Option<(CommandResult, Vec<StoreEvent>)>)
        requires
            database_wf(*old(self)),
            crate::command::command_wf(*cmd),
            execute_fits(*old(self), *cmd),
        ensures
            database_wf(*final(self)),
            execute_post(*old(self), *cmd, *final(self), r),
    {
        match self.state {
            DatabaseState::Terminated => None,
            DatabaseState::Running => match cmd.get_operation() {
                Operation::Terminate => {
                    self.state = DatabaseState::Terminated;
                    Some((CommandResult::new(0), Vec::new()))
                },
                Operation::Read => Some((CommandResult::new(0), Vec::new())),
                Operation::Write => {
                    match cmd.get_path() {
                        None => Some((CommandResult::new(0), Vec::new())),
                        Some(pv) => {
                            if pv.len() == 0 || cmd.args().len() == 0 {
                                Some((CommandResult::new(0), Vec::new()))
                            } else {
                                let dq_write = to_deque(pv);
                                let dq_query = to_deque(pv);
                                let ghost tv = table_view(old(self).root);
                                let ghost p = path_view(pv@);
                                let ghost v = value_view(cmd.args@[0]);
                                let lands: bool = self.root.write_lands(&dq_query);
                                proof {
                                    assert(path_view(dq_write@) == p);
                                }
                                self.root.set(dq_write, &cmd.args[0]);
                                if lands {
                                    let ids: Vec<usize> = self.root.path_listener_ids(&dq_query);
                                    proof {
                                        assert(ids@ == m_path_listeners(m_set(tv, p, v), p));
                                    }
                                    let n: usize = ids.len();
                                    let mut events: Vec<StoreEvent> = Vec::new();
                                    let mut j: usize = 0;
                                    while j < n
                                        invariant
                                            j <= n,
                                            n == ids@.len(),
                                            events@.len() == j,
                                            forall|q: int| #![trigger events@[q]]
                                                0 <= q < j ==> {
                                                    &&& events@[q].target == ids@[q]
                                                    &&& events@[q].content.operation is Write
                                                    &&& path_view(events@[q].content.path@)
                                                        == path_view(pv@)
                                                },
                                        decreases n - j,
                                    {
                                        let target: usize = ids[j];
                                        events.push(
                                            StoreEvent::at_path(
                                                copy_path(pv),
                                                Operation::Write,
                                                target,
                                            ),
                                        );
                                        j = j + 1;
                                    }
                                    Some((CommandResult::new(1), events))
                                } else {
                                    Some((CommandResult::new(0), Vec::new()))
                                }
                            }
                        },
                    }
                },
            },
        }
    }
}

} // verus!
