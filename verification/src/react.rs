//! A reactive dependency-graph computation engine.
//!
//! A `Reactor` owns a set of input cells, set directly by the caller, and a
//! set of compute cells, each derived from earlier cells by a pure function.
//! Setting an input brings every transitively dependent compute cell to a
//! value consistent with the new input (a cell is recomputed only after all
//! of its own dependencies have settled, so diamond-shaped graphs never
//! observe a stale sibling), and then records exactly one notification per
//! registered callback of each compute cell whose settled value changed.
//!
//! Compute functions are data (`ComputeFn`), and callback closures live with
//! the caller: the reactor records `Notification` values naming the callback
//! registrations that are due, in firing order, and the caller dispatches
//! them. Dependencies are fixed at creation and always point at cells created
//! earlier, so the graph is acyclic by construction and increasing creation
//! order is a topological order.

use vstd::prelude::*;

verus! {

/// `InputCellId` is a unique identifier for an input cell, scoped to one
/// `Reactor` instance.
#[derive(Clone, Copy, Debug, PartialEq, Eq, Hash, Structural)]
pub struct InputCellId(pub usize);

/// `ComputeCellId` is a unique identifier for a compute cell. Values of type
/// `InputCellId` and `ComputeCellId` are not mutually assignable.
#[derive(Clone, Copy, Debug, PartialEq, Eq, Hash, Structural)]
pub struct ComputeCellId(pub usize);

/// `CallbackId` identifies one callback registration on one compute cell.
#[derive(Clone, Copy, Debug, PartialEq, Eq, Hash, Structural)]
pub struct CallbackId(pub usize);

/// A dependency or lookup target that may be either kind of cell. The two id
/// spaces never compare equal to each other: identity is (kind, integer).
#[derive(Clone, Copy, Debug, PartialEq, Eq, Hash, Structural)]
pub enum CellId {
    Input(InputCellId),
    Compute(ComputeCellId),
}

/// Why removing a callback failed.
#[derive(Clone, Copy, Debug, PartialEq, Eq, Structural)]
pub enum RemoveCallbackError {
    NonexistentCell,
    NonexistentCallback,
}

/// A pure function from the ordered dependency values to a cell value.
/// Arithmetic wraps around on overflow.
#[derive(Debug, PartialEq, Eq)]
pub enum ComputeFn {
    /// Always the given constant, whatever the dependencies hold.
    Const(i64),
    /// The value of the dependency at the given position, or 0 when the
    /// position is out of range. `Arg(0)` is the identity on one dependency.
    Arg(usize),
    /// `offset + sum of coefficient * dependency value`, with wrapping
    /// arithmetic, over as many terms as both lists provide.
    Linear(Vec<i64>, i64),
}

/// One step of the linear accumulation: `acc + c * v`, wrapping.
pub open spec fn lin_step(acc: i64, c: i64, v: i64) -> i64 {
    vstd::wrapping::i64_specs::wrapping_add(acc, vstd::wrapping::i64_specs::wrapping_mul(c, v))
}

/// The linear accumulation `acc + sum_{k in j..} coeffs[k] * vals[k]`,
/// wrapping, stopping at the shorter of the two lists.
pub open spec fn lin_acc(coeffs: Seq<i64>, vals: Seq<i64>, acc: i64, j: int) -> i64
    decreases coeffs.len() - j,
{
    if j < 0 || j >= coeffs.len() || j >= vals.len() {
        acc
    } else {
        lin_acc(coeffs, vals, lin_step(acc, coeffs[j], vals[j]), j + 1)
    }
}

/// What a `ComputeFn` yields on the given ordered dependency values.
pub open spec fn eval_fn(f: ComputeFn, vals: Seq<i64>) -> i64 {
    match f {
        ComputeFn::Const(k) => k,
        ComputeFn::Arg(i) => if i < vals.len() {
            vals[i as int]
        } else {
            0
        },
        ComputeFn::Linear(coeffs, offset) => lin_acc(coeffs@, vals, offset, 0),
    }
}

/// Evaluate a `ComputeFn` on the given ordered dependency values.
pub fn eval_compute(f: &ComputeFn, vals: &Vec<i64>) -> (r: i64)
    ensures
        r == eval_fn(*f, vals@),
{
    match f {
        ComputeFn::Const(k) => *k,
        ComputeFn::Arg(i) => {
            if *i < vals.len() {
                vals[*i]
            } else {
                0
            }
        },
        ComputeFn::Linear(coeffs, offset) => {
            let mut acc: i64 = *offset;
            let mut j: usize = 0;
            let end = if coeffs.len() < vals.len() {
                coeffs.len()
            } else {
                vals.len()
            };
            while j < end
                invariant
                    j <= end,
                    end <= coeffs@.len(),
                    end <= vals@.len(),
                    lin_acc(coeffs@, vals@, acc, j as int) == lin_acc(coeffs@, vals@, *offset, 0),
                decreases end - j,
            {
                acc = acc.wrapping_add(coeffs[j].wrapping_mul(vals[j]));
                j = j + 1;
            }
            acc
        },
    }
}

/// A cell value together with the value last delivered to callbacks, which
/// gates notification: a callback is due exactly when the two differ.
#[derive(Clone, Copy, Debug, PartialEq, Eq, Structural)]
pub struct ValueWithMemory {
    pub value: i64,
    pub last_value: i64,
}

impl ValueWithMemory {
    /// A fresh pair: nothing is owed to callbacks for the initial value.
    pub fn new(value: i64) -> (r: ValueWithMemory)
        ensures
            r.value == value,
            r.last_value == value,
    {
        ValueWithMemory { value, last_value: value }
    }

    /// The current value.
    pub fn get(&self) -> (r: i64)
        ensures
            r == self.value,
    {
        self.value
    }

    /// Whether the current value differs from the last notified one.
    pub fn has_changed(&self) -> (r: bool)
        ensures
            r == (self.value != self.last_value),
    {
        self.value != self.last_value
    }

    /// Replace the current value, leaving the notified marker in place.
    pub fn set(&mut self, value: i64)
        ensures
            final(self).value == value,
            final(self).last_value == old(self).last_value,
    {
        self.value = value;
    }

    /// Record the value just delivered to callbacks.
    pub fn set_last(&mut self, value: i64)
        ensures
            final(self).value == old(self).value,
            final(self).last_value == value,
    {
        self.last_value = value;
    }
}

/// An input cell: its value with notification memory, and the compute cells
/// that name it directly as a dependency, in registration order.
#[derive(Debug)]
pub struct Cell {
    pub value: ValueWithMemory,
    pub dependents: Vec<ComputeCellId>,
}

impl Cell {
    /// A fresh cell holding `initial`, with no dependents yet.
    pub fn new(initial: i64) -> (r: Cell)
        ensures
            r.value.value == initial,
            r.value.last_value == initial,
            r.dependents@ == Seq::<ComputeCellId>::empty(),
    {
        Cell { value: ValueWithMemory::new(initial), dependents: Vec::new() }
    }

    /// Replace the current value, leaving the notified marker in place.
    pub fn update(&mut self, new_value: i64)
        ensures
            final(self).value.value == new_value,
            final(self).value.last_value == old(self).value.last_value,
            final(self).dependents == old(self).dependents,
    {
        self.value.set(new_value)
    }
}

/// A compute cell: its value cell, the ordered dependency ids fixed at
/// creation, the pure function over them, and the callback registrations.
#[derive(Debug)]
pub struct ComputeCell {
    pub cell: Cell,
    pub deps: Vec<CellId>,
    pub fun: ComputeFn,
    pub callbacks: Vec<CallbackId>,
}

impl ComputeCell {
    /// A fresh compute cell seeded with `initial` as both current and
    /// last-notified value.
    pub fn new(initial: i64, deps: Vec<CellId>, f: ComputeFn) -> (r: ComputeCell)
        ensures
            r.cell.value.value == initial,
            r.cell.value.last_value == initial,
            r.cell.dependents@ == Seq::<ComputeCellId>::empty(),
            r.deps == deps,
            r.fun == f,
            r.callbacks@ == Seq::<CallbackId>::empty(),
    {
        ComputeCell { cell: Cell::new(initial), deps, fun: f, callbacks: Vec::new() }
    }
}

/// One callback firing that is due: the compute cell, the callback
/// registration, and the settled value to deliver.
#[derive(Clone, Copy, Debug, PartialEq, Eq, Structural)]
pub struct Notification {
    pub cell: ComputeCellId,
    pub callback: CallbackId,
    pub value: i64,
}

/// The reactive engine: the sole owner of all cell state. Callback closures
/// live with the caller; the reactor records due notifications in order.
#[derive(Debug)]
pub struct Reactor {
    pub inputs: Vec<Cell>,
    pub cells: Vec<ComputeCell>,
    pub next_callback_id: usize,
    pub log: Vec<Notification>,
}

/// Whether `id` names a cell, given the two cell stores.
pub open spec fn valid_id(num_inputs: int, num_cells: int, id: CellId) -> bool {
    match id {
        CellId::Input(i) => i.0 < num_inputs,
        CellId::Compute(c) => c.0 < num_cells,
    }
}

/// The current value stored behind `id`; 0 for an unknown id.
pub open spec fn dep_val_in(inputs: Seq<Cell>, cells: Seq<ComputeCell>, id: CellId) -> i64 {
    match id {
        CellId::Input(i) => if i.0 < inputs.len() {
            inputs[i.0 as int].value.value
        } else {
            0
        },
        CellId::Compute(c) => if c.0 < cells.len() {
            cells[c.0 as int].cell.value.value
        } else {
            0
        },
    }
}

/// The ordered current values of the dependencies of compute cell `k`.
pub open spec fn dep_vals_in(inputs: Seq<Cell>, cells: Seq<ComputeCell>, k: int) -> Seq<i64> {
    Seq::new(cells[k].deps@.len(), |j: int| dep_val_in(inputs, cells, cells[k].deps@[j]))
}

/// Every dependency of compute cell `k` exists, and a compute dependency was
/// created strictly earlier than `k`: the graph is acyclic and creation
/// order is a topological order.
pub open spec fn deps_ok_in(num_inputs: int, cells: Seq<ComputeCell>, k: int) -> bool {
    forall|j: int|
        0 <= j < cells[k].deps@.len() ==> match #[trigger] cells[k].deps@[j] {
            CellId::Input(i) => i.0 < num_inputs,
            CellId::Compute(c) => c.0 < k,
        }
}

/// Compute cell `k` holds the value of its function on the current values
/// of its dependencies.
pub open spec fn settled_in(inputs: Seq<Cell>, cells: Seq<ComputeCell>, k: int) -> bool {
    cells[k].cell.value.value == eval_fn(cells[k].fun, dep_vals_in(inputs, cells, k))
}

/// Nothing is owed to the callbacks of compute cell `k`: its current value
/// is the value last notified.
pub open spec fn quiescent_in(cells: Seq<ComputeCell>, k: int) -> bool {
    cells[k].cell.value.value == cells[k].cell.value.last_value
}

/// The callback registrations of compute cell `k` are strictly increasing
/// (so no id is registered twice) and below the allocator.
pub open spec fn callbacks_ok_in(cells: Seq<ComputeCell>, next_callback_id: int, k: int) -> bool {
    &&& (forall|a: int, b: int|
        0 <= a < b < cells[k].callbacks@.len() ==> (#[trigger] cells[k].callbacks@[a]).0
            < (#[trigger] cells[k].callbacks@[b]).0)
    &&& (forall|a: int|
        0 <= a < cells[k].callbacks@.len() ==> (#[trigger] cells[k].callbacks@[a]).0
            < next_callback_id)
}

impl Reactor {
    /// How many input cells exist.
    pub open spec fn num_inputs(self) -> int {
        self.inputs@.len() as int
    }

    /// How many compute cells exist.
    pub open spec fn num_cells(self) -> int {
        self.cells@.len() as int
    }

    /// The current value of input cell `i`.
    pub open spec fn input_value(self, i: int) -> i64 {
        self.inputs@[i].value.value
    }

    /// The notifications recorded so far, in firing order.
    pub open spec fn notification_log(self) -> Seq<Notification> {
        self.log@
    }

    /// Whether `id` names a cell of this reactor.
    pub open spec fn spec_valid_id(self, id: CellId) -> bool {
        valid_id(self.num_inputs(), self.num_cells(), id)
    }

    /// The current value stored behind `id`; 0 for an unknown id.
    pub open spec fn dep_val(self, id: CellId) -> i64 {
        dep_val_in(self.inputs@, self.cells@, id)
    }

    /// The ordered current values of the dependencies of compute cell `k`.
    pub open spec fn dep_vals(self, k: int) -> Seq<i64> {
        dep_vals_in(self.inputs@, self.cells@, k)
    }

    /// What `value` returns for `id`.
    pub open spec fn value_spec(self, id: CellId) -> Option<i64> {
        if self.spec_valid_id(id) {
            Some(self.dep_val(id))
        } else {
            None
        }
    }

    /// The reactor invariant: every compute cell has sound dependencies,
    /// holds a settled value, owes nothing to its callbacks, and has
    /// well-formed callback registrations.
    pub open spec fn wf(self) -> bool {
        forall|k: int|
            0 <= k < self.cells@.len() ==> (#[trigger] deps_ok_in(
                self.inputs@.len() as int,
                self.cells@,
                k,
            )) && settled_in(self.inputs@, self.cells@, k) && quiescent_in(self.cells@, k)
                && callbacks_ok_in(self.cells@, self.next_callback_id as int, k)
    }

    /// Create a reactor with no cells.
    pub fn new() -> (r: Reactor)
        ensures
            r.num_inputs() == 0,
            r.num_cells() == 0,
            r.notification_log() == Seq::<Notification>::empty(),
            r.next_callback_id == 0,
            r.wf(),
    {
        Reactor { inputs: Vec::new(), cells: Vec::new(), next_callback_id: 0, log: Vec::new() }
    }

    /// Create an input cell holding `initial`, returning its id. The new id
    /// is fresh, and no other cell is touched.
    pub fn create_input(&mut self, initial: i64) -> (r: InputCellId)
        requires
            old(self).wf(),
        ensures
            final(self).wf(),
            r.0 == old(self).num_inputs(),
            final(self).inputs@.len() == old(self).inputs@.len() + 1,
            forall|i: int|
                0 <= i < old(self).inputs@.len() ==> final(self).inputs@[i] == old(self).inputs@[i],
            final(self).input_value(r.0 as int) == initial,
            final(self).inputs@[r.0 as int].value.last_value == initial,
            final(self).inputs@[r.0 as int].dependents@ == Seq::<ComputeCellId>::empty(),
            final(self).cells == old(self).cells,
            final(self).log == old(self).log,
            final(self).next_callback_id == old(self).next_callback_id,
            final(self).value_spec(CellId::Input(r)) == Some(initial),
    {
        let id = InputCellId(self.inputs.len());
        self.inputs.push(Cell::new(initial));
        proof {
            lemma_grow_inputs_keeps_wf(*old(self), *self);
        }
        id
    }

    /// Retrieve the current value of the cell, or `None` if the cell does
    /// not exist. No side effects.
    pub fn value(&self, id: CellId) -> (r: Option<i64>)
        ensures
            r == self.value_spec(id),
    {
        match id {
            CellId::Input(i) => {
                if i.0 < self.inputs.len() {
                    Some(self.inputs[i.0].value.get())
                } else {
                    None
                }
            },
            CellId::Compute(c) => {
                if c.0 < self.cells.len() {
                    Some(self.cells[c.0].cell.value.get())
                } else {
                    None
                }
            },
        }
    }

    /// The notifications recorded so far, oldest first. Each `set_value`
    /// call appends one entry per callback that became due.
    pub fn notifications(&self) -> (r: &Vec<Notification>)
        ensures
            r@ == self.notification_log(),
    {
        &self.log
    }

    /// Hand the recorded notifications to the caller for dispatch, leaving
    /// the log empty.
    pub fn take_notifications(&mut self) -> (r: Vec<Notification>)
        requires
            old(self).wf(),
        ensures
            final(self).wf(),
            r@ == old(self).notification_log(),
            final(self).notification_log() == Seq::<Notification>::empty(),
            final(self).inputs == old(self).inputs,
            final(self).cells == old(self).cells,
            final(self).next_callback_id == old(self).next_callback_id,
    {
        let mut taken: Vec<Notification> = Vec::new();
        core::mem::swap(&mut taken, &mut self.log);
        proof {
            lemma_grow_inputs_keeps_wf(*old(self), *self);
        }
        taken
    }

    /// Read the current values behind the given cell ids, in order.
    fn read_values(&self, deps: &Vec<CellId>) -> (r: Vec<i64>)
        requires
            forall|j: int|
                0 <= j < deps@.len() ==> valid_id(
                    self.inputs@.len() as int,
                    self.cells@.len() as int,
                    #[trigger] deps@[j],
                ),
        ensures
            r@.len() == deps@.len(),
            forall|j: int|
                0 <= j < deps@.len() ==> r@[j] == dep_val_in(self.inputs@, self.cells@, deps@[j]),
    {
        let mut vals: Vec<i64> = Vec::new();
        let nd = deps.len();
        let mut j: usize = 0;
        while j < nd
            invariant
                j <= nd,
                nd == deps@.len(),
                vals@.len() == j,
                forall|jj: int|
                    0 <= jj < j ==> vals@[jj] == dep_val_in(self.inputs@, self.cells@, deps@[jj]),
                forall|jj: int|
                    0 <= jj < deps@.len() ==> valid_id(
                        self.inputs@.len() as int,
                        self.cells@.len() as int,
                        #[trigger] deps@[jj],
                    ),
            decreases nd - j,
        {
            let d = deps[j];
            let v = match d {
                CellId::Input(i) => self.inputs[i.0].value.get(),
                CellId::Compute(c) => self.cells[c.0].cell.value.get(),
            };
            vals.push(v);
            j = j + 1;
        }
        vals
    }

    /// Recompute the value that compute cell `k` should hold for the current
    /// state: its function, applied to the current dependency values.
    fn compute_cell_value(&self, k: usize) -> (v: i64)
        requires
            k < self.cells@.len(),
            deps_ok_in(self.inputs@.len() as int, self.cells@, k as int),
        ensures
            v == eval_fn(self.cells@[k as int].fun, dep_vals_in(self.inputs@, self.cells@, k as int)),
    {
        let vals = self.read_values(&self.cells[k].deps);
        proof {
            assert(vals@ =~= dep_vals_in(self.inputs@, self.cells@, k as int));
        }
        eval_compute(&self.cells[k].fun, &vals)
    }

    /// Create a compute cell that depends on the given cells, in the given
    /// order, and derives its value by `compute_func`.
    ///
    /// If any dependency does not exist, the first such dependency id is
    /// returned as the error and nothing is changed. On success the new cell
    /// is registered as a direct dependent of each of its dependencies (once
    /// per occurrence, in order), and it is seeded with the function's value
    /// on the current dependency values, owing nothing to callbacks.
    #[verifier::loop_isolation(false)]
    pub fn create_compute(&mut self, dependencies: &Vec<CellId>, compute_func: ComputeFn) -> (r:
        Result<ComputeCellId, CellId>)
        requires
            old(self).wf(),
        ensures
            final(self).wf(),
            ({
                let miss = first_missing(
                    old(self).num_inputs(),
                    old(self).num_cells(),
                    dependencies@,
                    0,
                );
                if miss < dependencies@.len() {
                    &&& r == Err::<ComputeCellId, CellId>(dependencies@[miss])
                    &&& *final(self) == *old(self)
                } else {
                    let me = ComputeCellId(old(self).cells@.len() as usize);
                    let initial = eval_fn(
                        compute_func,
                        deps_values_in(old(self).inputs@, old(self).cells@, dependencies@),
                    );
                    &&& r == Ok::<ComputeCellId, CellId>(me)
                    &&& final(self).cells@.len() == old(self).cells@.len() + 1
                    &&& final(self).cells@[me.0 as int].deps@ == dependencies@
                    &&& final(self).cells@[me.0 as int].fun == compute_func
                    &&& final(self).cells@[me.0 as int].cell.value.value == initial
                    &&& final(self).cells@[me.0 as int].cell.value.last_value == initial
                    &&& final(self).cells@[me.0 as int].callbacks@ =~= Seq::<CallbackId>::empty()
                    &&& final(self).cells@[me.0 as int].cell.dependents@ =~= Seq::<
                        ComputeCellId,
                    >::empty()
                    &&& final(self).inputs@.len() == old(self).inputs@.len()
                    &&& (forall|i: int|
                        0 <= i < old(self).inputs@.len()
                            ==> (#[trigger] final(self).inputs@[i]).value == old(
                            self,
                        ).inputs@[i].value && final(self).inputs@[i].dependents@ == old(
                            self,
                        ).inputs@[i].dependents@ + repeated_id(
                            me,
                            count_occ(
                                dependencies@,
                                dependencies@.len() as int,
                                CellId::Input(InputCellId(i as usize)),
                            ),
                        ))
                    &&& (forall|k: int|
                        0 <= k < old(self).cells@.len()
                            ==> (#[trigger] final(self).cells@[k]).deps == old(
                            self,
                        ).cells@[k].deps && final(self).cells@[k].fun == old(self).cells@[k].fun
                            && final(self).cells@[k].callbacks == old(self).cells@[k].callbacks
                            && final(self).cells@[k].cell.value == old(self).cells@[k].cell.value
                            && final(self).cells@[k].cell.dependents@ == old(
                            self,
                        ).cells@[k].cell.dependents@ + repeated_id(
                            me,
                            count_occ(
                                dependencies@,
                                dependencies@.len() as int,
                                CellId::Compute(ComputeCellId(k as usize)),
                            ),
                        ))
                    &&& final(self).log == old(self).log
                    &&& final(self).next_callback_id == old(self).next_callback_id
                    &&& final(self).value_spec(CellId::Compute(me)) == Some(initial)
                }
            }),
    {
        let ghost num_inputs = self.inputs@.len() as int;
        let ghost num_cells = self.cells@.len() as int;
        let n_deps = dependencies.len();
        let mut j: usize = 0;
        while j < n_deps
            invariant
                j <= n_deps,
                n_deps == dependencies@.len(),
                *self == *old(self),
                first_missing(num_inputs, num_cells, dependencies@, 0) == first_missing(
                    num_inputs,
                    num_cells,
                    dependencies@,
                    j as int,
                ),
                num_inputs == self.inputs@.len() as int,
                num_cells == self.cells@.len() as int,
            decreases n_deps - j,
        {
            let d = dependencies[j];
            let ok = match d {
                CellId::Input(i) => i.0 < self.inputs.len(),
                CellId::Compute(c) => c.0 < self.cells.len(),
            };
            if !ok {
                proof {
                    assert(!valid_id(num_inputs, num_cells, dependencies@[j as int]));
                    assert(first_missing(num_inputs, num_cells, dependencies@, j as int)
                        == j as int);
                }
                return Err(d);
            }
            j = j + 1;
        }
        proof {
            assert(first_missing(num_inputs, num_cells, dependencies@, n_deps as int)
                == dependencies@.len() as int);
            lemma_first_missing_props(num_inputs, num_cells, dependencies@, 0);
        }
        let vals = self.read_values(dependencies);
        proof {
            assert(vals@ =~= deps_values_in(self.inputs@, self.cells@, dependencies@));
        }
        let initial = eval_compute(&compute_func, &vals);
        let me = ComputeCellId(self.cells.len());
        let ni_exec = self.inputs.len();
        let nc_exec = self.cells.len();
        proof {
            assert(self.inputs@.len() == ni_exec);
            assert(self.cells@.len() == nc_exec);
        }
        let ghost mid = *self;
        let mut j: usize = 0;
        while j < n_deps
            invariant
                j <= n_deps,
                n_deps == dependencies@.len(),
                forall|jj: int|
                    0 <= jj < dependencies@.len() ==> valid_id(
                        num_inputs,
                        num_cells,
                        #[trigger] dependencies@[jj],
                    ),
                self.inputs@.len() == mid.inputs@.len(),
                self.cells@.len() == mid.cells@.len(),
                num_inputs == self.inputs@.len() as int,
                num_cells == self.cells@.len() as int,
                self.log == mid.log,
                self.next_callback_id == mid.next_callback_id,
                forall|i: int|
                    0 <= i < num_inputs ==> (#[trigger] self.inputs@[i]).value
                        == mid.inputs@[i].value && self.inputs@[i].dependents@
                        == mid.inputs@[i].dependents@ + repeated_id(
                        me,
                        count_occ(dependencies@, j as int, CellId::Input(InputCellId(i as usize))),
                    ),
                forall|k: int|
                    0 <= k < num_cells ==> (#[trigger] self.cells@[k]).deps == mid.cells@[k].deps
                        && self.cells@[k].fun == mid.cells@[k].fun && self.cells@[k].callbacks
                        == mid.cells@[k].callbacks && self.cells@[k].cell.value
                        == mid.cells@[k].cell.value && self.cells@[k].cell.dependents@
                        == mid.cells@[k].cell.dependents@ + repeated_id(
                        me,
                        count_occ(
                            dependencies@,
                            j as int,
                            CellId::Compute(ComputeCellId(k as usize)),
                        ),
                    ),
            decreases n_deps - j,
        {
            let ghost before = *self;
            let d = dependencies[j];
            match d {
                CellId::Input(i) => {
                    self.inputs[i.0].dependents.push(me);
                },
                CellId::Compute(c) => {
                    self.cells[c.0].cell.dependents.push(me);
                },
            }
            proof {
                lemma_register_step(before, *self, mid, dependencies@, me, j as int, d);
            }
            j = j + 1;
        }
        let deps_copy = copy_ids(dependencies);
        self.cells.push(ComputeCell::new(initial, deps_copy, compute_func));
        proof {
            let fs = *self;
            let os = *old(self);
            let ki = me.0 as int;
            assert forall|i: int| 0 <= i < os.inputs@.len() implies (#[trigger] fs.inputs@[i]).value
                == os.inputs@[i].value && fs.inputs@[i].dependents@ == os.inputs@[i].dependents@
                + repeated_id(
                me,
                count_occ(
                    dependencies@,
                    dependencies@.len() as int,
                    CellId::Input(InputCellId(i as usize)),
                ),
            ) by {
                assert(fs.inputs@[i] == mid.inputs@[i] || true);
            }
            assert forall|k: int|
                0 <= k < os.cells@.len() implies deps_values_in(fs.inputs@, fs.cells@, (
            #[trigger] fs.cells@[k]).deps@) =~= deps_values_in(
                os.inputs@,
                os.cells@,
                fs.cells@[k].deps@,
            ) && fs.cells@[k].deps == os.cells@[k].deps by {
                assert(deps_ok_in(num_inputs, os.cells@, k));
                assert forall|j2: int|
                    0 <= j2 < fs.cells@[k].deps@.len() implies dep_val_in(
                    fs.inputs@,
                    fs.cells@,
                    #[trigger] fs.cells@[k].deps@[j2],
                ) == dep_val_in(os.inputs@, os.cells@, fs.cells@[k].deps@[j2]) by {
                    assert(os.cells@[k].deps@[j2] == fs.cells@[k].deps@[j2]);
                }
            }
            assert(dep_vals_in(fs.inputs@, fs.cells@, ki) =~= deps_values_in(
                fs.inputs@,
                fs.cells@,
                dependencies@,
            ));
            assert forall|j2: int| 0 <= j2 < dependencies@.len() implies dep_val_in(
                fs.inputs@,
                fs.cells@,
                #[trigger] dependencies@[j2],
            ) == dep_val_in(os.inputs@, os.cells@, dependencies@[j2]) by {}
            assert(deps_values_in(fs.inputs@, fs.cells@, dependencies@) =~= deps_values_in(
                os.inputs@,
                os.cells@,
                dependencies@,
            ));
            assert(settled_in(fs.inputs@, fs.cells@, ki));
            assert forall|k: int| 0 <= k < fs.cells@.len() implies (#[trigger] deps_ok_in(
                num_inputs,
                fs.cells@,
                k,
            )) && settled_in(fs.inputs@, fs.cells@, k) && quiescent_in(fs.cells@, k)
                && callbacks_ok_in(fs.cells@, fs.next_callback_id as int, k) by {
                if k < os.cells@.len() {
                    assert(deps_ok_in(num_inputs, os.cells@, k));
                    assert(settled_in(os.inputs@, os.cells@, k));
                    assert(quiescent_in(os.cells@, k));
                    assert(callbacks_ok_in(os.cells@, os.next_callback_id as int, k));
                    assert forall|j2: int|
                        0 <= j2 < fs.cells@[k].deps@.len() implies match (
                    #[trigger] fs.cells@[k].deps@[j2]) {
                        CellId::Input(i) => i.0 < num_inputs,
                        CellId::Compute(c) => c.0 < k,
                    } by {
                        assert(fs.cells@[k].deps@[j2] == os.cells@[k].deps@[j2]);
                    }
                    assert(dep_vals_in(fs.inputs@, fs.cells@, k) =~= deps_values_in(
                        fs.inputs@,
                        fs.cells@,
                        fs.cells@[k].deps@,
                    ));
                    assert(dep_vals_in(os.inputs@, os.cells@, k) =~= deps_values_in(
                        os.inputs@,
                        os.cells@,
                        fs.cells@[k].deps@,
                    ));
                } else {
                    assert(k == ki);
                    assert forall|j2: int|
                        0 <= j2 < fs.cells@[k].deps@.len() implies match (
                    #[trigger] fs.cells@[k].deps@[j2]) {
                        CellId::Input(i) => i.0 < num_inputs,
                        CellId::Compute(c) => c.0 < k,
                    } by {
                        assert(valid_id(num_inputs, num_cells, dependencies@[j2]));
                    }
                }
            }
        }
        Ok(me)
    }

    /// Set the value of the specified input cell. Returns `false`, changing
    /// nothing, if the cell does not exist.
    ///
    /// Otherwise the input takes the new value, every compute cell reachable
    /// from it settles to a value consistent with the new input (cells
    /// outside the reachable set keep their value untouched), and one
    /// notification per registered callback is recorded, in cell creation
    /// order, for exactly the compute cells whose settled value differs from
    /// the value last notified. Setting an input to its current value changes
    /// nothing and records nothing.
    #[verifier::loop_isolation(false)]
    pub fn set_value(&mut self, id: InputCellId, new_value: i64) -> (r: bool)
        requires
            old(self).wf(),
        ensures
            final(self).wf(),
            r == (id.0 < old(self).inputs@.len()),
            !r ==> *final(self) == *old(self),
            r && old(self).input_value(id.0 as int) == new_value ==> *final(self) == *old(self),
            r ==> {
                &&& final(self).inputs@.len() == old(self).inputs@.len()
                &&& final(self).input_value(id.0 as int) == new_value
                &&& final(self).inputs@[id.0 as int].value.last_value == old(
                    self,
                ).inputs@[id.0 as int].value.last_value
                &&& final(self).inputs@[id.0 as int].dependents == old(
                    self,
                ).inputs@[id.0 as int].dependents
                &&& (forall|i: int|
                    0 <= i < old(self).inputs@.len() && i != id.0 ==> final(self).inputs@[i] == old(
                        self,
                    ).inputs@[i])
                &&& final(self).cells@.len() == old(self).cells@.len()
                &&& (forall|k: int|
                    0 <= k < old(self).cells@.len() ==> (#[trigger] final(self).cells@[k]).deps
                        == old(self).cells@[k].deps && final(self).cells@[k].fun == old(
                        self,
                    ).cells@[k].fun && final(self).cells@[k].callbacks == old(
                        self,
                    ).cells@[k].callbacks && final(self).cells@[k].cell.dependents == old(
                        self,
                    ).cells@[k].cell.dependents)
                &&& (forall|k: int|
                    0 <= k < old(self).cells@.len() && !affected(old(self).cells@, id, k) ==> (
                    #[trigger] final(self).cells@[k]).cell.value.value == old(
                        self,
                    ).cells@[k].cell.value.value)
                &&& final(self).next_callback_id == old(self).next_callback_id
                &&& final(self).log@ == old(self).log@ + pass_upto(
                    old(self).cells@,
                    final(self).cells@,
                    old(self).cells@.len() as int,
                )
                &&& final(self).value_spec(CellId::Input(id)) == Some(new_value)
            },
    {
        let ghost os = *old(self);
        let ni = self.inputs.len();
        if id.0 >= ni {
            return false;
        }
        let n = self.cells.len();
        if self.inputs[id.0].value.get() == new_value {
            proof {
                lemma_pass_upto_same(self.cells@, n as int);
                assert(self.log@ =~= self.log@ + pass_upto(os.cells@, self.cells@, n as int));
            }
            return true;
        }
        self.inputs[id.0].value.set(new_value);
        let ghost mid = *self;
        proof {
            assert(mid.cells@ == os.cells@);
            assert(mid.inputs@.len() == os.inputs@.len());
        }
        // Phase 0: mark the cells transitively reachable from the changed
        // input. Dependencies always point backwards, so one forward scan
        // suffices.
        let mut marked: Vec<bool> = Vec::new();
        let mut k: usize = 0;
        while k < n
            invariant
                k <= n,
                *self == mid,
                marked@.len() == k as int,
                forall|x: int| 0 <= x < k ==> marked@[x] == affected(mid.cells@, id, x),
            decreases n - k,
        {
            let nd = self.cells[k].deps.len();
            let mut m = false;
            let mut j: usize = 0;
            while j < nd
                invariant
                    j <= nd,
                    k < n,
                    m == exists|jj: int|
                        0 <= jj < j && match #[trigger] mid.cells@[k as int].deps@[jj] {
                            CellId::Input(i) => i == id,
                            CellId::Compute(c) => 0 <= c.0 < k && affected(
                                mid.cells@,
                                id,
                                c.0 as int,
                            ),
                        },
                decreases nd - j,
            {
                let d = self.cells[k].deps[j];
                let hit = match d {
                    CellId::Input(i) => i.0 == id.0,
                    CellId::Compute(c) => c.0 < k && marked[c.0],
                };
                if hit {
                    m = true;
                    proof {
                        assert(match mid.cells@[k as int].deps@[j as int] {
                            CellId::Input(i) => i == id,
                            CellId::Compute(c) => 0 <= c.0 < k && affected(
                                mid.cells@,
                                id,
                                c.0 as int,
                            ),
                        });
                    }
                } else {
                    proof {
                        assert(!match mid.cells@[k as int].deps@[j as int] {
                            CellId::Input(i) => i == id,
                            CellId::Compute(c) => 0 <= c.0 < k && affected(
                                mid.cells@,
                                id,
                                c.0 as int,
                            ),
                        });
                    }
                }
                j = j + 1;
            }
            proof {
                assert(m == affected(mid.cells@, id, k as int));
            }
            marked.push(m);
            k = k + 1;
        }
        // Phase 1: settle the marked cells in creation order, which is a
        // topological order of the dependency graph, so every cell is
        // recomputed only after all of its dependencies hold final values.
        let mut k: usize = 0;
        while k < n
            invariant
                k <= n,
                self.inputs == mid.inputs,
                self.log == mid.log,
                self.next_callback_id == mid.next_callback_id,
                self.cells@.len() == n as int,
                forall|x: int|
                    0 <= x < n ==> (#[trigger] self.cells@[x]).deps == mid.cells@[x].deps
                        && self.cells@[x].fun == mid.cells@[x].fun && self.cells@[x].callbacks
                        == mid.cells@[x].callbacks && self.cells@[x].cell.dependents
                        == mid.cells@[x].cell.dependents && self.cells@[x].cell.value.last_value
                        == mid.cells@[x].cell.value.last_value,
                forall|x: int|
                    k <= x < n ==> (#[trigger] self.cells@[x]).cell.value.value
                        == mid.cells@[x].cell.value.value,
                forall|x: int|
                    0 <= x < k && !affected(mid.cells@, id, x) ==> (
                    #[trigger] self.cells@[x]).cell.value.value == mid.cells@[x].cell.value.value,
                forall|x: int| 0 <= x < k ==> settled_in(self.inputs@, self.cells@, x),
            decreases n - k,
        {
            let ghost s0 = *self;
            proof {
                assert(deps_ok_in(os.inputs@.len() as int, os.cells@, k as int));
                assert forall|j2: int|
                    0 <= j2 < s0.cells@[k as int].deps@.len() implies match (
                #[trigger] s0.cells@[k as int].deps@[j2]) {
                    CellId::Input(i) => i.0 < s0.inputs@.len(),
                    CellId::Compute(c) => c.0 < k,
                } by {
                    assert(s0.cells@[k as int].deps@[j2] == os.cells@[k as int].deps@[j2]);
                }
            }
            if marked[k] {
                let v = self.compute_cell_value(k);
                self.cells[k].cell.value.set(v);
                proof {
                    assert forall|x: int|
                        0 <= x < n && x != k implies (#[trigger] self.cells@[x]) == s0.cells@[x] by {}
                    assert(dep_vals_in(self.inputs@, self.cells@, k as int) =~= dep_vals_in(
                        s0.inputs@,
                        s0.cells@,
                        k as int,
                    ));
                    assert(settled_in(self.inputs@, self.cells@, k as int));
                    assert forall|x: int| 0 <= x < k implies settled_in(
                        self.inputs@,
                        self.cells@,
                        x,
                    ) by {
                        assert(settled_in(s0.inputs@, s0.cells@, x));
                        assert(deps_ok_in(os.inputs@.len() as int, os.cells@, x));
                        assert forall|j2: int|
                            0 <= j2 < self.cells@[x].deps@.len() implies dep_val_in(
                            self.inputs@,
                            self.cells@,
                            #[trigger] self.cells@[x].deps@[j2],
                        ) == dep_val_in(s0.inputs@, s0.cells@, self.cells@[x].deps@[j2]) by {
                            assert(self.cells@[x].deps@[j2] == os.cells@[x].deps@[j2]);
                        }
                        assert(dep_vals_in(self.inputs@, self.cells@, x) =~= dep_vals_in(
                            s0.inputs@,
                            s0.cells@,
                            x,
                        ));
                    }
                }
            } else {
                proof {
                    assert(!affected(mid.cells@, id, k as int));
                    assert forall|j2: int|
                        0 <= j2 < self.cells@[k as int].deps@.len() implies dep_val_in(
                        self.inputs@,
                        self.cells@,
                        #[trigger] self.cells@[k as int].deps@[j2],
                    ) == dep_val_in(os.inputs@, os.cells@, self.cells@[k as int].deps@[j2]) by {
                        let d = self.cells@[k as int].deps@[j2];
                        assert(d == mid.cells@[k as int].deps@[j2]);
                        match d {
                            CellId::Input(i) => {
                                assert(i != id);
                                assert(self.inputs@[i.0 as int] == mid.inputs@[i.0 as int]);
                                assert(mid.inputs@[i.0 as int].value == os.inputs@[i.0 as int].value);
                            },
                            CellId::Compute(c) => {
                                assert(0 <= c.0 < k);
                                assert(!affected(mid.cells@, id, c.0 as int));
                                assert(self.cells@[c.0 as int].cell.value.value
                                    == mid.cells@[c.0 as int].cell.value.value);
                            },
                        }
                    }
                    assert(dep_vals_in(self.inputs@, self.cells@, k as int) =~= dep_vals_in(
                        os.inputs@,
                        os.cells@,
                        k as int,
                    ));
                    assert(settled_in(os.inputs@, os.cells@, k as int));
                    assert(self.cells@[k as int].cell.value.value
                        == os.cells@[k as int].cell.value.value);
                    assert(settled_in(self.inputs@, self.cells@, k as int));
                }
            }
            k = k + 1;
        }
        // Phase 2: visit the cells once more, in the same order, and record
        // the notifications owed for every cell whose settled value differs
        // from the value last notified, updating the notified marker.
        let ghost stl = *self;
        proof {
            assert(pass_upto(mid.cells@, stl.cells@, 0) =~= Seq::<Notification>::empty());
            assert(self.log@ =~= stl.log@ + pass_upto(mid.cells@, stl.cells@, 0));
        }
        let mut k: usize = 0;
        while k < n
            invariant
                k <= n,
                self.inputs == stl.inputs,
                self.next_callback_id == stl.next_callback_id,
                self.cells@.len() == n as int,
                forall|x: int|
                    0 <= x < n ==> (#[trigger] self.cells@[x]).deps == stl.cells@[x].deps
                        && self.cells@[x].fun == stl.cells@[x].fun && self.cells@[x].callbacks
                        == stl.cells@[x].callbacks && self.cells@[x].cell.dependents
                        == stl.cells@[x].cell.dependents && self.cells@[x].cell.value.value
                        == stl.cells@[x].cell.value.value,
                forall|x: int|
                    k <= x < n ==> (#[trigger] self.cells@[x]).cell.value.last_value
                        == stl.cells@[x].cell.value.last_value,
                forall|x: int|
                    0 <= x < k ==> (#[trigger] self.cells@[x]).cell.value.last_value
                        == self.cells@[x].cell.value.value,
                self.log@ == stl.log@ + pass_upto(mid.cells@, stl.cells@, k as int),
            decreases n - k,
        {
            let changed = self.cells[k].cell.value.has_changed();
            proof {
                assert(deps_ok_in(os.inputs@.len() as int, os.cells@, k as int));
                assert(quiescent_in(os.cells@, k as int));
                assert(stl.cells@[k as int].cell.value.last_value
                    == mid.cells@[k as int].cell.value.last_value);
                assert(self.cells@[k as int].cell.value.last_value
                    == mid.cells@[k as int].cell.value.value);
                assert(changed == (stl.cells@[k as int].cell.value.value
                    != mid.cells@[k as int].cell.value.value));
            }
            let ghost logk = self.log@;
            if changed {
                let v = self.cells[k].cell.value.get();
                let ncb = self.cells[k].callbacks.len();
                let ghost sk = *self;
                let mut j: usize = 0;
                while j < ncb
                    invariant
                        j <= ncb,
                        k < n,
                        self.inputs == sk.inputs,
                        self.cells == sk.cells,
                        self.next_callback_id == sk.next_callback_id,
                        self.log@ == logk + notes_for(stl.cells@, k as int, v).subrange(
                            0,
                            j as int,
                        ),
                    decreases ncb - j,
                {
                    let cb = self.cells[k].callbacks[j];
                    self.log.push(Notification { cell: ComputeCellId(k), callback: cb, value: v });
                    proof {
                        assert(notes_for(stl.cells@, k as int, v)[j as int] == Notification {
                            cell: ComputeCellId(k),
                            callback: cb,
                            value: v,
                        });
                        assert(notes_for(stl.cells@, k as int, v).subrange(0, j as int + 1)
                            =~= notes_for(stl.cells@, k as int, v).subrange(0, j as int).push(
                            Notification { cell: ComputeCellId(k), callback: cb, value: v },
                        ));
                    }
                    j = j + 1;
                }
                self.cells[k].cell.value.set_last(v);
                proof {
                    assert(notes_for(stl.cells@, k as int, v).subrange(0, ncb as int) =~= notes_for(
                        stl.cells@,
                        k as int,
                        v,
                    ));
                    assert(pass_upto(mid.cells@, stl.cells@, k as int + 1) =~= (stl.log@
                        + pass_upto(mid.cells@, stl.cells@, k as int) + notes_for(
                        stl.cells@,
                        k as int,
                        v,
                    )).skip(stl.log@.len() as int));
                    assert(self.log@ =~= stl.log@ + pass_upto(mid.cells@, stl.cells@, k as int + 1));
                }
            } else {
                proof {
                    assert(pass_upto(mid.cells@, stl.cells@, k as int + 1) =~= pass_upto(
                        mid.cells@,
                        stl.cells@,
                        k as int,
                    ));
                }
            }
            k = k + 1;
        }
        proof {
            let fs = *self;
            lemma_pass_upto_congruent(mid.cells@, stl.cells@, os.cells@, fs.cells@, n as int);
            assert(fs.log@ == os.log@ + pass_upto(os.cells@, fs.cells@, n as int));
            assert forall|k2: int| 0 <= k2 < fs.cells@.len() implies (#[trigger] deps_ok_in(
                fs.inputs@.len() as int,
                fs.cells@,
                k2,
            )) && settled_in(fs.inputs@, fs.cells@, k2) && quiescent_in(fs.cells@, k2)
                && callbacks_ok_in(fs.cells@, fs.next_callback_id as int, k2) by {
                assert(deps_ok_in(os.inputs@.len() as int, os.cells@, k2));
                assert(callbacks_ok_in(os.cells@, os.next_callback_id as int, k2));
                assert forall|j2: int|
                    0 <= j2 < fs.cells@[k2].deps@.len() implies match (
                #[trigger] fs.cells@[k2].deps@[j2]) {
                    CellId::Input(i) => i.0 < fs.inputs@.len(),
                    CellId::Compute(c) => c.0 < k2,
                } by {
                    assert(fs.cells@[k2].deps@[j2] == os.cells@[k2].deps@[j2]);
                }
                assert forall|a: int, b: int|
                    0 <= a < b < fs.cells@[k2].callbacks@.len() implies (
                #[trigger] fs.cells@[k2].callbacks@[a]).0 < (
                #[trigger] fs.cells@[k2].callbacks@[b]).0 by {
                    assert(fs.cells@[k2].callbacks@ == os.cells@[k2].callbacks@);
                }
                assert forall|a: int|
                    0 <= a < fs.cells@[k2].callbacks@.len() implies (
                #[trigger] fs.cells@[k2].callbacks@[a]).0 < fs.next_callback_id by {
                    assert(fs.cells@[k2].callbacks@ == os.cells@[k2].callbacks@);
                }
                assert(settled_in(stl.inputs@, stl.cells@, k2));
                assert(dep_vals_in(fs.inputs@, fs.cells@, k2) =~= dep_vals_in(
                    stl.inputs@,
                    stl.cells@,
                    k2,
                ));
                assert(settled_in(fs.inputs@, fs.cells@, k2));
            }
            assert forall|k2: int|
                0 <= k2 < os.cells@.len() && !affected(os.cells@, id, k2) implies (
            #[trigger] fs.cells@[k2]).cell.value.value == os.cells@[k2].cell.value.value by {
                assert(!affected(mid.cells@, id, k2));
                assert(stl.cells@[k2].cell.value.value == mid.cells@[k2].cell.value.value);
            }
        }
        true
    }

    /// Add a callback registration to the specified compute cell, returning
    /// its fresh id, or `None` if the cell does not exist (or, in principle,
    /// if the per-reactor id space is exhausted, which no real use reaches).
    /// Nothing else changes; the callback will be notified by future
    /// `set_value` calls that change the cell's value.
    pub fn add_callback(&mut self, id: ComputeCellId) -> (r: Option<CallbackId>)
        requires
            old(self).wf(),
        ensures
            final(self).wf(),
            (r is Some) == (id.0 < old(self).cells@.len() && old(self).next_callback_id
                < usize::MAX),
            r is None ==> *final(self) == *old(self),
            match r {
                Some(cb) => {
                    &&& cb.0 == old(self).next_callback_id
                    &&& final(self).next_callback_id == old(self).next_callback_id + 1
                    &&& final(self).inputs == old(self).inputs
                    &&& final(self).log == old(self).log
                    &&& final(self).cells@.len() == old(self).cells@.len()
                    &&& (forall|k: int|
                        0 <= k < old(self).cells@.len() && k != id.0 ==> final(self).cells@[k]
                            == old(self).cells@[k])
                    &&& final(self).cells@[id.0 as int].callbacks@ == old(
                        self,
                    ).cells@[id.0 as int].callbacks@.push(cb)
                    &&& final(self).cells@[id.0 as int].cell == old(self).cells@[id.0 as int].cell
                    &&& final(self).cells@[id.0 as int].deps == old(self).cells@[id.0 as int].deps
                    &&& final(self).cells@[id.0 as int].fun == old(self).cells@[id.0 as int].fun
                },
                None => true,
            },
    {
        if id.0 >= self.cells.len() {
            return None;
        }
        if self.next_callback_id == usize::MAX {
            return None;
        }
        let cb = CallbackId(self.next_callback_id);
        self.cells[id.0].callbacks.push(cb);
        self.next_callback_id = self.next_callback_id + 1;
        proof {
            let fs = *self;
            let os = *old(self);
            assert forall|k2: int| 0 <= k2 < fs.cells@.len() implies (#[trigger] deps_ok_in(
                fs.inputs@.len() as int,
                fs.cells@,
                k2,
            )) && settled_in(fs.inputs@, fs.cells@, k2) && quiescent_in(fs.cells@, k2)
                && callbacks_ok_in(fs.cells@, fs.next_callback_id as int, k2) by {
                assert(deps_ok_in(os.inputs@.len() as int, os.cells@, k2));
                assert(callbacks_ok_in(os.cells@, os.next_callback_id as int, k2));
                assert forall|j2: int|
                    0 <= j2 < fs.cells@[k2].deps@.len() implies match (
                #[trigger] fs.cells@[k2].deps@[j2]) {
                    CellId::Input(i) => i.0 < fs.inputs@.len(),
                    CellId::Compute(c) => c.0 < k2,
                } by {
                    assert(fs.cells@[k2].deps@[j2] == os.cells@[k2].deps@[j2]);
                }
                assert(dep_vals_in(fs.inputs@, fs.cells@, k2) =~= dep_vals_in(
                    os.inputs@,
                    os.cells@,
                    k2,
                ));
                assert(settled_in(os.inputs@, os.cells@, k2));
            }
        }
        Some(cb)
    }

    /// Remove a previously added callback registration, so that it fires on
    /// no subsequent change. Fails with `NonexistentCell` when the cell id is
    /// unknown, and with `NonexistentCallback` when the cell exists but no
    /// such registration is on it; nothing changes on failure.
    #[verifier::loop_isolation(false)]
    pub fn remove_callback(&mut self, cell: ComputeCellId, callback: CallbackId) -> (r: Result<
        (),
        RemoveCallbackError,
    >)
        requires
            old(self).wf(),
        ensures
            final(self).wf(),
            cell.0 >= old(self).cells@.len() ==> r == Err::<(), RemoveCallbackError>(
                RemoveCallbackError::NonexistentCell,
            ) && *final(self) == *old(self),
            cell.0 < old(self).cells@.len() && !old(self).cells@[cell.0 as int].callbacks@.contains(
                callback,
            ) ==> r == Err::<(), RemoveCallbackError>(RemoveCallbackError::NonexistentCallback)
                && *final(self) == *old(self),
            cell.0 < old(self).cells@.len() && old(self).cells@[cell.0 as int].callbacks@.contains(
                callback,
            ) ==> {
                &&& r == Ok::<(), RemoveCallbackError>(())
                &&& !final(self).cells@[cell.0 as int].callbacks@.contains(callback)
                &&& final(self).cells@[cell.0 as int].callbacks@ == old(
                    self,
                ).cells@[cell.0 as int].callbacks@.remove(
                    first_index_of(old(self).cells@[cell.0 as int].callbacks@, callback, 0),
                )
                &&& final(self).cells@[cell.0 as int].cell == old(self).cells@[cell.0 as int].cell
                &&& final(self).cells@[cell.0 as int].deps == old(self).cells@[cell.0 as int].deps
                &&& final(self).cells@[cell.0 as int].fun == old(self).cells@[cell.0 as int].fun
                &&& (forall|k: int|
                    0 <= k < old(self).cells@.len() && k != cell.0 ==> final(self).cells@[k] == old(
                        self,
                    ).cells@[k])
                &&& final(self).cells@.len() == old(self).cells@.len()
                &&& final(self).inputs == old(self).inputs
                &&& final(self).log == old(self).log
                &&& final(self).next_callback_id == old(self).next_callback_id
            },
    {
        if cell.0 >= self.cells.len() {
            return Err(RemoveCallbackError::NonexistentCell);
        }
        let ghost cbs = self.cells@[cell.0 as int].callbacks@;
        let ncb = self.cells[cell.0].callbacks.len();
        let mut j: usize = 0;
        while j < ncb
            invariant
                j <= ncb,
                *self == *old(self),
                cell.0 < self.cells@.len(),
                ncb == cbs.len(),
                cbs == self.cells@[cell.0 as int].callbacks@,
                first_index_of(cbs, callback, 0) == first_index_of(cbs, callback, j as int),
            decreases ncb - j,
        {
            if self.cells[cell.0].callbacks[j].0 == callback.0 {
                proof {
                    assert(cbs[j as int] == callback);
                    assert(first_index_of(cbs, callback, j as int) == j as int);
                    lemma_first_index_found(cbs, callback, j as int);
                }
                self.cells[cell.0].callbacks.remove(j);
                proof {
                    let fs = *self;
                    let os = *old(self);
                    let newcbs = fs.cells@[cell.0 as int].callbacks@;
                    assert(newcbs =~= cbs.subrange(0, j as int) + cbs.subrange(
                        j as int + 1,
                        cbs.len() as int,
                    ));
                    assert(deps_ok_in(os.inputs@.len() as int, os.cells@, cell.0 as int));
                    assert(callbacks_ok_in(os.cells@, os.next_callback_id as int, cell.0 as int));
                    assert forall|x: int| 0 <= x < newcbs.len() implies newcbs[x] == (if x
                        < j as int {
                        cbs[x]
                    } else {
                        cbs[x + 1]
                    }) by {}
                    assert forall|x: int| 0 <= x < newcbs.len() implies newcbs[x] != callback by {
                        if x < j as int {
                            assert(cbs[x].0 < cbs[j as int].0);
                        } else {
                            assert(cbs[j as int].0 < cbs[x + 1].0);
                        }
                    }
                    assert(!newcbs.contains(callback));
                    assert forall|k2: int| 0 <= k2 < fs.cells@.len() implies (#[trigger] deps_ok_in(
                        fs.inputs@.len() as int,
                        fs.cells@,
                        k2,
                    )) && settled_in(fs.inputs@, fs.cells@, k2) && quiescent_in(fs.cells@, k2)
                        && callbacks_ok_in(fs.cells@, fs.next_callback_id as int, k2) by {
                        assert(deps_ok_in(os.inputs@.len() as int, os.cells@, k2));
                        assert(callbacks_ok_in(os.cells@, os.next_callback_id as int, k2));
                        assert forall|j2: int|
                            0 <= j2 < fs.cells@[k2].deps@.len() implies match (
                        #[trigger] fs.cells@[k2].deps@[j2]) {
                            CellId::Input(i) => i.0 < fs.inputs@.len(),
                            CellId::Compute(c) => c.0 < k2,
                        } by {
                            assert(fs.cells@[k2].deps@[j2] == os.cells@[k2].deps@[j2]);
                        }
                        assert(dep_vals_in(fs.inputs@, fs.cells@, k2) =~= dep_vals_in(
                            os.inputs@,
                            os.cells@,
                            k2,
                        ));
                        assert(settled_in(os.inputs@, os.cells@, k2));
                    }
                }
                return Ok(());
            }
            proof {
                assert(cbs[j as int] != callback);
            }
            j = j + 1;
        }
        proof {
            lemma_first_index_missing(cbs, callback);
            assert(!cbs.contains(callback));
        }
        Err(RemoveCallbackError::NonexistentCallback)
    }
}

impl Default for Reactor {
    /// The same as `Reactor::new`: a reactor with no cells.
    fn default() -> (r: Reactor)
        ensures
            r.num_inputs() == 0,
            r.num_cells() == 0,
            r.notification_log() == Seq::<Notification>::empty(),
            r.wf(),
    {
        Reactor::new()
    }
}

/// The first position at or after `j` where `s` holds `cb`, or the length of
/// `s` when it does not occur.
pub open spec fn first_index_of(s: Seq<CallbackId>, cb: CallbackId, j: int) -> int
    decreases s.len() - j,
{
    if j < 0 || j >= s.len() {
        s.len() as int
    } else if s[j] == cb {
        j
    } else {
        first_index_of(s, cb, j + 1)
    }
}

/// A sequence holding `cb` at `j` contains it.
proof fn lemma_first_index_found(s: Seq<CallbackId>, cb: CallbackId, j: int)
    requires
        0 <= j < s.len(),
        s[j] == cb,
    ensures
        s.contains(cb),
{
    assert(s[j] == cb);
}

/// When the scan runs off the end, the sequence does not contain `cb`.
proof fn lemma_first_index_missing(s: Seq<CallbackId>, cb: CallbackId)
    requires
        first_index_of(s, cb, 0) >= s.len(),
    ensures
        !s.contains(cb),
{
    assert forall|x: int| 0 <= x < s.len() implies s[x] != cb by {
        if s[x] == cb {
            lemma_first_index_stops(s, cb, 0, x);
        }
    }
}

/// How many notifications in `s` name callback `cb` on cell `c`.
pub open spec fn count_firings(s: Seq<Notification>, c: ComputeCellId, cb: CallbackId) -> int
    decreases s.len(),
{
    if s.len() == 0 {
        0
    } else {
        count_firings(s.drop_last(), c, cb) + if s.last().cell == c && s.last().callback == cb {
            1int
        } else {
            0int
        }
    }
}

/// Firing counts add up over concatenation.
proof fn lemma_count_firings_concat(
    s1: Seq<Notification>,
    s2: Seq<Notification>,
    c: ComputeCellId,
    cb: CallbackId,
)
    ensures
        count_firings(s1 + s2, c, cb) == count_firings(s1, c, cb) + count_firings(s2, c, cb),
    decreases s2.len(),
{
    if s2.len() == 0 {
        assert(s1 + s2 =~= s1);
    } else {
        assert((s1 + s2).drop_last() =~= s1 + s2.drop_last());
        lemma_count_firings_concat(s1, s2.drop_last(), c, cb);
    }
}

/// Among the first `j` notifications owed for cell `k`, a callback with
/// pairwise-distinct registrations is counted once when it is registered
/// there (and the cell matches) and never otherwise.
proof fn lemma_count_notes_prefix(
    cells: Seq<ComputeCell>,
    k: int,
    v: i64,
    c: ComputeCellId,
    cb: CallbackId,
    j: int,
)
    requires
        0 <= k < cells.len(),
        0 <= j <= cells[k].callbacks@.len(),
        forall|a: int, b: int|
            0 <= a < b < cells[k].callbacks@.len() ==> (#[trigger] cells[k].callbacks@[a]).0 < (
            #[trigger] cells[k].callbacks@[b]).0,
    ensures
        count_firings(notes_for(cells, k, v).subrange(0, j), c, cb) == if c == ComputeCellId(
            k as usize,
        ) && exists|i: int| 0 <= i < j && cells[k].callbacks@[i] == cb {
            1int
        } else {
            0int
        },
    decreases j,
{
    let notes = notes_for(cells, k, v);
    if j == 0 {
        assert(notes.subrange(0, 0) =~= Seq::<Notification>::empty());
    } else {
        lemma_count_notes_prefix(cells, k, v, c, cb, j - 1);
        assert(notes.subrange(0, j).drop_last() =~= notes.subrange(0, j - 1));
        assert(notes.subrange(0, j).last() == notes[j - 1]);
        let hit = c == ComputeCellId(k as usize) && cells[k].callbacks@[j - 1] == cb;
        if hit {
            assert forall|i: int| 0 <= i < j - 1 implies cells[k].callbacks@[i] != cb by {
                assert((cells[k].callbacks@[i]).0 < (cells[k].callbacks@[j - 1]).0);
            }
        } else {
            assert((exists|i: int| 0 <= i < j && cells[k].callbacks@[i] == cb) == (exists|i: int|
                0 <= i < j - 1 && cells[k].callbacks@[i] == cb) || c != ComputeCellId(k as usize));
        }
    }
}

/// Over one whole propagation pass, a given callback registration on a given
/// compute cell is notified at most once, and a registration that is not on
/// the cell afterwards is never notified.
proof fn lemma_pass_counts(
    oldc: Seq<ComputeCell>,
    newc: Seq<ComputeCell>,
    n: int,
    c: ComputeCellId,
    cb: CallbackId,
)
    requires
        n <= newc.len(),
        newc.len() <= usize::MAX,
        forall|k: int, a: int, b: int|
            0 <= k < n && 0 <= a < b < newc[k].callbacks@.len() ==> (
            #[trigger] newc[k].callbacks@[a]).0 < (#[trigger] newc[k].callbacks@[b]).0,
    ensures
        0 <= count_firings(pass_upto(oldc, newc, n), c, cb) <= 1,
        c.0 >= n ==> count_firings(pass_upto(oldc, newc, n), c, cb) == 0,
        c.0 < n && !newc[c.0 as int].callbacks@.contains(cb) ==> count_firings(
            pass_upto(oldc, newc, n),
            c,
            cb,
        ) == 0,
    decreases n,
{
    if n <= 0 {
        assert(pass_upto(oldc, newc, n) =~= Seq::<Notification>::empty());
    } else {
        lemma_pass_counts(oldc, newc, n - 1, c, cb);
        let entry = if newc[n - 1].cell.value.value != oldc[n - 1].cell.value.value {
            notes_for(newc, n - 1, newc[n - 1].cell.value.value)
        } else {
            Seq::<Notification>::empty()
        };
        lemma_count_firings_concat(pass_upto(oldc, newc, n - 1), entry, c, cb);
        if newc[n - 1].cell.value.value != oldc[n - 1].cell.value.value {
            let v = newc[n - 1].cell.value.value;
            lemma_count_notes_prefix(newc, n - 1, v, c, cb, newc[n - 1].callbacks@.len() as int);
            assert(notes_for(newc, n - 1, v).subrange(
                0,
                newc[n - 1].callbacks@.len() as int,
            ) =~= notes_for(newc, n - 1, v));
            if c.0 < n && !newc[c.0 as int].callbacks@.contains(cb) && c == ComputeCellId(
                (n - 1) as usize,
            ) {
                assert(c.0 as int == n - 1);
                assert forall|i: int| 0 <= i < newc[n - 1].callbacks@.len() implies (
                #[trigger] newc[n - 1].callbacks@[i]) != cb by {
                    if newc[n - 1].callbacks@[i] == cb {
                        assert(newc[c.0 as int].callbacks@.contains(cb));
                    }
                }
            }
        }
    }
}

/// For one `set_value` call, each compute cell's callbacks fire either zero
/// times or exactly once — never more, regardless of how many dependency
/// paths lead to the cell: among the notifications that the call appends
/// (`pass_upto` over the states before and after), any (cell, callback) pair
/// occurs at most once.
pub proof fn lemma_exactly_once_firing(pre: Reactor, post: Reactor, c: ComputeCellId, cb: CallbackId)
    requires
        post.wf(),
        pre.cells@.len() <= post.cells@.len(),
    ensures
        0 <= count_firings(pass_upto(pre.cells@, post.cells@, pre.cells@.len() as int), c, cb) <= 1,
{
    vstd::std_specs::vec::axiom_spec_len(&post.cells);
    lemma_wf_callbacks_sorted(post);
    lemma_pass_counts(pre.cells@, post.cells@, pre.cells@.len() as int, c, cb);
}

/// A removed callback never fires again: a registration that is absent from
/// its cell's callback list is named by no notification that a later
/// `set_value` call appends.
pub proof fn lemma_removed_callback_never_fires(
    pre: Reactor,
    post: Reactor,
    c: ComputeCellId,
    cb: CallbackId,
)
    requires
        post.wf(),
        pre.cells@.len() <= post.cells@.len(),
        c.0 < post.cells@.len() ==> !post.cells@[c.0 as int].callbacks@.contains(cb),
    ensures
        count_firings(pass_upto(pre.cells@, post.cells@, pre.cells@.len() as int), c, cb) == 0,
{
    vstd::std_specs::vec::axiom_spec_len(&post.cells);
    lemma_wf_callbacks_sorted(post);
    lemma_pass_counts(pre.cells@, post.cells@, pre.cells@.len() as int, c, cb);
}

/// A well-formed reactor has pairwise-distinct, sorted callback lists.
proof fn lemma_wf_callbacks_sorted(r: Reactor)
    requires
        r.wf(),
    ensures
        forall|k: int, a: int, b: int|
            0 <= k < r.cells@.len() && 0 <= a < b < r.cells@[k].callbacks@.len() ==> (
            #[trigger] r.cells@[k].callbacks@[a]).0 < (#[trigger] r.cells@[k].callbacks@[b]).0,
{
    assert forall|k: int, a: int, b: int|
        0 <= k < r.cells@.len() && 0 <= a < b < r.cells@[k].callbacks@.len() implies (
    #[trigger] r.cells@[k].callbacks@[a]).0 < (#[trigger] r.cells@[k].callbacks@[b]).0 by {
        assert(deps_ok_in(r.inputs@.len() as int, r.cells@, k));
        assert(callbacks_ok_in(r.cells@, r.next_callback_id as int, k));
    }
}

/// A compute cell whose function is the identity on a single input
/// dependency always equals that input's current value.
pub proof fn lemma_identity_tracks_input(r: Reactor, ck: ComputeCellId, i: InputCellId)
    requires
        r.wf(),
        ck.0 < r.cells@.len(),
        i.0 < r.inputs@.len(),
        r.cells@[ck.0 as int].deps@ =~= seq![CellId::Input(i)],
        r.cells@[ck.0 as int].fun == ComputeFn::Arg(0usize),
    ensures
        r.value_spec(CellId::Compute(ck)) == r.value_spec(CellId::Input(i)),
{
    assert(deps_ok_in(r.inputs@.len() as int, r.cells@, ck.0 as int));
    assert(settled_in(r.inputs@, r.cells@, ck.0 as int));
    assert(dep_vals_in(r.inputs@, r.cells@, ck.0 as int)[0] == r.inputs@[i.0 as int].value.value);
    assert(dep_vals_in(r.inputs@, r.cells@, ck.0 as int).len() == 1);
}

/// The scan from `lo` stops at or before any position that holds `cb`.
proof fn lemma_first_index_stops(s: Seq<CallbackId>, cb: CallbackId, lo: int, hi: int)
    requires
        0 <= lo <= hi < s.len(),
        s[hi] == cb,
    ensures
        first_index_of(s, cb, lo) <= hi,
    decreases hi - lo,
{
    if lo < hi && s[lo] != cb {
        lemma_first_index_stops(s, cb, lo + 1, hi);
    }
}

/// Whether compute cell `k` is reachable from input `iid` through the
/// dependency lists: some dependency is that input, or an earlier compute
/// cell that is itself affected. Only such cells may be recomputed by
/// `set_value`.
pub open spec fn affected(cells: Seq<ComputeCell>, iid: InputCellId, k: int) -> bool
    decreases k,
{
    exists|j: int|
        0 <= j < cells[k].deps@.len() && match #[trigger] cells[k].deps@[j] {
            CellId::Input(i) => i == iid,
            CellId::Compute(c) => 0 <= c.0 < k && affected(cells, iid, c.0 as int),
        }
}

/// The notifications due for compute cell `k`: one per registered callback,
/// in registration order, delivering `v`.
pub open spec fn notes_for(cells: Seq<ComputeCell>, k: int, v: i64) -> Seq<Notification> {
    cells[k].callbacks@.map_values(
        |cb: CallbackId| Notification { cell: ComputeCellId(k as usize), callback: cb, value: v },
    )
}

/// The notifications one propagation pass records, over the first `k`
/// compute cells, given the cell states before and after the pass: cells
/// whose value changed contribute one notification per callback, carrying
/// the new value, in cell order.
pub open spec fn pass_upto(
    oldc: Seq<ComputeCell>,
    newc: Seq<ComputeCell>,
    k: int,
) -> Seq<Notification>
    decreases k,
{
    if k <= 0 {
        Seq::empty()
    } else {
        pass_upto(oldc, newc, k - 1) + (if newc[k - 1].cell.value.value
            != oldc[k - 1].cell.value.value {
            notes_for(newc, k - 1, newc[k - 1].cell.value.value)
        } else {
            Seq::empty()
        })
    }
}

/// A pass that changes nothing records nothing.
proof fn lemma_pass_upto_same(cells: Seq<ComputeCell>, k: int)
    ensures
        pass_upto(cells, cells, k) == Seq::<Notification>::empty(),
    decreases k,
{
    if k > 0 {
        lemma_pass_upto_same(cells, k - 1);
        assert(pass_upto(cells, cells, k) =~= Seq::<Notification>::empty());
    }
}

/// The recorded notifications depend only on the old and new cell values and
/// the new callback lists.
proof fn lemma_pass_upto_congruent(
    a1: Seq<ComputeCell>,
    b1: Seq<ComputeCell>,
    a2: Seq<ComputeCell>,
    b2: Seq<ComputeCell>,
    k: int,
)
    requires
        forall|x: int|
            0 <= x < k ==> (#[trigger] a2[x]).cell.value.value == a1[x].cell.value.value,
        forall|x: int|
            0 <= x < k ==> (#[trigger] b2[x]).cell.value.value == b1[x].cell.value.value
                && b2[x].callbacks@ == b1[x].callbacks@,
    ensures
        pass_upto(a2, b2, k) == pass_upto(a1, b1, k),
    decreases k,
{
    if k > 0 {
        lemma_pass_upto_congruent(a1, b1, a2, b2, k - 1);
        if b1[k - 1].cell.value.value != a1[k - 1].cell.value.value {
            assert(notes_for(b2, k - 1, b2[k - 1].cell.value.value) =~= notes_for(
                b1,
                k - 1,
                b1[k - 1].cell.value.value,
            ));
        }
        assert(pass_upto(a2, b2, k) =~= pass_upto(a1, b1, k));
    }
}

/// The index of the first id in `deps[j..]` that names no existing cell, or
/// the length of `deps` when every id resolves.
pub open spec fn first_missing(num_inputs: int, num_cells: int, deps: Seq<CellId>, j: int) -> int
    decreases deps.len() - j,
{
    if j < 0 || j >= deps.len() {
        deps.len() as int
    } else if !valid_id(num_inputs, num_cells, deps[j]) {
        j
    } else {
        first_missing(num_inputs, num_cells, deps, j + 1)
    }
}

/// Where the scan for a missing dependency stops: never before `lo`, never
/// past the end, everything below it is valid, and when it stops early it
/// points at an invalid id.
proof fn lemma_first_missing_props(num_inputs: int, num_cells: int, deps: Seq<CellId>, lo: int)
    requires
        0 <= lo <= deps.len(),
    ensures
        lo <= first_missing(num_inputs, num_cells, deps, lo) <= deps.len(),
        forall|j: int|
            lo <= j < first_missing(num_inputs, num_cells, deps, lo) ==> valid_id(
                num_inputs,
                num_cells,
                #[trigger] deps[j],
            ),
        first_missing(num_inputs, num_cells, deps, lo) < deps.len() ==> !valid_id(
            num_inputs,
            num_cells,
            deps[first_missing(num_inputs, num_cells, deps, lo)],
        ),
    decreases deps.len() - lo,
{
    if lo < deps.len() && valid_id(num_inputs, num_cells, deps[lo]) {
        lemma_first_missing_props(num_inputs, num_cells, deps, lo + 1);
    }
}

/// Occurrence counts are never negative.
proof fn lemma_count_occ_nonneg(deps: Seq<CellId>, upto: int, id: CellId)
    ensures
        count_occ(deps, upto, id) >= 0,
    decreases upto,
{
    if upto > 0 {
        lemma_count_occ_nonneg(deps, upto - 1, id);
    }
}

/// How many of the first `upto` entries of `deps` equal `id`.
pub open spec fn count_occ(deps: Seq<CellId>, upto: int, id: CellId) -> int
    decreases upto,
{
    if upto <= 0 {
        0
    } else {
        count_occ(deps, upto - 1, id) + if deps[upto - 1] == id {
            1int
        } else {
            0int
        }
    }
}

/// `n` copies of the id, in a row.
pub open spec fn repeated_id(id: ComputeCellId, n: int) -> Seq<ComputeCellId> {
    Seq::new(if n < 0 {
        0nat
    } else {
        n as nat
    }, |x: int| id)
}

/// The current values behind the ids of `deps`, in order.
pub open spec fn deps_values_in(inputs: Seq<Cell>, cells: Seq<ComputeCell>, deps: Seq<CellId>) -> Seq<i64> {
    Seq::new(deps.len(), |j: int| dep_val_in(inputs, cells, deps[j]))
}

/// Copy a list of cell ids.
fn copy_ids(deps: &Vec<CellId>) -> (r: Vec<CellId>)
    ensures
        r@ == deps@,
{
    let mut r: Vec<CellId> = Vec::new();
    let n = deps.len();
    let mut j: usize = 0;
    while j < n
        invariant
            j <= n,
            n == deps@.len(),
            r@ == deps@.subrange(0, j as int),
        decreases n - j,
    {
        r.push(deps[j]);
        proof {
            assert(r@ =~= deps@.subrange(0, j as int + 1));
        }
        j = j + 1;
    }
    proof {
        assert(r@ =~= deps@);
    }
    r
}

/// One registration step: pushing the new id onto the dependents list of the
/// cell named by `deps[j]` keeps the count bookkeeping exact.
proof fn lemma_register_step(
    before: Reactor,
    after: Reactor,
    mid: Reactor,
    deps: Seq<CellId>,
    me: ComputeCellId,
    j: int,
    d: CellId,
)
    requires
        0 <= j < deps.len(),
        d == deps[j],
        valid_id(mid.inputs@.len() as int, mid.cells@.len() as int, d),
        mid.inputs@.len() <= usize::MAX,
        mid.cells@.len() <= usize::MAX,
        before.inputs@.len() == mid.inputs@.len(),
        before.cells@.len() == mid.cells@.len(),
        after.log == before.log,
        after.next_callback_id == before.next_callback_id,
        after.inputs@.len() == before.inputs@.len(),
        after.cells@.len() == before.cells@.len(),
        forall|i: int|
            0 <= i < before.inputs@.len() ==> (#[trigger] before.inputs@[i]).value
                == mid.inputs@[i].value && before.inputs@[i].dependents@
                == mid.inputs@[i].dependents@ + repeated_id(
                me,
                count_occ(deps, j, CellId::Input(InputCellId(i as usize))),
            ),
        forall|k: int|
            0 <= k < before.cells@.len() ==> (#[trigger] before.cells@[k]).deps
                == mid.cells@[k].deps && before.cells@[k].fun == mid.cells@[k].fun
                && before.cells@[k].callbacks == mid.cells@[k].callbacks
                && before.cells@[k].cell.value == mid.cells@[k].cell.value
                && before.cells@[k].cell.dependents@ == mid.cells@[k].cell.dependents@
                + repeated_id(me, count_occ(deps, j, CellId::Compute(ComputeCellId(k as usize)))),
        match d {
            CellId::Input(i) => {
                &&& (forall|x: int|
                    0 <= x < after.inputs@.len() && x != i.0 ==> after.inputs@[x]
                        == before.inputs@[x])
                &&& after.inputs@[i.0 as int].value == before.inputs@[i.0 as int].value
                &&& after.inputs@[i.0 as int].dependents@ == before.inputs@[i.0 as int].dependents@.push(me)
                &&& after.cells == before.cells
            },
            CellId::Compute(c) => {
                &&& (forall|x: int|
                    0 <= x < after.cells@.len() && x != c.0 ==> after.cells@[x]
                        == before.cells@[x])
                &&& after.cells@[c.0 as int].deps == before.cells@[c.0 as int].deps
                &&& after.cells@[c.0 as int].fun == before.cells@[c.0 as int].fun
                &&& after.cells@[c.0 as int].callbacks == before.cells@[c.0 as int].callbacks
                &&& after.cells@[c.0 as int].cell.value == before.cells@[c.0 as int].cell.value
                &&& after.cells@[c.0 as int].cell.dependents@ == before.cells@[c.0 as int].cell.dependents@.push(me)
                &&& after.inputs == before.inputs
            },
        },
    ensures
        forall|i: int|
            0 <= i < after.inputs@.len() ==> (#[trigger] after.inputs@[i]).value
                == mid.inputs@[i].value && after.inputs@[i].dependents@
                == mid.inputs@[i].dependents@ + repeated_id(
                me,
                count_occ(deps, j + 1, CellId::Input(InputCellId(i as usize))),
            ),
        forall|k: int|
            0 <= k < after.cells@.len() ==> (#[trigger] after.cells@[k]).deps == mid.cells@[k].deps
                && after.cells@[k].fun == mid.cells@[k].fun && after.cells@[k].callbacks
                == mid.cells@[k].callbacks && after.cells@[k].cell.value
                == mid.cells@[k].cell.value && after.cells@[k].cell.dependents@
                == mid.cells@[k].cell.dependents@ + repeated_id(
                me,
                count_occ(deps, j + 1, CellId::Compute(ComputeCellId(k as usize))),
            ),
{
    assert forall|i: int| 0 <= i < after.inputs@.len() implies (#[trigger] after.inputs@[i]).value
        == mid.inputs@[i].value && after.inputs@[i].dependents@ == mid.inputs@[i].dependents@
        + repeated_id(me, count_occ(deps, j + 1, CellId::Input(InputCellId(i as usize)))) by {
        let tag = CellId::Input(InputCellId(i as usize));
        lemma_count_occ_nonneg(deps, j, tag);
        if d == tag {
            assert(count_occ(deps, j + 1, tag) == count_occ(deps, j, tag) + 1);
            assert(after.inputs@[i].dependents@ == (mid.inputs@[i].dependents@ + repeated_id(
                me,
                count_occ(deps, j, tag),
            )).push(me));
            assert((mid.inputs@[i].dependents@ + repeated_id(me, count_occ(deps, j, tag))).push(me)
                =~= mid.inputs@[i].dependents@ + repeated_id(me, count_occ(deps, j + 1, tag)));
        } else {
            assert(count_occ(deps, j + 1, tag) == count_occ(deps, j, tag));
            assert(after.inputs@[i] == before.inputs@[i]);
        }
    }
    assert forall|k: int| 0 <= k < after.cells@.len() implies (#[trigger] after.cells@[k]).deps
        == mid.cells@[k].deps && after.cells@[k].fun == mid.cells@[k].fun
        && after.cells@[k].callbacks == mid.cells@[k].callbacks && after.cells@[k].cell.value
        == mid.cells@[k].cell.value && after.cells@[k].cell.dependents@
        == mid.cells@[k].cell.dependents@ + repeated_id(
        me,
        count_occ(deps, j + 1, CellId::Compute(ComputeCellId(k as usize))),
    ) by {
        let tag = CellId::Compute(ComputeCellId(k as usize));
        lemma_count_occ_nonneg(deps, j, tag);
        if d == tag {
            assert(count_occ(deps, j + 1, tag) == count_occ(deps, j, tag) + 1);
            assert((mid.cells@[k].cell.dependents@ + repeated_id(me, count_occ(deps, j, tag))).push(
                me,
            ) =~= mid.cells@[k].cell.dependents@ + repeated_id(me, count_occ(deps, j + 1, tag)));
        } else {
            assert(count_occ(deps, j + 1, tag) == count_occ(deps, j, tag));
            assert(after.cells@[k] == before.cells@[k]);
        }
    }
}

/// Growing the input list does not disturb any compute cell: every existing
/// dependency still resolves to the same value.
proof fn lemma_grow_inputs_keeps_wf(a: Reactor, b: Reactor)
    requires
        a.wf(),
        b.cells == a.cells,
        b.next_callback_id == a.next_callback_id,
        b.inputs@.len() >= a.inputs@.len(),
        forall|i: int| 0 <= i < a.inputs@.len() ==> b.inputs@[i] == a.inputs@[i],
    ensures
        b.wf(),
{
    assert forall|k: int| 0 <= k < b.cells@.len() implies (#[trigger] deps_ok_in(
        b.inputs@.len() as int,
        b.cells@,
        k,
    )) && settled_in(b.inputs@, b.cells@, k) && quiescent_in(b.cells@, k) && callbacks_ok_in(
        b.cells@,
        b.next_callback_id as int,
        k,
    ) by {
        assert(deps_ok_in(a.inputs@.len() as int, a.cells@, k));
        assert(settled_in(a.inputs@, a.cells@, k));
        assert(dep_vals_in(b.inputs@, b.cells@, k) =~= dep_vals_in(a.inputs@, a.cells@, k));
    }
}

} // verus!
