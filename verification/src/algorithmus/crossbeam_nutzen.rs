//! Work stealing: the rows are cut into four tasks per thread, which wait in a
//! shared crossbeam queue until a worker takes them.
use vstd::prelude::*;
use crossbeam::deque::Injector;
use crate::algorithmus::aufteilung::{anteil, beginn, aufteilen};

verus! {

/// A run of rows `zeilen_start .. zeilen_ende` to be computed by one worker.
pub struct MatrixTask {
    /// First row of the task.
    pub zeilen_start: usize,
    /// One past the last row of the task.
    pub zeilen_ende: usize,
}

/// Tasks per thread: more tasks than threads balance the load.
pub const TASKS_PRO_THREAD: usize = 4;

#[verifier::external_type_specification]
#[verifier::external_body]
#[verifier::reject_recursive_types(T)]
pub struct ExInjector<T>(crossbeam::deque::Injector<T>);

/// The tasks waiting in the queue, oldest first, each as its row range.
pub uninterp spec fn aufgaben_inhalt(q: Injector<MatrixTask>) -> Seq<(usize, usize)>;

/// Calls `Injector::new`: an empty queue.
#[verifier::external_body]
fn warteschlange_neu() -> (q: Injector<MatrixTask>)
    ensures
        aufgaben_inhalt(q) == Seq::<(usize, usize)>::empty(),
{
    Injector::new()
}

/// Calls `Injector::push`: the task joins the queue at its back (the queue is
/// first in, first out).
#[verifier::external_body]
fn einreihen(q: &mut Injector<MatrixTask>, aufgabe: MatrixTask)
    ensures
        aufgaben_inhalt(*final(q)) == aufgaben_inhalt(*old(q)).push((aufgabe.zeilen_start, aufgabe.zeilen_ende)),
{
    q.push(aufgabe)
}

/// The queue of tasks for `threads` workers: `4 * threads` tasks that cut the
/// rows `0 .. n` into contiguous runs in order, the first `n % (4 * threads)`
/// of them one row longer than the others.
pub fn aufgaben_erstellen(n: usize, threads: usize) -> (q: Injector<MatrixTask>)
    requires
        threads > 0,
        threads * TASKS_PRO_THREAD <= usize::MAX,
    ensures
        aufgaben_inhalt(q).len() == threads * TASKS_PRO_THREAD,
        forall|i: int| 0 <= i < threads * TASKS_PRO_THREAD ==> #[trigger] aufgaben_inhalt(q)[i].0 == beginn(
            n as int,
            threads * TASKS_PRO_THREAD,
            i,
        ) && aufgaben_inhalt(q)[i].1 == beginn(n as int, threads * TASKS_PRO_THREAD, i) + anteil(
            n as int,
            threads * TASKS_PRO_THREAD,
            i,
        ),
{
    let gesamt: usize = threads * TASKS_PRO_THREAD;
    let teile = aufteilen(n, gesamt);
    let mut q = warteschlange_neu();
    let mut i: usize = 0;
    while i < gesamt
        invariant
            i <= gesamt,
            gesamt == threads * TASKS_PRO_THREAD,
            teile@.len() == gesamt,
            forall|z: int| 0 <= z < gesamt ==> #[trigger] teile@[z].0 == beginn(n as int, gesamt as int, z)
                && teile@[z].1 == anteil(n as int, gesamt as int, z),
            forall|z: int| 0 <= z < gesamt ==> #[trigger] teile@[z].0 + teile@[z].1 <= n,
            aufgaben_inhalt(q).len() == i,
            forall|z: int| 0 <= z < i ==> #[trigger] aufgaben_inhalt(q)[z].0 == beginn(n as int, gesamt as int, z)
                && aufgaben_inhalt(q)[z].1 == beginn(n as int, gesamt as int, z) + anteil(n as int, gesamt as int, z),
        decreases gesamt - i,
    {
        let (start, zeilen) = teile[i];
        assert(teile@[i as int].0 + teile@[i as int].1 <= n);
        einreihen(&mut q, MatrixTask { zeilen_start: start, zeilen_ende: start + zeilen });
        i = i + 1;
    }
    q
}

} // verus!
