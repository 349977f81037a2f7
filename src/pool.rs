use vstd::arithmetic::div_mod::{lemma_fundamental_div_mod, lemma_fundamental_div_mod_converse};
use vstd::prelude::*;

verus! {

/// The bookkeeping of a pool that spawns a new process for every segment and
/// keeps at most `max_procs` of them unreaped (no bound when it is 0): when
/// the pool is full, the oldest process is taken out, to be waited on, before
/// the next one is tracked. `P` is the handle of a running process.
pub struct Limiting<P> {
    procs: Vec<P>,
    max_procs: usize,
}

impl<P> Limiting<P> {
    /// The tracked processes, oldest first.
    pub closed spec fn procs(&self) -> Seq<P> {
        self.procs@
    }

    /// The bound on tracked processes; 0 for none.
    pub closed spec fn max_procs(&self) -> nat {
        self.max_procs as nat
    }

    /// The pool is at its bound.
    pub open spec fn full(&self) -> bool {
        self.max_procs() != 0 && self.procs().len() >= self.max_procs()
    }

    /// No more processes are tracked than the bound allows.
    pub open spec fn wf(&self) -> bool {
        self.max_procs() == 0 || self.procs().len() <= self.max_procs()
    }

    /// An empty pool with the given bound.
    pub fn new(max_procs: usize) -> (r: Limiting<P>)
        ensures
            r.wf(),
            r.procs() == Seq::<P>::empty(),
            r.max_procs() == max_procs,
    {
        Limiting { procs: Vec::new(), max_procs }
    }

    /// With no bound, a limiting pool is never full, so no process is ever
    /// taken out before the pool is drained.
    pub proof fn lemma_unbounded(&self)
        requires
            self.max_procs() == 0,
        ensures
            !self.full(),
            self.wf(),
    {
    }

    /// The number of tracked processes.
    pub fn len(&self) -> (r: usize)
        ensures
            r == self.procs().len(),
    {
        self.procs.len()
    }

    /// Whether the next process must wait for the oldest to be taken out.
    pub fn is_full(&self) -> (r: bool)
        ensures
            r == self.full(),
    {
        self.max_procs != 0 && self.procs.len() >= self.max_procs
    }

    /// Makes room for one more process: when the pool is full, takes out the
    /// oldest process and hands it back to be reaped. With no bound, nothing
    /// is ever taken out here.
    pub fn make_room(&mut self) -> (r: Option<P>)
        requires
            old(self).wf(),
        ensures
            final(self).wf(),
            !final(self).full(),
            final(self).max_procs() == old(self).max_procs(),
            old(self).full() ==> r == Some(old(self).procs()[0]) && final(self).procs()
                == old(self).procs().drop_first(),
            !old(self).full() ==> r is None && final(self).procs() == old(self).procs(),
    {
        if self.max_procs != 0 && self.procs.len() >= self.max_procs {
            let oldest = self.procs.remove(0);
            proof {
                assert(self.procs@ =~= old(self).procs@.drop_first());
            }
            Some(oldest)
        } else {
            None
        }
    }

    /// Tracks a newly spawned process, the newest, and lends it out to be
    /// written to.
    pub fn track(&mut self, p: P) -> (r: &mut P)
        requires
            old(self).wf(),
            !old(self).full(),
        ensures
            *r == p,
            final(self).wf(),
            final(self).max_procs() == old(self).max_procs(),
            final(self).procs() == old(self).procs().push(*final(r)),
    {
        self.procs.push(p);
        let n = self.procs.len();
        &mut self.procs[n - 1]
    }

    /// Takes out the newest process, if any, to be waited on.
    pub fn take_newest(&mut self) -> (r: Option<P>)
        requires
            old(self).wf(),
        ensures
            final(self).wf(),
            final(self).max_procs() == old(self).max_procs(),
            old(self).procs().len() == 0 ==> r is None && final(self).procs() == old(self).procs(),
            old(self).procs().len() > 0 ==> r == Some(old(self).procs().last())
                && final(self).procs() == old(self).procs().drop_last(),
    {
        self.procs.pop()
    }

    /// Takes out every tracked process, oldest first, leaving the pool empty.
    pub fn take_all(&mut self) -> (r: Vec<P>)
        ensures
            r@ == old(self).procs(),
            final(self).procs() == Seq::<P>::empty(),
            final(self).max_procs() == old(self).max_procs(),
            final(self).wf(),
    {
        let mut all: Vec<P> = Vec::new();
        core::mem::swap(&mut all, &mut self.procs);
        all
    }
}


/// The position in a rotating pool with bound `max` of the process that the
/// `i`-th acquisition (counted from 0) hands out: with no bound, a new one
/// each time; else the first `max` are new, and then they come round in turn.
pub open spec fn slot(i: nat, max: nat) -> nat {
    if max == 0 {
        i
    } else {
        i % max
    }
}

/// How many processes a rotating pool with bound `max` holds after `n`
/// acquisitions.
pub open spec fn spawned_after(n: nat, max: nat) -> nat {
    if max == 0 || n <= max {
        n
    } else {
        max
    }
}

/// In a rotating pool with bound `n`, every acquisition from the `n`-th on
/// hands out the process that acquisition `i mod n` got, and spawns none.
pub proof fn lemma_round_robin(i: nat, n: nat)
    requires
        n > 0,
        i >= n,
    ensures
        slot(i, n) == slot(i % n, n),
        slot(i, n) < n,
        spawned_after(i, n) == n,
        spawned_after(i + 1, n) == n,
{
    lemma_fundamental_div_mod_converse((i % n) as int, n as int, 0, (i % n) as int);
}

/// With no bound, each acquisition hands out a process of its own, newly
/// spawned, and all of them stay tracked.
pub proof fn lemma_rotating_unbounded(i: nat, j: nat)
    ensures
        i != j ==> slot(i, 0) != slot(j, 0),
        spawned_after(i + 1, 0) == spawned_after(i, 0) + 1,
        spawned_after(i, 0) == i,
{
}

/// The bookkeeping of a pool that spawns processes until it holds
/// `max_procs` of them and then hands out those it has, in turn (with no
/// bound when `max_procs` is 0, every acquisition gets a new process). A
/// process may thus receive several segments. `P` is the handle of a running
/// process.
pub struct Rotating<P> {
    procs: Vec<P>,
    max_procs: usize,
    ind: usize,
    handed: Ghost<nat>,
}

impl<P> Rotating<P> {
    /// The tracked processes, in the order in which they were spawned.
    pub closed spec fn procs(&self) -> Seq<P> {
        self.procs@
    }

    /// The bound on tracked processes; 0 for none.
    pub closed spec fn max_procs(&self) -> nat {
        self.max_procs as nat
    }

    /// How many acquisitions have been made.
    pub closed spec fn handed(&self) -> nat {
        self.handed@
    }

    /// The position that the next acquisition hands out is the one that
    /// `slot` gives, and the pool holds the processes spawned so far.
    pub closed spec fn wf(&self) -> bool {
        &&& self.procs@.len() == spawned_after(self.handed@, self.max_procs as nat)
        &&& self.turn()
    }

    /// The pool holds, besides those of the acquisitions so far, the process
    /// that the next acquisition hands out.
    pub closed spec fn ready(&self) -> bool {
        &&& self.procs@.len() == spawned_after(self.handed@ + 1, self.max_procs as nat)
        &&& self.turn()
    }

    spec fn turn(&self) -> bool {
        self.max_procs > 0 ==> self.ind < self.max_procs && self.ind == self.handed@ % (
        self.max_procs as nat)
    }

    /// The next acquisition needs a new process first.
    pub open spec fn needs_spawn_spec(&self) -> bool {
        self.max_procs() == 0 || self.handed() < self.max_procs()
    }

    /// An empty pool with the given bound.
    pub fn new(max_procs: usize) -> (r: Rotating<P>)
        ensures
            r.wf(),
            r.procs() == Seq::<P>::empty(),
            r.max_procs() == max_procs,
            r.handed() == 0,
    {
        let r = Rotating { procs: Vec::new(), max_procs, ind: 0, handed: Ghost(0) };
        proof {
            if max_procs > 0 {
                lemma_fundamental_div_mod_converse(0, max_procs as int, 0, 0);
            }
        }
        r
    }

    /// Whether the next acquisition needs a new process to be tracked first.
    pub fn needs_spawn(&self) -> (r: bool)
        requires
            self.wf(),
        ensures
            r == self.needs_spawn_spec(),
            !r ==> self.ready(),
    {
        self.max_procs == 0 || self.procs.len() < self.max_procs
    }

    /// Tracks a newly spawned process, for the next acquisition to hand out.
    pub fn track(&mut self, p: P)
        requires
            old(self).wf(),
            old(self).needs_spawn_spec(),
        ensures
            final(self).ready(),
            final(self).procs() == old(self).procs().push(p),
            final(self).max_procs() == old(self).max_procs(),
            final(self).handed() == old(self).handed(),
    {
        self.procs.push(p);
    }

    /// Hands out the process whose turn it is, to be written to.
    pub fn next(&mut self) -> (r: &mut P)
        requires
            old(self).ready(),
        ensures
            final(self).wf(),
            final(self).max_procs() == old(self).max_procs(),
            final(self).handed() == old(self).handed() + 1,
            slot(old(self).handed(), old(self).max_procs()) < old(self).procs().len(),
            *r == old(self).procs()[slot(old(self).handed(), old(self).max_procs()) as int],
            final(self).procs() == old(self).procs().update(
                slot(old(self).handed(), old(self).max_procs()) as int,
                *final(r),
            ),
    {
        let i: usize;
        if self.max_procs == 0 {
            i = self.procs.len() - 1;
        } else {
            i = self.ind;
            let ghost h = self.handed@ as int;
            let ghost m = self.max_procs as int;
            proof {
                lemma_fundamental_div_mod(h, m);
            }
            if self.ind + 1 == self.max_procs {
                self.ind = 0;
                proof {
                    assert(h + 1 == (h / m + 1) * m + 0) by (nonlinear_arith)
                        requires
                            h == m * (h / m) + (m - 1),
                    ;
                    lemma_fundamental_div_mod_converse(h + 1, m, h / m + 1, 0);
                }
            } else {
                self.ind = self.ind + 1;
                proof {
                    assert(h + 1 == (h / m) * m + (i + 1)) by (nonlinear_arith)
                        requires
                            h == m * (h / m) + i,
                    ;
                    lemma_fundamental_div_mod_converse(h + 1, m, h / m, i + 1);
                }
            }
        }
        self.handed = Ghost(self.handed@ + 1);
        &mut self.procs[i]
    }

    /// Takes out the newest process, if any, to be waited on.
    pub fn take_newest(&mut self) -> (r: Option<P>)
        ensures
            final(self).max_procs() == old(self).max_procs(),
            old(self).procs().len() == 0 ==> r is None && final(self).procs() == old(self).procs(),
            old(self).procs().len() > 0 ==> r == Some(old(self).procs().last())
                && final(self).procs() == old(self).procs().drop_last(),
    {
        self.procs.pop()
    }

    /// Takes out every tracked process, leaving the pool empty.
    pub fn take_all(&mut self) -> (r: Vec<P>)
        ensures
            r@ == old(self).procs(),
            final(self).procs() == Seq::<P>::empty(),
            final(self).max_procs() == old(self).max_procs(),
    {
        let mut all: Vec<P> = Vec::new();
        core::mem::swap(&mut all, &mut self.procs);
        all
    }
}

} // verus!
