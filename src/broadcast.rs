use vstd::prelude::*;

verus! {

/// The targets among `t` whose write outcome in `r` equals `ok`, in order.
pub open spec fn pick(t: Seq<usize>, r: Seq<bool>, ok: bool) -> Seq<usize>
    decreases r.len(),
{
    if r.len() == 0 {
        Seq::empty()
    } else {
        let prev = pick(t, r.drop_last(), ok);
        if r.last() == ok {
            prev.push(t[r.len() - 1])
        } else {
            prev
        }
    }
}

/// A failed write stops nothing: every target whose write succeeded is among
/// the delivered ones, whatever failed before or after it, and each write made
/// counts as exactly one delivery or one failure.
pub proof fn lemma_failures_do_not_stop_delivery(t: Seq<usize>, r: Seq<bool>)
    requires
        r.len() <= t.len(),
    ensures
        forall|k: int| 0 <= k < r.len() && #[trigger] r[k] ==> pick(t, r, true).contains(t[k]),
        forall|k: int| 0 <= k < r.len() && !#[trigger] r[k] ==> pick(t, r, false).contains(t[k]),
        pick(t, r, true).len() + pick(t, r, false).len() == r.len(),
    decreases r.len(),
{
    if r.len() > 0 {
        let p = r.drop_last();
        lemma_failures_do_not_stop_delivery(t, p);
        let n = r.len() - 1;
        assert forall|k: int| 0 <= k < r.len() && #[trigger] r[k] implies pick(t, r, true).contains(t[k]) by {
            if k < n {
                assert(p[k] == r[k]);
                let j = choose|j: int| 0 <= j < pick(t, p, true).len() && pick(t, p, true)[j] == t[k];
                assert(pick(t, r, true)[j] == t[k]);
            } else {
                assert(pick(t, r, true).last() == t[k]);
            }
        }
        assert forall|k: int| 0 <= k < r.len() && !#[trigger] r[k] implies pick(t, r, false).contains(t[k]) by {
            if k < n {
                assert(p[k] == r[k]);
                let j = choose|j: int| 0 <= j < pick(t, p, false).len() && pick(t, p, false)[j] == t[k];
                assert(pick(t, r, false)[j] == t[k]);
            } else {
                assert(pick(t, r, false).last() == t[k]);
            }
        }
    }
}

/// One payload on its way to a fixed list of table positions. Writes are made
/// one after another, in list order; each outcome is recorded, and a failed
/// write moves on to the next target like a successful one.
pub struct Broadcast {
    payload: Vec<u8>,
    targets: Vec<usize>,
    results: Vec<bool>,
}

impl Broadcast {
    pub closed spec fn payload_view(&self) -> Seq<u8> {
        self.payload@
    }

    pub closed spec fn targets_view(&self) -> Seq<usize> {
        self.targets@
    }

    /// The outcome of each write made so far, in order.
    pub closed spec fn results_view(&self) -> Seq<bool> {
        self.results@
    }

    pub open spec fn wf(&self) -> bool {
        self.results_view().len() <= self.targets_view().len()
    }

    pub open spec fn done_spec(&self) -> bool {
        self.results_view().len() == self.targets_view().len()
    }

    /// A broadcast of `payload` to `targets` with no write made yet.
    pub fn new(payload: Vec<u8>, targets: Vec<usize>) -> (b: Broadcast)
        ensures
            b.wf(),
            b.payload_view() == payload@,
            b.targets_view() == targets@,
            b.results_view() == Seq::<bool>::empty(),
    {
        Broadcast { payload, targets, results: Vec::new() }
    }

    /// The bytes to write, exactly as received from the origin.
    pub fn payload(&self) -> (p: &[u8])
        ensures
            p@ == self.payload_view(),
    {
        self.payload.as_slice()
    }

    pub fn targets(&self) -> (t: &[usize])
        ensures
            t@ == self.targets_view(),
    {
        self.targets.as_slice()
    }

    pub fn is_done(&self) -> (r: bool)
        requires
            self.wf(),
        ensures
            r == self.done_spec(),
    {
        self.results.len() == self.targets.len()
    }

    /// The position to write to next, or `None` once every target was tried.
    pub fn next_target(&self) -> (r: Option<usize>)
        requires
            self.wf(),
        ensures
            r == (if self.done_spec() {
                None
            } else {
                Some(self.targets_view()[self.results_view().len() as int])
            }),
    {
        if self.results.len() < self.targets.len() {
            Some(self.targets[self.results.len()])
        } else {
            None
        }
    }

    /// Records whether the write to the current target succeeded.
    pub fn record(&mut self, delivered: bool)
        requires
            old(self).wf(),
            !old(self).done_spec(),
        ensures
            final(self).wf(),
            final(self).payload_view() == old(self).payload_view(),
            final(self).targets_view() == old(self).targets_view(),
            final(self).results_view() == old(self).results_view().push(delivered),
    {
        self.results.push(delivered);
    }

    fn select(&self, ok: bool) -> (r: Vec<usize>)
        requires
            self.wf(),
        ensures
            r@ == pick(self.targets_view(), self.results_view(), ok),
    {
        let mut r: Vec<usize> = Vec::new();
        let mut i: usize = 0;
        while i < self.results.len()
            invariant
                self.wf(),
                i <= self.results@.len(),
                r@ == pick(self.targets@, self.results@.take(i as int), ok),
            decreases self.results@.len() - i,
        {
            proof {
                assert(self.results@.take(i + 1).drop_last() =~= self.results@.take(i as int));
            }
            if self.results[i] == ok {
                r.push(self.targets[i]);
            }
            i = i + 1;
        }
        assert(self.results@.take(i as int) =~= self.results@);
        r
    }

    /// The targets whose write succeeded, in the order they were written.
    pub fn delivered(&self) -> (r: Vec<usize>)
        requires
            self.wf(),
        ensures
            r@ == pick(self.targets_view(), self.results_view(), true),
    {
        self.select(true)
    }

    /// The targets whose write failed, in the order they were tried.
    pub fn failed(&self) -> (r: Vec<usize>)
        requires
            self.wf(),
        ensures
            r@ == pick(self.targets_view(), self.results_view(), false),
    {
        self.select(false)
    }
}

} // verus!
