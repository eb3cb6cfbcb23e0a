use vstd::prelude::*;
use vstd::string::StringExecFns;

verus! {

/// One tracked task: its registered name and the ticket under which the
/// caller runs the concurrent unit of work.
pub struct TaskEntry {
    pub name: Seq<char>,
    pub id: u64,
}

/// Keeps an entry while its ticket is not among the finished ones.
pub open spec fn still_running(finished: Seq<u64>) -> spec_fn(TaskEntry) -> bool {
    |t: TaskEntry| !finished.contains(t.id)
}

/// Keeps an entry while its name differs from a newly registered one.
pub open spec fn other_name(name: Seq<char>) -> spec_fn(TaskEntry) -> bool {
    |t: TaskEntry| t.name != name
}

/// The task supervisor's registry. It owns no threads: the caller runs each
/// spawned unit of work, keyed by the ticket that `spawn` hands out, and
/// reports back which tickets have finished. The registry decides what is
/// still running and thereby when a shutdown may complete.
pub struct TaskMaster {
    names: Vec<String>,
    ids: Vec<u64>,
    next_id: u64,
}

impl TaskMaster {
    /// The registered tasks, in registration order.
    pub closed spec fn entries(self) -> Seq<TaskEntry> {
        Seq::new(self.names@.len(), |i: int| TaskEntry { name: self.names@[i]@, id: self.ids@[i] })
    }

    /// The ticket the next registration will receive.
    pub closed spec fn next_ticket(self) -> u64 {
        self.next_id
    }

    /// Well-formed: one entry per name, one entry per ticket, and every
    /// ticket below the next one to be handed out.
    pub closed spec fn wf(self) -> bool {
        &&& self.names@.len() == self.ids@.len()
        &&& forall|i: int, j: int|
            0 <= i < j < self.entries().len() ==> (#[trigger] self.entries()[i]).name != (
            #[trigger] self.entries()[j]).name
        &&& forall|i: int, j: int|
            0 <= i < j < self.entries().len() ==> (#[trigger] self.entries()[i]).id != (
            #[trigger] self.entries()[j]).id
        &&& forall|i: int|
            0 <= i < self.entries().len() ==> (#[trigger] self.entries()[i]).id < self.next_id
    }

    /// A fresh registry with nothing tracked.
    pub fn new() -> (t: TaskMaster)
        ensures
            t.wf(),
            t.entries() == Seq::<TaskEntry>::empty(),
            t.next_ticket() == 0,
    {
        let t = TaskMaster { names: Vec::new(), ids: Vec::new(), next_id: 0 };
        proof {
            assert(t.entries() =~= Seq::<TaskEntry>::empty());
        }
        t
    }

    /// Registers a unit of work under `name` and hands out its ticket. A
    /// later registration under the same name replaces the earlier entry:
    /// only the tracking entry is overwritten, never the work itself.
    pub fn spawn(&mut self, name: String) -> (ticket: u64)
        requires
            old(self).wf(),
            old(self).next_ticket() < u64::MAX,
        ensures
            final(self).wf(),
            ticket == old(self).next_ticket(),
            final(self).next_ticket() == ticket + 1,
            final(self).entries() == old(self).entries().filter(other_name(name@)).push(
                (TaskEntry { name: name@, id: ticket }),
            ),
    {
        let ticket = self.next_id;
        let n = self.names.len();
        let mut k: usize = 0;
        let mut found: Option<usize> = None;
        while k < n
            invariant
                *self == *old(self),
                old(self).wf(),
                n == self.names@.len(),
                k <= n,
                match found {
                    Some(j) => j < k && self.names@[j as int]@ == name@,
                    None => forall|i: int| 0 <= i < k ==> self.names@[i]@ != name@,
                },
            decreases n - k,
        {
            if found.is_none() && self.names[k] == name {
                found = Some(k);
            }
            k += 1;
        }
        let ghost pre = self.entries();
        match found {
            Some(j) => {
                self.names.remove(j);
                self.ids.remove(j);
                proof {
                    assert(self.entries() =~= pre.remove(j as int));
                    assert(!other_name(name@)(pre[j as int]));
                    assert forall|i: int| 0 <= i < pre.len() && i != j as int implies other_name(
                        name@,
                    )(#[trigger] pre[i]) by {
                        assert(pre[i].name != pre[j as int].name);
                    }
                    lemma_filter_except_one(pre, other_name(name@), j as int);
                }
            },
            None => {
                proof {
                    assert forall|i: int| 0 <= i < pre.len() implies other_name(name@)(
                        #[trigger] pre[i],
                    ) by {}
                    lemma_filter_all_true(pre, other_name(name@));
                }
            },
        }
        let ghost kept = self.entries();
        proof {
            assert(kept == pre.filter(other_name(name@)));
        }
        self.names.push(name);
        self.ids.push(ticket);
        self.next_id = ticket + 1;
        proof {
            assert(self.entries() =~= kept.push(TaskEntry { name: name@, id: ticket }));
            assert forall|i: int| 0 <= i < kept.len() implies kept[i].name != name@ && kept[i].id
                < ticket by {
                assert(pre.filter(other_name(name@)).contains(kept[i]));
                Seq::lemma_filter_contains_rev(pre, other_name(name@), kept[i]);
                let w = choose|w: int| 0 <= w < pre.len() && pre[w] == kept[i];
                assert(other_name(name@)(kept[i]));
                assert(pre[w].id < old(self).next_id);
            }
            assert forall|i: int, j: int|
                0 <= i < j < kept.len() implies kept[i].name != kept[j].name && kept[i].id
                != kept[j].id by {
                lemma_filter_keeps_distinct(pre, other_name(name@), i, j);
            }
        }
        ticket
    }

    /// Prunes every entry whose ticket the caller reports as finished.
    pub fn clear_finished(&mut self, finished: &Vec<u64>)
        requires
            old(self).wf(),
        ensures
            final(self).wf(),
            final(self).next_ticket() == old(self).next_ticket(),
            final(self).entries() == old(self).entries().filter(still_running(finished@)),
    {
        let n = self.names.len();
        let mut new_names: Vec<String> = Vec::new();
        let mut new_ids: Vec<u64> = Vec::new();
        let mut k: usize = 0;
        proof {
            assert(self.entries().take(0).filter(still_running(finished@)) =~= Seq::<
                TaskEntry,
            >::empty()) by {
                reveal(Seq::filter);
            }
            assert(entries_of(new_names@, new_ids@) =~= Seq::<TaskEntry>::empty());
        }
        while k < n
            invariant
                *self == *old(self),
                old(self).wf(),
                n == self.names@.len(),
                n == self.ids@.len(),
                k <= n,
                new_names@.len() == new_ids@.len(),
                entries_of(new_names@, new_ids@) == self.entries().take(k as int).filter(
                    still_running(finished@),
                ),
            decreases n - k,
        {
            let keep = !contains_u64(finished, self.ids[k]);
            let ghost before = entries_of(new_names@, new_ids@);
            if keep {
                new_names.push(self.names[k].clone());
                new_ids.push(self.ids[k]);
            }
            proof {
                let ghost t = self.entries().take(k + 1);
                assert(t.drop_last() =~= self.entries().take(k as int));
                assert(t.last() == self.entries()[k as int]);
                reveal(Seq::filter);
                if keep {
                    assert(entries_of(new_names@, new_ids@) =~= before.push(
                        self.entries()[k as int],
                    ));
                }
                assert(entries_of(new_names@, new_ids@) =~= t.filter(still_running(finished@)));
            }
            k += 1;
        }
        proof {
            assert(self.entries().take(n as int) =~= self.entries());
        }
        let ghost pre = self.entries();
        let ghost bound = self.next_id;
        self.names = new_names;
        self.ids = new_ids;
        proof {
            assert(self.entries() =~= pre.filter(still_running(finished@)));
            let post = self.entries();
            assert forall|i: int| 0 <= i < post.len() implies post[i].id < bound by {
                assert(pre.filter(still_running(finished@)).contains(post[i]));
                Seq::lemma_filter_contains_rev(pre, still_running(finished@), post[i]);
                let w = choose|w: int| 0 <= w < pre.len() && pre[w] == post[i];
                assert(pre[w].id < bound);
            }
            assert forall|i: int, j: int|
                0 <= i < j < post.len() implies post[i].name != post[j].name && post[i].id
                != post[j].id by {
                lemma_filter_keeps_distinct(pre, still_running(finished@), i, j);
            }
        }
    }

    /// The ticket registered under `name`, if any.
    pub fn get_task(&self, name: &str) -> (r: Option<u64>)
        requires
            self.wf(),
        ensures
            match r {
                Some(id) => exists|k: int|
                    0 <= k < self.entries().len() && self.entries()[k] == (TaskEntry {
                        name: name@,
                        id,
                    }),
                None => forall|k: int|
                    0 <= k < self.entries().len() ==> (#[trigger] self.entries()[k]).name != name@,
            },
    {
        let owned = String::from_str(name);
        let n = self.names.len();
        let mut k: usize = 0;
        while k < n
            invariant
                self.wf(),
                owned@ == name@,
                n == self.names@.len(),
                k <= n,
                forall|i: int| 0 <= i < k ==> (#[trigger] self.entries()[i]).name != name@,
            decreases n - k,
        {
            if self.names[k] == owned {
                let id = self.ids[k];
                proof {
                    assert(self.entries()[k as int] == (TaskEntry { name: name@, id }));
                }
                return Some(id);
            }
            k += 1;
        }
        None
    }

    /// Prunes the finished entries, then names the tasks still running, in
    /// registration order.
    pub fn list_running_tasks(&mut self, finished: &Vec<u64>) -> (running: Vec<String>)
        requires
            old(self).wf(),
        ensures
            final(self).wf(),
            final(self).next_ticket() == old(self).next_ticket(),
            final(self).entries() == old(self).entries().filter(still_running(finished@)),
            running@.len() == final(self).entries().len(),
            forall|i: int|
                0 <= i < running@.len() ==> (#[trigger] running@[i])@ == final(self).entries()[i].name,
    {
        self.clear_finished(finished);
        let ghost mid = *self;
        let n = self.names.len();
        let mut running: Vec<String> = Vec::new();
        let mut k: usize = 0;
        while k < n
            invariant
                *self == mid,
                self.wf(),
                n == self.names@.len(),
                k <= n,
                running@.len() == k,
                forall|i: int|
                    0 <= i < k ==> (#[trigger] running@[i])@ == self.entries()[i].name,
            decreases n - k,
        {
            running.push(self.names[k].clone());
            k += 1;
        }
        running
    }
}

/// The registry a pair of name and ticket columns stands for.
pub open spec fn entries_of(names: Seq<String>, ids: Seq<u64>) -> Seq<TaskEntry> {
    Seq::new(names.len(), |i: int| TaskEntry { name: names[i]@, id: ids[i] })
}

/// Whether `x` occurs in `v`.
pub fn contains_u64(v: &Vec<u64>, x: u64) -> (r: bool)
    ensures
        r == v@.contains(x),
{
    let n = v.len();
    let mut k: usize = 0;
    while k < n
        invariant
            n == v@.len(),
            k <= n,
            forall|i: int| 0 <= i < k ==> v@[i] != x,
        decreases n - k,
    {
        if v[k] == x {
            return true;
        }
        k += 1;
    }
    false
}

/// Filtering with a predicate that holds everywhere changes nothing.
proof fn lemma_filter_all_true<A>(s: Seq<A>, pred: spec_fn(A) -> bool)
    requires
        forall|i: int| 0 <= i < s.len() ==> pred(#[trigger] s[i]),
    ensures
        s.filter(pred) == s,
    decreases s.len(),
{
    reveal(Seq::filter);
    if s.len() == 0 {
        assert(s.filter(pred) =~= s);
    } else {
        assert(forall|i: int| 0 <= i < s.drop_last().len() ==> pred(#[trigger] s.drop_last()[i]));
        lemma_filter_all_true(s.drop_last(), pred);
        assert(s.filter(pred) =~= s);
    }
}

/// Filtering with a predicate that fails at exactly one index removes
/// exactly that element.
proof fn lemma_filter_except_one<A>(s: Seq<A>, pred: spec_fn(A) -> bool, j: int)
    requires
        0 <= j < s.len(),
        !pred(s[j]),
        forall|i: int| 0 <= i < s.len() && i != j ==> pred(#[trigger] s[i]),
    ensures
        s.filter(pred) == s.remove(j),
    decreases s.len(),
{
    reveal(Seq::filter);
    if j == s.len() - 1 {
        assert(forall|i: int| 0 <= i < s.drop_last().len() ==> pred(#[trigger] s.drop_last()[i]));
        lemma_filter_all_true(s.drop_last(), pred);
        assert(s.filter(pred) =~= s.remove(j));
    } else {
        assert(!pred(s.drop_last()[j]));
        assert(forall|i: int|
            0 <= i < s.drop_last().len() && i != j ==> pred(#[trigger] s.drop_last()[i]));
        lemma_filter_except_one(s.drop_last(), pred, j);
        assert(s.filter(pred) =~= s.remove(j));
    }
}

/// Any two positions of a filtered registry come from two distinct
/// positions of the unfiltered one, so pairwise-distinct names and tickets carry
/// over to the filtered registry.
proof fn lemma_filter_keeps_distinct(
    s: Seq<TaskEntry>,
    pred: spec_fn(TaskEntry) -> bool,
    i: int,
    j: int,
)
    requires
        forall|a: int, b: int|
            0 <= a < b < s.len() ==> (#[trigger] s[a]).name != (#[trigger] s[b]).name,
        forall|a: int, b: int|
            0 <= a < b < s.len() ==> (#[trigger] s[a]).id != (#[trigger] s[b]).id,
        0 <= i < j < s.filter(pred).len(),
    ensures
        s.filter(pred)[i].name != s.filter(pred)[j].name,
        s.filter(pred)[i].id != s.filter(pred)[j].id,
    decreases s.len(),
{
    reveal(Seq::filter);
    if s.len() == 0 {
    } else {
        let rest = s.drop_last();
        assert(forall|a: int, b: int|
            0 <= a < b < rest.len() ==> (#[trigger] rest[a]).name != (#[trigger] rest[b]).name);
        assert(forall|a: int, b: int|
            0 <= a < b < rest.len() ==> (#[trigger] rest[a]).id != (#[trigger] rest[b]).id);
        if pred(s.last()) && j == s.filter(pred).len() - 1 {
            // `j` is the freshly pushed last element; `i` comes from the rest.
            assert(s.filter(pred)[i] == rest.filter(pred)[i]);
            assert(rest.filter(pred).contains(rest.filter(pred)[i]));
            Seq::lemma_filter_contains_rev(rest, pred, rest.filter(pred)[i]);
            let w = choose|w: int| 0 <= w < rest.len() && rest[w] == rest.filter(pred)[i];
            assert(s[w] == rest[w]);
            assert(s[w].name != s[s.len() - 1].name);
            assert(s[w].id != s[s.len() - 1].id);
        } else {
            lemma_filter_keeps_distinct(rest, pred, i, j);
            assert(s.filter(pred)[i] == rest.filter(pred)[i]);
            assert(s.filter(pred)[j] == rest.filter(pred)[j]);
        }
    }
}

/// Supervisor liveness law: once every registered task has finished, a prune
/// leaves the registry empty, so a listing of running tasks is empty and a
/// shutdown check completes at once, without waiting.
pub proof fn lemma_supervisor_liveness(s: Seq<TaskEntry>, finished: Seq<u64>)
    requires
        forall|k: int| 0 <= k < s.len() ==> finished.contains((#[trigger] s[k]).id),
    ensures
        s.filter(still_running(finished)) == Seq::<TaskEntry>::empty(),
    decreases s.len(),
{
    reveal(Seq::filter);
    if s.len() == 0 {
        assert(s.filter(still_running(finished)) =~= Seq::<TaskEntry>::empty());
    } else {
        assert(forall|k: int|
            0 <= k < s.drop_last().len() ==> finished.contains((#[trigger] s.drop_last()[k]).id));
        lemma_supervisor_liveness(s.drop_last(), finished);
        assert(!still_running(finished)(s.last()));
        assert(s.filter(still_running(finished)) =~= Seq::<TaskEntry>::empty());
    }
}

} // verus!
