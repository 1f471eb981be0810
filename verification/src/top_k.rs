use vstd::prelude::*;

use crate::metrics::{usage_ok, MAX_USAGE_HUNDREDTHS};

verus! {

// ---------------------------------------------------------------------------
// Trusted view of the outside priority queue.
// ---------------------------------------------------------------------------

/// Declares priority_queue::PriorityQueue, the outside priority structure
/// the selector stores its candidates in; the value is opaque here, and what
/// it holds is named below.
#[verifier::external_type_specification]
#[verifier::external_body]
#[verifier::reject_recursive_types(I)]
#[verifier::reject_recursive_types(P)]
#[verifier::reject_recursive_types(H)]
pub struct ExPriorityQueue<I, P, H>(priority_queue::PriorityQueue<I, P, H>);

/// The concrete queue the selector drives: identifiers keyed by priority
/// pairs.
pub type SelectionQueue = priority_queue::PriorityQueue<u64, (u64, u64)>;

/// What the bounded selection queue holds: each stored identifier, mapped to
/// the priority pair it was stored under.
pub uninterp spec fn queue_entries(
    q: SelectionQueue,
) -> Map<u64, (u64, u64)>;

/// The order std gives pairs of integers, and therefore the order the outside
/// queue ranks its priorities by: lexicographic.
pub open spec fn prio_le(a: (u64, u64), b: (u64, u64)) -> bool {
    a.0 < b.0 || (a.0 == b.0 && a.1 <= b.1)
}

/// Relies on priority_queue::PriorityQueue::new: a freshly created queue
/// holds nothing.
#[verifier::external_body]
fn queue_new() -> (fresh: SelectionQueue)
    ensures
        queue_entries(fresh).dom() == Set::<u64>::empty(),
{
    priority_queue::PriorityQueue::new()
}

/// Relies on priority_queue::PriorityQueue::push: inserts the pair, or, for
/// an item already present, replaces that item's priority.
#[verifier::external_body]
fn queue_push(
    q: &mut SelectionQueue,
    item: u64,
    prio: (u64, u64),
)
    requires
        queue_entries(*old(q)).dom().len() < usize::MAX,
    ensures
        queue_entries(*final(q)) == queue_entries(*old(q)).insert(item, prio),
{
    q.push(item, prio);
}

/// Relies on priority_queue::PriorityQueue::pop: removes and returns a pair
/// whose priority is greatest in the queue, or returns None when the queue is
/// empty and leaves it unchanged.
#[verifier::external_body]
fn queue_pop(
    q: &mut SelectionQueue,
) -> (popped: Option<(u64, (u64, u64))>)
    ensures
        popped is None ==> queue_entries(*old(q)).dom() == Set::<u64>::empty()
            && queue_entries(*final(q)) == queue_entries(*old(q)),
        popped matches Some(e) ==> {
            &&& queue_entries(*old(q)).contains_pair(e.0, e.1)
            &&& forall|j: u64|
                queue_entries(*old(q)).dom().contains(j) ==> prio_le(
                    #[trigger] queue_entries(*old(q))[j],
                    e.1,
                )
            &&& queue_entries(*final(q)) == queue_entries(*old(q)).remove(e.0)
        },
{
    q.pop()
}

// ---------------------------------------------------------------------------
// The mathematical model of the bounded selection.
// ---------------------------------------------------------------------------

/// A snapshot is a sequence of (identifier, quantized CPU usage) pairs whose
/// identifiers never repeat: a reading of a process table keyed by identifier.
pub open spec fn distinct_pids(s: Seq<(u64, u32)>) -> bool {
    forall|i: int, j: int|
        0 <= i < j < s.len() ==> (#[trigger] s[i]).0 != (#[trigger] s[j]).0
}

/// Every usage figure of the snapshot lies inside the unit interval.
pub open spec fn snapshot_valid(s: Seq<(u64, u32)>) -> bool {
    forall|i: int| 0 <= i < s.len() ==> usage_ok((#[trigger] s[i]).1)
}

/// The priority pair a process is stored under: a smaller usage makes a
/// greater priority, and at equal usage a larger identifier does, so the
/// queue's greatest entry is always the one eviction removes, and eviction is
/// deterministic.
pub open spec fn prio_pair(pid: u64, usage: u32) -> (u64, u64)
    recommends
        usage_ok(usage),
{
    ((MAX_USAGE_HUNDREDTHS - usage) as u64, pid)
}

/// Eviction preference between two stored processes: the one with the lower
/// usage leaves first, and at equal usage the one with the larger identifier.
pub open spec fn evicted_first(v_pid: u64, v_usage: u32, o_pid: u64, o_usage: u32) -> bool {
    v_usage < o_usage || (v_usage == o_usage && v_pid >= o_pid)
}

/// The member of a working set that eviction would remove.
pub open spec fn is_victim(m: Map<u64, u32>, v: u64) -> bool {
    m.dom().contains(v) && forall|j: u64|
        m.dom().contains(j) ==> evicted_first(v, m[v], j, #[trigger] m[j])
}

pub open spec fn victim(m: Map<u64, u32>) -> u64 {
    choose|v: u64| is_victim(m, v)
}

/// The working set after the bounded selection has consumed the snapshot:
/// each candidate is inserted while fewer than k members exist; once k are
/// held, a candidate replaces the eviction victim exactly when its usage is
/// strictly greater than the victim's, and is discarded otherwise (a tie
/// never evicts).
pub open spec fn selected(s: Seq<(u64, u32)>, k: nat) -> Map<u64, u32>
    decreases s.len(),
{
    if s.len() == 0 {
        Map::empty()
    } else {
        let m = selected(s.drop_last(), k);
        let pid = s.last().0;
        let usage = s.last().1;
        if m.dom().len() < k {
            m.insert(pid, usage)
        } else if k == 0 {
            m
        } else {
            let v = victim(m);
            if usage > m[v] {
                m.remove(v).insert(pid, usage)
            } else {
                m
            }
        }
    }
}

proof fn lemma_victim_exists(m: Map<u64, u32>)
    requires
        m.dom().finite(),
        m.dom().len() > 0,
    ensures
        is_victim(m, victim(m)),
    decreases m.dom().len(),
{
    let x = m.dom().choose();
    assert(m.dom().contains(x));
    if m.dom().len() == 1 {
        assert forall|j: u64| m.dom().contains(j) implies evicted_first(x, m[x], j, m[j]) by {
            if j != x {
                assert(m.dom().remove(x).contains(j));
                assert(m.dom().remove(x).len() == 0);
            }
        }
        assert(is_victim(m, x));
    } else {
        let rest = m.remove(x);
        assert(rest.dom() =~= m.dom().remove(x));
        lemma_victim_exists(rest);
        let v0 = victim(rest);
        assert(rest.dom().contains(v0));
        assert(m[v0] == rest[v0]);
        let w = if evicted_first(x, m[x], v0, m[v0]) {
            x
        } else {
            v0
        };
        assert forall|j: u64| m.dom().contains(j) implies evicted_first(w, m[w], j, m[j]) by {
            if j != x {
                assert(rest.dom().contains(j));
                assert(evicted_first(v0, rest[v0], j, rest[j]));
            }
        }
        assert(is_victim(m, w));
    }
    assert(exists|v: u64| is_victim(m, v));
}

proof fn lemma_victim_unique(m: Map<u64, u32>, a: u64, b: u64)
    requires
        is_victim(m, a),
        is_victim(m, b),
    ensures
        a == b,
{
    assert(evicted_first(a, m[a], b, m[b]));
    assert(evicted_first(b, m[b], a, m[a]));
}

/// The size and dominance law of the bounded selection: it keeps exactly
/// min(k, |snapshot|) identifiers, each stored with the usage the snapshot
/// pairs it with, and every identifier it keeps has a usage at least as large
/// as that of every identifier it left out.
pub proof fn lemma_selected_props(s: Seq<(u64, u32)>, k: nat)
    requires
        distinct_pids(s),
    ensures
        selected(s, k).dom().finite(),
        selected(s, k).dom().len() == vstd::math::min(k as int, s.len() as int),
        forall|p: u64| #[trigger]
            selected(s, k).dom().contains(p) ==> s.contains((p, selected(s, k)[p])),
        forall|i: int, p: u64|
            0 <= i < s.len() && selected(s, k).dom().contains(p) && !selected(s, k).dom().contains(
                (#[trigger] s[i]).0,
            ) ==> s[i].1 <= #[trigger] selected(s, k)[p],
        selected(s, k).dom().len() < k ==> forall|i: int|
            0 <= i < s.len() ==> selected(s, k).dom().contains((#[trigger] s[i]).0),
    decreases s.len(),
{
    let m = selected(s, k);
    if s.len() == 0 {
        assert(m.dom() =~= Set::<u64>::empty());
    } else {
        let s0 = s.drop_last();
        assert(distinct_pids(s0)) by {
            assert(forall|i: int| 0 <= i < s0.len() ==> s0[i] == s[i]);
        }
        lemma_selected_props(s0, k);
        let m0 = selected(s0, k);
        let pid = s.last().0;
        let usage = s.last().1;
        assert(s.last() == s[s.len() - 1]);
        assert(!m0.dom().contains(pid)) by {
            if m0.dom().contains(pid) {
                assert(s0.contains((pid, m0[pid])));
                let i = choose|i: int| 0 <= i < s0.len() && s0[i] == (pid, m0[pid]);
                assert(s[i] == s0[i]);
                assert((s[i]).0 == (s[s.len() - 1]).0);
            }
        }
        assert(forall|q: (u64, u32)| s0.contains(q) ==> s.contains(q)) by {
            assert forall|q: (u64, u32)| s0.contains(q) implies s.contains(q) by {
                let i = choose|i: int| 0 <= i < s0.len() && s0[i] == q;
                assert(s[i] == q);
            }
        }
        if m0.dom().len() < k {
            assert(m == m0.insert(pid, usage));
            assert(m.dom() =~= m0.dom().insert(pid));
            // every index of s0 is already a member, so nothing was excluded
            assert forall|i: int, p: u64|
                0 <= i < s.len() && m.dom().contains(p) && !m.dom().contains(
                    (#[trigger] s[i]).0,
                ) implies s[i].1 <= #[trigger] m[p] by {
                if i < s.len() - 1 {
                    assert(s0[i] == s[i]);
                    assert(m0.dom().contains(s[i].0));
                }
            }
            if m.dom().len() < k {
                assert forall|i: int| 0 <= i < s.len() implies m.dom().contains(
                    (#[trigger] s[i]).0,
                ) by {
                    if i < s.len() - 1 {
                        assert(s0[i] == s[i]);
                        assert(m0.dom().contains(s[i].0));
                    }
                }
            }
            assert forall|p: u64| #[trigger] m.dom().contains(p) implies s.contains(
                (p, m[p]),
            ) by {
                if p == pid {
                    assert(s[s.len() - 1] == (pid, usage));
                } else {
                    assert(s0.contains((p, m0[p])));
                }
            }
        } else if k == 0 {
            assert(m == m0);
            assert(m0.dom().len() == 0);
            assert(forall|p: u64| !m.dom().contains(p)) by {
                assert(m.dom().len() == 0);
                assert forall|p: u64| !m.dom().contains(p) by {
                    if m.dom().contains(p) {
                        assert(m.dom().remove(p).len() + 1 == m.dom().len());
                    }
                }
            }
        } else {
            // the working set is full
            assert(m0.dom().len() == k);
            lemma_victim_exists(m0);
            let v = victim(m0);
            assert(is_victim(m0, v));
            if usage > m0[v] {
                assert(m == m0.remove(v).insert(pid, usage));
                assert(m.dom() =~= m0.dom().remove(v).insert(pid));
                assert(m0.dom().remove(v).len() == k - 1);
                assert(!m0.dom().remove(v).contains(pid));
                assert(m.dom().len() == k);
                assert forall|p: u64| #[trigger] m.dom().contains(p) implies s.contains(
                    (p, m[p]),
                ) by {
                    if p == pid {
                        assert(s[s.len() - 1] == (pid, usage));
                    } else {
                        assert(m0.dom().contains(p));
                        assert(m[p] == m0[p]);
                        assert(s0.contains((p, m0[p])));
                    }
                }
                assert forall|i: int, p: u64|
                    0 <= i < s.len() && m.dom().contains(p) && !m.dom().contains(
                        (#[trigger] s[i]).0,
                    ) implies s[i].1 <= #[trigger] m[p] by {
                    if i == s.len() - 1 {
                        assert(s[i].0 == pid);
                        assert(m.dom().contains(pid));
                    } else {
                        assert(s0[i] == s[i]);
                        let excl = s[i].0;
                        if m0.dom().contains(excl) {
                            // the only member of m0 missing from m is the victim
                            assert(excl == v);
                            assert(s0.contains((v, m0[v])));
                            let iv = choose|t: int| 0 <= t < s0.len() && s0[t] == (v, m0[v]);
                            assert(s0[iv].0 == s0[i].0);
                            assert(iv == i);
                            assert(s[i].1 == m0[v]);
                            if p == pid {
                                assert(m[p] == usage);
                            } else {
                                assert(m0.dom().contains(p));
                                assert(evicted_first(v, m0[v], p, m0[p]));
                                assert(m[p] == m0[p]);
                            }
                        } else {
                            // excluded already under the previous set
                            if p == pid {
                                assert(m0.dom().contains(v));
                                assert(s[i].1 <= m0[v]);
                                assert(m[p] == usage);
                            } else {
                                assert(m0.dom().contains(p));
                                assert(s[i].1 <= m0[p]);
                                assert(m[p] == m0[p]);
                            }
                        }
                    }
                }
            } else {
                assert(m == m0);
                assert forall|i: int, p: u64|
                    0 <= i < s.len() && m.dom().contains(p) && !m.dom().contains(
                        (#[trigger] s[i]).0,
                    ) implies s[i].1 <= #[trigger] m[p] by {
                    if i == s.len() - 1 {
                        assert(s[i].1 == usage);
                        assert(m0.dom().contains(v));
                        assert(evicted_first(v, m0[v], p, m0[p]));
                        assert(usage <= m0[v]);
                    } else {
                        assert(s0[i] == s[i]);
                    }
                }
            }
        }
    }
}

/// The selection is a pure function of the snapshot and the capacity: two
/// runs over one snapshot yield one and the same identifier set.
pub proof fn lemma_selection_idempotent(
    s: Seq<(u64, u32)>,
    k: nat,
    first: Seq<u64>,
    second: Seq<u64>,
)
    requires
        first.to_set() == selected(s, k).dom(),
        second.to_set() == selected(s, k).dom(),
    ensures
        first.to_set() == second.to_set(),
{
}

// ---------------------------------------------------------------------------
// The executable selector.
// ---------------------------------------------------------------------------

/// Rejection of a snapshot entry whose reported CPU usage lies outside the
/// unit interval: a contract violation of the snapshot source, rejected
/// rather than clamped.
#[derive(Clone, Copy, Debug, PartialEq, Eq, Structural)]
pub struct UsageOutOfRange {
    pub pid: u64,
    pub cpu_usage_hundredths: u32,
}

/// The stored queue mirrors a working set: same identifiers, each under the
/// priority pair its usage dictates.
pub open spec fn queue_matches(entries: Map<u64, (u64, u64)>, m: Map<u64, u32>) -> bool {
    &&& entries.dom() == m.dom()
    &&& forall|p: u64|
        m.dom().contains(p) ==> #[trigger] entries[p] == prio_pair(p, m[p])
}

/// Select the (at most) k identifiers with the greatest CPU usage out of a
/// snapshot, through a bounded min-oriented priority queue of capacity k: the
/// queue fills unconditionally, then each further candidate evicts the
/// current minimum exactly when its usage is strictly greater, and a tie
/// discards the candidate. The first entry whose usage lies outside the unit
/// interval is rejected.
pub fn top_k(snapshot: &Vec<(u64, u32)>, k: usize) -> (result: Result<Vec<u64>, UsageOutOfRange>)
    requires
        distinct_pids(snapshot@),
    ensures
        result is Ok <==> snapshot_valid(snapshot@),
        result matches Ok(ids) ==> ({
            &&& ids@.to_set() == selected(snapshot@, k as nat).dom()
            &&& ids@.no_duplicates()
            &&& ids@.len() == vstd::math::min(k as int, snapshot@.len() as int)
        }),
        result matches Err(e) ==> (exists|i: int|
            {
                &&& 0 <= i < snapshot@.len()
                &&& (#[trigger] snapshot@[i]) == (e.pid, e.cpu_usage_hundredths)
                &&& !usage_ok(snapshot@[i].1)
                &&& forall|j: int| 0 <= j < i ==> usage_ok((#[trigger] snapshot@[j]).1)
            }),
{
    let ghost s = snapshot@;
    let mut queue = queue_new();
    let mut filled: usize = 0;
    let mut idx: usize = 0;
    while idx < snapshot.len()
        invariant
            idx <= snapshot.len(),
            s == snapshot@,
            distinct_pids(s),
            filled <= k,
            forall|j: int| 0 <= j < idx ==> usage_ok((#[trigger] s[j]).1),
            queue_matches(queue_entries(queue), selected(s.take(idx as int), k as nat)),
            filled == selected(s.take(idx as int), k as nat).dom().len(),
        decreases s.len() - idx,
    {
        let pair = snapshot[idx];
        let pid = pair.0;
        let usage = pair.1;
        if usage > MAX_USAGE_HUNDREDTHS {
            assert(s[idx as int].1 > MAX_USAGE_HUNDREDTHS);
            return Err(UsageOutOfRange { pid, cpu_usage_hundredths: usage });
        }
        let ghost t0 = s.take(idx as int);
        let ghost t1 = s.take(idx as int + 1);
        let ghost m0 = selected(t0, k as nat);
        let ghost m1 = selected(t1, k as nat);
        proof {
            assert(t1.drop_last() =~= t0);
            assert(t1.last() == s[idx as int]);
            assert(distinct_pids(t0)) by {
                assert(forall|a: int| 0 <= a < t0.len() ==> t0[a] == s[a]);
            }
            assert(distinct_pids(t1)) by {
                assert(forall|a: int| 0 <= a < t1.len() ==> t1[a] == s[a]);
            }
            lemma_selected_props(t0, k as nat);
            lemma_selected_props(t1, k as nat);
            assert(!m0.dom().contains(pid)) by {
                if m0.dom().contains(pid) {
                    assert(t0.contains((pid, m0[pid])));
                    let i = choose|i: int| 0 <= i < t0.len() && t0[i] == (pid, m0[pid]);
                    assert(s[i] == t0[i]);
                    assert((s[i]).0 == (s[idx as int]).0);
                }
            }
            assert forall|p: u64| m0.dom().contains(p) implies usage_ok(#[trigger] m0[p]) by {
                assert(t0.contains((p, m0[p])));
                let i = choose|i: int| 0 <= i < t0.len() && t0[i] == (p, m0[p]);
                assert(s[i] == t0[i]);
                assert(usage_ok(s[i].1));
            }
        }
        if filled < k {
            let prio_key: u64 = (MAX_USAGE_HUNDREDTHS - usage) as u64;
            queue_push(&mut queue, pid, (prio_key, pid));
            filled = filled + 1;
            proof {
                assert(m1 == m0.insert(pid, usage));
                assert(m1.dom() =~= m0.dom().insert(pid));
                assert(queue_entries(queue).dom() =~= m1.dom());
                assert(queue_matches(queue_entries(queue), m1)) by {
                    assert forall|p: u64| m1.dom().contains(p) implies #[trigger] queue_entries(
                        queue,
                    )[p] == prio_pair(p, m1[p]) by {
                        if p != pid {
                            assert(m0.dom().contains(p));
                        }
                    }
                }
                assert(m1.dom().len() == filled);
            }
        } else if k == 0 {
            proof {
                assert(m0.dom().len() == 0);
                assert(m1 == m0);
            }
        } else {
            let ghost pre_entries = queue_entries(queue);
            let popped = queue_pop(&mut queue);
            proof {
                if popped is None {
                    assert(pre_entries.dom() == Set::<u64>::empty());
                    assert(m0.dom().len() == 0);
                    assert(false);
                }
            }
            let entry = popped.unwrap();
            let vpid = entry.0;
            let vprio = entry.1;
            proof {
                assert(pre_entries.contains_pair(vpid, vprio));
                assert(m0.dom().contains(vpid));
                assert(vprio == prio_pair(vpid, m0[vpid]));
                assert(usage_ok(m0[vpid]));
                assert(vprio.0 == MAX_USAGE_HUNDREDTHS - m0[vpid]);
                assert(is_victim(m0, vpid)) by {
                    assert forall|j: u64| m0.dom().contains(j) implies evicted_first(
                        vpid,
                        m0[vpid],
                        j,
                        m0[j],
                    ) by {
                        assert(pre_entries.dom().contains(j));
                        assert(prio_le(pre_entries[j], vprio));
                        assert(pre_entries[j] == prio_pair(j, m0[j]));
                        assert(usage_ok(m0[j]));
                        assert(prio_le(prio_pair(j, m0[j]), vprio));
                    }
                }
                lemma_victim_exists(m0);
                lemma_victim_unique(m0, victim(m0), vpid);
            }
            let floor_key: u64 = (MAX_USAGE_HUNDREDTHS as u64) - vprio.0;
            if (usage as u64) > floor_key {
                let prio_key: u64 = (MAX_USAGE_HUNDREDTHS - usage) as u64;
                queue_push(&mut queue, pid, (prio_key, pid));
                proof {
                    assert(usage > m0[vpid]);
                    assert(m1 == m0.remove(vpid).insert(pid, usage));
                    assert(queue_entries(queue).dom() =~= m1.dom());
                    assert(queue_matches(queue_entries(queue), m1)) by {
                        assert forall|p: u64| m1.dom().contains(p) implies #[trigger] queue_entries(
                            queue,
                        )[p] == prio_pair(p, m1[p]) by {
                            if p != pid {
                                assert(m0.dom().contains(p));
                                assert(m1[p] == m0[p]);
                            }
                        }
                    }
                    assert(m1.dom() =~= m0.dom().remove(vpid).insert(pid));
                    assert(m0.dom().remove(vpid).len() == k - 1);
                    assert(!m0.dom().remove(vpid).contains(pid));
                    assert(m1.dom().len() == filled);
                }
            } else {
                queue_push(&mut queue, vpid, vprio);
                proof {
                    assert(!(usage > m0[vpid]));
                    assert(m1 == m0);
                    assert(queue_entries(queue).dom() =~= m1.dom());
                    assert(queue_matches(queue_entries(queue), m1)) by {
                        assert forall|p: u64| m1.dom().contains(p) implies #[trigger] queue_entries(
                            queue,
                        )[p] == prio_pair(p, m1[p]) by {
                            if p != vpid {
                                assert(m0.dom().contains(p));
                            }
                        }
                    }
                }
            }
        }
        idx = idx + 1;
    }
    proof {
        assert(s.take(s.len() as int) =~= s);
        lemma_selected_props(s, k as nat);
    }
    let ghost m_final = selected(s, k as nat);
    let mut ids: Vec<u64> = Vec::new();
    loop
        invariant
            s == snapshot@,
            snapshot_valid(s),
            m_final == selected(s, k as nat),
            m_final.dom().finite(),
            m_final.dom().len() == vstd::math::min(k as int, s.len() as int),
            ids@.no_duplicates(),
            ids@.to_set().subset_of(m_final.dom()),
            queue_entries(queue).dom() =~= m_final.dom().difference(ids@.to_set()),
        ensures
            ids@.no_duplicates(),
            ids@.to_set() =~= m_final.dom(),
        decreases queue_entries(queue).dom().len(),
    {
        proof {
            vstd::set::axiom_set_difference_finite(m_final.dom(), ids@.to_set());
        }
        let popped = queue_pop(&mut queue);
        match popped {
            Option::Some(entry) => {
                let ghost before = ids@;
                proof {
                    assert(queue_entries(queue).dom() =~= m_final.dom().difference(
                        before.to_set(),
                    ).remove(entry.0));
                    assert(!before.to_set().contains(entry.0));
                    assert(!before.contains(entry.0));
                }
                ids.push(entry.0);
                proof {
                    before.lemma_push_to_set_commute(entry.0);
                    assert(ids@ == before.push(entry.0));
                    assert(ids@.to_set() =~= before.to_set().insert(entry.0));
                    assert(ids@.no_duplicates()) by {
                        assert(forall|a: int|
                            0 <= a < before.len() ==> #[trigger] ids@[a] == before[a]);
                        assert(ids@[ids@.len() - 1] == entry.0);
                        assert(forall|a: int| 0 <= a < before.len() ==> before[a] != entry.0);
                    }
                    assert(queue_entries(queue).dom() =~= m_final.dom().difference(
                        ids@.to_set(),
                    ));
                }
            },
            Option::None => {
                proof {
                    assert(m_final.dom().difference(ids@.to_set()) == Set::<u64>::empty());
                    assert forall|p: u64| m_final.dom().contains(p) implies ids@.to_set().contains(
                        p,
                    ) by {
                        if !ids@.to_set().contains(p) {
                            assert(m_final.dom().difference(ids@.to_set()).contains(p));
                        }
                    }
                }
                break ;
            },
        }
    }
    proof {
        ids@.unique_seq_to_set();
    }
    Ok(ids)
}

} // verus!
