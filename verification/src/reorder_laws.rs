//! What holds of the groups that the resequencer emits.

use vstd::prelude::*;
use crate::reader::{HttpLog, LogResult};
use crate::reorder::{least, Decision, Group, Reorder};

verus! {

/// The parsed records among `items` that carry timestamp `t`, in arrival
/// order.
pub open spec fn records_at(items: Seq<LogResult>, t: usize) -> Seq<HttpLog>
    decreases items.len(),
{
    if items.len() == 0 {
        Seq::empty()
    } else {
        let rest = records_at(items.drop_first(), t);
        match items[0] {
            Ok(log) => if log.time == t {
                seq![log] + rest
            } else {
                rest
            },
            Err(_) => rest,
        }
    }
}

/// The records of the groups among `groups` that carry timestamp `t`, in
/// the order in which they were emitted.
pub open spec fn emitted_at(groups: Seq<Group>, t: usize) -> Seq<HttpLog>
    decreases groups.len(),
{
    if groups.len() == 0 {
        Seq::empty()
    } else {
        let rest = emitted_at(groups.drop_first(), t);
        if groups[0].time == t {
            groups[0].logs + rest
        } else {
            rest
        }
    }
}

/// No record arrives more than `window` seconds behind a record that
/// arrived before it.
pub open spec fn bounded_skew(items: Seq<LogResult>, window: usize) -> bool {
    forall|i: int, j: int|
        0 <= i < j < items.len() && (#[trigger] items[i]) is Ok && (#[trigger] items[j]) is Ok
            ==> items[i]->Ok_0.time <= items[j]->Ok_0.time + window
}

/// The timestamps of `groups` grow strictly.
pub open spec fn increasing(groups: Seq<Group>) -> bool {
    forall|i: int, j: int|
        0 <= i < j < groups.len() ==> (#[trigger] groups[i]).time < (#[trigger] groups[j]).time
}

/// Every group is non-empty and holds records of its own second only.
pub open spec fn uniform(groups: Seq<Group>) -> bool {
    forall|k: int|
        0 <= k < groups.len() ==> (#[trigger] groups[k]).logs.len() > 0 && forall|i: int|
            0 <= i < groups[k].logs.len() ==> (#[trigger] groups[k].logs[i]).time
                == groups[k].time
}

/// A non-empty set of timestamps has a smallest member.
pub proof fn lemma_least(keys: Set<usize>, t: usize)
    requires
        keys.contains(t),
    ensures
        keys.contains(least(keys)),
        forall|u: usize| keys.contains(u) ==> least(keys) <= u,
    decreases t,
{
    reveal(least);
    if forall|u: usize| keys.contains(u) ==> t <= u {
    } else {
        let u = choose|u: usize| keys.contains(u) && u < t;
        lemma_least(keys, u);
    }
}

/// A record that arrives before the source has ended keeps the invariant.
pub proof fn lemma_absorb_wf(s: Reorder, log: HttpLog)
    requires
        s.wf(),
        !s.exhausted,
    ensures
        s.absorb(log).wf(),
{
    let n = s.absorb(log);
    let t = log.time;
    assert(n.groups.dom() =~= s.groups.dom().insert(t));
    if s.groups.dom().is_empty() {
        assert(!s.groups.dom().contains(s.high));
    } else {
        assert(s.groups.dom().contains(s.low));
    }
    assert forall|u: usize, i: int|
        n.groups.dom().contains(u) && 0 <= i < n.groups[u].len() implies (
    #[trigger] n.groups[u][i]).time == u by {
        if u == t {
            if i < s.held(t).len() {
                assert(n.groups[u][i] == s.groups[t][i]);
            }
        } else {
            assert(n.groups[u][i] == s.groups[u][i]);
        }
    }
    assert(!n.groups.dom().is_empty()) by {
        assert(n.groups.dom().contains(t));
    }
}

/// An item that arrives before the source has ended keeps the invariant.
pub proof fn lemma_feed_wf(s: Reorder, item: LogResult)
    requires
        s.wf(),
        !s.exhausted,
    ensures
        s.feed(item).wf(),
{
    match item {
        Ok(log) => lemma_absorb_wf(s, log),
        Err(_) => {},
    }
}

/// Once pulling has stopped, the group of the low watermark leaves, and the
/// invariant is kept.
pub proof fn lemma_release_wf(s: Reorder)
    requires
        s.wf(),
        !s.wants_input(),
        !s.groups.dom().is_empty(),
    ensures
        s.release().wf(),
        least(s.groups.dom()) == s.low,
        s.front() == (Group { time: s.low, logs: s.groups[s.low] }),
        s.release().groups == s.groups.remove(s.low),
        s.release().groups.dom().len() < s.groups.dom().len(),
{
    let keys = s.groups.dom();
    lemma_least(keys, s.low);
    assert(least(keys) == s.low);
    let rest = s.groups.remove(s.low);
    let left = rest.dom();
    assert(left =~= keys.remove(s.low));
    let n = s.release();
    assert(n.groups == rest);
    if !left.is_empty() {
        let w = choose|w: usize| left.contains(w);
        lemma_least(left, w);
        assert(n.low == least(left));
        assert(keys.contains(n.low));
    } else {
        assert(n.low == s.high);
    }
    assert forall|t: usize| #[trigger] left.contains(t) implies rest[t].len() > 0 && n.low <= t
        <= n.high by {
        assert(keys.contains(t));
    }
    assert forall|t: usize, i: int| left.contains(t) && 0 <= i < rest[t].len() implies (
    #[trigger] rest[t][i]).time == t by {
        assert(keys.contains(t));
        assert(rest[t][i] == s.groups[t][i]);
    }
    if !s.exhausted {
        assert(s.high != s.low);
        assert(left.contains(s.high));
    }
}

/// The buffer never waits of its own accord: what it decides is a pull, a
/// group or the end.
pub proof fn lemma_never_suspends(s: Reorder)
    requires
        s.wf(),
    ensures
        !(s.decide().1 is Suspend),
{
}

/// Where pulling has stopped and something is buffered, the front group
/// comes out first.
pub proof fn lemma_run_emit(s: Reorder, items: Seq<LogResult>, group: Group)
    requires
        s.wf(),
        s.decide().1 == Decision::Emit(group),
    ensures
        s.run(items) == seq![group] + s.release().run(items),
{
    if s.wants_input() {
    } else if !s.groups.dom().is_empty() {
        lemma_release_wf(s);
    } else {
    }
}

/// Whatever the state holds and whatever is still to come, comes out: under
/// each timestamp first what was buffered, then what arrives, in that order.
pub proof fn lemma_run_accounts(s: Reorder, items: Seq<LogResult>, t: usize)
    requires
        s.wf(),
        s.exhausted ==> items.len() == 0,
    ensures
        emitted_at(s.run(items), t) == s.held(t) + records_at(items, t),
    decreases
            items.len(),
            (if s.exhausted {
                0nat
            } else {
                1nat
            }),
            s.groups.dom().len(),
{
    if s.wants_input() {
        if items.len() > 0 {
            let n = s.feed(items[0]);
            let rest = records_at(items.drop_first(), t);
            lemma_feed_wf(s, items[0]);
            lemma_run_accounts(n, items.drop_first(), t);
            match items[0] {
                Ok(log) => {
                    if log.time == t {
                        assert(n.held(t) == s.held(t).push(log));
                        assert(s.held(t).push(log) + rest =~= s.held(t) + (seq![log] + rest));
                    } else {
                        assert(n.held(t) == s.held(t));
                    }
                },
                Err(_) => {},
            }
        } else {
            lemma_run_accounts(s.close(), items, t);
        }
    } else if !s.groups.dom().is_empty() {
        lemma_release_wf(s);
        let n = s.release();
        lemma_run_accounts(n, items, t);
        let out = seq![s.front()] + n.run(items);
        assert(out.drop_first() =~= n.run(items));
        if t == s.low {
            assert(n.held(t) =~= Seq::<HttpLog>::empty());
            assert(s.groups[s.low] + (n.held(t) + records_at(items, t)) =~= s.held(t)
                + records_at(items, t));
        } else {
            assert(n.held(t) == s.held(t));
        }
    } else {
        assert(s.held(t) + records_at(items, t) =~= Seq::<HttpLog>::empty());
    }
}

/// Every group that comes out is non-empty and holds records of its own
/// second only.
pub proof fn lemma_run_uniform(s: Reorder, items: Seq<LogResult>)
    requires
        s.wf(),
        s.exhausted ==> items.len() == 0,
    ensures
        uniform(s.run(items)),
    decreases
            items.len(),
            (if s.exhausted {
                0nat
            } else {
                1nat
            }),
            s.groups.dom().len(),
{
    if s.wants_input() {
        if items.len() > 0 {
            lemma_feed_wf(s, items[0]);
            lemma_run_uniform(s.feed(items[0]), items.drop_first());
        } else {
            lemma_run_uniform(s.close(), items);
        }
    } else if !s.groups.dom().is_empty() {
        lemma_release_wf(s);
        let n = s.release();
        lemma_run_uniform(n, items);
        let tail = n.run(items);
        let out = seq![s.front()] + tail;
        assert forall|k: int| 0 <= k < out.len() implies (#[trigger] out[k]).logs.len() > 0
            && forall|i: int|
            0 <= i < out[k].logs.len() ==> (#[trigger] out[k].logs[i]).time == out[k].time by {
            if k > 0 {
                assert(out[k] == tail[k - 1]);
            }
        }
    } else {
    }
}

/// Whether every record still to come lies within the window of the high
/// watermark.
pub open spec fn ahead(s: Reorder, items: Seq<LogResult>) -> bool {
    s.started ==> forall|j: int|
        0 <= j < items.len() && (#[trigger] items[j]) is Ok ==> s.high <= items[j]->Ok_0.time
            + s.window
}

/// Whether `t` is buffered in `s` or is the timestamp of a record among
/// `items`.
pub open spec fn comes_from(s: Reorder, items: Seq<LogResult>, t: usize) -> bool {
    s.groups.dom().contains(t) || exists|j: int|
        0 <= j < items.len() && (#[trigger] items[j]) is Ok && items[j]->Ok_0.time == t
}

/// After one more item has arrived, what is still to come lies within the
/// window of the new high watermark.
proof fn lemma_pull_keeps_skew(s: Reorder, items: Seq<LogResult>)
    requires
        items.len() > 0,
        bounded_skew(items, s.window),
        ahead(s, items),
    ensures
        bounded_skew(items.drop_first(), s.window),
        ahead(s.feed(items[0]), items.drop_first()),
{
    let n = s.feed(items[0]);
    let rest = items.drop_first();
    assert forall|i: int, j: int|
        0 <= i < j < rest.len() && (#[trigger] rest[i]) is Ok && (#[trigger] rest[j]) is Ok implies rest[i]->Ok_0.time
        <= rest[j]->Ok_0.time + s.window by {
        assert(rest[i] == items[i + 1]);
        assert(rest[j] == items[j + 1]);
    }
    if n.started {
        assert forall|j: int| 0 <= j < rest.len() && (#[trigger] rest[j]) is Ok implies n.high
            <= rest[j]->Ok_0.time + n.window by {
            assert(rest[j] == items[j + 1]);
            assert(items[0] is Ok ==> items[0]->Ok_0.time <= items[j + 1]->Ok_0.time + s.window);
        }
    }
}

/// A timestamp that is buffered after an item has arrived, or is still to
/// come after it, was buffered or still to come before.
proof fn lemma_pull_origin(s: Reorder, items: Seq<LogResult>, t: usize)
    requires
        items.len() > 0,
        comes_from(s.feed(items[0]), items.drop_first(), t),
    ensures
        comes_from(s, items, t),
{
    let n = s.feed(items[0]);
    let rest = items.drop_first();
    if n.groups.dom().contains(t) {
        if !s.groups.dom().contains(t) {
            assert(items[0] is Ok && items[0]->Ok_0.time == t);
        }
    } else {
        let j = choose|j: int|
            0 <= j < rest.len() && (#[trigger] rest[j]) is Ok && rest[j]->Ok_0.time == t;
        assert(rest[j] == items[j + 1]);
    }
}

/// A timestamp that is buffered after the front group has left, or is still
/// to come, lies beyond the low watermark.
proof fn lemma_release_origin(s: Reorder, items: Seq<LogResult>, t: usize)
    requires
        s.wf(),
        !s.wants_input(),
        !s.groups.dom().is_empty(),
        s.exhausted ==> items.len() == 0,
        ahead(s, items),
        comes_from(s.release(), items, t),
    ensures
        comes_from(s, items, t),
        s.low < t,
{
    lemma_release_wf(s);
    let n = s.release();
    if n.groups.dom().contains(t) {
        assert(s.groups.dom().contains(t));
    } else {
        let j = choose|j: int|
            0 <= j < items.len() && (#[trigger] items[j]) is Ok && items[j]->Ok_0.time == t;
        assert(s.high <= items[j]->Ok_0.time + s.window);
    }
}

/// A group in front of groups that grow strictly and lie beyond it makes a
/// sequence that grows strictly.
proof fn lemma_increasing_cons(head: Group, tail: Seq<Group>)
    requires
        increasing(tail),
        forall|k: int| 0 <= k < tail.len() ==> head.time < (#[trigger] tail[k]).time,
    ensures
        increasing(seq![head] + tail),
{
    let out = seq![head] + tail;
    assert forall|i: int, j: int| 0 <= i < j < out.len() implies (#[trigger] out[i]).time < (
    #[trigger] out[j]).time by {
        assert(out[j] == tail[j - 1]);
        if i > 0 {
            assert(out[i] == tail[i - 1]);
        }
    }
}

/// Where the skew of what is still to come stays within the window, the
/// groups come out in strictly growing order, and each was buffered or is
/// still to come.
pub proof fn lemma_run_ordered(s: Reorder, items: Seq<LogResult>)
    requires
        s.wf(),
        s.exhausted ==> items.len() == 0,
        bounded_skew(items, s.window),
        ahead(s, items),
    ensures
        increasing(s.run(items)),
        forall|k: int|
            0 <= k < s.run(items).len() ==> comes_from(s, items, (#[trigger] s.run(items)[k]).time),
    decreases
            items.len(),
            (if s.exhausted {
                0nat
            } else {
                1nat
            }),
            s.groups.dom().len(),
{
    if s.wants_input() {
        if items.len() > 0 {
            let n = s.feed(items[0]);
            let rest = items.drop_first();
            lemma_feed_wf(s, items[0]);
            lemma_pull_keeps_skew(s, items);
            lemma_run_ordered(n, rest);
            let out = n.run(rest);
            assert(s.run(items) == out);
            assert forall|k: int| 0 <= k < out.len() implies comes_from(
                s,
                items,
                (#[trigger] out[k]).time,
            ) by {
                lemma_pull_origin(s, items, out[k].time);
            }
        } else {
            lemma_run_ordered(s.close(), items);
            assert(s.run(items) == s.close().run(items));
        }
    } else if !s.groups.dom().is_empty() {
        lemma_release_wf(s);
        let n = s.release();
        lemma_run_ordered(n, items);
        let tail = n.run(items);
        let out = seq![s.front()] + tail;
        assert(s.run(items) == out);
        assert forall|k: int| 0 <= k < tail.len() implies s.low < (#[trigger] tail[k]).time
            && comes_from(s, items, tail[k].time) by {
            lemma_release_origin(s, items, tail[k].time);
        }
        lemma_increasing_cons(s.front(), tail);
        assert forall|k: int| 0 <= k < out.len() implies comes_from(
            s,
            items,
            (#[trigger] out[k]).time,
        ) by {
            if k > 0 {
                assert(out[k] == tail[k - 1]);
            }
        }
    } else {
        assert(s.run(items) =~= Seq::<Group>::empty());
    }
}

/// Among groups whose timestamps differ, a group holds all that was emitted
/// under its timestamp.
pub proof fn lemma_emitted_at_single(groups: Seq<Group>, k: int)
    requires
        increasing(groups),
        0 <= k < groups.len(),
    ensures
        emitted_at(groups, groups[k].time) == groups[k].logs,
    decreases groups.len(),
{
    let t = groups[k].time;
    let rest = groups.drop_first();
    assert forall|i: int, j: int| 0 <= i < j < rest.len() implies (#[trigger] rest[i]).time < (
    #[trigger] rest[j]).time by {
        assert(rest[i] == groups[i + 1]);
        assert(rest[j] == groups[j + 1]);
    }
    if k == 0 {
        lemma_emitted_at_none(rest, t);
        assert(groups[0].logs + Seq::<HttpLog>::empty() =~= groups[0].logs);
    } else {
        assert(rest[k - 1] == groups[k]);
        lemma_emitted_at_single(rest, k - 1);
    }
}

/// Under a timestamp that no group carries, nothing was emitted.
pub proof fn lemma_emitted_at_none(groups: Seq<Group>, t: usize)
    requires
        forall|k: int| 0 <= k < groups.len() ==> (#[trigger] groups[k]).time != t,
    ensures
        emitted_at(groups, t) == Seq::<HttpLog>::empty(),
    decreases groups.len(),
{
    if groups.len() > 0 {
        let rest = groups.drop_first();
        assert forall|k: int| 0 <= k < rest.len() implies (#[trigger] rest[k]).time != t by {
            assert(rest[k] == groups[k + 1]);
        }
        lemma_emitted_at_none(rest, t);
    }
}

/// Order. Where no record arrives more than `window` seconds behind an
/// earlier one, the groups come out with strictly growing timestamps.
pub proof fn lemma_resequenced_in_order(window: usize, items: Seq<LogResult>)
    requires
        bounded_skew(items, window),
    ensures
        increasing(Reorder::start(window).run(items)),
{
    lemma_run_ordered(Reorder::start(window), items);
}

/// Nothing lost, nothing made up. Whatever the order of arrival, the
/// records that come out under a timestamp are the parsed records of the
/// input with that timestamp, in arrival order; each group is non-empty and
/// holds records of its own second only.
pub proof fn lemma_resequenced_keeps_records(window: usize, items: Seq<LogResult>, t: usize)
    ensures
        emitted_at(Reorder::start(window).run(items), t) == records_at(items, t),
        uniform(Reorder::start(window).run(items)),
{
    let s = Reorder::start(window);
    lemma_run_accounts(s, items, t);
    lemma_run_uniform(s, items);
    assert(s.held(t) + records_at(items, t) =~= records_at(items, t));
}

/// Whole groups. Where no record arrives more than `window` seconds behind
/// an earlier one, each group that comes out holds exactly the parsed
/// records of the input that share its timestamp.
pub proof fn lemma_resequenced_groups_whole(window: usize, items: Seq<LogResult>, k: int)
    requires
        bounded_skew(items, window),
        0 <= k < Reorder::start(window).run(items).len(),
    ensures
        Reorder::start(window).run(items)[k].logs == records_at(
            items,
            Reorder::start(window).run(items)[k].time,
        ),
{
    let out = Reorder::start(window).run(items);
    lemma_resequenced_in_order(window, items);
    lemma_emitted_at_single(out, k);
    lemma_resequenced_keeps_records(window, items, out[k].time);
}

/// The parsed records among `items`, in arrival order.
pub open spec fn parsed(items: Seq<LogResult>) -> Seq<HttpLog>
    decreases items.len(),
{
    if items.len() == 0 {
        Seq::empty()
    } else {
        match items[0] {
            Ok(log) => seq![log] + parsed(items.drop_first()),
            Err(_) => parsed(items.drop_first()),
        }
    }
}

/// The records of `groups`, group after group.
pub open spec fn flattened(groups: Seq<Group>) -> Seq<HttpLog>
    decreases groups.len(),
{
    if groups.len() == 0 {
        Seq::empty()
    } else {
        groups[0].logs + flattened(groups.drop_first())
    }
}

/// A record occurs among the parsed records as often as among those of its
/// own timestamp.
proof fn lemma_parsed_count(items: Seq<LogResult>, log: HttpLog)
    ensures
        parsed(items).to_multiset().count(log) == records_at(items, log.time).to_multiset().count(
            log,
        ),
    decreases items.len(),
{
    broadcast use vstd::multiset::group_multiset_axioms;

    if items.len() > 0 {
        let rest = items.drop_first();
        lemma_parsed_count(rest, log);
        match items[0] {
            Ok(first) => {
                vstd::seq_lib::lemma_multiset_commutative(seq![first], parsed(rest));
                if first.time == log.time {
                    vstd::seq_lib::lemma_multiset_commutative(
                        seq![first],
                        records_at(rest, log.time),
                    );
                } else {
                    assert(!seq![first].contains(log));
                    vstd::seq_lib::to_multiset_contains(seq![first], log);
                }
            },
            Err(_) => {},
        }
    }
}

/// A record occurs among the records of uniform groups as often as among
/// those emitted under its own timestamp.
proof fn lemma_flattened_count(groups: Seq<Group>, log: HttpLog)
    requires
        uniform(groups),
    ensures
        flattened(groups).to_multiset().count(log) == emitted_at(
            groups,
            log.time,
        ).to_multiset().count(log),
    decreases groups.len(),
{
    broadcast use vstd::multiset::group_multiset_axioms;

    if groups.len() > 0 {
        let rest = groups.drop_first();
        assert forall|k: int| 0 <= k < rest.len() implies (#[trigger] rest[k]).logs.len() > 0
            && forall|i: int|
            0 <= i < rest[k].logs.len() ==> (#[trigger] rest[k].logs[i]).time == rest[k].time by {
            assert(rest[k] == groups[k + 1]);
        }
        lemma_flattened_count(rest, log);
        vstd::seq_lib::lemma_multiset_commutative(groups[0].logs, flattened(rest));
        if groups[0].time == log.time {
            vstd::seq_lib::lemma_multiset_commutative(groups[0].logs, emitted_at(rest, log.time));
        } else {
            assert(!groups[0].logs.contains(log)) by {
                if groups[0].logs.contains(log) {
                    let i = choose|i: int| 0 <= i < groups[0].logs.len() && groups[0].logs[i] == log;
                    assert(groups[0].logs[i].time == groups[0].time);
                }
            }
            vstd::seq_lib::to_multiset_contains(groups[0].logs, log);
        }
    }
}

/// Union. Whatever the order of arrival, the records of all groups that
/// come out are the parsed records of the input, each as often as it
/// arrived.
pub proof fn lemma_resequenced_union(window: usize, items: Seq<LogResult>)
    ensures
        flattened(Reorder::start(window).run(items)).to_multiset() == parsed(
            items,
        ).to_multiset(),
{
    let out = Reorder::start(window).run(items);
    assert forall|log: HttpLog|
        flattened(out).to_multiset().count(log) == parsed(items).to_multiset().count(log) by {
        lemma_resequenced_keeps_records(window, items, log.time);
        lemma_flattened_count(out, log);
        lemma_parsed_count(items, log);
    }
    assert(flattened(out).to_multiset() =~= parsed(items).to_multiset());
}

} // verus!
