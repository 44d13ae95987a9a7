//! Crashes of one cause, grouped.

use crate::capsule::Capsule;
use crate::event::{
    crash_views, crashes_in, index_document, index_event_tells_of_the_crash, read_crashes,
    the_same_events_tell_of_the_same_crashes, Crash, CrashView,
};
use crate::json::{documents, Json};
use crate::text::{chars_of, first_line, first_line_of, text_between};
use serde_json::Value;
use vstd::prelude::*;

verus! {

/// How many characters of a message count for its fingerprint.
pub const FINGERPRINT_CHARS: usize = 120;

/// The crashes of one cause.
#[derive(Debug, Clone)]
pub struct CrashGroup {
    pub fingerprint: String,
    pub app: String,
    pub count: u64,
    pub last_ts_ms: u64,
    pub last_cid: String,
    pub last_node: String,
    pub sample_msg: String,
}

/// The crashes of one cause, with the texts as sequences of characters.
#[verifier::ext_equal]
pub struct GroupView {
    pub fingerprint: Seq<char>,
    pub app: Seq<char>,
    pub count: int,
    pub last_ts_ms: int,
    pub last_cid: Seq<char>,
    pub last_node: Seq<char>,
    pub sample_msg: Seq<char>,
}

impl View for CrashGroup {
    type V = GroupView;

    open spec fn view(&self) -> GroupView {
        GroupView {
            fingerprint: self.fingerprint@,
            app: self.app@,
            count: self.count as int,
            last_ts_ms: self.last_ts_ms as int,
            last_cid: self.last_cid@,
            last_node: self.last_node@,
            sample_msg: self.sample_msg@,
        }
    }
}

/// The groups that a list holds.
pub open spec fn group_views(groups: Seq<CrashGroup>) -> Seq<GroupView> {
    groups.map_values(|g: CrashGroup| g@)
}

/// The start of `s`, of at most `n` characters.
pub open spec fn start_of(s: Seq<char>, n: int) -> Seq<char> {
    if s.len() <= n {
        s
    } else {
        s.take(n)
    }
}

/// What stands for the cause of a crash: the app and the start of the first line of the message.
pub open spec fn cause(app: Seq<char>, msg: Seq<char>) -> Seq<char> {
    app + ":"@ + start_of(first_line(msg), FINGERPRINT_CHARS as int)
}

impl CrashView {
    /// What stands for the cause of the crash.
    pub open spec fn cause(self) -> Seq<char> {
        cause(self.app, self.msg)
    }
}

/// The causes of `crashes`, each once, in the order in which they were first seen.
pub open spec fn causes(crashes: Seq<CrashView>) -> Seq<Seq<char>>
    decreases crashes.len(),
{
    if crashes.len() == 0 {
        Seq::empty()
    } else {
        let before = causes(crashes.drop_last());
        let last = crashes.last().cause();
        if before.contains(last) {
            before
        } else {
            before.push(last)
        }
    }
}

/// Those of `crashes` that have the cause `c`.
pub open spec fn of_cause(crashes: Seq<CrashView>, c: Seq<char>) -> Seq<CrashView> {
    crashes.filter(|crash: CrashView| crash.cause() == c)
}

/// The latest of `crashes`; of several at the same time the last one.
pub open spec fn latest(crashes: Seq<CrashView>) -> CrashView
    decreases crashes.len(),
{
    if crashes.len() <= 1 {
        crashes[0]
    } else {
        let before = latest(crashes.drop_last());
        if crashes.last().ts_ms >= before.ts_ms {
            crashes.last()
        } else {
            before
        }
    }
}

/// The group of those of `crashes` that have the cause `c`.
pub open spec fn group_of(crashes: Seq<CrashView>, c: Seq<char>) -> GroupView {
    let all = of_cause(crashes, c);
    GroupView {
        fingerprint: c,
        app: all[0].app,
        count: all.len() as int,
        last_ts_ms: latest(all).ts_ms,
        last_cid: latest(all).cid,
        last_node: latest(all).node,
        sample_msg: latest(all).msg,
    }
}

/// The groups of `crashes`, in the order in which their causes were first seen.
pub open spec fn groups_of(crashes: Seq<CrashView>) -> Seq<GroupView> {
    causes(crashes).map_values(|c: Seq<char>| group_of(crashes, c))
}

/// Whether a group was last seen at `ts_ms`.
pub open spec fn last_seen_at(ts_ms: int) -> spec_fn(GroupView) -> bool {
    |g: GroupView| g.last_ts_ms == ts_ms
}

/// Whether `sorted` holds the groups of `groups` with those last seen at a later time first;
/// those last seen at the same time are in the same order in both.
pub open spec fn newest_first(sorted: Seq<GroupView>, groups: Seq<GroupView>) -> bool {
    &&& forall|i: int, j: int|
        0 <= i < j < sorted.len() ==> (#[trigger] sorted[i]).last_ts_ms >= (
        #[trigger] sorted[j]).last_ts_ms
    &&& forall|ts_ms: int|
        sorted.filter(#[trigger] last_seen_at(ts_ms)) == groups.filter(last_seen_at(ts_ms))
}

/// The fingerprint of a crash: what stands for its cause.
pub fn fingerprint(app: &str, msg: &str) -> (r: String)
    ensures
        r@ == cause(app@, msg@),
{
    let line = chars_of(first_line_of(msg).as_str());
    let len: usize = if line.len() <= FINGERPRINT_CHARS {
        line.len()
    } else {
        FINGERPRINT_CHARS
    };
    let mut out = app.to_owned();
    out.append(":");
    out.append(text_between(&line, 0, len).as_str());
    assert(line@.subrange(0, len as int) =~= start_of(line@, FINGERPRINT_CHARS as int));
    out
}

/// A crash more makes one cause more, or one crash more of its cause.
proof fn one_crash_more(crashes: Seq<CrashView>, crash: CrashView)
    ensures
        forall|c: Seq<char>|
            c != crash.cause() ==> #[trigger] of_cause(crashes.push(crash), c) == of_cause(
                crashes,
                c,
            ),
        of_cause(crashes.push(crash), crash.cause()) == of_cause(crashes, crash.cause()).push(
            crash,
        ),
        causes(crashes.push(crash)) == if causes(crashes).contains(crash.cause()) {
            causes(crashes)
        } else {
            causes(crashes).push(crash.cause())
        },
{
    assert(crashes.push(crash).drop_last() =~= crashes);
    assert forall|c: Seq<char>| c != crash.cause() implies #[trigger] of_cause(
        crashes.push(crash),
        c,
    ) == of_cause(crashes, c) by {
        crashes.lemma_filter_push(crash, |crash: CrashView| crash.cause() == c);
    }
    crashes.lemma_filter_push(crash, |other: CrashView| other.cause() == crash.cause());
}

/// The causes are those that some crash has.
proof fn causes_are_those_of_crashes(crashes: Seq<CrashView>)
    ensures
        forall|c: Seq<char>|
            #[trigger] causes(crashes).contains(c) <==> of_cause(crashes, c).len() > 0,
        causes(crashes).no_duplicates(),
    decreases crashes.len(),
{
    if crashes.len() == 0 {
        assert forall|c: Seq<char>| of_cause(crashes, c).len() == 0 by {
            crashes.lemma_filter_len(|crash: CrashView| crash.cause() == c);
        }
    } else {
        let before = crashes.drop_last();
        let last = crashes.last();
        causes_are_those_of_crashes(before);
        assert(before.push(last) =~= crashes);
        one_crash_more(before, last);
        assert forall|c: Seq<char>| #[trigger] causes(crashes).contains(c) <==> of_cause(
            crashes,
            c,
        ).len() > 0 by {
            let was = causes(before);
            if !was.contains(last.cause()) {
                assert(was.push(last.cause()).last() == last.cause());
                if was.contains(c) {
                    let i = choose|i: int| 0 <= i < was.len() && was[i] == c;
                    assert(was.push(last.cause())[i] == c);
                }
            }
        }
    }
}

/// The position of the group that has the fingerprint `fp`; the number of groups where none has.
fn position_of(groups: &Vec<CrashGroup>, fp: &String) -> (r: usize)
    ensures
        r <= groups@.len(),
        r < groups@.len() ==> groups@[r as int].fingerprint@ == fp@,
        forall|i: int| 0 <= i < r ==> (#[trigger] groups@[i]).fingerprint@ != fp@,
{
    let mut i: usize = 0;
    while i < groups.len() && groups[i].fingerprint != *fp
        invariant
            i <= groups@.len(),
            forall|k: int| 0 <= k < i ==> (#[trigger] groups@[k]).fingerprint@ != fp@,
        decreases groups@.len() - i,
    {
        i += 1;
    }
    i
}

/// The groups of `crashes`, in the order in which their causes were first seen.
fn collect_groups(crashes: &[Crash]) -> (r: Vec<CrashGroup>)
    ensures
        group_views(r@) == groups_of(crash_views(crashes@)),
{
    let ghost all = crash_views(crashes@);
    let mut groups: Vec<CrashGroup> = Vec::new();
    let mut i: usize = 0;
    assert(group_views(groups@) =~= groups_of(all.take(0)));
    while i < crashes.len()
        invariant
            i <= crashes@.len(),
            all == crash_views(crashes@),
            group_views(groups@) == groups_of(all.take(i as int)),
        decreases crashes@.len() - i,
    {
        let crash = &crashes[i];
        let ghost seen = all.take(i as int);
        let ghost before = group_views(groups@);
        let fp = fingerprint(crash.app.as_str(), crash.msg.as_str());
        let at: usize = position_of(&groups, &fp);
        proof {
            assert(before.len() == groups@.len() && before.len() == causes(seen).len());
            assert(all.take(i + 1) =~= seen.push(crash@));
            one_crash_more(seen, crash@);
            causes_are_those_of_crashes(seen);
            assert forall|k: int| 0 <= k < before.len() implies #[trigger] groups@[k].fingerprint@
                == causes(seen)[k] by {
                assert(before[k] == group_of(seen, causes(seen)[k]));
            }
        }
        if at < groups.len() {
            proof {
                assert(before[at as int] == group_of(seen, causes(seen)[at as int]));
                assert(causes(seen)[at as int] == crash@.cause());
                assert(causes(seen).contains(crash@.cause()));
            }
            let ghost was = of_cause(seen, crash@.cause());
            assert(was.push(crash@).drop_last() =~= was);
            assert(was.len() <= seen.len()) by {
                seen.lemma_filter_len(|other: CrashView| other.cause() == crash@.cause());
            }
            let group = &groups[at];
            let count: u64 = group.count + 1;
            let updated = if crash.ts_ms >= group.last_ts_ms {
                CrashGroup {
                    fingerprint: fp,
                    app: group.app.clone(),
                    count,
                    last_ts_ms: crash.ts_ms,
                    last_cid: crash.cid.clone(),
                    last_node: crash.node.clone(),
                    sample_msg: crash.msg.clone(),
                }
            } else {
                CrashGroup {
                    fingerprint: fp,
                    app: group.app.clone(),
                    count,
                    last_ts_ms: group.last_ts_ms,
                    last_cid: group.last_cid.clone(),
                    last_node: group.last_node.clone(),
                    sample_msg: group.sample_msg.clone(),
                }
            };
            assert(updated@ == group_of(seen.push(crash@), crash@.cause()));
            groups.set(at, updated);
            proof {
                let now = group_views(groups@);
                let wanted = groups_of(seen.push(crash@));
                assert forall|k: int| 0 <= k < now.len() implies now[k] == wanted[k] by {
                    if k != at {
                        assert(causes(seen)[k] != causes(seen)[at as int]);
                        assert(now[k] == before[k]);
                    }
                }
                assert(now =~= wanted);
            }
        } else {
            assert(!causes(seen).contains(crash@.cause())) by {
                if causes(seen).contains(crash@.cause()) {
                    let k = choose|k: int|
                        0 <= k < causes(seen).len() && causes(seen)[k] == crash@.cause();
                    assert(groups@[k].fingerprint@ == causes(seen)[k]);
                }
            }
            let group = CrashGroup {
                fingerprint: fp,
                app: crash.app.clone(),
                count: 1,
                last_ts_ms: crash.ts_ms,
                last_cid: crash.cid.clone(),
                last_node: crash.node.clone(),
                sample_msg: crash.msg.clone(),
            };
            proof {
                assert(of_cause(seen, crash@.cause()).len() == 0);
                assert(of_cause(seen.push(crash@), crash@.cause()) =~= seq![crash@]);
                assert(group@ == group_of(seen.push(crash@), crash@.cause()));
            }
            groups.push(group);
            proof {
                let now = group_views(groups@);
                let wanted = groups_of(seen.push(crash@));
                assert forall|k: int| 0 <= k < now.len() implies now[k] == wanted[k] by {
                    if k < before.len() {
                        assert(causes(seen).contains(causes(seen)[k]));
                        assert(now[k] == before[k]);
                    }
                }
                assert(now =~= wanted);
            }
        }
        i += 1;
    }
    assert(all.take(i as int) =~= all);
    groups
}

/// A group that is put in behind all others for which `p` holds comes last of those, if `p` holds
/// for it too.
proof fn filter_of_insert(s: Seq<GroupView>, n: int, g: GroupView, p: spec_fn(GroupView) -> bool)
    requires
        0 <= n <= s.len(),
        forall|k: int| n <= k < s.len() ==> p(#[trigger] s[k]) ==> !p(g),
    ensures
        s.insert(n, g).filter(p) == if p(g) {
            s.filter(p).push(g)
        } else {
            s.filter(p)
        },
{
    let a = s.take(n);
    let b = s.skip(n);
    assert(s =~= a + b);
    assert(s.insert(n, g) =~= a.push(g) + b);
    Seq::filter_distributes_over_add(a, b, p);
    Seq::filter_distributes_over_add(a.push(g), b, p);
    a.lemma_filter_push(g, p);
    if p(g) {
        assert forall|k: int| 0 <= k < b.len() implies !p(#[trigger] b[k]) by {
            assert(b[k] == s[n + k]);
        }
        b.lemma_all_neg_filter_empty(p);
        assert(a.filter(p).push(g) + b.filter(p) =~= (a.filter(p) + b.filter(p)).push(g));
    }
}

/// `groups` with those last seen at a later time first; those last seen at the same time stay in
/// their order.
pub fn sort_groups(groups: Vec<CrashGroup>) -> (r: Vec<CrashGroup>)
    ensures
        newest_first(group_views(r@), group_views(groups@)),
{
    let ghost all = group_views(groups@);
    let mut rest = groups;
    let mut out: Vec<CrashGroup> = Vec::new();
    let ghost mut done: int = 0;
    assert(group_views(rest@) =~= all.skip(0));
    assert(newest_first(group_views(out@), all.take(0))) by {
        assert(group_views(out@) =~= all.take(0));
    }
    while rest.len() > 0
        invariant
            0 <= done <= all.len(),
            group_views(rest@) == all.skip(done),
            newest_first(group_views(out@), all.take(done)),
        decreases rest@.len(),
    {
        let ghost left = group_views(rest@);
        let group = rest.remove(0);
        let ghost before = group_views(out@);
        let mut at: usize = out.len();
        while at > 0 && out[at - 1].last_ts_ms < group.last_ts_ms
            invariant
                at <= out@.len(),
                before == group_views(out@),
                forall|k: int|
                    at <= k < before.len() ==> (#[trigger] before[k]).last_ts_ms
                        < group.last_ts_ms,
            decreases at,
        {
            at -= 1;
        }
        proof {
            assert(left[0] == group@);
            assert(group_views(rest@) =~= left.skip(1));
            assert(left.skip(1) =~= all.skip(done + 1));
            assert(all.take(done + 1) =~= all.take(done).push(group@));
            assert(group_views(out@.insert(at as int, group)) =~= before.insert(
                at as int,
                group@,
            ));
        }
        out.insert(at, group);
        proof {
            let now = group_views(out@);
            assert forall|i: int, j: int| 0 <= i < j < now.len() implies (
            #[trigger] now[i]).last_ts_ms >= (#[trigger] now[j]).last_ts_ms by {
                if i == at {
                    assert(now[j] == before[j - 1]);
                } else if j == at {
                    assert(now[i] == before[i]);
                    assert(before[at - 1].last_ts_ms >= group.last_ts_ms);
                } else {
                    let i0 = if i < at { i } else { i - 1 };
                    let j0 = if j < at { j } else { j - 1 };
                    assert(now[i] == before[i0] && now[j] == before[j0]);
                }
            }
            assert forall|ts_ms: int| now.filter(#[trigger] last_seen_at(ts_ms)) == all.take(
                done + 1,
            ).filter(last_seen_at(ts_ms)) by {
                filter_of_insert(before, at as int, group@, last_seen_at(ts_ms));
                all.take(done).lemma_filter_push(group@, last_seen_at(ts_ms));
            }
            done = done + 1;
        }
    }
    assert(all.take(done) =~= all);
    out
}

/// The crashes grouped by their cause, the group of the latest crash first.
pub fn group_events(crashes: &[Crash]) -> (r: Vec<CrashGroup>)
    ensures
        newest_first(group_views(r@), groups_of(crash_views(crashes@))),
{
    sort_groups(collect_groups(crashes))
}

/// The crashes that `events` tell of, grouped by their cause, the group of the latest crash
/// first. Events that carry no id of a capsule are passed over.
pub fn group_crashes(events: &[Value]) -> (r: Vec<CrashGroup>)
    ensures
        newest_first(group_views(r@), groups_of(crashes_in(documents(events@)))),
{
    let crashes = read_crashes(events);
    group_events(crashes.as_slice())
}

// ---- laws ----

/// No two groups have the same fingerprint, and every crash has its group.
pub proof fn each_cause_has_one_group(crashes: Seq<CrashView>)
    ensures
        forall|i: int, j: int|
            0 <= i < j < groups_of(crashes).len() ==> (#[trigger] groups_of(
                crashes,
            )[i]).fingerprint != (#[trigger] groups_of(crashes)[j]).fingerprint,
        forall|k: int|
            0 <= k < crashes.len() ==> exists|i: int|
                0 <= i < groups_of(crashes).len() && #[trigger] groups_of(crashes)[i] == group_of(
                    crashes,
                    (#[trigger] crashes[k]).cause(),
                ),
{
    causes_are_those_of_crashes(crashes);
    assert forall|k: int| 0 <= k < crashes.len() implies exists|i: int|
        0 <= i < groups_of(crashes).len() && #[trigger] groups_of(crashes)[i] == group_of(
            crashes,
            (#[trigger] crashes[k]).cause(),
        ) by {
        let c = crashes[k].cause();
        crashes.lemma_filter_contains(|crash: CrashView| crash.cause() == c, k);
        assert(causes(crashes).contains(c));
        let i = choose|i: int| 0 <= i < causes(crashes).len() && causes(crashes)[i] == c;
        assert(groups_of(crashes)[i] == group_of(crashes, c));
    }
}

/// How many crashes `groups` count together.
pub open spec fn total(groups: Seq<GroupView>) -> int
    decreases groups.len(),
{
    if groups.len() == 0 {
        0
    } else {
        total(groups.drop_last()) + groups.last().count
    }
}

proof fn total_of_one_changed(a: Seq<GroupView>, b: Seq<GroupView>, at: int, more: int)
    requires
        a.len() == b.len(),
        0 <= at < a.len(),
        forall|k: int| 0 <= k < a.len() && k != at ==> a[k] == b[k],
        b[at].count == a[at].count + more,
    ensures
        total(b) == total(a) + more,
    decreases a.len(),
{
    if at < a.len() - 1 {
        total_of_one_changed(a.drop_last(), b.drop_last(), at, more);
    } else {
        assert(a.drop_last() =~= b.drop_last());
    }
}

/// Every crash is counted once.
pub proof fn every_crash_is_counted(crashes: Seq<CrashView>)
    ensures
        total(groups_of(crashes)) == crashes.len(),
    decreases crashes.len(),
{
    if crashes.len() > 0 {
        let before = crashes.drop_last();
        let last = crashes.last();
        let c = last.cause();
        every_crash_is_counted(before);
        assert(before.push(last) =~= crashes);
        one_crash_more(before, last);
        causes_are_those_of_crashes(before);
        let was = groups_of(before);
        let now = groups_of(crashes);
        if causes(before).contains(c) {
            let at = choose|at: int| 0 <= at < causes(before).len() && causes(before)[at] == c;
            assert forall|k: int| 0 <= k < was.len() && k != at implies was[k] == now[k] by {
                assert(causes(before)[k] != causes(before)[at]);
            }
            assert(now[at] == group_of(crashes, c) && was[at] == group_of(before, c));
            total_of_one_changed(was, now, at, 1);
        } else {
            assert forall|k: int| 0 <= k < was.len() implies was[k] == now.drop_last()[k] by {
                assert(causes(before).contains(causes(before)[k]));
            }
            assert(now.drop_last() =~= was);
            assert(now.last() == group_of(crashes, c));
        }
    }
}

proof fn latest_is_latest(crashes: Seq<CrashView>)
    requires
        crashes.len() > 0,
    ensures
        crashes.contains(latest(crashes)),
        forall|i: int| 0 <= i < crashes.len() ==> (#[trigger] crashes[i]).ts_ms <= latest(
            crashes,
        ).ts_ms,
    decreases crashes.len(),
{
    if crashes.len() > 1 {
        let before = crashes.drop_last();
        latest_is_latest(before);
        let k = choose|k: int| 0 <= k < before.len() && before[k] == latest(before);
        assert(crashes[k] == latest(before));
        assert forall|i: int| 0 <= i < crashes.len() implies (#[trigger] crashes[i]).ts_ms
            <= latest(crashes).ts_ms by {
            if i < before.len() {
                assert(before[i] == crashes[i]);
            }
        }
    }
}

/// A group tells of the latest of its crashes: none of them is later, and the time, the capsule,
/// the node and the message that it shows are those of one crash of the group.
pub proof fn a_group_shows_its_latest_crash(crashes: Seq<CrashView>, c: Seq<char>)
    requires
        causes(crashes).contains(c),
    ensures
        ({
            let g = group_of(crashes, c);
            &&& g.count > 0
            &&& forall|i: int|
                0 <= i < crashes.len() && (#[trigger] crashes[i]).cause() == c ==> crashes[i].ts_ms
                    <= g.last_ts_ms
            &&& exists|i: int|
                0 <= i < crashes.len() && (#[trigger] crashes[i]).cause() == c && crashes[i].ts_ms
                    == g.last_ts_ms && crashes[i].cid == g.last_cid && crashes[i].node
                    == g.last_node && crashes[i].msg == g.sample_msg
        }),
{
    let p = |crash: CrashView| crash.cause() == c;
    let all = of_cause(crashes, c);
    causes_are_those_of_crashes(crashes);
    latest_is_latest(all);
    assert forall|i: int| 0 <= i < crashes.len() && (#[trigger] crashes[i]).cause()
        == c implies crashes[i].ts_ms <= latest(all).ts_ms by {
        crashes.lemma_filter_contains(p, i);
        let k = choose|k: int| 0 <= k < all.len() && all[k] == crashes[i];
        assert(all[k].ts_ms <= latest(all).ts_ms);
    }
    crashes.lemma_filter_contains_rev(p, latest(all));
    let i = choose|i: int| 0 <= i < crashes.len() && crashes[i] == latest(all);
    let k = choose|k: int| 0 <= k < all.len() && all[k] == latest(all);
    crashes.lemma_filter_pred(p, k);
    assert(crashes[i].cause() == c);
}

/// Sorting loses and adds no group.
pub proof fn sorting_keeps_the_groups(sorted: Seq<GroupView>, groups: Seq<GroupView>)
    requires
        newest_first(sorted, groups),
    ensures
        sorted.to_multiset() == groups.to_multiset(),
        sorted.len() == groups.len(),
{
    assert forall|g: GroupView|
        #[trigger] sorted.to_multiset().count(g) == groups.to_multiset().count(g) by {
        let p = last_seen_at(g.last_ts_ms);
        assert(sorted.filter(p) == groups.filter(p));
        count_in_filter(sorted, p, g);
        count_in_filter(groups, p, g);
    }
    assert(sorted.to_multiset() =~= groups.to_multiset());
    sorted.to_multiset_ensures();
    groups.to_multiset_ensures();
}

proof fn count_in_filter<T>(s: Seq<T>, p: spec_fn(T) -> bool, g: T)
    requires
        p(g),
    ensures
        s.filter(p).to_multiset().count(g) == s.to_multiset().count(g),
    decreases s.len(),
{
    broadcast use vstd::seq_lib::group_to_multiset_ensures;

    if s.len() > 0 {
        let before = s.drop_last();
        count_in_filter(before, p, g);
        assert(before.push(s.last()) =~= s);
        before.lemma_filter_push(s.last(), p);
    } else {
        s.lemma_filter_len(p);
        assert(s.filter(p) =~= s);
    }
}

proof fn same_filter_same_members(a: Seq<GroupView>, b: Seq<GroupView>, g: GroupView)
    requires
        a.filter(last_seen_at(g.last_ts_ms)) == b.filter(last_seen_at(g.last_ts_ms)),
    ensures
        a.contains(g) ==> b.contains(g),
{
    let p = last_seen_at(g.last_ts_ms);
    if a.contains(g) {
        let i = choose|i: int| 0 <= i < a.len() && a[i] == g;
        a.lemma_filter_contains(p, i);
        b.lemma_filter_contains_rev(p, g);
    }
}

/// There is one order with the newest first.
pub proof fn newest_first_is_unique(
    a: Seq<GroupView>,
    b: Seq<GroupView>,
    groups: Seq<GroupView>,
)
    requires
        newest_first(a, groups),
        newest_first(b, groups),
    ensures
        a == b,
{
    assert forall|ts_ms: int| a.filter(#[trigger] last_seen_at(ts_ms)) == b.filter(
        last_seen_at(ts_ms),
    ) by {
        assert(a.filter(last_seen_at(ts_ms)) == groups.filter(last_seen_at(ts_ms)));
    }
    same_order(a, b);
}

proof fn same_order(a: Seq<GroupView>, b: Seq<GroupView>)
    requires
        newest_first(a, a),
        newest_first(b, b),
        forall|ts_ms: int|
            a.filter(#[trigger] last_seen_at(ts_ms)) == b.filter(last_seen_at(ts_ms)),
    ensures
        a == b,
    decreases a.len(),
{
    if a.len() == 0 {
        if b.len() > 0 {
            assert(b.contains(b.last()));
            assert(b.filter(last_seen_at(b.last().last_ts_ms)) == a.filter(
                last_seen_at(b.last().last_ts_ms),
            ));
            same_filter_same_members(b, a, b.last());
        }
        assert(a =~= b);
    } else {
        let x = a.last();
        let p = last_seen_at(x.last_ts_ms);
        assert(a.filter(p) == b.filter(p));
        assert(a.contains(x));
        same_filter_same_members(a, b, x);
        let y = b.last();
        let q = last_seen_at(y.last_ts_ms);
        assert(a.filter(q) == b.filter(q));
        assert(b.contains(y));
        same_filter_same_members(b, a, y);
        // Both are the oldest, so they were last seen at the same time, and are the last of those.
        let i = choose|i: int| 0 <= i < b.len() && b[i] == x;
        let j = choose|j: int| 0 <= j < a.len() && a[j] == y;
        assert(x.last_ts_ms == y.last_ts_ms) by {
            if i < b.len() - 1 {
                assert(b[i].last_ts_ms >= b[b.len() - 1].last_ts_ms);
            }
            if j < a.len() - 1 {
                assert(a[j].last_ts_ms >= a[a.len() - 1].last_ts_ms);
            }
        }
        assert(a =~= a.drop_last().push(x));
        assert(b =~= b.drop_last().push(y));
        a.drop_last().lemma_filter_push(x, p);
        b.drop_last().lemma_filter_push(y, p);
        assert(a.filter(p).last() == x);
        assert(b.filter(p).last() == y);
        assert forall|ts_ms: int| a.drop_last().filter(#[trigger] last_seen_at(ts_ms))
            == b.drop_last().filter(last_seen_at(ts_ms)) by {
            let r = last_seen_at(ts_ms);
            a.drop_last().lemma_filter_push(x, r);
            b.drop_last().lemma_filter_push(y, r);
            assert(a.filter(r) == b.filter(r));
            assert(a.drop_last().filter(r).push(x).drop_last() =~= a.drop_last().filter(r));
            assert(b.drop_last().filter(r).push(y).drop_last() =~= b.drop_last().filter(r));
        }
        same_order(a.drop_last(), b.drop_last());
    }
}

/// The first group is that of a latest crash: no crash is later than its last one.
pub proof fn the_latest_crash_comes_first(crashes: Seq<CrashView>, sorted: Seq<GroupView>)
    requires
        newest_first(sorted, groups_of(crashes)),
    ensures
        forall|k: int|
            0 <= k < crashes.len() ==> sorted.len() > 0 && (#[trigger] crashes[k]).ts_ms
                <= sorted[0].last_ts_ms,
{
    each_cause_has_one_group(crashes);
    sorting_keeps_the_groups(sorted, groups_of(crashes));
    causes_are_those_of_crashes(crashes);
    assert forall|k: int| 0 <= k < crashes.len() implies sorted.len() > 0 && (
    #[trigger] crashes[k]).ts_ms <= sorted[0].last_ts_ms by {
        let c = crashes[k].cause();
        let g = group_of(crashes, c);
        let i = choose|i: int|
            0 <= i < groups_of(crashes).len() && #[trigger] groups_of(crashes)[i] == g;
        assert(causes(crashes)[i] == c);
        a_group_shows_its_latest_crash(crashes, c);
        assert(groups_of(crashes).contains(g));
        groups_of(crashes).to_multiset_ensures();
        sorted.to_multiset_ensures();
        assert(sorted.to_multiset().count(g) > 0);
        assert(sorted.contains(g));
        let j = choose|j: int| 0 <= j < sorted.len() && sorted[j] == g;
        if j > 0 {
            assert(sorted[0].last_ts_ms >= sorted[j].last_ts_ms);
        }
    }
}

/// Crashes of different apps are never taken for one cause, nor those whose messages start
/// differently, where the names of the apps hold no colon.
pub proof fn causes_tell_apps_and_messages_apart(
    app_a: Seq<char>,
    msg_a: Seq<char>,
    app_b: Seq<char>,
    msg_b: Seq<char>,
)
    requires
        !app_a.contains(':'),
        !app_b.contains(':'),
    ensures
        cause(app_a, msg_a) == cause(app_b, msg_b) <==> app_a == app_b && start_of(
            first_line(msg_a),
            FINGERPRINT_CHARS as int,
        ) == start_of(first_line(msg_b), FINGERPRINT_CHARS as int),
{
    reveal_strlit(":");
    let a = cause(app_a, msg_a);
    let b = cause(app_b, msg_b);
    if a == b {
        assert(a[app_a.len() as int] == ':');
        assert(b[app_b.len() as int] == ':');
        if app_a.len() < app_b.len() {
            assert(app_b[app_a.len() as int] == b[app_a.len() as int]);
        }
        if app_b.len() < app_a.len() {
            assert(app_a[app_b.len() as int] == a[app_b.len() as int]);
        }
        assert(a.take(app_a.len() as int) =~= app_a);
        assert(b.take(app_b.len() as int) =~= app_b);
        assert(a.skip(app_a.len() as int + 1) =~= start_of(first_line(msg_a), FINGERPRINT_CHARS as int));
        assert(b.skip(app_b.len() as int + 1) =~= start_of(first_line(msg_b), FINGERPRINT_CHARS as int));
    }
}

/// A crash that is sealed is a crash that is listed: the index event of a capsule, grouped alone,
/// makes one group, which tells of that crash.
pub proof fn a_sealed_crash_is_listed(c: Capsule, cid: Seq<char>)
    ensures
        groups_of(crashes_in(seq![index_document(c, cid)])) == seq![
            GroupView {
                fingerprint: cause(c.app@, c.msg@),
                app: c.app@,
                count: 1,
                last_ts_ms: c.ts_ms as int,
                last_cid: cid,
                last_node: ""@,
                sample_msg: c.msg@,
            },
        ],
{
    index_event_tells_of_the_crash(c, cid);
    let event = index_document(c, cid);
    let crash = CrashView { cid, app: c.app@, msg: c.msg@, ts_ms: c.ts_ms as int, node: ""@ };
    assert(seq![event].drop_last() =~= Seq::<Json>::empty());
    let none = Seq::<CrashView>::empty();
    assert(crashes_in(Seq::<Json>::empty()) == none);
    assert(seq![event].last() == event);
    assert(crashes_in(seq![event]) =~= seq![crash]);
    assert(none.push(crash) =~= seq![crash]);
    one_crash_more(none, crash);
    none.lemma_filter_len(|other: CrashView| other.cause() == crash.cause());
    assert(of_cause(seq![crash], crash.cause()) =~= seq![crash]);
    assert(causes(seq![crash]) =~= seq![crash.cause()]);
    assert(groups_of(seq![crash]) =~= seq![group_of(seq![crash], crash.cause())]);
}

/// Sequences with the same members have the same members for which `p` holds.
proof fn filters_of_the_same_members<T>(a: Seq<T>, b: Seq<T>, p: spec_fn(T) -> bool)
    requires
        a.to_multiset() == b.to_multiset(),
    ensures
        a.filter(p).to_multiset() == b.filter(p).to_multiset(),
{
    broadcast use vstd::seq_lib::group_to_multiset_ensures;

    assert forall|x: T|
        #[trigger] a.filter(p).to_multiset().count(x) == b.filter(p).to_multiset().count(x) by {
        if p(x) {
            count_in_filter(a, p, x);
            count_in_filter(b, p, x);
        } else {
            not_in_filter(a, p, x);
            not_in_filter(b, p, x);
        }
    }
    assert(a.filter(p).to_multiset() =~= b.filter(p).to_multiset());
}

proof fn not_in_filter<T>(s: Seq<T>, p: spec_fn(T) -> bool, x: T)
    requires
        !p(x),
    ensures
        s.filter(p).to_multiset().count(x) == 0,
{
    broadcast use vstd::seq_lib::group_to_multiset_ensures;

    if s.filter(p).contains(x) {
        let i = choose|i: int| 0 <= i < s.filter(p).len() && s.filter(p)[i] == x;
        s.lemma_filter_pred(p, i);
    }
}

/// Sequences with the same members have the same length, and hold the same.
proof fn the_same_members<T>(a: Seq<T>, b: Seq<T>)
    requires
        a.to_multiset() == b.to_multiset(),
    ensures
        a.len() == b.len(),
        forall|x: T| #[trigger] a.contains(x) <==> b.contains(x),
{
    a.to_multiset_ensures();
    b.to_multiset_ensures();
    assert forall|x: T| #[trigger] a.contains(x) <==> b.contains(x) by {
        vstd::seq_lib::to_multiset_contains(a, x);
        vstd::seq_lib::to_multiset_contains(b, x);
    }
}

/// No two of `crashes` are at the same time.
pub open spec fn at_different_times(crashes: Seq<CrashView>) -> bool {
    forall|i: int, j: int|
        0 <= i < j < crashes.len() ==> (#[trigger] crashes[i]).ts_ms != (
        #[trigger] crashes[j]).ts_ms
}

/// The names of the apps of `crashes` hold no colon.
pub open spec fn apps_without_colons(crashes: Seq<CrashView>) -> bool {
    forall|i: int| 0 <= i < crashes.len() ==> !(#[trigger] crashes[i]).app.contains(':')
}

proof fn one_crash_at_a_time(crashes: Seq<CrashView>, x: CrashView, y: CrashView)
    requires
        at_different_times(crashes),
        crashes.contains(x),
        crashes.contains(y),
        x.ts_ms == y.ts_ms,
    ensures
        x == y,
{
    let i = choose|i: int| 0 <= i < crashes.len() && crashes[i] == x;
    let j = choose|j: int| 0 <= j < crashes.len() && crashes[j] == y;
    if i < j {
        assert(crashes[i].ts_ms != crashes[j].ts_ms);
    } else if j < i {
        assert(crashes[j].ts_ms != crashes[i].ts_ms);
    }
}

/// A crash of the cause `c` is one of the crashes, and has that cause.
proof fn members_of_cause(crashes: Seq<CrashView>, c: Seq<char>, x: CrashView)
    requires
        of_cause(crashes, c).contains(x),
    ensures
        crashes.contains(x),
        x.cause() == c,
{
    let p = |crash: CrashView| crash.cause() == c;
    let k = choose|k: int| 0 <= k < of_cause(crashes, c).len() && of_cause(crashes, c)[k] == x;
    crashes.lemma_filter_pred(p, k);
    crashes.lemma_filter_contains_rev(p, x);
}

/// The group of a cause is the same in whatever order the crashes come.
proof fn same_group(a: Seq<CrashView>, b: Seq<CrashView>, c: Seq<char>)
    requires
        a.to_multiset() == b.to_multiset(),
        at_different_times(a),
        apps_without_colons(a),
        of_cause(a, c).len() > 0,
    ensures
        of_cause(b, c).len() > 0,
        group_of(a, c) == group_of(b, c),
{
    let in_a = of_cause(a, c);
    let in_b = of_cause(b, c);
    filters_of_the_same_members(a, b, |crash: CrashView| crash.cause() == c);
    the_same_members(in_a, in_b);
    latest_is_latest(in_a);
    latest_is_latest(in_b);
    let x = latest(in_a);
    let y = latest(in_b);
    assert(in_a.contains(y) && in_b.contains(x));
    let i = choose|i: int| 0 <= i < in_a.len() && in_a[i] == y;
    let j = choose|j: int| 0 <= j < in_b.len() && in_b[j] == x;
    assert(in_a[i].ts_ms <= x.ts_ms && in_b[j].ts_ms <= y.ts_ms);
    members_of_cause(a, c, x);
    members_of_cause(a, c, y);
    one_crash_at_a_time(a, x, y);
    let first_a = in_a[0];
    let first_b = in_b[0];
    assert(in_a.contains(first_a) && in_b.contains(first_b));
    members_of_cause(a, c, first_a);
    members_of_cause(a, c, first_b);
    let k = choose|k: int| 0 <= k < a.len() && a[k] == first_a;
    let l = choose|l: int| 0 <= l < a.len() && a[l] == first_b;
    assert(!a[k].app.contains(':') && !a[l].app.contains(':'));
    causes_tell_apps_and_messages_apart(first_a.app, first_a.msg, first_b.app, first_b.msg);
}

/// The groups are the same in whatever order the crashes come.
proof fn same_groups(a: Seq<CrashView>, b: Seq<CrashView>, g: GroupView)
    requires
        a.to_multiset() == b.to_multiset(),
        at_different_times(a),
        apps_without_colons(a),
        groups_of(a).contains(g),
    ensures
        groups_of(b).contains(g),
        exists|x: CrashView| #[trigger]
            a.contains(x) && x.ts_ms == g.last_ts_ms && g == group_of(a, x.cause()),
{
    let i = choose|i: int| 0 <= i < groups_of(a).len() && groups_of(a)[i] == g;
    let c = causes(a)[i];
    assert(g == group_of(a, c));
    causes_are_those_of_crashes(a);
    causes_are_those_of_crashes(b);
    assert(causes(a).contains(c));
    same_group(a, b, c);
    assert(causes(b).contains(c));
    let j = choose|j: int| 0 <= j < causes(b).len() && causes(b)[j] == c;
    assert(groups_of(b)[j] == g);
    let all = of_cause(a, c);
    latest_is_latest(all);
    members_of_cause(a, c, latest(all));
    assert(a.contains(latest(all)));
}

proof fn same_condition_for_the_same_members(a: Seq<CrashView>, b: Seq<CrashView>)
    requires
        a.to_multiset() == b.to_multiset(),
        at_different_times(a),
        apps_without_colons(a),
    ensures
        at_different_times(b),
        apps_without_colons(b),
{
    the_same_members(a, b);
    times_tell_crashes_apart(a);
    a.lemma_multiset_has_no_duplicates();
    b.lemma_multiset_has_no_duplicates_conv();
    assert forall|i: int| 0 <= i < b.len() implies !(#[trigger] b[i]).app.contains(':') by {
        assert(b.contains(b[i]) && a.contains(b[i]));
        let k = choose|k: int| 0 <= k < a.len() && a[k] == b[i];
        assert(!a[k].app.contains(':'));
    }
    assert forall|i: int, j: int| 0 <= i < j < b.len() implies (#[trigger] b[i]).ts_ms != (
    #[trigger] b[j]).ts_ms by {
        if b[i].ts_ms == b[j].ts_ms {
            assert(b.contains(b[i]) && b.contains(b[j]));
            assert(a.contains(b[i]) && a.contains(b[j]));
            one_crash_at_a_time(a, b[i], b[j]);
        }
    }
}

proof fn times_tell_crashes_apart(crashes: Seq<CrashView>)
    requires
        at_different_times(crashes),
    ensures
        crashes.no_duplicates(),
{
    assert forall|i: int, j: int|
        0 <= i < crashes.len() && 0 <= j < crashes.len() && i != j implies crashes[i]
        != crashes[j] by {
        if i < j {
            assert(crashes[i].ts_ms != crashes[j].ts_ms);
        } else {
            assert(crashes[j].ts_ms != crashes[i].ts_ms);
        }
    }
}

proof fn no_group_twice(crashes: Seq<CrashView>, g: GroupView)
    ensures
        groups_of(crashes).to_multiset().count(g) == if groups_of(crashes).contains(g) {
            1nat
        } else {
            0nat
        },
{
    let groups = groups_of(crashes);
    each_cause_has_one_group(crashes);
    groups.to_multiset_ensures();
    assert(groups.no_duplicates()) by {
        assert forall|i: int, j: int|
            0 <= i < groups.len() && 0 <= j < groups.len() && i != j implies groups[i]
            != groups[j] by {
            if i < j {
                assert(groups[i].fingerprint != groups[j].fingerprint);
            } else {
                assert(groups[j].fingerprint != groups[i].fingerprint);
            }
        }
    }
    groups.lemma_multiset_has_no_duplicates();
    if groups.contains(g) {
        assert(groups.to_multiset().contains(g));
    }
}

proof fn order_goes_over(a: Seq<CrashView>, b: Seq<CrashView>, r: Seq<GroupView>)
    requires
        a.to_multiset() == b.to_multiset(),
        at_different_times(a),
        apps_without_colons(a),
        newest_first(r, groups_of(a)),
    ensures
        newest_first(r, groups_of(b)),
{
    same_condition_for_the_same_members(a, b);
    let ga = groups_of(a);
    let gb = groups_of(b);
    assert forall|g: GroupView|
        #[trigger] ga.to_multiset().count(g) == gb.to_multiset().count(g) by {
        no_group_twice(a, g);
        no_group_twice(b, g);
        if ga.contains(g) {
            same_groups(a, b, g);
        }
        if gb.contains(g) {
            same_groups(b, a, g);
        }
    }
    assert(ga.to_multiset() =~= gb.to_multiset());
    assert forall|ts_ms: int| r.filter(#[trigger] last_seen_at(ts_ms)) == gb.filter(
        last_seen_at(ts_ms),
    ) by {
        let p = last_seen_at(ts_ms);
        let fa = ga.filter(p);
        let fb = gb.filter(p);
        filters_of_the_same_members(ga, gb, p);
        the_same_members(fa, fb);
        assert forall|k: int| 0 <= k < fa.len() implies fa[k] == fb[k] by {
            assert(fa.contains(fa[k]) && fb.contains(fb[k]));
            assert(fa.contains(fb[k]));
            one_group_at_a_time(a, fa[k], fb[k], ts_ms);
        }
        assert(fa =~= fb);
        assert(r.filter(p) == fa);
    }
}

/// Crashes at different times make groups that were last seen at different times.
proof fn one_group_at_a_time(crashes: Seq<CrashView>, g: GroupView, h: GroupView, ts_ms: int)
    requires
        at_different_times(crashes),
        apps_without_colons(crashes),
        groups_of(crashes).filter(last_seen_at(ts_ms)).contains(g),
        groups_of(crashes).filter(last_seen_at(ts_ms)).contains(h),
    ensures
        g == h,
{
    let groups = groups_of(crashes);
    let p = last_seen_at(ts_ms);
    let f = groups.filter(p);
    let i = choose|i: int| 0 <= i < f.len() && f[i] == g;
    let j = choose|j: int| 0 <= j < f.len() && f[j] == h;
    groups.lemma_filter_pred(p, i);
    groups.lemma_filter_pred(p, j);
    groups.lemma_filter_contains_rev(p, g);
    groups.lemma_filter_contains_rev(p, h);
    same_groups(crashes, crashes, g);
    same_groups(crashes, crashes, h);
    let x = choose|x: CrashView| #[trigger]
        crashes.contains(x) && x.ts_ms == g.last_ts_ms && g == group_of(crashes, x.cause());
    let y = choose|y: CrashView| #[trigger]
        crashes.contains(y) && y.ts_ms == h.last_ts_ms && h == group_of(crashes, y.cause());
    one_crash_at_a_time(crashes, x, y);
}

/// The order in which crashes arrive makes no difference to their groups, where no two are at the
/// same time and the names of the apps hold no colon.
pub proof fn arrival_order_makes_no_difference(
    a: Seq<CrashView>,
    b: Seq<CrashView>,
    r: Seq<GroupView>,
)
    requires
        a.to_multiset() == b.to_multiset(),
        at_different_times(a),
        apps_without_colons(a),
    ensures
        newest_first(r, groups_of(a)) <==> newest_first(r, groups_of(b)),
{
    same_condition_for_the_same_members(a, b);
    if newest_first(r, groups_of(a)) {
        order_goes_over(a, b, r);
    }
    if newest_first(r, groups_of(b)) {
        order_goes_over(b, a, r);
    }
}

/// The order in which events arrive makes no difference to the groups that are made of them, where
/// no two crashes are at the same time and the names of the apps hold no colon.
pub proof fn event_order_makes_no_difference(
    xs: Seq<Json>,
    ys: Seq<Json>,
    of_xs: Seq<GroupView>,
    of_ys: Seq<GroupView>,
)
    requires
        xs.to_multiset() == ys.to_multiset(),
        at_different_times(crashes_in(xs)),
        apps_without_colons(crashes_in(xs)),
        newest_first(of_xs, groups_of(crashes_in(xs))),
        newest_first(of_ys, groups_of(crashes_in(ys))),
    ensures
        of_xs == of_ys,
{
    the_same_events_tell_of_the_same_crashes(xs, ys);
    arrival_order_makes_no_difference(crashes_in(xs), crashes_in(ys), of_ys);
    newest_first_is_unique(of_xs, of_ys, groups_of(crashes_in(xs)));
}

/// The start of a text is a start of it, and as long as allowed: all of it if it is not longer.
pub proof fn a_start_is_as_long_as_allowed(s: Seq<char>, n: int)
    requires
        n >= 0,
    ensures
        start_of(s, n).is_prefix_of(s),
        s.len() <= n ==> start_of(s, n).len() == s.len(),
        s.len() > n ==> start_of(s, n).len() == n,
{
    assert(s.subrange(0, start_of(s, n).len() as int) =~= start_of(s, n));
}

/// What stands for a cause is the app, a colon, and as much of the first line of the message as
/// counts: all of it, or its first characters if it is longer.
pub proof fn a_cause_is_the_app_and_the_first_line(app: Seq<char>, msg: Seq<char>)
    ensures
        ({
            let c = cause(app, msg);
            let rest = c.skip(app.len() as int + 1);
            &&& app.is_prefix_of(c)
            &&& c.len() > app.len() && c[app.len() as int] == ':'
            &&& rest.is_prefix_of(first_line(msg))
            &&& first_line(msg).len() <= FINGERPRINT_CHARS ==> rest == first_line(msg)
            &&& first_line(msg).len() > FINGERPRINT_CHARS ==> rest.len() == FINGERPRINT_CHARS
        }),
{
    reveal_strlit(":");
    let c = cause(app, msg);
    let line = first_line(msg);
    let rest = c.skip(app.len() as int + 1);
    a_start_is_as_long_as_allowed(line, FINGERPRINT_CHARS as int);
    assert(c.subrange(0, app.len() as int) =~= app);
    assert(rest =~= start_of(line, FINGERPRINT_CHARS as int));
    if line.len() <= FINGERPRINT_CHARS {
        assert(line.subrange(0, line.len() as int) =~= line);
    }
}

/// Two crashes of one app have the same cause exactly where the first lines of their messages do
/// not differ in any of the characters that count: where both lines are short enough, if they are
/// the same.
pub proof fn different_first_lines_are_different_causes(
    app: Seq<char>,
    msg_a: Seq<char>,
    msg_b: Seq<char>,
)
    ensures
        ({
            let a = first_line(msg_a);
            let b = first_line(msg_b);
            let n = FINGERPRINT_CHARS as int;
            &&& a.len() <= n && b.len() <= n ==> (cause(app, msg_a) == cause(app, msg_b) <==> a == b)
            &&& a.len() >= n && b.len() >= n ==> (cause(app, msg_a) == cause(app, msg_b)
                <==> forall|i: int| 0 <= i < n ==> #[trigger] a[i] == b[i])
            &&& a.len() < n && b.len() != a.len() ==> cause(app, msg_a) != cause(app, msg_b)
        }),
{
    let a = first_line(msg_a);
    let b = first_line(msg_b);
    let n = FINGERPRINT_CHARS as int;
    let skip = app.len() as int + 1;
    let x = cause(app, msg_a);
    let y = cause(app, msg_b);
    a_cause_is_the_app_and_the_first_line(app, msg_a);
    a_cause_is_the_app_and_the_first_line(app, msg_b);
    let s = x.skip(skip);
    let t = y.skip(skip);
    assert(x =~= app.push(':') + s);
    assert(y =~= app.push(':') + t);
    if a.len() >= n && b.len() >= n {
        assert(s.len() == n && t.len() == n);
        if forall|i: int| 0 <= i < n ==> #[trigger] a[i] == b[i] {
            assert forall|i: int| 0 <= i < n implies s[i] == t[i] by {
                assert(s[i] == a[i] && t[i] == b[i]);
            }
            assert(s =~= t);
        }
        if x == y {
            assert forall|i: int| 0 <= i < n implies #[trigger] a[i] == b[i] by {
                assert(s[i] == a[i] && t[i] == b[i]);
            }
        }
    }
}

/// The crashes of a cause in two lists, one behind the other, are those in the one and those in the
/// other; a crash alone is among those of its own cause and of no other.
pub proof fn crashes_of_a_cause_add_up(
    a: Seq<CrashView>,
    b: Seq<CrashView>,
    crash: CrashView,
    c: Seq<char>,
)
    ensures
        of_cause(a + b, c) == of_cause(a, c) + of_cause(b, c),
        of_cause(seq![crash], c) == if cause(crash.app, crash.msg) == c {
            seq![crash]
        } else {
            Seq::<CrashView>::empty()
        },
{
    let p = |crash: CrashView| crash.cause() == c;
    Seq::filter_distributes_over_add(a, b, p);
    let none = Seq::<CrashView>::empty();
    none.lemma_filter_len(p);
    none.lemma_filter_push(crash, p);
    assert(none.push(crash) =~= seq![crash]);
    assert(none.filter(p) =~= none);
}

/// Causes are listed in the order in which they were first seen: the causes of what was seen so far
/// stay first, and a crash adds its own behind them, unless it is there.
pub proof fn causes_are_listed_as_first_seen(crashes: Seq<CrashView>, crash: CrashView)
    ensures
        causes(Seq::<CrashView>::empty()).len() == 0,
        causes(crashes).contains(cause(crash.app, crash.msg)) ==> causes(crashes.push(crash))
            == causes(crashes),
        !causes(crashes).contains(cause(crash.app, crash.msg)) ==> causes(crashes.push(crash))
            == causes(crashes).push(cause(crash.app, crash.msg)),
{
    assert(crashes.push(crash).drop_last() =~= crashes);
}

/// Of several crashes at the latest time the last one counts: every crash behind it is earlier.
pub proof fn the_last_of_the_latest_counts(crashes: Seq<CrashView>)
    requires
        crashes.len() > 0,
    ensures
        exists|i: int|
            {
                &&& 0 <= i < crashes.len()
                &&& #[trigger] crashes[i] == latest(crashes)
                &&& forall|j: int| 0 <= j < i ==> (#[trigger] crashes[j]).ts_ms <= crashes[i].ts_ms
                &&& forall|j: int|
                    i < j < crashes.len() ==> (#[trigger] crashes[j]).ts_ms < crashes[i].ts_ms
            },
    decreases crashes.len(),
{
    if crashes.len() == 1 {
        assert(crashes[0] == latest(crashes));
    } else {
        let before = crashes.drop_last();
        let last = crashes.last();
        the_last_of_the_latest_counts(before);
        let k = choose|i: int|
            {
                &&& 0 <= i < before.len()
                &&& #[trigger] before[i] == latest(before)
                &&& forall|j: int| 0 <= j < i ==> (#[trigger] before[j]).ts_ms <= before[i].ts_ms
                &&& forall|j: int|
                    i < j < before.len() ==> (#[trigger] before[j]).ts_ms < before[i].ts_ms
            };
        assert forall|j: int| 0 <= j < before.len() implies #[trigger] crashes[j]
            == before[j] by {}
        if last.ts_ms >= latest(before).ts_ms {
            let i = crashes.len() - 1;
            assert forall|j: int| 0 <= j < i implies (#[trigger] crashes[j]).ts_ms
                <= crashes[i].ts_ms by {
                if j > k {
                    assert(before[j].ts_ms < before[k].ts_ms);
                } else if j < k {
                    assert(before[j].ts_ms <= before[k].ts_ms);
                }
            }
            assert(crashes[i] == latest(crashes));
        } else {
            assert forall|j: int| k < j < crashes.len() implies (#[trigger] crashes[j]).ts_ms
                < crashes[k].ts_ms by {
                if j < before.len() {
                    assert(before[j].ts_ms < before[k].ts_ms);
                }
            }
            assert forall|j: int| 0 <= j < k implies (#[trigger] crashes[j]).ts_ms
                <= crashes[k].ts_ms by {
                assert(before[j].ts_ms <= before[k].ts_ms);
            }
            assert(crashes[k] == latest(crashes));
        }
    }
}

/// A group is made of the crashes of its cause: it counts them, bears the app of the first one, and
/// shows the time, the capsule, the node and the message of the one that counts as the latest.
pub proof fn a_group_is_made_of_its_crashes(crashes: Seq<CrashView>, c: Seq<char>)
    ensures
        ({
            let all = crashes.filter(|crash: CrashView| cause(crash.app, crash.msg) == c);
            let g = group_of(crashes, c);
            &&& g.fingerprint == c
            &&& g.count == all.len()
            &&& g.app == all[0].app
            &&& all.len() > 0 ==> exists|i: int|
                {
                    &&& 0 <= i < all.len()
                    &&& (#[trigger] all[i]).ts_ms == g.last_ts_ms
                    &&& all[i].cid == g.last_cid
                    &&& all[i].node == g.last_node
                    &&& all[i].msg == g.sample_msg
                    &&& forall|j: int| 0 <= j < i ==> (#[trigger] all[j]).ts_ms <= all[i].ts_ms
                    &&& forall|j: int|
                        i < j < all.len() ==> (#[trigger] all[j]).ts_ms < all[i].ts_ms
                }
        }),
{
    let p = |crash: CrashView| cause(crash.app, crash.msg) == c;
    let q = |crash: CrashView| crash.cause() == c;
    assert(p =~= q);
    let all = of_cause(crashes, c);
    if all.len() > 0 {
        the_last_of_the_latest_counts(all);
    }
}

/// There is one group for each cause, in the order of the causes.
pub proof fn the_groups_are_those_of_the_causes(crashes: Seq<CrashView>)
    ensures
        groups_of(crashes).len() == causes(crashes).len(),
        forall|i: int|
            0 <= i < causes(crashes).len() ==> #[trigger] groups_of(crashes)[i] == group_of(
                crashes,
                causes(crashes)[i],
            ),
{
}

/// Groups are listed with the newest first, and groups last seen at one time in the order in which
/// they came.
pub proof fn the_newest_groups_come_first(
    sorted: Seq<GroupView>,
    groups: Seq<GroupView>,
    ts_ms: int,
)
    requires
        newest_first(sorted, groups),
    ensures
        forall|i: int, j: int|
            0 <= i < j < sorted.len() ==> (#[trigger] sorted[i]).last_ts_ms >= (
            #[trigger] sorted[j]).last_ts_ms,
        sorted.filter(|g: GroupView| g.last_ts_ms == ts_ms) == groups.filter(
            |g: GroupView| g.last_ts_ms == ts_ms,
        ),
{
    assert(sorted.filter(last_seen_at(ts_ms)) == groups.filter(last_seen_at(ts_ms)));
    assert(last_seen_at(ts_ms) =~= (|g: GroupView| g.last_ts_ms == ts_ms));
}

/// A group is seen as it is, and so are all groups of a list, one for one.
pub proof fn groups_are_seen_as_they_are(g: CrashGroup, groups: Seq<CrashGroup>)
    ensures
        g@.fingerprint == g.fingerprint@ && g@.app == g.app@ && g@.count == g.count
            && g@.last_ts_ms == g.last_ts_ms && g@.last_cid == g.last_cid@ && g@.last_node
            == g.last_node@ && g@.sample_msg == g.sample_msg@,
        group_views(groups).len() == groups.len(),
        forall|i: int| 0 <= i < groups.len() ==> #[trigger] group_views(groups)[i] == groups[i]@,
{
}

/// Two crashes of one app whose first lines differ, where neither is longer than what counts, are
/// never taken for one: each has a group of its own in the list, with as many crashes as have its
/// cause.
pub proof fn different_crashes_are_listed_apart(
    crashes: Seq<CrashView>,
    sorted: Seq<GroupView>,
    i: int,
    j: int,
)
    requires
        newest_first(sorted, groups_of(crashes)),
        0 <= i < crashes.len(),
        0 <= j < crashes.len(),
        crashes[i].app == crashes[j].app,
        first_line(crashes[i].msg) != first_line(crashes[j].msg),
        first_line(crashes[i].msg).len() <= FINGERPRINT_CHARS,
        first_line(crashes[j].msg).len() <= FINGERPRINT_CHARS,
    ensures
        exists|a: int, b: int|
            {
                &&& 0 <= a < sorted.len() && 0 <= b < sorted.len() && a != b
                &&& (#[trigger] sorted[a]).fingerprint == crashes[i].app.push(':') + first_line(
                    crashes[i].msg,
                )
                &&& (#[trigger] sorted[b]).fingerprint == crashes[j].app.push(':') + first_line(
                    crashes[j].msg,
                )
            },
{
    let x = listed_under_its_cause(crashes, sorted, i);
    let y = listed_under_its_cause(crashes, sorted, j);
    different_first_lines_are_different_causes(crashes[i].app, crashes[i].msg, crashes[j].msg);
    short_cause(crashes[i].app, crashes[i].msg);
    short_cause(crashes[j].app, crashes[j].msg);
    assert(x != y);
    assert(sorted[x].fingerprint == crashes[i].app.push(':') + first_line(crashes[i].msg));
    assert(sorted[y].fingerprint == crashes[j].app.push(':') + first_line(crashes[j].msg));
}

proof fn short_cause(app: Seq<char>, msg: Seq<char>)
    requires
        first_line(msg).len() <= FINGERPRINT_CHARS,
    ensures
        cause(app, msg) == app.push(':') + first_line(msg),
{
    a_cause_is_the_app_and_the_first_line(app, msg);
    let c = cause(app, msg);
    assert(c =~= app.push(':') + c.skip(app.len() as int + 1));
}

proof fn listed_under_its_cause(
    crashes: Seq<CrashView>,
    sorted: Seq<GroupView>,
    i: int,
) -> (at: int)
    requires
        newest_first(sorted, groups_of(crashes)),
        0 <= i < crashes.len(),
    ensures
        0 <= at < sorted.len(),
        sorted[at].fingerprint == cause(crashes[i].app, crashes[i].msg),
{
    each_cause_has_one_group(crashes);
    sorting_keeps_the_groups(sorted, groups_of(crashes));
    let c = crashes[i].cause();
    let groups = groups_of(crashes);
    let k = choose|k: int|
        0 <= k < groups.len() && #[trigger] groups[k] == group_of(crashes, c);
    let g = groups[k];
    assert(groups.contains(g));
    the_same_members(sorted, groups);
    assert(sorted.contains(g));
    choose|at: int| 0 <= at < sorted.len() && sorted[at] == g
}

} // verus!
