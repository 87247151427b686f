//! Command execution over the store and the append log.
//!
//! A write is first appended to the log, then applied in memory, and only then answered
//! with success. The log lives in a file, so executing one command is split in two: [`plan`]
//! decides, from the store and the command, what to answer or what to write, and after the
//! write [`after_append`] or [`after_compact`] decide the answer from its outcome.
use vstd::prelude::*;
use crate::error::{describes, ErrorView, Result};
use crate::persist::{
    apply_record, apply_all, lemma_compaction, record_views, snapshot, snapshot_records, Record,
    RecordView,
};
use crate::protocol::{Command, CommandView, Response, ResponseView, ServerStats};
use crate::store::{
    after_read, assoc, entry_pairs, expired, lists_keys, lookup, purged, sorted_pairs, EntryView,
    KvMap, Pairs, Store,
};
use crate::text::dec;

verus! {

/// What executing a command asks for next.
pub enum Step {
    /// Answer with this response; nothing is written.
    Reply(Response),
    /// Append this record to the log, then answer with [`after_append`].
    Append(Record),
    /// Rewrite the log with these records, then answer with [`after_compact`].
    Compact(Vec<Record>),
}

/// A [`Step`] with its parts taken by their views.
pub enum StepView {
    Reply(ResponseView),
    Append(RecordView),
    Compact(Seq<RecordView>),
}

impl View for Step {
    type V = StepView;

    open spec fn view(&self) -> StepView {
        match self {
            Step::Reply(r) => StepView::Reply(r@),
            Step::Append(r) => StepView::Append(r@),
            Step::Compact(rs) => StepView::Compact(record_views(rs@)),
        }
    }
}

/// The store content after deciding command `c` at time `now`: reads remove the expired
/// entry they meet, listings remove every expired entry, writes change nothing yet.
pub open spec fn planned_store(m: KvMap, c: CommandView, now: u64) -> KvMap {
    match c {
        CommandView::Get { key } => after_read(m, key, now),
        CommandView::Del { key } => after_read(m, key, now),
        CommandView::List => purged(m, now),
        CommandView::Stats => purged(m, now),
        CommandView::Compact => purged(m, now),
        _ => m,
    }
}

/// The message for a time to live whose expiry time is past the clock's range.
pub open spec fn ttl_range_msg(ttl_secs: u64) -> Seq<char> {
    "过期时间超出范围: "@ + dec(ttl_secs as nat)
}

/// The absolute expiry time of a time to live of `ttl_secs` seconds at time `now`, if the
/// clock can hold it.
pub open spec fn expiry_time(now: u64, ttl_secs: u64) -> Option<u64> {
    if now + ttl_secs * 1000 <= u64::MAX {
        Some((now + ttl_secs * 1000) as u64)
    } else {
        None
    }
}

/// Whether `rs` rewrites the content `m`: one write per entry, ascending by key.
pub open spec fn rewrites(rs: Seq<RecordView>, m: KvMap) -> bool {
    exists|p: Pairs| sorted_pairs(p) && assoc(p) == m && rs == snapshot_records(p)
}

/// What deciding command `c` at time `now` on content `m` asks for, with `clients` connected
/// clients and `uptime_secs` seconds of service.
pub open spec fn planned_step(
    m: KvMap,
    c: CommandView,
    clients: usize,
    uptime_secs: u64,
    now: u64,
    s: StepView,
) -> bool {
    match c {
        CommandView::Put { key, value } => s == StepView::Append(
            RecordView::Put { key, value, expire_at_ms: None },
        ),
        CommandView::SetEx { key, ttl_secs, value } => match expiry_time(now, ttl_secs) {
            Some(t) => s == StepView::Append(RecordView::Put { key, value, expire_at_ms: Some(t) }),
            None => s == StepView::Reply(ResponseView::Failure(ttl_range_msg(ttl_secs))),
        },
        CommandView::Get { key } => s == StepView::Reply(
            match lookup(m, key, now) {
                Some(v) => ResponseView::Value(v),
                None => ResponseView::NotFound,
            },
        ),
        CommandView::Del { key } => s == if lookup(m, key, now) is Some {
            StepView::Append(RecordView::Del { key })
        } else {
            StepView::Reply(ResponseView::NotFound)
        },
        CommandView::List => s matches StepView::Reply(ResponseView::Keys(ks)) && lists_keys(
            ks,
            purged(m, now),
        ),
        CommandView::Stats => s == StepView::Reply(
            ResponseView::Stats(
                ServerStats { keys: purged(m, now).dom().len() as usize, clients, uptime_secs },
            ),
        ),
        CommandView::Ping => s == StepView::Reply(ResponseView::Pong),
        CommandView::Compact => s matches StepView::Compact(rs) && rewrites(rs, purged(m, now)),
        CommandView::Quit => s == StepView::Reply(ResponseView::Bye),
    }
}

/// Decides command `cmd` at time `now` (UNIX ms) on `store`; `clients` and `uptime_secs` go
/// into the `STATS` answer. See [`planned_step`] and [`planned_store`].
pub fn plan(store: &mut Store, cmd: &Command, clients: usize, uptime_secs: u64, now: u64) -> (s:
    Step)
    ensures
        final(store)@ == planned_store(old(store)@, cmd@, now),
        planned_step(old(store)@, cmd@, clients, uptime_secs, now, s@),
{
    match cmd {
        Command::Put { key, value } => Step::Append(
            Record::Put { key: key.clone(), value: value.clone(), expire_at_ms: None },
        ),
        Command::SetEx { key, ttl_secs, value } => {
            match ttl_secs.checked_mul(1000) {
                Some(ms) => match now.checked_add(ms) {
                    Some(t) => {
                        return Step::Append(
                            Record::Put {
                                key: key.clone(),
                                value: value.clone(),
                                expire_at_ms: Some(t),
                            },
                        );
                    },
                    None => {},
                },
                None => {},
            }
            let mut m = String::from_str("过期时间超出范围: ");
            crate::text::push_decimal(&mut m, *ttl_secs);
            Step::Reply(Response::Failure(m))
        },
        Command::Get { key } => match store.get_at(key.as_str(), now) {
            Some(v) => Step::Reply(Response::Value(v.to_string())),
            None => Step::Reply(Response::NotFound),
        },
        Command::Del { key } => {
            if store.get_at(key.as_str(), now).is_none() {
                Step::Reply(Response::NotFound)
            } else {
                Step::Append(Record::Del { key: key.clone() })
            }
        },
        Command::List => Step::Reply(Response::Keys(store.keys_at(now))),
        Command::Stats => {
            let keys = store.len_at(now);
            Step::Reply(Response::Stats(ServerStats { keys, clients, uptime_secs }))
        },
        Command::Ping => Step::Reply(Response::Pong),
        Command::Compact => {
            let entries = store.iter_valid_at(now);
            let ghost p = entry_pairs(entries@);
            let records = snapshot(entries);
            assert(rewrites(record_views(records@), store@)) by {
                assert(sorted_pairs(p) && assoc(p) == store@ && record_views(records@)
                    == snapshot_records(p));
            }
            Step::Compact(records)
        },
        Command::Quit => Step::Reply(Response::Bye),
    }
}

/// The start of the answer to a failed append of `r`.
pub open spec fn append_failure_prefix(r: RecordView) -> Seq<char> {
    match r {
        RecordView::Put { .. } => "写入失败，数据未保存: "@,
        RecordView::Del { .. } => "删除失败，数据未变更: "@,
    }
}

/// Whether `r` is the failure `prefix` followed by the text of error `e`.
pub open spec fn failure_of(r: ResponseView, prefix: Seq<char>, e: ErrorView) -> bool {
    exists|m: Seq<char>| describes(m, e) && r == ResponseView::Failure(prefix + m)
}

/// Finishes a write after appending `record` to the log: on success the record is applied
/// to `store` and the answer is `OK`; on failure `store` is unchanged and the answer says so.
pub fn after_append(store: &mut Store, record: Record, outcome: Result<()>) -> (r: Response)
    ensures
        outcome is Ok ==> final(store)@ == apply_record(old(store)@, record@) && r@
            == ResponseView::Done,
        outcome matches Err(e) ==> final(store)@ == old(store)@ && failure_of(
            r@,
            append_failure_prefix(record@),
            e@,
        ),
{
    match outcome {
        Ok(()) => {
            match record {
                Record::Put { key, value, expire_at_ms } => store.set(key, value, expire_at_ms),
                Record::Del { key } => {
                    store.take(key.as_str());
                },
            }
            Response::Done
        },
        Err(e) => {
            let mut m = match record {
                Record::Put { .. } => String::from_str("写入失败，数据未保存: "),
                Record::Del { .. } => String::from_str("删除失败，数据未变更: "),
            };
            let t = e.message();
            m.append(t.as_str());
            assert(describes(t@, e@) && m@ == append_failure_prefix(record@) + t@);
            Response::Failure(m)
        },
    }
}

/// Finishes a compaction from the outcome of rewriting the log: `OK`, or the error's text.
pub fn after_compact(outcome: Result<usize>) -> (r: Response)
    ensures
        outcome is Ok ==> r@ == ResponseView::Done,
        outcome matches Err(e) ==> failure_of(r@, Seq::empty(), e@),
{
    match outcome {
        Ok(_) => Response::Done,
        Err(e) => {
            let t = e.message();
            assert(Seq::<char>::empty() + t@ =~= t@);
            Response::Failure(t)
        },
    }
}

/// Deciding a command never changes which entries are live at that time: it only removes
/// entries that have expired.
pub proof fn lemma_plan_keeps_live(m: KvMap, c: CommandView, now: u64)
    ensures
        purged(planned_store(m, c, now), now) == purged(m, now),
{
    assert(purged(planned_store(m, c, now), now) =~= purged(m, now));
}

/// A read finds the value last written under its key while the write has not expired, and
/// nothing after a deletion.
pub proof fn lemma_read_after_write(m: KvMap, r: RecordView, now: u64)
    ensures
        r matches RecordView::Put { key, value, expire_at_ms } ==> lookup(
            apply_record(m, r),
            key,
            now,
        ) == if expired(EntryView { value, expire_at_ms }, now) {
            None::<Seq<char>>
        } else {
            Some(value)
        },
        r matches RecordView::Del { key } ==> lookup(apply_record(m, r), key, now) is None,
{
}

/// A write with a time to live of `ttl_secs` seconds made at time `now` is visible exactly
/// until `ttl_secs * 1000` milliseconds later.
pub proof fn lemma_ttl(m: KvMap, key: Seq<char>, value: Seq<char>, ttl_secs: u64, now: u64, later: u64)
    requires
        expiry_time(now, ttl_secs) is Some,
    ensures
        lookup(
            apply_record(m, RecordView::Put { key, value, expire_at_ms: expiry_time(now, ttl_secs) }),
            key,
            later,
        ) == if later < now + ttl_secs * 1000 {
            Some(value)
        } else {
            None::<Seq<char>>
        },
{
}

/// Applying one more record after a sequence is applying the longer sequence.
pub proof fn lemma_apply_all_push(m: KvMap, rs: Seq<RecordView>, r: RecordView)
    ensures
        apply_all(m, rs.push(r)) == apply_record(apply_all(m, rs), r),
    decreases rs.len(),
{
    if rs.len() > 0 {
        assert(rs.push(r).drop_first() =~= rs.drop_first().push(r));
        assert(rs.push(r)[0] == rs[0]);
        lemma_apply_all_push(apply_record(m, rs[0]), rs.drop_first(), r);
    } else {
        assert(rs.push(r) =~= seq![r]);
        assert(seq![r].drop_first() =~= Seq::<RecordView>::empty());
        assert(apply_all(apply_record(m, r), Seq::<RecordView>::empty()) == apply_record(m, r));
    }
}

/// Contents with the same live entries at time `t` have the same live entries at any later
/// time.
pub proof fn lemma_purged_later(m: KvMap, l: KvMap, t: u64, t2: u64)
    requires
        purged(m, t) == purged(l, t),
        t <= t2,
    ensures
        purged(m, t2) == purged(l, t2),
{
    assert forall|k: Seq<char>| #[trigger] purged(m, t2).contains_key(k) implies purged(
        l,
        t2,
    ).contains_key(k) && purged(m, t2)[k] == purged(l, t2)[k] by {
        assert(purged(m, t).contains_key(k));
        assert(purged(l, t).contains_key(k));
        assert(purged(m, t)[k] == m[k]);
        assert(purged(l, t)[k] == l[k]);
    }
    assert forall|k: Seq<char>| #[trigger] purged(l, t2).contains_key(k) implies purged(
        m,
        t2,
    ).contains_key(k) by {
        assert(purged(l, t).contains_key(k));
        assert(purged(m, t).contains_key(k));
        assert(purged(m, t)[k] == m[k]);
        assert(purged(l, t)[k] == l[k]);
    }
    assert(purged(m, t2) =~= purged(l, t2));
}

/// The store and its log stay in step. Suppose the entries live at time `t` in the store
/// `m` are those live in what the log `rs` recovers. Then after deciding any command at a
/// time `t2` no earlier than `t`, and after appending a record to the log and applying it to
/// the store, the live entries at `t2` are again the same.
pub proof fn lemma_store_follows_log(
    m: KvMap,
    rs: Seq<RecordView>,
    c: CommandView,
    r: RecordView,
    t: u64,
    t2: u64,
)
    requires
        purged(m, t) == purged(apply_all(Map::empty(), rs), t),
        t <= t2,
    ensures
        purged(planned_store(m, c, t2), t2) == purged(apply_all(Map::empty(), rs), t2),
        purged(apply_record(planned_store(m, c, t2), r), t2) == purged(
            apply_all(Map::empty(), rs.push(r)),
            t2,
        ),
{
    let l = apply_all(Map::empty(), rs);
    let m2 = planned_store(m, c, t2);
    lemma_purged_later(m, l, t, t2);
    lemma_plan_keeps_live(m, c, t2);
    lemma_apply_all_push(Map::empty(), rs, r);
    let a = apply_record(m2, r);
    let b = apply_record(l, r);
    assert(purged(a, t2) =~= purged(b, t2)) by {
        assert forall|k: Seq<char>| #[trigger] purged(a, t2).contains_key(k) <==> purged(
            b,
            t2,
        ).contains_key(k) by {
            assert(purged(m2, t2).contains_key(k) == purged(l, t2).contains_key(k));
        }
        assert forall|k: Seq<char>| #[trigger] purged(a, t2).contains_key(k) implies purged(
            a,
            t2,
        )[k] == purged(b, t2)[k] by {
            assert(purged(m2, t2).contains_key(k) == purged(l, t2).contains_key(k));
            if purged(m2, t2).contains_key(k) {
                assert(purged(m2, t2)[k] == purged(l, t2)[k]);
            }
        }
    }
}

/// A compaction rewrites the log with one write per live entry, ascending by key, so that
/// the count of records is the count of live keys and the new log recovers exactly the live
/// entries the store holds.
pub proof fn lemma_compaction_recovers_store(
    m: KvMap,
    clients: usize,
    uptime_secs: u64,
    now: u64,
    s: StepView,
    path: Seq<char>,
)
    requires
        planned_step(m, CommandView::Compact, clients, uptime_secs, now, s),
    ensures
        s matches StepView::Compact(rs) && crate::persist::replay_log(
            crate::persist::log_image(rs),
            path,
        ) == Ok::<KvMap, Seq<char>>(planned_store(m, CommandView::Compact, now)),
        s matches StepView::Compact(rs) && rs.len() == purged(m, now).dom().len(),
        s matches StepView::Compact(rs) && forall|i: int|
            0 <= i < rs.len() ==> (#[trigger] rs[i] matches RecordView::Put {
                key,
                value,
                expire_at_ms,
            } && purged(m, now).contains_key(key) && purged(m, now)[key] == (EntryView {
                value,
                expire_at_ms,
            })),
        s matches StepView::Compact(rs) && forall|i: int, j: int|
            0 <= i < j < rs.len() ==> crate::text::lex_lt(
                #[trigger] rs[i]->Put_key,
                #[trigger] rs[j]->Put_key,
            ),
{
    let rs = s->Compact_0;
    let p = choose|p: Pairs|
        sorted_pairs(p) && assoc(p) == purged(m, now) && rs == snapshot_records(p);
    lemma_compaction(p, path);
    crate::store::lemma_assoc_finite(p);
    assert forall|i: int| 0 <= i < rs.len() implies (#[trigger] rs[i] matches RecordView::Put {
        key,
        value,
        expire_at_ms,
    } && purged(m, now).contains_key(key) && purged(m, now)[key] == (EntryView {
        value,
        expire_at_ms,
    })) by {
        crate::store::lemma_assoc_at(p, i);
        assert(rs[i] == crate::persist::put_of(p[i]));
    }
    assert forall|i: int, j: int| 0 <= i < j < rs.len() implies crate::text::lex_lt(
        #[trigger] rs[i]->Put_key,
        #[trigger] rs[j]->Put_key,
    ) by {
        assert(rs[i] == crate::persist::put_of(p[i]));
        assert(rs[j] == crate::persist::put_of(p[j]));
    }
}

} // verus!
