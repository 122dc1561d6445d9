use taskchampion::chrono::DateTime;
use taskchampion::{Operation, Status, Task};
use vstd::prelude::*;

use crate::edit::{
    add_plan, datetime_of, edit_views, entries_edits, entry_edits, existing_tag_names, tag_edits,
    timestamp_valid, update_plan,
    Edit, TaskEdit, TaskStatus,
};
use crate::entries::{enumerates, keys_distinct, lemma_entries_map_keys, lemma_lookup_push, lookup};
use crate::row::{lemma_row_lists_tags, row_map, tags_key};
use crate::tags::{all_capitals, task_add_tag, task_remove_tag, valid_tag};
use crate::task::{
    agree_outside, lemma_records_compose, lemma_records_nothing, op_update, records, description_key, due_key, end_key, known_key, model_key, modified_key,
    priority_key, project_key, set_to, start_key, status_key, tag_key_prefix, task_properties,
    task_uuid, wait_key,
};
use crate::text::{contains, split_ws, starts_with};

verus! {

/// How a status is written in a task's properties.
pub open spec fn status_text(s: TaskStatus) -> Seq<char> {
    match s {
        TaskStatus::Pending => seq!['p', 'e', 'n', 'd', 'i', 'n', 'g'],
        TaskStatus::Completed => seq!['c', 'o', 'm', 'p', 'l', 'e', 't', 'e', 'd'],
        TaskStatus::Deleted => seq!['d', 'e', 'l', 'e', 't', 'e', 'd'],
    }
}

/// A decimal digit.
pub open spec fn digit_char(d: int) -> char {
    seq!['0', '1', '2', '3', '4', '5', '6', '7', '8', '9'][d]
}

/// The decimal digits of a natural number.
pub open spec fn digits(n: nat) -> Seq<char>
    decreases n,
{
    if n < 10 {
        seq![digit_char(n as int)]
    } else {
        digits(n / 10).push(digit_char((n % 10) as int))
    }
}

/// An integer in decimal, with a leading `-` when negative.
pub open spec fn decimal(n: int) -> Seq<char> {
    if n < 0 {
        seq!['-'] + digits((-n) as nat)
    } else {
        digits(n as nat)
    }
}

/// The effect of setting a status: `status` names it; a pending task has no
/// `end`, a completed or deleted one keeps its `end` or gets one (the current
/// time); nothing else changes but `modified`.
pub open spec fn status_effect(
    old: Map<Seq<char>, Seq<char>>,
    new: Map<Seq<char>, Seq<char>>,
    s: TaskStatus,
) -> bool {
    &&& agree_outside(old, new, status_key(), end_key())
    &&& new.contains_key(status_key())
    &&& new[status_key()] == status_text(s)
    &&& s == TaskStatus::Pending ==> !new.contains_key(end_key())
    &&& s != TaskStatus::Pending ==> new.contains_key(end_key()) && (old.contains_key(end_key())
        ==> new[end_key()] == old[end_key()])
}

/// The effect of setting a time property: a time that chrono accepts is
/// stored as its seconds in decimal; none, or a time that chrono refuses,
/// removes the property; nothing else changes but `modified`.
pub open spec fn time_effect(
    old: Map<Seq<char>, Seq<char>>,
    new: Map<Seq<char>, Seq<char>>,
    key: Seq<char>,
    t: Option<(i64, u32)>,
) -> bool {
    &&& agree_outside(old, new, key, key)
    &&& match t {
        Some((secs, nanos)) => if timestamp_valid(secs, nanos) {
            new.contains_key(key) && new[key] == decimal(secs as int)
        } else {
            !new.contains_key(key)
        },
        None => !new.contains_key(key),
    }
}

/// The effect of starting a task: an active task stays as it is; another one
/// gets `start` (the current time) and nothing else changes but `modified`.
pub open spec fn start_effect(old: Map<Seq<char>, Seq<char>>, new: Map<Seq<char>, Seq<char>>) -> bool {
    if old.contains_key(start_key()) {
        new == old
    } else {
        agree_outside(old, new, start_key(), start_key()) && new.contains_key(start_key())
    }
}

/// The change that an edit makes to a task's properties.
pub open spec fn edit_effect(
    old: Map<Seq<char>, Seq<char>>,
    new: Map<Seq<char>, Seq<char>>,
    e: Edit,
) -> bool {
    match e {
        Edit::SetStatus(s) => status_effect(old, new, s),
        Edit::SetDescription(d) => set_to(old, new, description_key(), Some(d)),
        Edit::SetDue(t) => time_effect(old, new, due_key(), t),
        Edit::SetWait(t) => time_effect(old, new, wait_key(), t),
        Edit::Start => start_effect(old, new),
        Edit::Stop => set_to(old, new, start_key(), None),
        Edit::SetPriority(p) => set_to(old, new, priority_key(), Some(p)),
        Edit::AddTag(n) => if all_capitals(n) {
            new == old
        } else {
            set_to(old, new, tag_key_prefix() + n, Some(Seq::<char>::empty()))
        },
        Edit::RemoveTag(n) => if all_capitals(n) {
            new == old
        } else {
            set_to(old, new, tag_key_prefix() + n, None)
        },
        Edit::SetProject(p) => set_to(old, new, project_key(), Some(p)),
        Edit::SetProjectAttribute(p) => set_to(old, new, project_key(), Some(p)),
    }
}

/// `ms` are the properties before, between and after the edits `es`, each
/// edit leading from one to the next.
pub open spec fn effect_chain(
    ms: Seq<Map<Seq<char>, Seq<char>>>,
    old: Map<Seq<char>, Seq<char>>,
    new: Map<Seq<char>, Seq<char>>,
    es: Seq<Edit>,
) -> bool {
    &&& ms.len() == es.len() + 1
    &&& ms[0] == old
    &&& ms[es.len() as int] == new
    &&& forall|i: int| 0 <= i < es.len() ==> edit_effect(ms[i], #[trigger] ms[i + 1], es[i])
}

/// The change that a list of edits makes, one after the other.
pub open spec fn edits_effect(
    old: Map<Seq<char>, Seq<char>>,
    new: Map<Seq<char>, Seq<char>>,
    es: Seq<Edit>,
) -> bool {
    exists|ms: Seq<Map<Seq<char>, Seq<char>>>| #[trigger] effect_chain(ms, old, new, es)
}

/// Law: a `due` or `wait` field stores the time that its value names, as
/// the seconds in decimal, and removes the property where the value is blank
/// or names no time.
pub proof fn lemma_time_field_stores_its_time(
    old: Map<Seq<char>, Seq<char>>,
    new: Map<Seq<char>, Seq<char>>,
    key: Seq<char>,
    value: Seq<char>,
)
    requires
        time_effect(old, new, key, datetime_of(value)),
    ensures
        match datetime_of(value) {
            Some((secs, _)) => new.contains_key(key) && new[key] == decimal(secs as int),
            None => !new.contains_key(key),
        },
{
}

/// Sets a task's status (`Task::set_status`, taskchampion). Trusted: as
/// `status_effect` states it, from the source; the UUID stays;
/// every change goes through `TaskData::update`, which pushes onto `ops` one
/// `Operation::Update` naming the task, a property and its new value; so
/// `ops` gains exactly those updates, in order (`records`); their timestamps
/// are not stated.
#[verifier::external_body]
fn task_set_status(t: &mut Task, s: TaskStatus, ops: &mut Vec<Operation>)
    ensures
        task_uuid(*final(t)) == task_uuid(*old(t)),
        records(
            old(ops)@,
            final(ops)@,
            task_uuid(*old(t)),
            task_properties(*old(t)),
            task_properties(*final(t)),
        ),
        status_effect(task_properties(*old(t)), task_properties(*final(t)), s),
{
    let status = match s {
        TaskStatus::Pending => Status::Pending,
        TaskStatus::Completed => Status::Completed,
        TaskStatus::Deleted => Status::Deleted,
    };
    let _ = t.set_status(status, ops);
}

/// Sets a task's description (`Task::set_description`, taskchampion).
/// Trusted: the property `description` becomes `d`, and `modified` may be
/// set to the current time; nothing else changes; the UUID stays;
/// every change goes through `TaskData::update`, which pushes onto `ops` one
/// `Operation::Update` naming the task, a property and its new value; so
/// `ops` gains exactly those updates, in order (`records`); their timestamps
/// are not stated.
#[verifier::external_body]
fn task_set_description(t: &mut Task, d: String, ops: &mut Vec<Operation>)
    ensures
        task_uuid(*final(t)) == task_uuid(*old(t)),
        records(
            old(ops)@,
            final(ops)@,
            task_uuid(*old(t)),
            task_properties(*old(t)),
            task_properties(*final(t)),
        ),
        set_to(task_properties(*old(t)), task_properties(*final(t)), description_key(), Some(d@)),
{
    let _ = t.set_description(d, ops);
}

/// Sets a task's priority (`Task::set_priority`, taskchampion). Trusted: the
/// property `priority` becomes `p`, and `modified` may be set to the current
/// time; nothing else changes; the UUID stays;
/// every change goes through `TaskData::update`, which pushes onto `ops` one
/// `Operation::Update` naming the task, a property and its new value; so
/// `ops` gains exactly those updates, in order (`records`); their timestamps
/// are not stated.
#[verifier::external_body]
fn task_set_priority(t: &mut Task, p: String, ops: &mut Vec<Operation>)
    ensures
        task_uuid(*final(t)) == task_uuid(*old(t)),
        records(
            old(ops)@,
            final(ops)@,
            task_uuid(*old(t)),
            task_properties(*old(t)),
            task_properties(*final(t)),
        ),
        set_to(task_properties(*old(t)), task_properties(*final(t)), priority_key(), Some(p@)),
{
    let _ = t.set_priority(p, ops);
}

/// Sets a task's due time (`Task::set_due`, taskchampion) from seconds and
/// nanoseconds since the epoch, made into a time by `DateTime::from_timestamp`
/// (chrono). Trusted: as `time_effect` states it, from the source: a time
/// that chrono accepts is stored through `set_value` as
/// `timestamp().to_string()`, its seconds in decimal (chrono documents the
/// round trip); none, or a refused time, removes the property; the UUID
/// stays;
/// every change goes through `TaskData::update`, which pushes onto `ops` one
/// `Operation::Update` naming the task, a property and its new value; so
/// `ops` gains exactly those updates, in order (`records`); their timestamps
/// are not stated.
#[verifier::external_body]
fn task_set_due(t: &mut Task, due: Option<(i64, u32)>, ops: &mut Vec<Operation>)
    ensures
        task_uuid(*final(t)) == task_uuid(*old(t)),
        records(
            old(ops)@,
            final(ops)@,
            task_uuid(*old(t)),
            task_properties(*old(t)),
            task_properties(*final(t)),
        ),
        time_effect(task_properties(*old(t)), task_properties(*final(t)), due_key(), due),
{
    let due = match due {
        Some((secs, nanos)) => DateTime::from_timestamp(secs, nanos),
        None => None,
    };
    let _ = t.set_due(due, ops);
}

/// Sets the time until which a task waits (`Task::set_wait`, taskchampion).
/// Trusted: as for `task_set_due`, with the property `wait`.
#[verifier::external_body]
fn task_set_wait(t: &mut Task, wait: Option<(i64, u32)>, ops: &mut Vec<Operation>)
    ensures
        task_uuid(*final(t)) == task_uuid(*old(t)),
        records(
            old(ops)@,
            final(ops)@,
            task_uuid(*old(t)),
            task_properties(*old(t)),
            task_properties(*final(t)),
        ),
        time_effect(task_properties(*old(t)), task_properties(*final(t)), wait_key(), wait),
{
    let wait = match wait {
        Some((secs, nanos)) => DateTime::from_timestamp(secs, nanos),
        None => None,
    };
    let _ = t.set_wait(wait, ops);
}

/// Starts a task (`Task::start`, taskchampion). Trusted: as `start_effect`
/// states it, from the source; the start time (the clock) is not stated; the
/// UUID stays;
/// every change goes through `TaskData::update`, which pushes onto `ops` one
/// `Operation::Update` naming the task, a property and its new value; so
/// `ops` gains exactly those updates, in order (`records`); their timestamps
/// are not stated.
#[verifier::external_body]
fn task_start(t: &mut Task, ops: &mut Vec<Operation>)
    ensures
        task_uuid(*final(t)) == task_uuid(*old(t)),
        records(
            old(ops)@,
            final(ops)@,
            task_uuid(*old(t)),
            task_properties(*old(t)),
            task_properties(*final(t)),
        ),
        start_effect(task_properties(*old(t)), task_properties(*final(t))),
{
    let _ = t.start(ops);
}

/// Stops a task (`Task::stop`, taskchampion). Trusted: the property `start`
/// is removed, and `modified` may be set to the current time; nothing else
/// changes; the UUID stays;
/// every change goes through `TaskData::update`, which pushes onto `ops` one
/// `Operation::Update` naming the task, a property and its new value; so
/// `ops` gains exactly those updates, in order (`records`); their timestamps
/// are not stated.
#[verifier::external_body]
fn task_stop(t: &mut Task, ops: &mut Vec<Operation>)
    ensures
        task_uuid(*final(t)) == task_uuid(*old(t)),
        records(
            old(ops)@,
            final(ops)@,
            task_uuid(*old(t)),
            task_properties(*old(t)),
            task_properties(*final(t)),
        ),
        set_to(task_properties(*old(t)), task_properties(*final(t)), start_key(), None),
{
    let _ = t.stop(ops);
}

/// Sets or removes a property (`Task::set_value`, taskchampion). Trusted: the
/// property `key` becomes `value` (is removed for none), and `modified` may
/// be set to the current time; nothing else changes; the UUID stays;
/// Every change goes through `TaskData::update`, which pushes onto `ops` one
/// `Operation::Update` naming the task, a property and its new value; so
/// `ops` gains exactly those updates, in order (`records`); their timestamps
/// are not stated.
#[verifier::external_body]
fn task_set_value(t: &mut Task, key: &str, value: Option<String>, ops: &mut Vec<Operation>)
    ensures
        task_uuid(*final(t)) == task_uuid(*old(t)),
        records(
            old(ops)@,
            final(ops)@,
            task_uuid(*old(t)),
            task_properties(*old(t)),
            task_properties(*final(t)),
        ),
        forall|i: int|
            old(ops)@.len() <= i < final(ops)@.len() ==> (#[trigger] op_update(final(ops)@[i])) is Some,
        set_to(
            task_properties(*old(t)),
            task_properties(*final(t)),
            key@,
            match value {
                Some(v) => Some(v@),
                None => None,
            },
        ),
{
    let _ = t.set_value(key, value, ops);
}

/// Sets a user-defined attribute (`Task::set_user_defined_attribute`,
/// taskchampion). Trusted: a key of the task data model (or of a tag,
/// annotation or dependency) is refused and nothing changes; otherwise the
/// property `key` becomes `value`, and `modified` may be set to the current
/// time; the UUID stays;
/// every change goes through `TaskData::update`, which pushes onto `ops` one
/// `Operation::Update` naming the task, a property and its new value; so
/// `ops` gains exactly those updates, in order (`records`); their timestamps
/// are not stated.
#[verifier::external_body]
fn task_set_user_defined_attribute(t: &mut Task, key: &str, value: String, ops: &mut Vec<Operation>)
    ensures
        task_uuid(*final(t)) == task_uuid(*old(t)),
        records(
            old(ops)@,
            final(ops)@,
            task_uuid(*old(t)),
            task_properties(*old(t)),
            task_properties(*final(t)),
        ),
        known_key(key@) ==> task_properties(*final(t)) == task_properties(*old(t)),
        !known_key(key@) ==> set_to(
            task_properties(*old(t)),
            task_properties(*final(t)),
            key@,
            Some(value@),
        ),
{
    let _ = t.set_user_defined_attribute(key, value, ops);
}

/// Makes one edit to a task, recording its operations in `ops`.
pub fn apply_edit(t: &mut Task, e: TaskEdit, ops: &mut Vec<Operation>)
    ensures
        task_uuid(*final(t)) == task_uuid(*old(t)),
        records(
            old(ops)@,
            final(ops)@,
            task_uuid(*old(t)),
            task_properties(*old(t)),
            task_properties(*final(t)),
        ),
        edit_effect(task_properties(*old(t)), task_properties(*final(t)), e@),
{
    match e {
        TaskEdit::SetStatus(s) => task_set_status(t, s, ops),
        TaskEdit::SetDescription(d) => task_set_description(t, d, ops),
        TaskEdit::SetDue(due) => task_set_due(t, due, ops),
        TaskEdit::SetWait(wait) => task_set_wait(t, wait, ops),
        TaskEdit::Start => task_start(t, ops),
        TaskEdit::Stop => task_stop(t, ops),
        TaskEdit::SetPriority(p) => task_set_priority(t, p, ops),
        TaskEdit::AddTag(tag) => task_add_tag(t, &tag, ops),
        TaskEdit::RemoveTag(tag) => task_remove_tag(t, &tag, ops),
        TaskEdit::SetProject(p) => {
            let key = "project";
            proof {
                reveal_strlit("project");
            }
            assert(key@ =~= project_key());
            let ghost pv = p@;
            task_set_value(t, key, Some(p), ops);
            assert(match Some(p) {
                Some(v) => Some(v@),
                None => None,
            } == Some(pv));
        },
        TaskEdit::SetProjectAttribute(p) => {
            let key = "project";
            proof {
                reveal_strlit("project");
            }
            assert(key@ =~= project_key());
            assert(!known_key(project_key())) by {
                assert(project_key()[0] != 't');
                assert(project_key()[0] != 'a');
                assert(project_key()[0] != 'd');
                assert(!model_key(project_key()));
            }
            task_set_user_defined_attribute(t, key, p, ops);
        },
    }
}

/// Makes the edits to a task one after the other, recording their
/// operations in `ops`.
pub fn apply_edits(t: &mut Task, edits: Vec<TaskEdit>, ops: &mut Vec<Operation>)
    ensures
        task_uuid(*final(t)) == task_uuid(*old(t)),
        records(
            old(ops)@,
            final(ops)@,
            task_uuid(*old(t)),
            task_properties(*old(t)),
            task_properties(*final(t)),
        ),
        edits_effect(task_properties(*old(t)), task_properties(*final(t)), edit_views(edits@)),
{
    let ghost all = edit_views(edits@);
    let ghost start_props = task_properties(*t);
    let ghost start_uuid = task_uuid(*t);
    let ghost start_ops = ops@;
    let ghost mut ms: Seq<Map<Seq<char>, Seq<char>>> = seq![start_props];
    let n = edits.len();
    let mut rest = edits;
    let mut done: usize = 0;
    assert(all.take(0) =~= Seq::<Edit>::empty());
    assert(all.skip(0) =~= all);
    proof {
        lemma_records_nothing(start_ops, start_uuid, start_props);
    }
    while rest.len() > 0
        invariant
            all.len() == n,
            done <= all.len(),
            edit_views(rest@) == all.skip(done as int),
            effect_chain(ms, start_props, task_properties(*t), all.take(done as int)),
            task_uuid(*t) == start_uuid,
            records(start_ops, ops@, start_uuid, start_props, task_properties(*t)),
        decreases rest@.len(),
    {
        let ghost before_props = task_properties(*t);
        let ghost before_ops = ops@;
        let ghost old_rest = rest@;
        assert(edit_views(old_rest).len() == old_rest.len());
        assert(done < all.len());
        let e = rest.remove(0);
        assert(old_rest[0] == e);
        assert(edit_views(old_rest)[0] == e@);
        assert(all.skip(done as int)[0] == e@);
        assert(rest@ =~= old_rest.drop_first());
        assert forall|k: int| 0 <= k < rest@.len() implies #[trigger] edit_views(rest@)[k] == all.skip(
            done + 1,
        )[k] by {
            assert(edit_views(old_rest)[k + 1] == old_rest[k + 1]@);
            assert(all.skip(done as int)[k + 1] == all.skip(done + 1)[k]);
        }
        assert(edit_views(rest@) =~= all.skip(done + 1));
        apply_edit(t, e, ops);
        proof {
            let old_ms = ms;
            ms = ms.push(task_properties(*t));
            let next = all.take(done + 1);
            assert(next.len() == done + 1);
            assert(next[done as int] == e@);
            assert forall|i: int| 0 <= i < next.len() implies edit_effect(
                ms[i],
                #[trigger] ms[i + 1],
                next[i],
            ) by {
                if i < done {
                    assert(next[i] == all.take(done as int)[i]);
                    assert(ms[i] == old_ms[i]);
                    assert(ms[i + 1] == old_ms[i + 1]);
                }
            }
            assert(effect_chain(ms, start_props, task_properties(*t), next));
            lemma_records_compose(
                start_ops,
                before_ops,
                ops@,
                start_uuid,
                start_props,
                before_props,
                task_properties(*t),
            );
        }
        done += 1;
    }
    assert(all.take(done as int) =~= all);
    assert(effect_chain(ms, start_props, task_properties(*t), all));
}


/// The field `tags` is none of the fields tested before it.
proof fn lemma_tags_field_key()
    ensures
        "tags"@ != "description"@,
        "tags"@ != "due"@,
        "tags"@ != "start"@,
        "tags"@ != "wait"@,
        "tags"@ != "priority"@,
{
    reveal_strlit("tags");
    reveal_strlit("description");
    reveal_strlit("due");
    reveal_strlit("start");
    reveal_strlit("wait");
    reveal_strlit("priority");
    assert("tags"@.len() != "description"@.len());
    assert("tags"@.len() != "due"@.len());
    assert("tags"@.len() != "start"@.len());
    assert("tags"@[0] != "wait"@[0]);
    assert("tags"@.len() != "priority"@.len());
}

/// A pair that `lookup` finds is one of the list's pairs.
proof fn lemma_lookup_pair(es: Seq<(Seq<char>, Seq<char>)>, k: Seq<char>)
    ensures
        lookup(es, k) matches Some(v) ==> exists|i: int| 0 <= i < es.len() && #[trigger] es[i] == (k, v),
    decreases es.len(),
{
    if es.len() > 0 {
        if es[0].0 == k {
            assert(es[0] == (k, es[0].1));
        } else {
            lemma_lookup_pair(es.drop_first(), k);
            if lookup(es, k) is Some {
                let v = lookup(es, k)->0;
                let i = choose|i: int| 0 <= i < es.drop_first().len() && #[trigger] es.drop_first()[i] == (k, v);
                assert(es[i + 1] == (k, v));
            }
        }
    }
}

/// The edits of every field of a request are among the request's edits.
proof fn lemma_entry_edits_included(
    existing: Option<Seq<Seq<char>>>,
    es: Seq<(Seq<char>, Seq<char>)>,
    i: int,
    e: Edit,
)
    requires
        entries_edits(existing, es) is Ok,
        0 <= i < es.len(),
    ensures
        entry_edits(existing, es[i].0, es[i].1) is Ok,
        entry_edits(existing, es[i].0, es[i].1)->Ok_0.contains(e) ==> entries_edits(
            existing,
            es,
        )->Ok_0.contains(e),
    decreases es.len(),
{
    let d = es.drop_last();
    let acc = entries_edits(existing, d)->Ok_0;
    let last = entry_edits(existing, es.last().0, es.last().1)->Ok_0;
    assert(entries_edits(existing, es)->Ok_0 == acc + last);
    if i < es.len() - 1 {
        assert(d[i] == es[i]);
        lemma_entry_edits_included(existing, d, i, e);
        if entry_edits(existing, es[i].0, es[i].1)->Ok_0.contains(e) {
            let k = choose|k: int| 0 <= k < acc.len() && acc[k] == e;
            assert((acc + last)[k] == e);
        }
    } else {
        if last.contains(e) {
            let k = choose|k: int| 0 <= k < last.len() && last[k] == e;
            assert((acc + last)[acc.len() + k] == e);
        }
    }
}

/// Adding tags yields one `AddTag` per name, each name valid; removing them
/// yields `RemoveTag` only.
proof fn lemma_tag_edits_contents(names: Seq<Seq<char>>, add: bool)
    requires
        tag_edits(names, add) is Ok,
    ensures
        forall|k: int| 0 <= k < names.len() ==> valid_tag(#[trigger] names[k]),
        add ==> forall|k: int|
            0 <= k < names.len() ==> tag_edits(names, add)->Ok_0.contains(Edit::AddTag(#[trigger] names[k])),
        add ==> forall|k: int|
            0 <= k < tag_edits(names, add)->Ok_0.len() ==> !(#[trigger] tag_edits(names, add)->Ok_0[k] is RemoveTag),
    decreases names.len(),
{
    if names.len() > 0 {
        let d = names.drop_last();
        lemma_tag_edits_contents(d, add);
        let prev = tag_edits(d, add)->Ok_0;
        let cur = tag_edits(names, add)->Ok_0;
        assert(valid_tag(names.last()));
        assert forall|k: int| 0 <= k < names.len() implies valid_tag(#[trigger] names[k]) by {
            if k < names.len() - 1 {
                assert(names[k] == d[k]);
            }
        }
        if add {
            assert(cur == prev.push(Edit::AddTag(names.last())));
            assert forall|k: int| 0 <= k < names.len() implies cur.contains(Edit::AddTag(#[trigger] names[k])) by {
                if k < names.len() - 1 {
                    assert(names[k] == d[k]);
                    assert(prev.contains(Edit::AddTag(d[k])));
                    let m = choose|m: int| 0 <= m < prev.len() && prev[m] == Edit::AddTag(d[k]);
                    assert(cur[m] == Edit::AddTag(names[k]));
                } else {
                    assert(cur[cur.len() - 1] == Edit::AddTag(names[k]));
                }
            }
            assert forall|k: int| 0 <= k < cur.len() implies !(#[trigger] cur[k] is RemoveTag) by {
                if k < cur.len() - 1 {
                    assert(cur[k] == prev[k]);
                }
            }
        }
    }
}

/// A new task's edits remove no tag.
proof fn lemma_new_task_removes_no_tag(es: Seq<(Seq<char>, Seq<char>)>)
    requires
        entries_edits(None, es) is Ok,
    ensures
        forall|k: int|
            0 <= k < entries_edits(None, es)->Ok_0.len() ==> !(#[trigger] entries_edits(None, es)->Ok_0[k] is RemoveTag),
    decreases es.len(),
{
    if es.len() > 0 {
        let d = es.drop_last();
        lemma_new_task_removes_no_tag(d);
        let acc = entries_edits(None, d)->Ok_0;
        let key = es.last().0;
        let value = es.last().1;
        let last = entry_edits(None, key, value)->Ok_0;
        lemma_tags_field_key();
        if key == "tags"@ {
            lemma_tag_edits_contents(split_ws(value), true);
        }
        assert forall|k: int| 0 <= k < last.len() implies !(#[trigger] last[k] is RemoveTag) by {
            if key == "tags"@ {
            }
        }
        let all = acc + last;
        assert forall|k: int| 0 <= k < all.len() implies !(#[trigger] all[k] is RemoveTag) by {
            if k < acc.len() {
                assert(all[k] == acc[k]);
            } else {
                assert(all[k] == last[k - acc.len()]);
            }
        }
    }
}

/// An edit other than a tag's removal keeps every property whose key begins
/// with `t`: no other edit removes such a key.
proof fn lemma_t_keys_survive(
    old: Map<Seq<char>, Seq<char>>,
    new: Map<Seq<char>, Seq<char>>,
    e: Edit,
    k: Seq<char>,
)
    requires
        edit_effect(old, new, e),
        !(e is RemoveTag),
        old.contains_key(k),
        k.len() > 0,
        k[0] == 't',
    ensures
        new.contains_key(k),
{
    assert(k != modified_key());
    assert(k != description_key());
    assert(k != due_key());
    assert(k != wait_key());
    assert(k != start_key());
    assert(k != priority_key());
    assert(k != status_key());
    assert(k != end_key());
    assert(k != project_key());
}

/// A tag that an edit adds is still present after the later edits, when
/// none of them removes a tag.
proof fn lemma_added_tag_stays(
    old: Map<Seq<char>, Seq<char>>,
    new: Map<Seq<char>, Seq<char>>,
    es: Seq<Edit>,
    j: int,
    w: Seq<char>,
)
    requires
        edits_effect(old, new, es),
        0 <= j < es.len(),
        es[j] == Edit::AddTag(w),
        !all_capitals(w),
        forall|k: int| 0 <= k < es.len() ==> !(#[trigger] es[k] is RemoveTag),
    ensures
        new.contains_key(tag_key_prefix() + w),
{
    let ms = choose|ms: Seq<Map<Seq<char>, Seq<char>>>| #[trigger] effect_chain(ms, old, new, es);
    let key = tag_key_prefix() + w;
    assert(key[0] == 't');
    assert(edit_effect(ms[j], ms[j + 1], es[j]));
    assert(ms[j + 1].contains_key(key));
    lemma_t_key_persists(ms, old, new, es, j + 1, key);
}

/// A key beginning with `t` that is present at some point of a chain of
/// edits that removes no tag is present at its end.
proof fn lemma_t_key_persists(
    ms: Seq<Map<Seq<char>, Seq<char>>>,
    old: Map<Seq<char>, Seq<char>>,
    new: Map<Seq<char>, Seq<char>>,
    es: Seq<Edit>,
    m: int,
    key: Seq<char>,
)
    requires
        effect_chain(ms, old, new, es),
        0 <= m <= es.len(),
        ms[m].contains_key(key),
        key.len() > 0,
        key[0] == 't',
        forall|k: int| 0 <= k < es.len() ==> !(#[trigger] es[k] is RemoveTag),
    ensures
        new.contains_key(key),
    decreases es.len() - m,
{
    if m < es.len() {
        assert(edit_effect(ms[m], ms[m + 1], es[m]));
        assert(!(es[m] is RemoveTag));
        lemma_t_keys_survive(ms[m], ms[m + 1], es[m], key);
        lemma_t_key_persists(ms, old, new, es, m + 1, key);
    }
}

/// Law: every user tag that the `tags` field of a request names is, once the
/// planned edits of a new task are made, a property of the task, and its row
/// lists it among its `tags`.
pub proof fn lemma_tags_of_a_new_task_reach_its_row(
    fields: Seq<(Seq<char>, Seq<char>)>,
    id: u128,
    edits: Seq<Edit>,
    before: Map<Seq<char>, Seq<char>>,
    after: Map<Seq<char>, Seq<char>>,
    uuid: Seq<char>,
    ps: Seq<(Seq<char>, Seq<char>)>,
    v: Seq<char>,
    w: Seq<char>,
)
    requires
        add_plan(fields) == Ok::<(u128, Seq<Edit>), crate::edit::PlanFailure>((id, edits)),
        lookup(fields, "tags"@) == Some(v),
        split_ws(v).contains(w),
        !all_capitals(w),
        edits_effect(before, after, edits),
        enumerates(ps, after),
    ensures
        after.contains_key(tag_key_prefix() + w),
        contains(row_map(uuid, ps)[tags_key()], w),
{
    let x = entries_edits(None, fields)->Ok_0;
    assert(entries_edits(None, fields) is Ok);
    assert(edits == seq![Edit::SetStatus(TaskStatus::Pending)] + x);
    lemma_lookup_pair(fields, "tags"@);
    let i = choose|i: int| 0 <= i < fields.len() && #[trigger] fields[i] == ("tags"@, v);
    lemma_entry_edits_included(None, fields, i, Edit::AddTag(w));
    lemma_tags_field_key();
    assert(entry_edits(None, "tags"@, v) == tag_edits(split_ws(v), true));
    lemma_tag_edits_contents(split_ws(v), true);
    let n = choose|n: int| 0 <= n < split_ws(v).len() && split_ws(v)[n] == w;
    assert(valid_tag(split_ws(v)[n]));
    assert(tag_edits(split_ws(v), true)->Ok_0.contains(Edit::AddTag(split_ws(v)[n])));
    assert(x.contains(Edit::AddTag(w)));
    let m = choose|m: int| 0 <= m < x.len() && x[m] == Edit::AddTag(w);
    assert(edits[m + 1] == Edit::AddTag(w));
    lemma_new_task_removes_no_tag(fields);
    assert forall|k: int| 0 <= k < edits.len() implies !(#[trigger] edits[k] is RemoveTag) by {
        if k > 0 {
            assert(edits[k] == x[k - 1]);
        }
    }
    lemma_added_tag_stays(before, after, edits, m + 1, w);
    let key = tag_key_prefix() + w;
    lemma_entries_map_keys(ps, key);
    let j = choose|j: int| 0 <= j < ps.len() && #[trigger] ps[j].0 == key;
    assert(key.take(4) =~= tag_key_prefix());
    assert(key.skip(4) =~= w);
    assert(starts_with(ps[j].0, tag_key_prefix()));
    lemma_row_lists_tags(uuid, ps, j);
}

/// Whether one edit leaves the property `key` present, given whether it was
/// (`b`), as far as tag edits decide it.
pub open spec fn tag_step(e: Edit, key: Seq<char>, b: bool) -> bool {
    match e {
        Edit::AddTag(n) => if !all_capitals(n) && tag_key_prefix() + n == key {
            true
        } else {
            b
        },
        Edit::RemoveTag(n) => if !all_capitals(n) && tag_key_prefix() + n == key {
            false
        } else {
            b
        },
        _ => b,
    }
}

/// Whether the edits leave the property `key` present, given whether it was
/// (`b`), as far as tag edits decide it.
pub open spec fn tag_presence(es: Seq<Edit>, key: Seq<char>, b: bool) -> bool
    decreases es.len(),
{
    if es.len() == 0 {
        b
    } else {
        tag_step(es.last(), key, tag_presence(es.drop_last(), key, b))
    }
}

/// Some user tag among `names` is recorded under `key`.
pub open spec fn names_hit(names: Seq<Seq<char>>, key: Seq<char>) -> bool {
    exists|j: int| 0 <= j < names.len() && !all_capitals(names[j]) && tag_key_prefix() + #[trigger] names[j] == key
}

/// A property whose key begins with `t` is present after an edit exactly
/// as `tag_step` says.
proof fn lemma_t_key_step(old: Map<Seq<char>, Seq<char>>, new: Map<Seq<char>, Seq<char>>, e: Edit, key: Seq<char>)
    requires
        edit_effect(old, new, e),
        key.len() > 0,
        key[0] == 't',
    ensures
        new.contains_key(key) == tag_step(e, key, old.contains_key(key)),
{
    assert(key != modified_key());
    assert(key != description_key());
    assert(key != due_key());
    assert(key != wait_key());
    assert(key != start_key());
    assert(key != priority_key());
    assert(key != status_key());
    assert(key != end_key());
    assert(key != project_key());
}

/// Along a chain of edits, a property whose key begins with `t` is present
/// exactly as `tag_presence` says.
proof fn lemma_chain_tag_presence(
    ms: Seq<Map<Seq<char>, Seq<char>>>,
    old: Map<Seq<char>, Seq<char>>,
    new: Map<Seq<char>, Seq<char>>,
    es: Seq<Edit>,
    m: int,
    key: Seq<char>,
)
    requires
        effect_chain(ms, old, new, es),
        0 <= m <= es.len(),
        key.len() > 0,
        key[0] == 't',
    ensures
        ms[m].contains_key(key) == tag_presence(es.take(m), key, old.contains_key(key)),
    decreases m,
{
    if m == 0 {
        assert(es.take(0) =~= Seq::<Edit>::empty());
    } else {
        lemma_chain_tag_presence(ms, old, new, es, m - 1, key);
        let i = m - 1;
        assert(edit_effect(ms[i], ms[i + 1], es[i]));
        lemma_t_key_step(ms[m - 1], ms[m], es[m - 1], key);
        assert(es.take(m).drop_last() =~= es.take(m - 1));
        assert(es.take(m).last() == es[m - 1]);
    }
}

/// `tag_presence` over two lists of edits is that over the second, starting
/// from the first's outcome.
proof fn lemma_tag_presence_append(a: Seq<Edit>, b: Seq<Edit>, key: Seq<char>, init: bool)
    ensures
        tag_presence(a + b, key, init) == tag_presence(b, key, tag_presence(a, key, init)),
    decreases b.len(),
{
    if b.len() == 0 {
        assert(a + b =~= a);
    } else {
        assert((a + b).drop_last() =~= a + b.drop_last());
        assert((a + b).last() == b.last());
        lemma_tag_presence_append(a, b.drop_last(), key, init);
    }
}

/// Adding the named tags makes the key present if one of them is recorded
/// under it; removing them makes it absent in that case.
proof fn lemma_tag_edits_presence(names: Seq<Seq<char>>, add: bool, key: Seq<char>, b: bool)
    requires
        tag_edits(names, add) is Ok,
    ensures
        tag_presence(tag_edits(names, add)->Ok_0, key, b) == if add {
            b || names_hit(names, key)
        } else {
            b && !names_hit(names, key)
        },
    decreases names.len(),
{
    if names.len() == 0 {
    } else {
        let d = names.drop_last();
        lemma_tag_edits_presence(d, add, key, b);
        let prev = tag_edits(d, add)->Ok_0;
        let cur = tag_edits(names, add)->Ok_0;
        let last = names.last();
        assert(cur.drop_last() =~= prev);
        assert(names_hit(names, key) == (names_hit(d, key) || (!all_capitals(last) && tag_key_prefix()
            + last == key))) by {
            if names_hit(names, key) {
                let j = choose|j: int|
                    0 <= j < names.len() && !all_capitals(names[j]) && tag_key_prefix() + #[trigger] names[j]
                        == key;
                if j < names.len() - 1 {
                    assert(d[j] == names[j]);
                }
            }
            if names_hit(d, key) {
                let j = choose|j: int|
                    0 <= j < d.len() && !all_capitals(d[j]) && tag_key_prefix() + #[trigger] d[j] == key;
                assert(names[j] == d[j]);
            }
            if !all_capitals(last) && tag_key_prefix() + last == key {
                assert(names[names.len() - 1] == last);
            }
        }
    }
}

/// The fields of an update other than `tags` change no tag.
proof fn lemma_other_fields_keep_tags(names: Seq<Seq<char>>, k: Seq<char>, v: Seq<char>, key: Seq<char>, b: bool)
    requires
        k != "tags"@,
        entry_edits(Some(names), k, v) is Ok,
    ensures
        tag_presence(entry_edits(Some(names), k, v)->Ok_0, key, b) == b,
{
    let y = entry_edits(Some(names), k, v)->Ok_0;
    assert(y.len() <= 1);
    if y.len() == 1 {
        assert(y.drop_last() =~= Seq::<Edit>::empty());
        assert(y.last() == y[0]);
        assert(!(y[0] is AddTag) && !(y[0] is RemoveTag));
        assert(tag_step(y[0], key, b) == b);
        assert(tag_presence(y.drop_last(), key, b) == b);
        assert(tag_presence(y, key, b) == tag_step(y.last(), key, tag_presence(y.drop_last(), key, b)));
    } else {
        assert(y.len() == 0);
    }
}

/// Over all fields of an update with distinct keys, tags change only as the
/// `tags` field says.
proof fn lemma_fields_tag_presence(
    names: Seq<Seq<char>>,
    es: Seq<(Seq<char>, Seq<char>)>,
    key: Seq<char>,
    b: bool,
)
    requires
        entries_edits(Some(names), es) is Ok,
        keys_distinct(es),
    ensures
        tag_presence(entries_edits(Some(names), es)->Ok_0, key, b) == match lookup(es, "tags"@) {
            Some(v) => tag_presence(entry_edits(Some(names), "tags"@, v)->Ok_0, key, b),
            None => b,
        },
    decreases es.len(),
{
    if es.len() == 0 {
    } else {
        let d = es.drop_last();
        let p = es.last();
        assert(d.push(p) =~= es);
        assert(keys_distinct(d)) by {
            assert forall|a: int, c: int| 0 <= a < d.len() && 0 <= c < d.len() && a != c implies
                #[trigger] d[a].0 != #[trigger] d[c].0 by {
                assert(d[a] == es[a]);
                assert(d[c] == es[c]);
            }
        }
        lemma_fields_tag_presence(names, d, key, b);
        let acc = entries_edits(Some(names), d)->Ok_0;
        let y = entry_edits(Some(names), p.0, p.1)->Ok_0;
        assert(entries_edits(Some(names), es)->Ok_0 == acc + y);
        lemma_tag_presence_append(acc, y, key, b);
        lemma_lookup_push(d, p.0, p.1, "tags"@);
        if p.0 == "tags"@ {
            lemma_lookup_pair(d, "tags"@);
            if lookup(d, "tags"@) is Some {
                let v = lookup(d, "tags"@)->0;
                let i = choose|i: int| 0 <= i < d.len() && #[trigger] d[i] == ("tags"@, v);
                assert(es[i] == d[i]);
                assert(es[es.len() - 1] == p);
                assert(es[i].0 == es[es.len() - 1].0);
                assert(i != es.len() - 1);
                assert(false);
            }
        } else {
            lemma_other_fields_keep_tags(names, p.0, p.1, key, tag_presence(acc, key, b));
        }
    }
}

/// Every tag property of a task is among its existing tag names.
proof fn lemma_existing_names_complete(ps: Seq<(Seq<char>, Seq<char>)>, i: int)
    requires
        0 <= i < ps.len(),
        starts_with(ps[i].0, tag_key_prefix()),
    ensures
        existing_tag_names(ps).contains(ps[i].0.skip(4)),
    decreases ps.len(),
{
    let d = ps.drop_last();
    if i < ps.len() - 1 {
        assert(d[i] == ps[i]);
        lemma_existing_names_complete(d, i);
        let j = choose|j: int| 0 <= j < existing_tag_names(d).len() && existing_tag_names(d)[j] == ps[i].0.skip(4);
        if starts_with(ps.last().0, tag_key_prefix()) {
            assert(existing_tag_names(ps)[j] == ps[i].0.skip(4));
        } else {
            assert(existing_tag_names(ps)[j] == ps[i].0.skip(4));
        }
    } else {
        let all = existing_tag_names(ps);
        assert(all[all.len() - 1] == ps[i].0.skip(4));
    }
}

/// Names recorded under the same key are equal.
proof fn lemma_tag_key_injective(a: Seq<char>, b: Seq<char>)
    requires
        tag_key_prefix() + a == tag_key_prefix() + b,
    ensures
        a == b,
{
    assert((tag_key_prefix() + a).skip(4) =~= a);
    assert((tag_key_prefix() + b).skip(4) =~= b);
}

/// Law: an update whose fields (with distinct keys) hold `tags` replaces the
/// task's user tags by the words of that field, while a synthetic-looking tag
/// property (a name all in capitals) stays as it was; an update without
/// `tags` changes no tag.
pub proof fn lemma_update_replaces_user_tags(
    ps: Seq<(Seq<char>, Seq<char>)>,
    fields: Seq<(Seq<char>, Seq<char>)>,
    edits: Seq<Edit>,
    before: Map<Seq<char>, Seq<char>>,
    after: Map<Seq<char>, Seq<char>>,
    n: Seq<char>,
)
    requires
        enumerates(ps, before),
        keys_distinct(fields),
        update_plan(ps, fields) == Ok::<Seq<Edit>, Seq<char>>(edits),
        edits_effect(before, after, edits),
    ensures
        match lookup(fields, "tags"@) {
            Some(v) => after.contains_key(tag_key_prefix() + n) == if all_capitals(n) {
                before.contains_key(tag_key_prefix() + n)
            } else {
                split_ws(v).contains(n)
            },
            None => after.contains_key(tag_key_prefix() + n) == before.contains_key(
                tag_key_prefix() + n,
            ),
        },
{
    let key = tag_key_prefix() + n;
    let b = before.contains_key(key);
    let names = existing_tag_names(ps);
    let x = entries_edits(Some(names), fields)->Ok_0;
    assert(entries_edits(Some(names), fields) is Ok);
    let first = seq![Edit::SetStatus(TaskStatus::Pending)];
    assert(edits == first + x);
    let ms = choose|ms: Seq<Map<Seq<char>, Seq<char>>>| #[trigger] effect_chain(ms, before, after, edits);
    assert(key[0] == 't');
    lemma_chain_tag_presence(ms, before, after, edits, edits.len() as int, key);
    assert(edits.take(edits.len() as int) =~= edits);
    lemma_tag_presence_append(first, x, key, b);
    assert(first.drop_last() =~= Seq::<Edit>::empty());
    assert(first.last() == Edit::SetStatus(TaskStatus::Pending));
    assert(tag_presence(first.drop_last(), key, b) == b);
    assert(tag_presence(first, key, b) == b);
    lemma_fields_tag_presence(names, fields, key, b);
    if lookup(fields, "tags"@) is Some {
        let v = lookup(fields, "tags"@)->0;
        lemma_tags_field_key();
        lemma_lookup_pair(fields, "tags"@);
        let i = choose|i: int| 0 <= i < fields.len() && #[trigger] fields[i] == ("tags"@, v);
        lemma_entry_edits_included(Some(names), fields, i, Edit::Start);
        let rm = tag_edits(names, false);
        assert(entry_edits(Some(names), "tags"@, v) is Ok);
        assert(rm is Ok);
        let ad = tag_edits(split_ws(v), true);
        assert(ad is Ok);
        assert(entry_edits(Some(names), "tags"@, v)->Ok_0 == rm->Ok_0 + ad->Ok_0);
        lemma_tag_presence_append(rm->Ok_0, ad->Ok_0, key, b);
        lemma_tag_edits_presence(names, false, key, b);
        lemma_tag_edits_presence(split_ws(v), true, key, b && !names_hit(names, key));
        // a name hits the key exactly when it is `n`
        assert(names_hit(split_ws(v), key) == (!all_capitals(n) && split_ws(v).contains(n))) by {
            if names_hit(split_ws(v), key) {
                let j = choose|j: int|
                    0 <= j < split_ws(v).len() && !all_capitals(split_ws(v)[j]) && tag_key_prefix()
                        + #[trigger] split_ws(v)[j] == key;
                lemma_tag_key_injective(split_ws(v)[j], n);
            }
            if !all_capitals(n) && split_ws(v).contains(n) {
                let j = choose|j: int| 0 <= j < split_ws(v).len() && split_ws(v)[j] == n;
                assert(tag_key_prefix() + split_ws(v)[j] == key);
            }
        }
        assert(names_hit(names, key) == (!all_capitals(n) && names.contains(n))) by {
            if names_hit(names, key) {
                let j = choose|j: int|
                    0 <= j < names.len() && !all_capitals(names[j]) && tag_key_prefix() + #[trigger] names[j]
                        == key;
                lemma_tag_key_injective(names[j], n);
            }
            if !all_capitals(n) && names.contains(n) {
                let j = choose|j: int| 0 <= j < names.len() && names[j] == n;
                assert(tag_key_prefix() + names[j] == key);
            }
        }
        if b {
            lemma_entries_map_keys(ps, key);
            let i = choose|i: int| 0 <= i < ps.len() && #[trigger] ps[i].0 == key;
            assert(key.take(4) =~= tag_key_prefix());
            assert(key.skip(4) =~= n);
            lemma_existing_names_complete(ps, i);
        }
    }
}
/// Whether some edit of a list starts the task.
pub open spec fn starts(es: Seq<Edit>) -> bool {
    exists|k: int| 0 <= k < es.len() && #[trigger] es[k] is Start
}

/// An edit that neither starts nor stops the task keeps `start` as it was.
proof fn lemma_start_kept(old: Map<Seq<char>, Seq<char>>, new: Map<Seq<char>, Seq<char>>, e: Edit)
    requires
        edit_effect(old, new, e),
        !(e is Start),
        !(e is Stop),
    ensures
        new.contains_key(start_key()) == old.contains_key(start_key()),
{
    assert(start_key() != modified_key());
    assert(start_key() != description_key());
    assert(start_key() != due_key());
    assert(start_key() != wait_key());
    assert(start_key() != priority_key());
    assert(start_key() != status_key());
    assert(start_key() != end_key());
    assert(start_key() != project_key());
    match e {
        Edit::AddTag(n) => {
            assert((tag_key_prefix() + n)[0] == 't');
        },
        Edit::RemoveTag(n) => {
            assert((tag_key_prefix() + n)[0] == 't');
        },
        _ => {},
    }
}

/// Along a chain of edits that never stops the task, `start` is present
/// after the first `m` edits exactly when it was present before them or one
/// of them starts the task.
proof fn lemma_start_presence(
    ms: Seq<Map<Seq<char>, Seq<char>>>,
    old: Map<Seq<char>, Seq<char>>,
    new: Map<Seq<char>, Seq<char>>,
    es: Seq<Edit>,
    m: int,
)
    requires
        effect_chain(ms, old, new, es),
        0 <= m <= es.len(),
        forall|k: int| 0 <= k < es.len() ==> !(#[trigger] es[k] is Stop),
    ensures
        ms[m].contains_key(start_key()) == (old.contains_key(start_key()) || starts(es.take(m))),
    decreases m,
{
    if m == 0 {
        assert(!starts(es.take(0)));
    } else {
        lemma_start_presence(ms, old, new, es, m - 1);
        let i = m - 1;
        assert(edit_effect(ms[i], ms[i + 1], es[i]));
        assert(!(es[m - 1] is Stop));
        let before = es.take(m - 1);
        let now = es.take(m);
        assert(now =~= before.push(es[m - 1]));
        if es[m - 1] is Start {
            assert(now[m - 1] is Start);
        } else {
            lemma_start_kept(ms[m - 1], ms[m], es[m - 1]);
            if starts(now) {
                let k = choose|k: int| 0 <= k < now.len() && #[trigger] now[k] is Start;
                assert(before[k] is Start);
            }
            if starts(before) {
                let k = choose|k: int| 0 <= k < before.len() && #[trigger] before[k] is Start;
                assert(now[k] is Start);
            }
        }
    }
}

/// The field `start` is none of the fields tested before it.
proof fn lemma_start_field_key()
    ensures
        "start"@ != "description"@,
        "start"@ != "due"@,
{
    reveal_strlit("start");
    reveal_strlit("description");
    reveal_strlit("due");
    assert("start"@.len() != "description"@.len());
    assert("start"@[0] != "due"@[0]);
}

/// The edits for the tags of a field only add or remove tags.
proof fn lemma_tag_edits_are_tag_edits(names: Seq<Seq<char>>, add: bool)
    requires
        tag_edits(names, add) is Ok,
    ensures
        forall|k: int|
            0 <= k < tag_edits(names, add)->Ok_0.len() ==> (#[trigger] tag_edits(names, add)->Ok_0[k] is AddTag
                || tag_edits(names, add)->Ok_0[k] is RemoveTag),
    decreases names.len(),
{
    if names.len() > 0 {
        lemma_tag_edits_are_tag_edits(names.drop_last(), add);
        let prev = tag_edits(names.drop_last(), add)->Ok_0;
        let cur = tag_edits(names, add)->Ok_0;
        assert forall|k: int| 0 <= k < cur.len() implies (#[trigger] cur[k] is AddTag || cur[k] is RemoveTag) by {
            if k < prev.len() {
                assert(cur[k] == prev[k]);
            }
        }
    }
}

/// The edits of a new task's fields never stop it, and start it exactly
/// when some field is `start`.
proof fn lemma_new_task_start_edits(es: Seq<(Seq<char>, Seq<char>)>)
    requires
        entries_edits(None, es) is Ok,
    ensures
        forall|k: int|
            0 <= k < entries_edits(None, es)->Ok_0.len() ==> !(#[trigger] entries_edits(None, es)->Ok_0[k] is Stop),
        starts(entries_edits(None, es)->Ok_0) == exists|i: int| 0 <= i < es.len() && #[trigger] es[i].0 == "start"@,
    decreases es.len(),
{
    if es.len() > 0 {
        let d = es.drop_last();
        lemma_new_task_start_edits(d);
        let acc = entries_edits(None, d)->Ok_0;
        let key = es.last().0;
        let value = es.last().1;
        let last = entry_edits(None, key, value)->Ok_0;
        let all = acc + last;
        assert(entries_edits(None, es)->Ok_0 == all);
        lemma_start_field_key();
        lemma_tags_field_key();
        assert(entry_edits(None, key, value) is Ok);
        if key == "tags"@ {
            assert(entry_edits(None, key, value) == tag_edits(split_ws(value), true));
            lemma_tag_edits_are_tag_edits(split_ws(value), true);
        }
        assert forall|k: int| 0 <= k < last.len() implies !(#[trigger] last[k] is Stop) && (last[k] is Start
            == (key == "start"@)) by {
        }
        assert(key == "start"@ ==> last.len() == 1 && last[0] is Start);
        assert forall|k: int| 0 <= k < all.len() implies !(#[trigger] all[k] is Stop) by {
            if k < acc.len() {
                assert(all[k] == acc[k]);
            } else {
                assert(all[k] == last[k - acc.len()]);
            }
        }
        if starts(all) {
            let k = choose|k: int| 0 <= k < all.len() && #[trigger] all[k] is Start;
            if k < acc.len() {
                assert(all[k] == acc[k]);
                assert(starts(acc));
                let i = choose|i: int| 0 <= i < d.len() && #[trigger] d[i].0 == "start"@;
                assert(es[i] == d[i]);
            } else {
                assert(all[k] == last[k - acc.len()]);
                assert(es[es.len() - 1].0 == "start"@);
            }
        }
        if exists|i: int| 0 <= i < es.len() && #[trigger] es[i].0 == "start"@ {
            let i = choose|i: int| 0 <= i < es.len() && #[trigger] es[i].0 == "start"@;
            if i < es.len() - 1 {
                assert(d[i] == es[i]);
                assert(starts(acc));
                let k = choose|k: int| 0 <= k < acc.len() && #[trigger] acc[k] is Start;
                assert(all[k] == acc[k]);
            } else {
                assert(all[acc.len() as int] == last[0]);
            }
        }
    } else {
        assert(!starts(entries_edits(None, es)->Ok_0));
    }
}

/// A key that some pair carries is found by `lookup`.
proof fn lemma_lookup_finds_key(es: Seq<(Seq<char>, Seq<char>)>, k: Seq<char>, i: int)
    requires
        0 <= i < es.len(),
        es[i].0 == k,
    ensures
        lookup(es, k) is Some,
    decreases i,
{
    if es[0].0 != k {
        assert(es.drop_first()[i - 1] == es[i]);
        lemma_lookup_finds_key(es.drop_first(), k, i - 1);
    }
}

/// Law: a new task (one without `start`) is active once its planned edits
/// are made exactly when the request has a `start` field, whatever its
/// value.
pub proof fn lemma_new_task_active_iff_start_field(
    fields: Seq<(Seq<char>, Seq<char>)>,
    id: u128,
    edits: Seq<Edit>,
    before: Map<Seq<char>, Seq<char>>,
    after: Map<Seq<char>, Seq<char>>,
)
    requires
        add_plan(fields) == Ok::<(u128, Seq<Edit>), crate::edit::PlanFailure>((id, edits)),
        edits_effect(before, after, edits),
        !before.contains_key(start_key()),
    ensures
        after.contains_key(start_key()) == (lookup(fields, "start"@) is Some),
{
    let x = entries_edits(None, fields)->Ok_0;
    assert(entries_edits(None, fields) is Ok);
    assert(edits == seq![Edit::SetStatus(TaskStatus::Pending)] + x);
    lemma_new_task_start_edits(fields);
    assert forall|k: int| 0 <= k < edits.len() implies !(#[trigger] edits[k] is Stop) by {
        if k > 0 {
            assert(edits[k] == x[k - 1]);
        }
    }
    let ms = choose|ms: Seq<Map<Seq<char>, Seq<char>>>| #[trigger] effect_chain(ms, before, after, edits);
    lemma_start_presence(ms, before, after, edits, edits.len() as int);
    assert(edits.take(edits.len() as int) =~= edits);
    if starts(edits) {
        let k = choose|k: int| 0 <= k < edits.len() && #[trigger] edits[k] is Start;
        assert(k > 0);
        assert(edits[k] == x[k - 1]);
        assert(starts(x));
    }
    if starts(x) {
        let k = choose|k: int| 0 <= k < x.len() && #[trigger] x[k] is Start;
        assert(edits[k + 1] == x[k]);
    }
    lemma_lookup_pair(fields, "start"@);
    if exists|i: int| 0 <= i < fields.len() && #[trigger] fields[i].0 == "start"@ {
        let i = choose|i: int| 0 <= i < fields.len() && #[trigger] fields[i].0 == "start"@;
        lemma_lookup_finds_key(fields, "start"@, i);
    }
    if lookup(fields, "start"@) is Some {
        let v = lookup(fields, "start"@)->0;
        let i = choose|i: int| 0 <= i < fields.len() && #[trigger] fields[i] == ("start"@, v);
        assert(fields[i].0 == "start"@);
    }
}

/// The field names of the request, as the keys of the task data model.
proof fn lemma_field_names()
    ensures
        "due"@ == due_key(),
        "wait"@ == wait_key(),
        "start"@ == start_key(),
        "description"@ != due_key(),
        "description"@ != wait_key(),
        "description"@ != start_key(),
        due_key() != start_key(),
        due_key() != wait_key(),
        start_key() != wait_key(),
        "priority"@ != due_key(),
        "priority"@ != wait_key(),
        "priority"@ != start_key(),
        "tags"@ != due_key(),
        "tags"@ != wait_key(),
        "tags"@ != start_key(),
        "project"@ != due_key(),
        "project"@ != wait_key(),
        "project"@ != start_key(),
        "status"@ != due_key(),
        "status"@ != wait_key(),
        "status"@ != start_key(),
{
    reveal_strlit("due");
    reveal_strlit("wait");
    reveal_strlit("start");
    reveal_strlit("description");
    reveal_strlit("priority");
    reveal_strlit("tags");
    reveal_strlit("project");
    reveal_strlit("status");
    assert("due"@ =~= due_key());
    assert("wait"@ =~= wait_key());
    assert("start"@ =~= start_key());
    assert("description"@.len() != 3 && "description"@.len() != 4 && "description"@.len() != 5);
    assert("priority"@.len() == 8);
    assert("tags"@[0] != 'd' && "tags"@[0] != 'w');
    assert("tags"@[1] != 't');
    assert("project"@.len() == 7);
    assert("status"@.len() == 6);
}

/// Where an edit comes from, among the fields `es` of a request: a due or a
/// wait time only from a field of that name, with the time its value names;
/// stopping the task only from a `start` field whose value is `stop`.
pub open spec fn sourced(es: Seq<(Seq<char>, Seq<char>)>, e: Edit) -> bool {
    &&& e is SetDue ==> exists|i: int|
        0 <= i < es.len() && (#[trigger] es[i]).0 == due_key() && e == Edit::SetDue(datetime_of(es[i].1))
    &&& e is SetWait ==> exists|i: int|
        0 <= i < es.len() && (#[trigger] es[i]).0 == wait_key() && e == Edit::SetWait(datetime_of(es[i].1))
    &&& e is Stop ==> exists|i: int|
        0 <= i < es.len() && (#[trigger] es[i]).0 == start_key() && es[i].1 == "stop"@
}

/// The edits of one field come from that field.
proof fn lemma_entry_edit_sources(existing: Option<Seq<Seq<char>>>, key: Seq<char>, value: Seq<char>)
    requires
        entry_edits(existing, key, value) is Ok,
    ensures
        forall|j: int|
            0 <= j < entry_edits(existing, key, value)->Ok_0.len() ==> sourced(
                seq![(key, value)],
                #[trigger] entry_edits(existing, key, value)->Ok_0[j],
            ),
{
    lemma_field_names();
    lemma_tags_field_key();
    let x = entry_edits(existing, key, value)->Ok_0;
    let one = seq![(key, value)];
    assert(one[0] == (key, value));
    if key == "tags"@ {
        match existing {
            None => {
                lemma_tag_edits_are_tag_edits(split_ws(value), true);
            },
            Some(names) => {
                lemma_tag_edits_are_tag_edits(names, false);
                lemma_tag_edits_are_tag_edits(split_ws(value), true);
                let removed = tag_edits(names, false)->Ok_0;
                let added = tag_edits(split_ws(value), true)->Ok_0;
                assert forall|j: int| 0 <= j < x.len() implies (#[trigger] x[j] is AddTag || x[j] is RemoveTag) by {
                    if j < removed.len() {
                        assert(x[j] == removed[j]);
                    } else {
                        assert(x[j] == added[j - removed.len()]);
                    }
                }
            },
        }
    }
    assert forall|j: int| 0 <= j < x.len() implies sourced(one, #[trigger] x[j]) by {
        if x[j] is SetDue || x[j] is SetWait || x[j] is Stop {
            assert(one[0].0 == key);
        }
    }
}

/// The edits of all fields of a request come from its fields.
proof fn lemma_entries_edit_sources(existing: Option<Seq<Seq<char>>>, es: Seq<(Seq<char>, Seq<char>)>)
    requires
        entries_edits(existing, es) is Ok,
    ensures
        forall|j: int|
            0 <= j < entries_edits(existing, es)->Ok_0.len() ==> sourced(es, #[trigger] entries_edits(existing, es)->Ok_0[j]),
    decreases es.len(),
{
    if es.len() > 0 {
        let d = es.drop_last();
        lemma_entries_edit_sources(existing, d);
        let acc = entries_edits(existing, d)->Ok_0;
        let key = es.last().0;
        let value = es.last().1;
        let last = entry_edits(existing, key, value)->Ok_0;
        let x = acc + last;
        assert(entries_edits(existing, es)->Ok_0 == x);
        lemma_entry_edit_sources(existing, key, value);
        let one = seq![(key, value)];
        let n = es.len() - 1;
        assert(es[n] == (key, value));
        assert forall|j: int| 0 <= j < x.len() implies sourced(es, #[trigger] x[j]) by {
            if j < acc.len() {
                let e = acc[j];
                assert(x[j] == e);
                assert(sourced(d, e));
                if e is SetDue {
                    let i = choose|i: int| 0 <= i < d.len() && (#[trigger] d[i]).0 == due_key() && e == Edit::SetDue(datetime_of(d[i].1));
                    assert(es[i] == d[i]);
                }
                if e is SetWait {
                    let i = choose|i: int| 0 <= i < d.len() && (#[trigger] d[i]).0 == wait_key() && e == Edit::SetWait(datetime_of(d[i].1));
                    assert(es[i] == d[i]);
                }
                if e is Stop {
                    let i = choose|i: int| 0 <= i < d.len() && (#[trigger] d[i]).0 == start_key() && d[i].1 == "stop"@;
                    assert(es[i] == d[i]);
                }
            } else {
                let e = last[j - acc.len()];
                assert(x[j] == e);
                assert(sourced(one, e));
                if e is SetDue || e is SetWait || e is Stop {
                    assert(one[0] == es[n]);
                }
            }
        }
    }
}

/// Which time an edit sets under `k` (`due` or `wait`), where it sets one.
pub open spec fn time_set(e: Edit, k: Seq<char>) -> Option<Option<(i64, u32)>> {
    match e {
        Edit::SetDue(t) => if k == due_key() {
            Some(t)
        } else {
            None
        },
        Edit::SetWait(t) => if k == wait_key() {
            Some(t)
        } else {
            None
        },
        _ => None,
    }
}

/// What setting the time `t` under `k` leaves there: the seconds in
/// decimal for a time that chrono accepts, nothing otherwise.
pub open spec fn holds_time(m: Map<Seq<char>, Seq<char>>, k: Seq<char>, t: Option<(i64, u32)>) -> bool {
    match t {
        Some((secs, nanos)) => if timestamp_valid(secs, nanos) {
            m.contains_key(k) && m[k] == decimal(secs as int)
        } else {
            !m.contains_key(k)
        },
        None => !m.contains_key(k),
    }
}

/// Properties that agree outside two keys and `modified` agree on any other
/// key.
proof fn lemma_agree_at(
    old: Map<Seq<char>, Seq<char>>,
    new: Map<Seq<char>, Seq<char>>,
    a: Seq<char>,
    b: Seq<char>,
    k: Seq<char>,
)
    requires
        agree_outside(old, new, a, b),
        k != a,
        k != b,
        k != modified_key(),
    ensures
        new.contains_key(k) == old.contains_key(k),
        old.contains_key(k) ==> new[k] == old[k],
{
    assert(new.contains_key(k) == old.contains_key(k) && (old.contains_key(k) ==> new[k] == old[k]));
}

/// An edit that sets no time under `k` (`due` or `wait`) keeps it.
proof fn lemma_time_kept(old: Map<Seq<char>, Seq<char>>, new: Map<Seq<char>, Seq<char>>, e: Edit, k: Seq<char>)
    requires
        edit_effect(old, new, e),
        k == due_key() || k == wait_key(),
        time_set(e, k) is None,
    ensures
        new.contains_key(k) == old.contains_key(k),
        old.contains_key(k) ==> new[k] == old[k],
{
    assert(k != modified_key());
    assert(k != description_key());
    assert(k != start_key());
    assert(k != priority_key());
    assert(k != status_key());
    assert(k != end_key());
    assert(k != project_key());
    assert(due_key() != wait_key());
    assert(k[0] == 'd' || k[0] == 'w');
    match e {
        Edit::SetStatus(_) => lemma_agree_at(old, new, status_key(), end_key(), k),
        Edit::SetDescription(_) => lemma_agree_at(old, new, description_key(), description_key(), k),
        Edit::SetDue(_) => lemma_agree_at(old, new, due_key(), due_key(), k),
        Edit::SetWait(_) => lemma_agree_at(old, new, wait_key(), wait_key(), k),
        Edit::Start => if !old.contains_key(start_key()) {
            lemma_agree_at(old, new, start_key(), start_key(), k);
        },
        Edit::Stop => lemma_agree_at(old, new, start_key(), start_key(), k),
        Edit::SetPriority(_) => lemma_agree_at(old, new, priority_key(), priority_key(), k),
        Edit::AddTag(n) => if !all_capitals(n) {
            assert((tag_key_prefix() + n)[0] != k[0]);
            lemma_agree_at(old, new, tag_key_prefix() + n, tag_key_prefix() + n, k);
        },
        Edit::RemoveTag(n) => if !all_capitals(n) {
            assert((tag_key_prefix() + n)[0] != k[0]);
            lemma_agree_at(old, new, tag_key_prefix() + n, tag_key_prefix() + n, k);
        },
        Edit::SetProject(_) => lemma_agree_at(old, new, project_key(), project_key(), k),
        Edit::SetProjectAttribute(_) => lemma_agree_at(old, new, project_key(), project_key(), k),
    }
}

/// Along a chain of edits whose time edits under `k` all set `t`: once one
/// of the first `m` edits has set it, `k` holds what `t` leaves; before, it
/// is as at the start.
proof fn lemma_time_chain(
    ms: Seq<Map<Seq<char>, Seq<char>>>,
    before: Map<Seq<char>, Seq<char>>,
    after: Map<Seq<char>, Seq<char>>,
    es: Seq<Edit>,
    k: Seq<char>,
    t: Option<(i64, u32)>,
    m: int,
)
    requires
        effect_chain(ms, before, after, es),
        k == due_key() || k == wait_key(),
        0 <= m <= es.len(),
        forall|j: int| 0 <= j < es.len() && (#[trigger] time_set(es[j], k)) is Some ==> time_set(es[j], k) == Some(t),
    ensures
        (exists|j: int| 0 <= j < m && (#[trigger] time_set(es[j], k)) is Some) ==> holds_time(ms[m], k, t),
        !(exists|j: int| 0 <= j < m && (#[trigger] time_set(es[j], k)) is Some) ==> (ms[m].contains_key(k)
            == before.contains_key(k) && (before.contains_key(k) ==> ms[m][k] == before[k])),
    decreases m,
{
    if m > 0 {
        lemma_time_chain(ms, before, after, es, k, t, m - 1);
        let i = m - 1;
        assert(edit_effect(ms[i], ms[i + 1], es[i]));
        if time_set(es[i], k) is Some {
            assert(time_set(es[i], k) == Some(t));
            assert(holds_time(ms[m], k, t));
        } else {
            lemma_time_kept(ms[i], ms[i + 1], es[i], k);
            if exists|j: int| 0 <= j < m && (#[trigger] time_set(es[j], k)) is Some {
                let j = choose|j: int| 0 <= j < m && (#[trigger] time_set(es[j], k)) is Some;
                assert(j < m - 1);
            } else {
                assert forall|j: int| 0 <= j < m - 1 implies !((#[trigger] time_set(es[j], k)) is Some) by {
                }
            }
        }
    }
}

/// The pair of a field that `lookup` finds is the only pair with its key,
/// where no key occurs twice.
proof fn lemma_lookup_unique(es: Seq<(Seq<char>, Seq<char>)>, k: Seq<char>, v: Seq<char>)
    requires
        keys_distinct(es),
        lookup(es, k) == Some(v),
    ensures
        exists|i: int| 0 <= i < es.len() && #[trigger] es[i] == (k, v),
        forall|i: int| 0 <= i < es.len() && (#[trigger] es[i]).0 == k ==> es[i].1 == v,
{
    lemma_lookup_pair(es, k);
    let i0 = choose|i: int| 0 <= i < es.len() && #[trigger] es[i] == (k, v);
    assert forall|i: int| 0 <= i < es.len() && (#[trigger] es[i]).0 == k implies es[i].1 == v by {
        if i != i0 {
            assert(es[i].0 != es[i0].0);
        }
    }
}

/// The planned edits (a pending status first, then those of the fields)
/// leave under `k` what the time of its field names.
proof fn lemma_plan_time(
    existing: Option<Seq<Seq<char>>>,
    fields: Seq<(Seq<char>, Seq<char>)>,
    edits: Seq<Edit>,
    before: Map<Seq<char>, Seq<char>>,
    after: Map<Seq<char>, Seq<char>>,
    k: Seq<char>,
    v: Seq<char>,
)
    requires
        entries_edits(existing, fields) is Ok,
        edits == seq![Edit::SetStatus(TaskStatus::Pending)] + entries_edits(existing, fields)->Ok_0,
        edits_effect(before, after, edits),
        keys_distinct(fields),
        k == due_key() || k == wait_key(),
        lookup(fields, k) == Some(v),
    ensures
        holds_time(after, k, datetime_of(v)),
{
    let x = entries_edits(existing, fields)->Ok_0;
    lemma_entries_edit_sources(existing, fields);
    lemma_lookup_unique(fields, k, v);
    lemma_field_names();
    let t = datetime_of(v);
    assert forall|j: int| 0 <= j < edits.len() && (#[trigger] time_set(edits[j], k)) is Some implies time_set(
        edits[j],
        k,
    ) == Some(t) by {
        assert(j > 0);
        let e = x[j - 1];
        assert(edits[j] == e);
        assert(sourced(fields, e));
        if e is SetDue {
            let i = choose|i: int| 0 <= i < fields.len() && (#[trigger] fields[i]).0 == due_key() && e == Edit::SetDue(datetime_of(fields[i].1));
            assert(fields[i].1 == v);
        } else {
            let i = choose|i: int| 0 <= i < fields.len() && (#[trigger] fields[i]).0 == wait_key() && e == Edit::SetWait(datetime_of(fields[i].1));
            assert(fields[i].1 == v);
        }
    }
    let i0 = choose|i: int| 0 <= i < fields.len() && #[trigger] fields[i] == (k, v);
    let e0 = if k == due_key() {
        Edit::SetDue(t)
    } else {
        Edit::SetWait(t)
    };
    assert(entry_edits(existing, fields[i0].0, fields[i0].1)->Ok_0 == seq![e0]);
    assert(entry_edits(existing, fields[i0].0, fields[i0].1)->Ok_0[0] == e0);
    lemma_entry_edits_included(existing, fields, i0, e0);
    let m = choose|m: int| 0 <= m < x.len() && x[m] == e0;
    assert(edits[m + 1] == x[m]);
    assert(time_set(edits[m + 1], k) is Some);
    let ms = choose|ms: Seq<Map<Seq<char>, Seq<char>>>| #[trigger] effect_chain(ms, before, after, edits);
    lemma_time_chain(ms, before, after, edits, k, t, edits.len() as int);
}

/// Law: the `due` or `wait` field of a request to add a task sets that time
/// on the new task: the seconds in decimal of the time that its value names,
/// or no such property where the value is blank or names no time.
pub proof fn lemma_new_task_time_field(
    fields: Seq<(Seq<char>, Seq<char>)>,
    id: u128,
    edits: Seq<Edit>,
    before: Map<Seq<char>, Seq<char>>,
    after: Map<Seq<char>, Seq<char>>,
    k: Seq<char>,
    v: Seq<char>,
)
    requires
        add_plan(fields) == Ok::<(u128, Seq<Edit>), crate::edit::PlanFailure>((id, edits)),
        edits_effect(before, after, edits),
        keys_distinct(fields),
        k == due_key() || k == wait_key(),
        lookup(fields, k) == Some(v),
    ensures
        match datetime_of(v) {
            Some((secs, _)) => after.contains_key(k) && after[k] == decimal(secs as int),
            None => !after.contains_key(k),
        },
{
    assert(entries_edits(None, fields) is Ok);
    lemma_plan_time(None, fields, edits, before, after, k, v);
}

/// Law: the `due` or `wait` field of a request to update a task sets that
/// time: the seconds in decimal of the time that its value names, or no such
/// property where the value is blank or names no time.
pub proof fn lemma_update_time_field(
    props: Seq<(Seq<char>, Seq<char>)>,
    fields: Seq<(Seq<char>, Seq<char>)>,
    edits: Seq<Edit>,
    before: Map<Seq<char>, Seq<char>>,
    after: Map<Seq<char>, Seq<char>>,
    k: Seq<char>,
    v: Seq<char>,
)
    requires
        update_plan(props, fields) == Ok::<Seq<Edit>, Seq<char>>(edits),
        edits_effect(before, after, edits),
        keys_distinct(fields),
        k == due_key() || k == wait_key(),
        lookup(fields, k) == Some(v),
    ensures
        match datetime_of(v) {
            Some((secs, _)) => after.contains_key(k) && after[k] == decimal(secs as int),
            None => !after.contains_key(k),
        },
{
    assert(entries_edits(Some(existing_tag_names(props)), fields) is Ok);
    lemma_plan_time(Some(existing_tag_names(props)), fields, edits, before, after, k, v);
}

/// Law: a `start` field of a request to update a task whose value is not
/// `stop` leaves the task started: it has `start` afterwards.
pub proof fn lemma_update_start_field_starts(
    props: Seq<(Seq<char>, Seq<char>)>,
    fields: Seq<(Seq<char>, Seq<char>)>,
    edits: Seq<Edit>,
    before: Map<Seq<char>, Seq<char>>,
    after: Map<Seq<char>, Seq<char>>,
    v: Seq<char>,
)
    requires
        update_plan(props, fields) == Ok::<Seq<Edit>, Seq<char>>(edits),
        edits_effect(before, after, edits),
        keys_distinct(fields),
        lookup(fields, start_key()) == Some(v),
        v != "stop"@,
    ensures
        after.contains_key(start_key()),
{
    let existing = Some(existing_tag_names(props));
    assert(entries_edits(existing, fields) is Ok);
    let x = entries_edits(existing, fields)->Ok_0;
    assert(edits == seq![Edit::SetStatus(TaskStatus::Pending)] + x);
    lemma_entries_edit_sources(existing, fields);
    lemma_lookup_unique(fields, start_key(), v);
    lemma_field_names();
    assert forall|j: int| 0 <= j < edits.len() implies !(#[trigger] edits[j] is Stop) by {
        if j > 0 {
            let e = x[j - 1];
            assert(edits[j] == e);
            assert(sourced(fields, e));
            if e is Stop {
                let i = choose|i: int| 0 <= i < fields.len() && (#[trigger] fields[i]).0 == start_key() && fields[i].1 == "stop"@;
                assert(fields[i].1 == v);
            }
        }
    }
    let i0 = choose|i: int| 0 <= i < fields.len() && #[trigger] fields[i] == (start_key(), v);
    assert(entry_edits(existing, fields[i0].0, fields[i0].1)->Ok_0 == seq![Edit::Start]);
    assert(entry_edits(existing, fields[i0].0, fields[i0].1)->Ok_0[0] == Edit::Start);
    lemma_entry_edits_included(existing, fields, i0, Edit::Start);
    let m = choose|m: int| 0 <= m < x.len() && x[m] == Edit::Start;
    assert(edits[m + 1] == x[m]);
    let ms = choose|ms: Seq<Map<Seq<char>, Seq<char>>>| #[trigger] effect_chain(ms, before, after, edits);
    lemma_start_presence(ms, before, after, edits, edits.len() as int);
    assert(edits.take(edits.len() as int) =~= edits);
    assert(edits[m + 1] is Start);
}

} // verus!
