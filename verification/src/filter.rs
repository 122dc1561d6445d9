use taskchampion::Task;
use vstd::prelude::*;

use crate::entries::{
    enumerates, find_key, lemma_entries_map_keys, lemma_entries_map_value, lemma_lookup_concat,
    lemma_lookup_push, lookup, lookup_value, pair_views,
};
use crate::row::{
    lemma_plain_key, lemma_row_fields, lemma_row_keeps_plain_properties, row_map,
    row_views, tags_key, task_row_from_task, uuid_key,
    TaskRow,
};
use crate::tags::{
    carries_tag, is_ascii_upper, parse_tag, parse_tag_filter, tag_filter, task_has_tag, valid_tag,
    waiting_name,
};
use crate::task::{
    digit_index, hyphen_at, hyphenated, known_key, model_key, nibble, parse_i64, pending_text,
    project_key, status_key, tag_key_prefix, task_entries, task_properties, task_user_attribute,
    task_uuid,
    wait_is_time, wait_key, wait_readable,
};
use crate::text::{
    chars_contain, chars_of, contains, is_ascii_char, lemma_lower_keeps_lowercase, lower,
    lowercase, occurs_at, owned_text, same_text, string_views, trim, trim_chars,
};

verus! {

/// The value of an optional string, or the empty string.
pub open spec fn or_empty(o: Option<Seq<char>>) -> Seq<char> {
    match o {
        Some(s) => s,
        None => seq![],
    }
}

/// A row's value under `k`, or nothing.
pub open spec fn row_value(row: Map<Seq<char>, Seq<char>>, k: Seq<char>) -> Option<Seq<char>> {
    if row.contains_key(k) {
        Some(row[k])
    } else {
        None
    }
}

/// The `uuid` condition: a non-empty value must stand, ignoring case, in the
/// row's UUID (both taken in lowercase).
pub open spec fn uuid_clause(row: Map<Seq<char>, Seq<char>>, filter: Seq<(Seq<char>, Seq<char>)>) -> bool {
    match lookup(filter, uuid_key()) {
        Some(u) => u.len() == 0 || contains(lower(or_empty(row_value(row, uuid_key()))), lower(u)),
        None => true,
    }
}

/// The status of a row, in lowercase; `pending` where the row has none.
pub open spec fn row_status(row: Map<Seq<char>, Seq<char>>) -> Seq<char> {
    match row_value(row, status_key()) {
        Some(s) => lower(s),
        None => pending_text(),
    }
}

/// The `status` condition: a non-empty value must equal, ignoring case, the
/// row's status.
pub open spec fn status_clause(row: Map<Seq<char>, Seq<char>>, filter: Seq<(Seq<char>, Seq<char>)>) -> bool {
    match lookup(filter, status_key()) {
        Some(s) => s.len() == 0 || row_status(row) == lower(s),
        None => true,
    }
}

/// The `project` condition: a non-empty value must equal the task's project
/// exactly (a task without a project has the empty one).
pub open spec fn project_clause(filter: Seq<(Seq<char>, Seq<char>)>, project: Option<Seq<char>>) -> bool {
    match lookup(filter, project_key()) {
        Some(p) => p.len() == 0 || p == or_empty(project),
        None => true,
    }
}

/// The `tags` condition: where the value is not blank, each tag that it
/// requires must be valid and present (`has_req[i]` tells whether the task
/// carries the `i`-th required tag), and each tag that it excludes must be
/// valid and absent (`has_exc[j]` likewise).
pub open spec fn tags_clause(
    filter: Seq<(Seq<char>, Seq<char>)>,
    has_req: Seq<bool>,
    has_exc: Seq<bool>,
) -> bool {
    match lookup(filter, tags_key()) {
        Some(t) => trim(t).len() == 0 || {
            &&& forall|i: int|
                0 <= i < tag_filter(t).0.len() ==> valid_tag(#[trigger] tag_filter(t).0[i])
                    && has_req[i]
            &&& forall|j: int|
                0 <= j < tag_filter(t).1.len() ==> valid_tag(#[trigger] tag_filter(t).1[j])
                    && !has_exc[j]
        },
        None => true,
    }
}

/// Whether a task with row `row` and project `project` passes the filter,
/// given which of the filter's tags it carries.
pub open spec fn filter_admits(
    row: Map<Seq<char>, Seq<char>>,
    filter: Seq<(Seq<char>, Seq<char>)>,
    project: Option<Seq<char>>,
    has_req: Seq<bool>,
    has_exc: Seq<bool>,
) -> bool {
    &&& uuid_clause(row, filter)
    &&& status_clause(row, filter)
    &&& project_clause(filter, project)
    &&& tags_clause(filter, has_req, has_exc)
}

/// The project of a task, if it has one.
pub open spec fn task_project(t: Task) -> Option<Seq<char>> {
    row_value(task_properties(t), project_key())
}

/// `row` is a row that the task can show: its properties taken in some
/// order.
pub open spec fn task_row_outcome(t: Task, row: Map<Seq<char>, Seq<char>>) -> bool {
    exists|ps: Seq<(Seq<char>, Seq<char>)>|
        enumerates(ps, task_properties(t)) && row == row_map(hyphenated(task_uuid(t)), ps)
}

/// `keep` is the filter's verdict on the task with row `row`, for the
/// answers `has_req` and `has_exc` to which of the filter's tags the task
/// carries, where those answers fit its properties.
pub open spec fn verdict_with(
    t: Task,
    filter: Seq<(Seq<char>, Seq<char>)>,
    row: Map<Seq<char>, Seq<char>>,
    keep: bool,
    has_req: Seq<bool>,
    has_exc: Seq<bool>,
) -> bool {
    &&& answers_fit(t, filter_tags(filter).0, has_req)
    &&& answers_fit(t, filter_tags(filter).1, has_exc)
    &&& keep == (filter.len() == 0 || filter_admits(row, filter, task_project(t), has_req, has_exc))
}

/// `keep` is the filter's verdict on the task with row `row`, for answers to
/// which of the filter's tags the task carries that fit its properties.
pub open spec fn filter_outcome(
    t: Task,
    filter: Seq<(Seq<char>, Seq<char>)>,
    row: Map<Seq<char>, Seq<char>>,
    keep: bool,
) -> bool {
    exists|has_req: Seq<bool>, has_exc: Seq<bool>| #[trigger] verdict_with(t, filter, row, keep, has_req, has_exc)
}

/// The rows whose flag is set, in order.
pub open spec fn kept(rows: Seq<Map<Seq<char>, Seq<char>>>, keeps: Seq<bool>) -> Seq<
    Map<Seq<char>, Seq<char>>,
>
    decreases rows.len(),
{
    if rows.len() == 0 {
        seq![]
    } else {
        let r = kept(rows.drop_last(), keeps.drop_last());
        if keeps.last() {
            r.push(rows.last())
        } else {
            r
        }
    }
}

/// Every value of the filter is empty.
pub open spec fn all_blank(filter: Seq<(Seq<char>, Seq<char>)>) -> bool {
    forall|i: int| 0 <= i < filter.len() ==> (#[trigger] filter[i]).1.len() == 0
}

/// A value that `lookup` finds is the value of one of the pairs.
proof fn lemma_lookup_some(es: Seq<(Seq<char>, Seq<char>)>, k: Seq<char>)
    ensures
        lookup(es, k) matches Some(v) ==> exists|i: int| 0 <= i < es.len() && #[trigger] es[i].1 == v,
    decreases es.len(),
{
    if es.len() > 0 && es[0].0 != k {
        lemma_lookup_some(es.drop_first(), k);
        if lookup(es, k) is Some {
            let v = lookup(es, k)->0;
            let i = choose|i: int| 0 <= i < es.drop_first().len() && #[trigger] es.drop_first()[i].1 == v;
            assert(es[i + 1].1 == v);
        }
    } else if es.len() > 0 {
        assert(es[0].1 == es[0].1);
    }
}

/// Law: a filter whose values are all empty (or that has none) admits every
/// task, whatever tags it carries.
pub proof fn lemma_blank_filter_admits_all(
    row: Map<Seq<char>, Seq<char>>,
    filter: Seq<(Seq<char>, Seq<char>)>,
    project: Option<Seq<char>>,
    has_req: Seq<bool>,
    has_exc: Seq<bool>,
)
    requires
        all_blank(filter),
    ensures
        filter_admits(row, filter, project, has_req, has_exc),
{
    lemma_lookup_some(filter, uuid_key());
    lemma_lookup_some(filter, status_key());
    lemma_lookup_some(filter, project_key());
    lemma_lookup_some(filter, tags_key());
    if lookup(filter, tags_key()) is Some {
        let t = lookup(filter, tags_key())->0;
        assert(t.len() == 0);
        assert(trim(t) == t);
    }
}

/// Law: a filter whose `uuid` is a task's own UUID text keeps the task as
/// far as that condition goes.
pub proof fn lemma_own_uuid_passes(row: Map<Seq<char>, Seq<char>>, filter: Seq<(Seq<char>, Seq<char>)>)
    requires
        row.contains_key(uuid_key()),
        lookup(filter, uuid_key()) == Some(row[uuid_key()]),
    ensures
        uuid_clause(row, filter),
{
    let l = lower(row[uuid_key()]);
    assert(l.subrange(0, l.len() as int) =~= l);
    assert(occurs_at(l, l, 0));
}

/// Law: adding a condition on a key that the filter does not yet hold never
/// admits a task that the filter refused.
pub proof fn lemma_more_conditions_narrow(
    row: Map<Seq<char>, Seq<char>>,
    filter: Seq<(Seq<char>, Seq<char>)>,
    k: Seq<char>,
    v: Seq<char>,
    project: Option<Seq<char>>,
    has_req: Seq<bool>,
    has_exc: Seq<bool>,
)
    requires
        lookup(filter, k) is None,
    ensures
        filter_admits(row, filter.push((k, v)), project, has_req, has_exc) ==> filter_admits(
            row,
            filter,
            project,
            has_req,
            has_exc,
        ),
{
    lemma_lookup_push(filter, k, v, uuid_key());
    lemma_lookup_push(filter, k, v, status_key());
    lemma_lookup_push(filter, k, v, project_key());
    lemma_lookup_push(filter, k, v, tags_key());
    let g = filter.push((k, v));
    if filter_admits(row, g, project, has_req, has_exc) {
        assert(uuid_clause(row, filter));
        assert(status_clause(row, filter));
        assert(project_clause(filter, project));
        assert(tags_clause(filter, has_req, has_exc));
    }
}

/// Law: two filters whose keys are disjoint admit together exactly what each
/// admits on its own: the conditions of their union are the conditions of
/// the one and of the other.
pub proof fn lemma_disjoint_filters_intersect(
    row: Map<Seq<char>, Seq<char>>,
    f1: Seq<(Seq<char>, Seq<char>)>,
    f2: Seq<(Seq<char>, Seq<char>)>,
    project: Option<Seq<char>>,
    has_req: Seq<bool>,
    has_exc: Seq<bool>,
)
    requires
        forall|k: Seq<char>| !(#[trigger] lookup(f1, k) is Some && lookup(f2, k) is Some),
    ensures
        filter_admits(row, f1 + f2, project, has_req, has_exc) == (filter_admits(
            row,
            f1,
            project,
            has_req,
            has_exc,
        ) && filter_admits(row, f2, project, has_req, has_exc)),
{
    let g = f1 + f2;
    lemma_lookup_concat(f1, f2, uuid_key());
    lemma_lookup_concat(f1, f2, status_key());
    lemma_lookup_concat(f1, f2, project_key());
    lemma_lookup_concat(f1, f2, tags_key());
    assert(!(lookup(f1, uuid_key()) is Some && lookup(f2, uuid_key()) is Some));
    assert(!(lookup(f1, status_key()) is Some && lookup(f2, status_key()) is Some));
    assert(!(lookup(f1, project_key()) is Some && lookup(f2, project_key()) is Some));
    assert(!(lookup(f1, tags_key()) is Some && lookup(f2, tags_key()) is Some));
    assert(uuid_clause(row, g) == (uuid_clause(row, f1) && uuid_clause(row, f2)));
    assert(status_clause(row, g) == (status_clause(row, f1) && status_clause(row, f2)));
    assert(project_clause(g, project) == (project_clause(f1, project) && project_clause(f2, project)));
    assert(tags_clause(g, has_req, has_exc) == (tags_clause(f1, has_req, has_exc) && tags_clause(
        f2,
        has_req,
        has_exc,
    )));
}

/// The keys whose values a filter compares without regard to case.
pub open spec fn case_blind_key(k: Seq<char>) -> bool {
    k == uuid_key() || k == status_key()
}

/// Two filters with the same keys in the same order, and the same values but
/// for `uuid` and `status`, whose values agree in lowercase and in being
/// empty.
pub open spec fn same_up_to_case(f1: Seq<(Seq<char>, Seq<char>)>, f2: Seq<(Seq<char>, Seq<char>)>) -> bool {
    &&& f1.len() == f2.len()
    &&& forall|i: int|
        0 <= i < f1.len() ==> (#[trigger] f1[i]).0 == f2[i].0 && if case_blind_key(f1[i].0) {
            lower(f1[i].1) == lower(f2[i].1) && (f1[i].1.len() == 0) == (f2[i].1.len() == 0)
        } else {
            f1[i].1 == f2[i].1
        }
}

/// Filters that agree up to case find values that agree up to case.
proof fn lemma_lookup_up_to_case(f1: Seq<(Seq<char>, Seq<char>)>, f2: Seq<(Seq<char>, Seq<char>)>, k: Seq<char>)
    requires
        same_up_to_case(f1, f2),
    ensures
        (lookup(f1, k) is Some) == (lookup(f2, k) is Some),
        lookup(f1, k) is Some && case_blind_key(k) ==> lower(lookup(f1, k)->0) == lower(
            lookup(f2, k)->0,
        ) && (lookup(f1, k)->0.len() == 0) == (lookup(f2, k)->0.len() == 0),
        lookup(f1, k) is Some && !case_blind_key(k) ==> lookup(f1, k) == lookup(f2, k),
    decreases f1.len(),
{
    if f1.len() > 0 {
        assert(f1[0].0 == f2[0].0);
        if f1[0].0 != k {
            assert forall|i: int| 0 <= i < f1.drop_first().len() implies (#[trigger] f1.drop_first()[i]).0
                == f2.drop_first()[i].0 && if case_blind_key(f1.drop_first()[i].0) {
                lower(f1.drop_first()[i].1) == lower(f2.drop_first()[i].1) && (f1.drop_first()[i].1.len()
                    == 0) == (f2.drop_first()[i].1.len() == 0)
            } else {
                f1.drop_first()[i].1 == f2.drop_first()[i].1
            } by {
                assert(f1.drop_first()[i] == f1[i + 1]);
                assert(f2.drop_first()[i] == f2[i + 1]);
            }
            lemma_lookup_up_to_case(f1.drop_first(), f2.drop_first(), k);
        }
    }
}

/// Law: the `uuid` and `status` conditions ignore case: filters that agree
/// up to the case of those values admit the same tasks.
pub proof fn lemma_case_of_uuid_and_status_is_ignored(
    row: Map<Seq<char>, Seq<char>>,
    f1: Seq<(Seq<char>, Seq<char>)>,
    f2: Seq<(Seq<char>, Seq<char>)>,
    project: Option<Seq<char>>,
    has_req: Seq<bool>,
    has_exc: Seq<bool>,
)
    requires
        same_up_to_case(f1, f2),
    ensures
        filter_tags(f1) == filter_tags(f2),
        filter_admits(row, f1, project, has_req, has_exc) == filter_admits(
            row,
            f2,
            project,
            has_req,
            has_exc,
        ),
{
    lemma_lookup_up_to_case(f1, f2, uuid_key());
    lemma_lookup_up_to_case(f1, f2, status_key());
    lemma_lookup_up_to_case(f1, f2, project_key());
    lemma_lookup_up_to_case(f1, f2, tags_key());
    assert(case_blind_key(uuid_key()));
    assert(case_blind_key(status_key()));
    assert(!case_blind_key(project_key()));
    assert(!case_blind_key(tags_key()));
    assert(uuid_clause(row, f1) == uuid_clause(row, f2));
    assert(status_clause(row, f1) == status_clause(row, f2));
    assert(project_clause(f1, project) == project_clause(f2, project));
    assert(tags_clause(f1, has_req, has_exc) == tags_clause(f2, has_req, has_exc));
}

/// The text of a UUID is in lowercase already.
pub proof fn lemma_uuid_text_is_lowercase(u: u128)
    ensures
        lower(hyphenated(u)) == hyphenated(u),
{
    let h = hyphenated(u);
    assert forall|k: int| 0 <= k < h.len() implies is_ascii_char(#[trigger] h[k]) && !('A' <= h[k]
        && h[k] <= 'Z') by {
        if !hyphen_at(k) {
            let n = nibble(u, digit_index(k));
            let sh = (124 - 4 * digit_index(k)) as u128;
            assert((u >> sh) & 15u128 <= 15u128) by (bit_vector);
            assert(n < 16);
        }
    }
    lemma_lower_keeps_lowercase(h);
}

/// Law: on a task's own row, the `uuid` condition asks that the value, in
/// lowercase, stand in the task's UUID text.
pub proof fn lemma_uuid_condition_on_task_row(
    u: u128,
    ps: Seq<(Seq<char>, Seq<char>)>,
    filter: Seq<(Seq<char>, Seq<char>)>,
)
    ensures
        uuid_clause(row_map(hyphenated(u), ps), filter) == match lookup(filter, uuid_key()) {
            Some(s) => s.len() == 0 || contains(hyphenated(u), lower(s)),
            None => true,
        },
{
    lemma_row_fields(hyphenated(u), ps);
    lemma_uuid_text_is_lowercase(u);
}

/// Law: a non-empty `project` value admits only tasks whose project is
/// exactly that value (the empty text for a task without a project): a task
/// whose project merely holds the value within it is refused.
pub proof fn lemma_project_condition_is_exact(
    row: Map<Seq<char>, Seq<char>>,
    filter: Seq<(Seq<char>, Seq<char>)>,
    project: Option<Seq<char>>,
    has_req: Seq<bool>,
    has_exc: Seq<bool>,
    p: Seq<char>,
)
    requires
        lookup(filter, project_key()) == Some(p),
        p.len() > 0,
    ensures
        filter_admits(row, filter, project, has_req, has_exc) ==> match project {
            Some(q) => q == p,
            None => false,
        },
{
}

/// Law: every property of a task whose key holds no `tag_` (other than
/// `tags` and `uuid`) stands in each row the task shows, with the task's own
/// value.
pub proof fn lemma_task_row_keeps_properties(t: Task, row: Map<Seq<char>, Seq<char>>, k: Seq<char>)
    requires
        task_row_outcome(t, row),
        task_properties(t).contains_key(k),
        !contains(k, tag_key_prefix()),
        k != tags_key(),
        k != uuid_key(),
    ensures
        row.contains_key(k),
        row[k] == task_properties(t)[k],
{
    let ps = choose|ps: Seq<(Seq<char>, Seq<char>)>|
        enumerates(ps, task_properties(t)) && row == row_map(hyphenated(task_uuid(t)), ps);
    lemma_row_keeps_plain_properties(hyphenated(task_uuid(t)), ps, k);
}

/// The tags that a filter requires and excludes: none unless its `tags`
/// value is present and not blank.
pub open spec fn filter_tags(filter: Seq<(Seq<char>, Seq<char>)>) -> (Seq<Seq<char>>, Seq<Seq<char>>) {
    match lookup(filter, tags_key()) {
        Some(t) => if trim(t).len() == 0 {
            (seq![], seq![])
        } else {
            tag_filter(t)
        },
        None => (seq![], seq![]),
    }
}

/// `answers` says, for each of `names`, whether task `t` carries that tag:
/// for a valid tag other than `WAITING`, exactly `carries_tag`; for
/// `WAITING`, which rests on the clock, only that a waiting task has a
/// `wait` property.
pub open spec fn answers_fit(t: Task, names: Seq<Seq<char>>, answers: Seq<bool>) -> bool {
    &&& answers.len() == names.len()
    &&& forall|i: int|
        0 <= i < names.len() && valid_tag(#[trigger] names[i]) && names[i] != waiting_name()
            ==> answers[i] == carries_tag(t, names[i])
    &&& forall|i: int|
        0 <= i < names.len() && #[trigger] names[i] == waiting_name() && answers[i]
            ==> wait_is_time(task_properties(t))
}

/// The answers `given` for the first names, completed for the others from
/// `carries_tag` (`WAITING` taken as absent).
pub open spec fn completed_answers(t: Task, names: Seq<Seq<char>>, given: Seq<bool>) -> Seq<bool> {
    Seq::new(
        names.len(),
        |k: int|
            if k < given.len() {
                given[k]
            } else if names[k] == waiting_name() {
                false
            } else {
                carries_tag(t, names[k])
            },
    )
}

/// Answers that fit for the first names complete to answers that fit.
proof fn lemma_completed_answers_fit(t: Task, names: Seq<Seq<char>>, given: Seq<bool>)
    requires
        given.len() <= names.len(),
        forall|k: int|
            0 <= k < given.len() && valid_tag(#[trigger] names[k]) && names[k] != waiting_name()
                ==> given[k] == carries_tag(t, names[k]),
        forall|k: int|
            0 <= k < given.len() && #[trigger] names[k] == waiting_name() && given[k]
                ==> wait_is_time(task_properties(t)),
    ensures
        answers_fit(t, names, completed_answers(t, names, given)),
        forall|k: int| 0 <= k < given.len() ==> completed_answers(t, names, given)[k] == #[trigger] given[k],
{
}

/// Every name is a valid tag that the answers say the task carries.
spec fn required_present(names: Seq<Seq<char>>, answers: Seq<bool>) -> bool {
    forall|k: int| 0 <= k < names.len() ==> valid_tag(#[trigger] names[k]) && answers[k]
}

/// Answers that fit and satisfy every required and excluded tag pass the
/// `tags` condition.
proof fn lemma_tags_pass(
    f: Seq<(Seq<char>, Seq<char>)>,
    tx: Seq<char>,
    t: Task,
    has_req: Seq<bool>,
    has_exc: Seq<bool>,
)
    requires
        lookup(f, tags_key()) == Some(tx),
        trim(tx).len() > 0,
        has_req.len() == tag_filter(tx).0.len(),
        has_exc.len() == tag_filter(tx).1.len(),
        forall|k: int|
            0 <= k < tag_filter(tx).0.len() ==> valid_tag(#[trigger] tag_filter(tx).0[k]) && has_req[k],
        forall|k: int|
            0 <= k < tag_filter(tx).1.len() ==> valid_tag(#[trigger] tag_filter(tx).1[k]) && !has_exc[k],
        forall|k: int|
            0 <= k < tag_filter(tx).0.len() && #[trigger] tag_filter(tx).0[k] != waiting_name()
                ==> has_req[k] == carries_tag(t, tag_filter(tx).0[k]),
        forall|k: int|
            0 <= k < tag_filter(tx).0.len() && #[trigger] tag_filter(tx).0[k] == waiting_name()
                ==> wait_is_time(task_properties(t)),
        forall|k: int|
            0 <= k < tag_filter(tx).1.len() && #[trigger] tag_filter(tx).1[k] != waiting_name()
                ==> has_exc[k] == carries_tag(t, tag_filter(tx).1[k]),
    ensures
        tags_clause(f, has_req, has_exc),
        answers_fit(t, filter_tags(f).0, has_req),
        answers_fit(t, filter_tags(f).1, has_exc),
{
    assert(filter_tags(f) == tag_filter(tx));
    assert(tags_clause(f, has_req, has_exc));
}

/// Whether a task passes a filter, as `task_matches_filter` decides it, or
/// none where deciding it would read an unreadable `wait` (`WAITING` named
/// and reached, with `wait_ok` false); `wait_ok` tells whether the task's
/// `wait` can be read.
fn match_or_stop(task: &Task, row: &TaskRow, filter: &Vec<(String, String)>, wait_ok: bool) -> (r: Option<bool>)
    requires
        wait_ok == wait_readable(task_properties(*task)),
    ensures
        r is None <==> (waiting_reached(*task, row@, pair_views(filter@)) && !wait_ok),
        r matches Some(b) ==> exists|has_req: Seq<bool>, has_exc: Seq<bool>|
            #![trigger filter_admits(row@, pair_views(filter@), task_project(*task), has_req, has_exc)]
            answers_fit(*task, filter_tags(pair_views(filter@)).0, has_req)
                && answers_fit(*task, filter_tags(pair_views(filter@)).1, has_exc)
                && b == filter_admits(row@, pair_views(filter@), task_project(*task), has_req, has_exc),
{
    let ghost f = pair_views(filter@);
    let ghost proj = task_project(*task);
    let ghost tv = *task;
    let ghost fr = completed_answers(tv, filter_tags(f).0, seq![]);
    let ghost fe = completed_answers(tv, filter_tags(f).1, seq![]);
    proof {
        lemma_completed_answers_fit(tv, filter_tags(f).0, seq![]);
        lemma_completed_answers_fit(tv, filter_tags(f).1, seq![]);
    }
    // uuid
    let uk = owned_text("uuid");
    proof {
        reveal_strlit("uuid");
    }
    assert(uk@ =~= uuid_key());
    match lookup_value(filter, &uk) {
        Some(u) => {
            let uc = chars_of(u.as_str());
            if uc.len() > 0 {
                let id = match row.get("uuid") {
                    Some(x) => x,
                    None => String::new(),
                };
                assert(id@ == or_empty(row_value(row@, uuid_key())));
                let hay = chars_of(lowercase(id.as_str()).as_str());
                let needle = chars_of(lowercase(u.as_str()).as_str());
                if !chars_contain(&hay, &needle) {
                    assert(!filter_admits(row@, f, proj, fr, fe));
                    return Some(false);
                }
            }
        },
        None => {},
    }
    assert(uuid_clause(row@, f));
    // status
    let sk = owned_text("status");
    proof {
        reveal_strlit("status");
    }
    assert(sk@ =~= status_key());
    match lookup_value(filter, &sk) {
        Some(s) => {
            let sc = chars_of(s.as_str());
            if sc.len() > 0 {
                let got = match row.get("status") {
                    Some(x) => lowercase(x.as_str()),
                    None => {
                        proof {
                            reveal_strlit("pending");
                        }
                        let p = owned_text("pending");
                        assert(p@ =~= pending_text());
                        p
                    },
                };
                assert(got@ == row_status(row@));
                let want = lowercase(s.as_str());
                if got != want {
                    assert(!filter_admits(row@, f, proj, fr, fe));
                    return Some(false);
                }
            }
        },
        None => {},
    }
    assert(status_clause(row@, f));
    // project
    let pk = owned_text("project");
    proof {
        reveal_strlit("project");
    }
    assert(pk@ =~= project_key());
    match lookup_value(filter, &pk) {
        Some(p) => {
            let pc = chars_of(p.as_str());
            if pc.len() > 0 {
                assert(!known_key(project_key())) by {
                    assert(project_key()[0] != 't');
                    assert(project_key()[0] != 'a');
                    assert(project_key()[0] != 'd');
                    assert(!model_key(project_key()));
                }
                let proj_now = match task_user_attribute(task, pk.as_str()) {
                    Some(x) => x,
                    None => String::new(),
                };
                assert(proj_now@ == or_empty(proj));
                if p != proj_now {
                    assert(!filter_admits(row@, f, proj, fr, fe));
                    return Some(false);
                }
            }
        },
        None => {},
    }
    assert(project_clause(f, proj));
    // tags
    let tk = owned_text("tags");
    proof {
        reveal_strlit("tags");
    }
    assert(tk@ =~= tags_key());
    match lookup_value(filter, &tk) {
        Some(t) => {
            let tc = chars_of(t.as_str());
            let tt = trim_chars(&tc);
            if tt.len() > 0 {
                let (required, excluded) = parse_tag_filter(t.as_str());
                let ghost req = tag_filter(t@).0;
                let ghost exc = tag_filter(t@).1;
                assert(filter_tags(f) == tag_filter(t@));
                let ghost mut has_req: Seq<bool> = seq![];
                let ghost mut has_exc: Seq<bool> = seq![];
                let mut i: usize = 0;
                while i < required.len()
                    invariant
                        f == pair_views(filter@),
                        proj == task_project(*task),
                        tv == *task,
                        lookup(f, tags_key()) == Some(t@),
                        trim(t@).len() > 0,
                        req == tag_filter(t@).0,
                        exc == tag_filter(t@).1,
                        filter_tags(f) == tag_filter(t@),
                        uuid_clause(row@, f),
                        status_clause(row@, f),
                        project_clause(f, proj),
                        string_views(required@) == req,
                        i <= required@.len(),
                        has_req.len() == i,
                        wait_ok == wait_readable(task_properties(tv)),
                        !wait_ok ==> forall|k: int| 0 <= k < i ==> #[trigger] req[k] != waiting_name(),
                        forall|k: int| 0 <= k < i ==> valid_tag(#[trigger] req[k]) && has_req[k],
                        forall|k: int|
                            0 <= k < i && #[trigger] req[k] != waiting_name() ==> has_req[k]
                                == carries_tag(tv, req[k]),
                        forall|k: int|
                            0 <= k < i && #[trigger] req[k] == waiting_name() ==> wait_is_time(task_properties(tv)),
                    decreases required@.len() - i,
                {
                    assert(required@[i as int]@ == req[i as int]);
                    if !wait_ok && same_text(&required[i], "WAITING") {
                        proof {
                            reveal_strlit("WAITING");
                            assert("WAITING"@ =~= waiting_name());
                            assert(req[i as int] == waiting_name());
                            assert(required_pass(tv, req, i as int));
                            assert(tags_reach_waiting(tv, req, exc));
                        }
                        return None;
                    }
                    proof {
                        reveal_strlit("WAITING");
                        assert("WAITING"@ =~= waiting_name());
                        lemma_waiting_is_valid();
                    }
                    match parse_tag(required[i].as_str()) {
                        None => {
                            proof {
                                if !wait_ok {
                                    lemma_not_reached_required(tv, req, exc, i as int);
                                }
                                lemma_completed_answers_fit(tv, req, has_req);
                                lemma_completed_answers_fit(tv, exc, seq![]);
                            }
                            let ghost wr = completed_answers(tv, req, has_req);
                            let ghost we = completed_answers(tv, exc, seq![]);
                            assert(!tags_clause(f, wr, we));
                            assert(!filter_admits(row@, f, proj, wr, we));
                            return Some(false);
                        },
                        Some(tag) => {
                            let h = task_has_tag(task, &tag);
                            proof {
                                has_req = has_req.push(h);
                            }
                            if !h {
                                proof {
                                    if !wait_ok {
                                        lemma_not_reached_required(tv, req, exc, i as int);
                                    }
                                    lemma_completed_answers_fit(tv, req, has_req);
                                    lemma_completed_answers_fit(tv, exc, seq![]);
                                }
                                let ghost wr = completed_answers(tv, req, has_req);
                                let ghost we = completed_answers(tv, exc, seq![]);
                                assert(!tags_clause(f, wr, we));
                                assert(!filter_admits(row@, f, proj, wr, we));
                                return Some(false);
                            }
                        },
                    }
                    i += 1;
                }
                assert(string_views(required@).len() == required@.len());
                assert(i == req.len());
                let ghost hr = has_req;
                assert(required_present(req, hr));
                let mut j: usize = 0;
                while j < excluded.len()
                    invariant
                        f == pair_views(filter@),
                        proj == task_project(*task),
                        tv == *task,
                        lookup(f, tags_key()) == Some(t@),
                        trim(t@).len() > 0,
                        req == tag_filter(t@).0,
                        exc == tag_filter(t@).1,
                        filter_tags(f) == tag_filter(t@),
                        uuid_clause(row@, f),
                        status_clause(row@, f),
                        project_clause(f, proj),
                        hr.len() == req.len(),
                        required_present(req, hr),
                        wait_ok == wait_readable(task_properties(tv)),
                        !wait_ok ==> forall|k: int| 0 <= k < req.len() ==> #[trigger] req[k] != waiting_name(),
                        !wait_ok ==> forall|k: int| 0 <= k < j ==> #[trigger] exc[k] != waiting_name(),
                        forall|k: int|
                            0 <= k < req.len() && #[trigger] req[k] != waiting_name() ==> hr[k]
                                == carries_tag(tv, req[k]),
                        forall|k: int|
                            0 <= k < req.len() && #[trigger] req[k] == waiting_name() ==> wait_is_time(task_properties(tv)),
                        string_views(excluded@) == exc,
                        j <= excluded@.len(),
                        has_exc.len() == j,
                        forall|k: int| 0 <= k < j ==> valid_tag(#[trigger] exc[k]) && !has_exc[k],
                        forall|k: int|
                            0 <= k < j && #[trigger] exc[k] != waiting_name() ==> has_exc[k]
                                == carries_tag(tv, exc[k]),
                    decreases excluded@.len() - j,
                {
                    assert(excluded@[j as int]@ == exc[j as int]);
                    if !wait_ok && same_text(&excluded[j], "WAITING") {
                        proof {
                            reveal_strlit("WAITING");
                            assert("WAITING"@ =~= waiting_name());
                            assert(exc[j as int] == waiting_name());
                            assert(required_pass(tv, req, req.len() as int));
                            assert(excluded_pass(tv, exc, j as int));
                            assert(tags_reach_waiting(tv, req, exc));
                        }
                        return None;
                    }
                    proof {
                        reveal_strlit("WAITING");
                        assert("WAITING"@ =~= waiting_name());
                        lemma_waiting_is_valid();
                    }
                    match parse_tag(excluded[j].as_str()) {
                        None => {
                            proof {
                                if !wait_ok {
                                    lemma_not_reached_excluded(tv, req, exc, j as int);
                                }
                                lemma_completed_answers_fit(tv, req, hr);
                                lemma_completed_answers_fit(tv, exc, has_exc);
                            }
                            let ghost wr = completed_answers(tv, req, hr);
                            let ghost we = completed_answers(tv, exc, has_exc);
                            assert(!tags_clause(f, wr, we));
                            assert(!filter_admits(row@, f, proj, wr, we));
                            return Some(false);
                        },
                        Some(tag) => {
                            let h = task_has_tag(task, &tag);
                            proof {
                                has_exc = has_exc.push(h);
                            }
                            if h {
                                proof {
                                    if !wait_ok {
                                        lemma_not_reached_excluded(tv, req, exc, j as int);
                                    }
                                    lemma_completed_answers_fit(tv, req, hr);
                                    lemma_completed_answers_fit(tv, exc, has_exc);
                                }
                                let ghost wr = completed_answers(tv, req, hr);
                                let ghost we = completed_answers(tv, exc, has_exc);
                                assert(!tags_clause(f, wr, we));
                                assert(!filter_admits(row@, f, proj, wr, we));
                                return Some(false);
                            }
                        },
                    }
                    j += 1;
                }
                assert(string_views(excluded@).len() == excluded@.len());
                assert(j == exc.len());
                proof {
                    lemma_tags_pass(f, t@, tv, hr, has_exc);
                    if !wait_ok {
                        lemma_no_waiting_no_reach(tv, req, exc);
                    }
                }
                assert(filter_admits(row@, f, proj, hr, has_exc));
                return Some(true);
            }
        },
        None => {},
    }
    assert(tags_clause(f, fr, fe));
    assert(filter_admits(row@, f, proj, fr, fe));
    assert(filter_tags(f).0.len() == 0 && filter_tags(f).1.len() == 0);
    assert(!tags_reach_waiting(tv, filter_tags(f).0, filter_tags(f).1));
    Some(true)
}

/// Whether the task passes each tag check before position `n` of the
/// required tags (each valid, and carried unless it is `WAITING`).
pub open spec fn required_pass(t: Task, names: Seq<Seq<char>>, n: int) -> bool {
    forall|j: int|
        0 <= j < n ==> valid_tag(#[trigger] names[j]) && (names[j] == waiting_name() || carries_tag(t, names[j]))
}

/// Whether the task passes each tag check before position `n` of the
/// excluded tags (each valid, and not carried unless it is `WAITING`).
pub open spec fn excluded_pass(t: Task, names: Seq<Seq<char>>, n: int) -> bool {
    forall|j: int|
        0 <= j < n ==> valid_tag(#[trigger] names[j]) && (names[j] == waiting_name() || !carries_tag(t, names[j]))
}

/// Whether the tag checks, in order (the required tags, then the excluded
/// ones), come to a `WAITING` tag.
pub open spec fn tags_reach_waiting(t: Task, req: Seq<Seq<char>>, exc: Seq<Seq<char>>) -> bool {
    ||| exists|i: int| 0 <= i < req.len() && #[trigger] req[i] == waiting_name() && required_pass(t, req, i)
    ||| required_pass(t, req, req.len() as int) && exists|i: int|
        0 <= i < exc.len() && #[trigger] exc[i] == waiting_name() && excluded_pass(t, exc, i)
}

/// Whether deciding the filter for the task with row `row` comes to asking
/// whether it carries `WAITING`, which reads its `wait`: the `uuid`,
/// `status` and `project` conditions hold, and the tag checks before it
/// pass.
pub open spec fn waiting_reached(t: Task, row: Map<Seq<char>, Seq<char>>, f: Seq<(Seq<char>, Seq<char>)>) -> bool {
    &&& uuid_clause(row, f)
    &&& status_clause(row, f)
    &&& project_clause(f, task_project(t))
    &&& tags_reach_waiting(t, filter_tags(f).0, filter_tags(f).1)
}

/// `WAITING` is a valid tag name.
proof fn lemma_waiting_is_valid()
    ensures
        valid_tag(waiting_name()),
{
    let w = waiting_name();
    assert forall|k: int| 0 <= k < w.len() implies is_ascii_upper(#[trigger] w[k]) by {
        assert(0 <= k < 7);
        if k == 0 {
        } else if k == 1 {
        } else if k == 2 {
        } else if k == 3 {
        } else if k == 4 {
        } else if k == 5 {
        } else {
        }
    }
}

/// A failed check on a required tag before any `WAITING` keeps the checks
/// from coming to one.
proof fn lemma_not_reached_required(t: Task, req: Seq<Seq<char>>, exc: Seq<Seq<char>>, i: int)
    requires
        0 <= i < req.len(),
        forall|k: int| 0 <= k <= i ==> #[trigger] req[k] != waiting_name(),
        !(valid_tag(req[i]) && carries_tag(t, req[i])),
    ensures
        !tags_reach_waiting(t, req, exc),
{
    assert(req[i] != waiting_name());
    assert forall|m: int| 0 <= m < req.len() && #[trigger] req[m] == waiting_name() implies !required_pass(
        t,
        req,
        m,
    ) by {
        assert(m > i);
    }
    assert(!required_pass(t, req, req.len() as int));
}

/// A failed check on an excluded tag before any `WAITING` keeps the checks
/// from coming to one.
proof fn lemma_not_reached_excluded(t: Task, req: Seq<Seq<char>>, exc: Seq<Seq<char>>, j: int)
    requires
        forall|k: int| 0 <= k < req.len() ==> #[trigger] req[k] != waiting_name(),
        0 <= j < exc.len(),
        forall|k: int| 0 <= k <= j ==> #[trigger] exc[k] != waiting_name(),
        !(valid_tag(exc[j]) && !carries_tag(t, exc[j])),
    ensures
        !tags_reach_waiting(t, req, exc),
{
    assert(exc[j] != waiting_name());
    assert forall|m: int| 0 <= m < exc.len() && #[trigger] exc[m] == waiting_name() implies !excluded_pass(
        t,
        exc,
        m,
    ) by {
        assert(m > j);
    }
}

/// Checks that name no `WAITING` never come to one.
proof fn lemma_no_waiting_no_reach(t: Task, req: Seq<Seq<char>>, exc: Seq<Seq<char>>)
    requires
        forall|k: int| 0 <= k < req.len() ==> #[trigger] req[k] != waiting_name(),
        forall|k: int| 0 <= k < exc.len() ==> #[trigger] exc[k] != waiting_name(),
    ensures
        !tags_reach_waiting(t, req, exc),
{
}

/// Whether the task's `wait` can be read as a time (`wait_readable`).
pub fn wait_can_be_read(task: &Task) -> (r: bool)
    ensures
        r == wait_readable(task_properties(*task)),
{
    let es = task_entries(task);
    let wk = owned_text("wait");
    proof {
        reveal_strlit("wait");
    }
    assert(wk@ =~= wait_key());
    match find_key(&es, &wk) {
        None => {
            proof {
                lemma_entries_map_keys(pair_views(es@), wait_key());
            }
            true
        },
        Some(i) => {
            proof {
                lemma_entries_map_value(pair_views(es@), i as int);
            }
            match parse_i64(es[i].1.as_str()) {
                None => true,
                Some(v) => -8334601228800i64 <= v && v <= 8210266876799i64,
            }
        },
    }
}

/// Whether a task passes a filter (keys `uuid`, `status`, `project`, `tags`;
/// an absent or empty value sets no condition; other keys are ignored).
/// `row` is the task's row. Which tags the task carries is fixed by its
/// properties and dependencies (`carries_tag`), except `WAITING`, which
/// rests on the clock. Asking for `WAITING` reads the task's `wait`, which
/// taskchampion cannot do for a `wait` outside chrono's range (it panics):
/// that input is left out, and `filter_reads_bad_wait` tests for it.
pub fn task_matches_filter(task: &Task, row: &TaskRow, filter: &Vec<(String, String)>) -> (r: bool)
    requires
        !(waiting_reached(*task, row@, pair_views(filter@)) && !wait_readable(task_properties(*task))),
    ensures
        exists|has_req: Seq<bool>, has_exc: Seq<bool>|
            #![trigger filter_admits(row@, pair_views(filter@), task_project(*task), has_req, has_exc)]
            answers_fit(*task, filter_tags(pair_views(filter@)).0, has_req)
                && answers_fit(*task, filter_tags(pair_views(filter@)).1, has_exc)
                && r == filter_admits(row@, pair_views(filter@), task_project(*task), has_req, has_exc),
{
    let ok = wait_can_be_read(task);
    match match_or_stop(task, row, filter, ok) {
        Some(b) => b,
        None => false,
    }
}

/// Whether deciding the filter for the task would come to read a `wait`
/// that cannot be read: the input that `task_matches_filter` leaves out.
pub fn filter_reads_bad_wait(task: &Task, row: &TaskRow, filter: &Vec<(String, String)>) -> (r: bool)
    ensures
        r == (waiting_reached(*task, row@, pair_views(filter@)) && !wait_readable(task_properties(*task))),
{
    let ok = wait_can_be_read(task);
    match match_or_stop(task, row, filter, ok) {
        Some(_) => false,
        None => true,
    }
}

/// The filter names no `WAITING` tag, the one tag whose answer rests on the
/// clock.
pub open spec fn no_waiting(filter: Seq<(Seq<char>, Seq<char>)>) -> bool {
    &&& forall|i: int|
        0 <= i < filter_tags(filter).0.len() ==> #[trigger] filter_tags(filter).0[i] != waiting_name()
    &&& forall|i: int|
        0 <= i < filter_tags(filter).1.len() ==> #[trigger] filter_tags(filter).1[i] != waiting_name()
}

/// Answers that fit a task give the `tags` condition one outcome, where the
/// filter names no `WAITING` tag or the task's `wait` names no time.
proof fn lemma_tags_clause_agrees(
    f: Seq<(Seq<char>, Seq<char>)>,
    t: Task,
    hr1: Seq<bool>,
    he1: Seq<bool>,
    hr2: Seq<bool>,
    he2: Seq<bool>,
)
    requires
        answers_fit(t, filter_tags(f).0, hr1),
        answers_fit(t, filter_tags(f).1, he1),
        answers_fit(t, filter_tags(f).0, hr2),
        answers_fit(t, filter_tags(f).1, he2),
        no_waiting(f) || !wait_is_time(task_properties(t)),
    ensures
        tags_clause(f, hr1, he1) == tags_clause(f, hr2, he2),
{
    if lookup(f, tags_key()) is Some {
        let tx = lookup(f, tags_key())->0;
        if trim(tx).len() > 0 {
            let req = tag_filter(tx).0;
            let exc = tag_filter(tx).1;
            assert(filter_tags(f) == tag_filter(tx));
            assert forall|i: int| 0 <= i < req.len() && valid_tag(#[trigger] req[i]) implies hr1[i]
                == hr2[i] by {
                assert(filter_tags(f).0[i] == req[i]);
                if req[i] == waiting_name() {
                    if no_waiting(f) {
                        assert(filter_tags(f).0[i] != waiting_name());
                    } else {
                        assert(!wait_is_time(task_properties(t)));
                        assert(!hr1[i] && !hr2[i]);
                    }
                }
            }
            assert forall|i: int| 0 <= i < exc.len() && valid_tag(#[trigger] exc[i]) implies he1[i]
                == he2[i] by {
                assert(filter_tags(f).1[i] == exc[i]);
                if exc[i] == waiting_name() {
                    if no_waiting(f) {
                        assert(filter_tags(f).1[i] != waiting_name());
                    } else {
                        assert(!wait_is_time(task_properties(t)));
                        assert(!he1[i] && !he2[i]);
                    }
                }
            }
            lemma_present_agrees(req, hr1, hr2);
            lemma_absent_agrees(exc, he1, he2);
            lemma_tags_clause_split(f, tx, hr1, he1);
            lemma_tags_clause_split(f, tx, hr2, he2);
        }
    }
}

/// The `tags` condition of a filter with a non-blank `tags` value: every
/// required tag present and every excluded one absent.
proof fn lemma_tags_clause_split(f: Seq<(Seq<char>, Seq<char>)>, tx: Seq<char>, h: Seq<bool>, e: Seq<bool>)
    requires
        lookup(f, tags_key()) == Some(tx),
        trim(tx).len() > 0,
    ensures
        tags_clause(f, h, e) == (required_present(tag_filter(tx).0, h) && excluded_absent(
            tag_filter(tx).1,
            e,
        )),
{
    let req = tag_filter(tx).0;
    let exc = tag_filter(tx).1;
    assert(lookup(f, tags_key())->0 == tx);
    assert(tags_clause(f, h, e) == (trim(tx).len() == 0 || ((forall|i: int|
        0 <= i < tag_filter(tx).0.len() ==> valid_tag(#[trigger] tag_filter(tx).0[i]) && h[i]) && (
    forall|j: int|
        0 <= j < tag_filter(tx).1.len() ==> valid_tag(#[trigger] tag_filter(tx).1[j]) && !e[j]))));
    if tags_clause(f, h, e) {
        assert forall|k: int| 0 <= k < req.len() implies valid_tag(#[trigger] req[k]) && h[k] by {
            assert(valid_tag(tag_filter(tx).0[k]));
            assert(h[k]);
        }
        assert forall|k: int| 0 <= k < exc.len() implies valid_tag(#[trigger] exc[k]) && !e[k] by {
            assert(valid_tag(tag_filter(tx).1[k]));
            assert(!e[k]);
        }
    }
    if required_present(req, h) && excluded_absent(exc, e) {
        assert forall|k: int| 0 <= k < req.len() implies valid_tag(#[trigger] tag_filter(tx).0[k]) && h[k] by {
            assert(valid_tag(req[k]));
            assert(h[k]);
        }
        assert forall|k: int| 0 <= k < exc.len() implies valid_tag(#[trigger] tag_filter(tx).1[k]) && !e[k] by {
            assert(valid_tag(exc[k]));
            assert(!e[k]);
        }
    }
}

/// Every name is a valid tag that the answers say the task lacks.
spec fn excluded_absent(names: Seq<Seq<char>>, answers: Seq<bool>) -> bool {
    forall|k: int| 0 <= k < names.len() ==> valid_tag(#[trigger] names[k]) && !answers[k]
}

/// Answers that agree on the valid names agree on whether all are present.
proof fn lemma_present_agrees(names: Seq<Seq<char>>, a1: Seq<bool>, a2: Seq<bool>)
    requires
        a1.len() == names.len(),
        a2.len() == names.len(),
        forall|i: int| 0 <= i < names.len() && valid_tag(#[trigger] names[i]) ==> a1[i] == a2[i],
    ensures
        required_present(names, a1) == required_present(names, a2),
{
    assert forall|k: int| 0 <= k < names.len() implies (valid_tag(#[trigger] names[k]) && a1[k]) == (
        valid_tag(names[k]) && a2[k]) by {
        if valid_tag(names[k]) {
            assert(a1[k] == a2[k]);
        }
    }
}

/// Answers that agree on the valid names agree on whether all are absent.
proof fn lemma_absent_agrees(names: Seq<Seq<char>>, a1: Seq<bool>, a2: Seq<bool>)
    requires
        a1.len() == names.len(),
        a2.len() == names.len(),
        forall|i: int| 0 <= i < names.len() && valid_tag(#[trigger] names[i]) ==> a1[i] == a2[i],
    ensures
        excluded_absent(names, a1) == excluded_absent(names, a2),
{
    assert forall|k: int| 0 <= k < names.len() implies (valid_tag(#[trigger] names[k]) && !a1[k]) == (
        valid_tag(names[k]) && !a2[k]) by {
        if valid_tag(names[k]) {
            assert(a1[k] == a2[k]);
        }
    }
}

/// A verdict that fits a task: the filter's conditions taken with answers
/// that fit the task, with or without the empty filter's shortcut.
proof fn lemma_outcome_answers(t: Task, f: Seq<(Seq<char>, Seq<char>)>, row: Map<Seq<char>, Seq<char>>, keep: bool)
    -> (r: (Seq<bool>, Seq<bool>))
    requires
        filter_outcome(t, f, row, keep),
    ensures
        answers_fit(t, filter_tags(f).0, r.0),
        answers_fit(t, filter_tags(f).1, r.1),
        keep == filter_admits(row, f, task_project(t), r.0, r.1),
{
    let (hr, he) = choose|hr: Seq<bool>, he: Seq<bool>| #[trigger] verdict_with(t, f, row, keep, hr, he);
    if f.len() == 0 {
        assert(all_blank(f));
        lemma_blank_filter_admits_all(row, f, task_project(t), hr, he);
    }
    let r = (hr, he);
    assert(r.0 == hr && r.1 == he);
    r
}

/// Law: a filter gives a task one verdict only (every answer it can reach is
/// the same), where the filter names no `WAITING` tag or the task's `wait`
/// names no time, so that nothing rests on the clock.
pub proof fn lemma_verdict_is_determined(
    t: Task,
    f: Seq<(Seq<char>, Seq<char>)>,
    row: Map<Seq<char>, Seq<char>>,
    keep1: bool,
    keep2: bool,
)
    requires
        no_waiting(f) || !wait_is_time(task_properties(t)),
        filter_outcome(t, f, row, keep1),
        filter_outcome(t, f, row, keep2),
    ensures
        keep1 == keep2,
{
    let (hr1, he1) = lemma_outcome_answers(t, f, row, keep1);
    let (hr2, he2) = lemma_outcome_answers(t, f, row, keep2);
    lemma_tags_clause_agrees(f, t, hr1, he1, hr2, he2);
}

/// Law: adding a condition on a key that a filter does not yet hold never
/// lets a task through that the filter kept out (where nothing rests on the
/// clock: the filters name no `WAITING` tag or the task's `wait` names no
/// time).
pub proof fn lemma_more_conditions_never_admit_more(
    t: Task,
    f: Seq<(Seq<char>, Seq<char>)>,
    k: Seq<char>,
    v: Seq<char>,
    row: Map<Seq<char>, Seq<char>>,
    keep: bool,
    keep_more: bool,
)
    requires
        lookup(f, k) is None,
        no_waiting(f.push((k, v))) || !wait_is_time(task_properties(t)),
        filter_outcome(t, f, row, keep),
        filter_outcome(t, f.push((k, v)), row, keep_more),
    ensures
        keep_more ==> keep,
{
    let g = f.push((k, v));
    let p = task_project(t);
    let (hr1, he1) = lemma_outcome_answers(t, f, row, keep);
    let (hr2, he2) = lemma_outcome_answers(t, g, row, keep_more);
    lemma_more_conditions_narrow(row, f, k, v, p, hr2, he2);
    lemma_lookup_push(f, k, v, tags_key());
    if lookup(f, tags_key()) is Some {
        assert(filter_tags(g) == filter_tags(f));
        lemma_tags_clause_agrees(f, t, hr1, he1, hr2, he2);
    }
}

/// Law: for two filters with disjoint keys, a task passes their union
/// exactly when it passes each of them (where nothing rests on the clock:
/// the filters name no `WAITING` tag or the task's `wait` names no time).
pub proof fn lemma_union_of_disjoint_filters(
    t: Task,
    f1: Seq<(Seq<char>, Seq<char>)>,
    f2: Seq<(Seq<char>, Seq<char>)>,
    row: Map<Seq<char>, Seq<char>>,
    keep1: bool,
    keep2: bool,
    keep: bool,
)
    requires
        forall|k: Seq<char>| !(#[trigger] lookup(f1, k) is Some && lookup(f2, k) is Some),
        no_waiting(f1 + f2) || !wait_is_time(task_properties(t)),
        filter_outcome(t, f1, row, keep1),
        filter_outcome(t, f2, row, keep2),
        filter_outcome(t, f1 + f2, row, keep),
    ensures
        keep == (keep1 && keep2),
{
    let g = f1 + f2;
    let p = task_project(t);
    let (hr1, he1) = lemma_outcome_answers(t, f1, row, keep1);
    let (hr2, he2) = lemma_outcome_answers(t, f2, row, keep2);
    let (hr, he) = lemma_outcome_answers(t, g, row, keep);
    lemma_disjoint_filters_intersect(row, f1, f2, p, hr, he);
    lemma_lookup_concat(f1, f2, tags_key());
    assert(!(lookup(f1, tags_key()) is Some && lookup(f2, tags_key()) is Some));
    if lookup(f1, tags_key()) is Some {
        assert(filter_tags(g) == filter_tags(f1));
        lemma_tags_clause_agrees(f1, t, hr1, he1, hr, he);
    }
    if lookup(f2, tags_key()) is Some {
        assert(filter_tags(g) == filter_tags(f2));
        lemma_tags_clause_agrees(f2, t, hr2, he2, hr, he);
    }
}

/// The rows and verdicts that a query over `tasks` can reach: one row per
/// task (`task_row_outcome`) and one verdict per task (`filter_outcome`).
pub open spec fn query_outcome(
    tasks: Seq<Task>,
    filter: Seq<(Seq<char>, Seq<char>)>,
    rows: Seq<Map<Seq<char>, Seq<char>>>,
    keeps: Seq<bool>,
) -> bool {
    &&& rows.len() == tasks.len()
    &&& keeps.len() == tasks.len()
    &&& forall|i: int|
        #![trigger rows[i]]
        0 <= i < tasks.len() ==> task_row_outcome(tasks[i], rows[i]) && filter_outcome(
            tasks[i],
            filter,
            rows[i],
            keeps[i],
        )
}

/// Whether a query with a non-empty filter over `tasks` would come, for some
/// task and a row that the task can show, to read a `wait` that cannot be
/// read.
pub open spec fn query_reads_bad_wait(tasks: Seq<Task>, filter: Seq<(Seq<char>, Seq<char>)>) -> bool {
    filter.len() > 0 && exists|i: int, row: Map<Seq<char>, Seq<char>>|
        0 <= i < tasks.len() && #[trigger] task_row_outcome(tasks[i], row) && waiting_reached(
            tasks[i],
            row,
            filter,
        ) && !wait_readable(task_properties(tasks[i]))
}

/// `status` does not hold `tag_`.
proof fn lemma_status_key_is_plain()
    ensures
        !contains(status_key(), tag_key_prefix()),
{
    assert forall|i: int| !occurs_at(status_key(), tag_key_prefix(), i) by {
        if occurs_at(status_key(), tag_key_prefix(), i) {
            assert(status_key().subrange(i, i + 4)[3] == tag_key_prefix()[3]);
            assert(status_key()[i + 3] == '_');
        }
    }
}

/// Any two rows that a task can show agree on whether deciding a filter
/// comes to `WAITING`: they hold the same `uuid` and `status`.
proof fn lemma_task_rows_reach_alike(
    t: Task,
    r1: Map<Seq<char>, Seq<char>>,
    r2: Map<Seq<char>, Seq<char>>,
    f: Seq<(Seq<char>, Seq<char>)>,
)
    requires
        task_row_outcome(t, r1),
        task_row_outcome(t, r2),
    ensures
        waiting_reached(t, r1, f) == waiting_reached(t, r2, f),
{
    let h = hyphenated(task_uuid(t));
    let ps1 = choose|ps: Seq<(Seq<char>, Seq<char>)>|
        enumerates(ps, task_properties(t)) && r1 == row_map(h, ps);
    let ps2 = choose|ps: Seq<(Seq<char>, Seq<char>)>|
        enumerates(ps, task_properties(t)) && r2 == row_map(h, ps);
    lemma_row_fields(h, ps1);
    lemma_row_fields(h, ps2);
    lemma_status_key_is_plain();
    lemma_plain_key(ps1, status_key());
    lemma_plain_key(ps2, status_key());
    assert(status_key() != tags_key());
    assert(status_key() != uuid_key());
    assert(row_value(r1, uuid_key()) == row_value(r2, uuid_key()));
    assert(row_value(r1, status_key()) == row_value(r2, status_key()));
    assert(uuid_clause(r1, f) == uuid_clause(r2, f));
    assert(status_clause(r1, f) == status_clause(r2, f));
}

/// Whether a query with the filter over the tasks would come to read a
/// `wait` that cannot be read: the input that `query_rows` leaves out.
pub fn any_task_reads_bad_wait(tasks: &Vec<Task>, filter: &Vec<(String, String)>) -> (r: bool)
    ensures
        r == query_reads_bad_wait(tasks@, pair_views(filter@)),
{
    let ghost f = pair_views(filter@);
    assert(f.len() == filter@.len());
    if filter.len() == 0 {
        return false;
    }
    let mut i: usize = 0;
    while i < tasks.len()
        invariant
            f == pair_views(filter@),
            f.len() > 0,
            i <= tasks@.len(),
            forall|k: int, row: Map<Seq<char>, Seq<char>>|
                0 <= k < i && #[trigger] task_row_outcome(tasks@[k], row) ==> !(waiting_reached(
                    tasks@[k],
                    row,
                    f,
                ) && !wait_readable(task_properties(tasks@[k]))),
        decreases tasks@.len() - i,
    {
        let row = task_row_from_task(&tasks[i]);
        assert(task_row_outcome(tasks@[i as int], row@));
        if filter_reads_bad_wait(&tasks[i], &row, filter) {
            return true;
        }
        assert forall|k: int, other: Map<Seq<char>, Seq<char>>|
            0 <= k < i + 1 && #[trigger] task_row_outcome(tasks@[k], other) implies !(waiting_reached(
                tasks@[k],
                other,
                f,
            ) && !wait_readable(task_properties(tasks@[k]))) by {
            if k == i {
                lemma_task_rows_reach_alike(tasks@[k], row@, other, f);
            }
        }
        i += 1;
    }
    false
}

/// The rows of the tasks that pass the filter, in the order of `tasks`
/// (an empty filter passes every task). A query that would read a `wait`
/// outside chrono's range is left out, as in `task_matches_filter`;
/// `any_task_reads_bad_wait` tests for it.
pub fn query_rows(tasks: &Vec<Task>, filter: &Vec<(String, String)>) -> (r: Vec<TaskRow>)
    requires
        !query_reads_bad_wait(tasks@, pair_views(filter@)),
    ensures
        exists|rows: Seq<Map<Seq<char>, Seq<char>>>, keeps: Seq<bool>|
            query_outcome(tasks@, pair_views(filter@), rows, keeps) && row_views(r@) == kept(
                rows,
                keeps,
            ),
        all_blank(pair_views(filter@)) ==> r@.len() == tasks@.len(),
{
    let ghost f = pair_views(filter@);
    let ghost mut rows: Seq<Map<Seq<char>, Seq<char>>> = seq![];
    let ghost mut keeps: Seq<bool> = seq![];
    let mut out: Vec<TaskRow> = Vec::new();
    let mut i: usize = 0;
    while i < tasks.len()
        invariant
            f == pair_views(filter@),
            i <= tasks@.len(),
            query_outcome(tasks@.take(i as int), f, rows, keeps),
            row_views(out@) == kept(rows, keeps),
            all_blank(f) ==> out@.len() == i,
            !query_reads_bad_wait(tasks@, f),
        decreases tasks@.len() - i,
    {
        let row = task_row_from_task(&tasks[i]);
        let ghost rv = row@;
        assert(task_row_outcome(tasks@[i as int], rv));
        let keep = filter.len() == 0 || task_matches_filter(&tasks[i], &row, filter);
        proof {
            let proj = task_project(tasks@[i as int]);
            assert(f.len() == filter@.len());
            let tv = tasks@[i as int];
            if filter.len() == 0 {
                lemma_completed_answers_fit(tv, filter_tags(f).0, seq![]);
                lemma_completed_answers_fit(tv, filter_tags(f).1, seq![]);
                let no_r = completed_answers(tv, filter_tags(f).0, seq![]);
                let no_e = completed_answers(tv, filter_tags(f).1, seq![]);
                let v = filter_admits(rv, f, proj, no_r, no_e);
                assert(keep == (f.len() == 0 || v));
                assert(verdict_with(tv, f, rv, keep, no_r, no_e));
            } else {
                let (hr, he) = choose|hr: Seq<bool>, he: Seq<bool>|
                    #![trigger filter_admits(rv, f, proj, hr, he)]
                    answers_fit(tv, filter_tags(f).0, hr) && answers_fit(tv, filter_tags(f).1, he)
                        && keep == filter_admits(rv, f, proj, hr, he);
                assert(keep == (f.len() == 0 || filter_admits(rv, f, proj, hr, he)));
                if all_blank(f) {
                    lemma_blank_filter_admits_all(rv, f, proj, hr, he);
                }
                assert(verdict_with(tv, f, rv, keep, hr, he));
            }
            assert(filter_outcome(tasks@[i as int], f, rv, keep));
        }
        let ghost before = row_views(out@);
        let ghost old_rows = rows;
        let ghost old_keeps = keeps;
        if keep {
            out.push(row);
            assert(row_views(out@) =~= before.push(rv));
        }
        proof {
            rows = rows.push(rv);
            keeps = keeps.push(keep);
            assert(rows.drop_last() =~= old_rows);
            assert(keeps.drop_last() =~= old_keeps);
            assert(tasks@.take(i + 1).drop_last() =~= tasks@.take(i as int));
            assert forall|k: int| #![trigger rows[k]] 0 <= k < i + 1 implies task_row_outcome(
                tasks@.take(i + 1)[k],
                rows[k],
            ) && filter_outcome(tasks@.take(i + 1)[k], f, rows[k], keeps[k]) by {
                if k < i {
                    assert(old_rows[k] == rows[k]);
                    assert(tasks@.take(i as int)[k] == tasks@.take(i + 1)[k]);
                }
            }
        }
        i += 1;
    }
    assert(tasks@.take(tasks@.len() as int) =~= tasks@);
    out
}

/// The rows of the tasks that pass the filter, as `query_rows` gives them;
/// none where the query would read a `wait` outside chrono's range, the
/// input that `query_rows` leaves out.
pub fn query_rows_checked(tasks: &Vec<Task>, filter: &Vec<(String, String)>) -> (r: Option<Vec<TaskRow>>)
    ensures
        r is None <==> query_reads_bad_wait(tasks@, pair_views(filter@)),
        r matches Some(v) ==> exists|rows: Seq<Map<Seq<char>, Seq<char>>>, keeps: Seq<bool>|
            query_outcome(tasks@, pair_views(filter@), rows, keeps) && row_views(v@) == kept(
                rows,
                keeps,
            ),
        r matches Some(v) ==> (all_blank(pair_views(filter@)) ==> v@.len() == tasks@.len()),
{
    if any_task_reads_bad_wait(tasks, filter) {
        None
    } else {
        Some(query_rows(tasks, filter))
    }
}

} // verus!
