use std::str::FromStr;
use taskchampion::chrono::{DateTime, Utc};
use taskchampion::Task;
use vstd::prelude::*;

use crate::entries::{enumerates, lookup, lookup_value, pair_views};
use crate::tags::{parse_tag, valid_tag, TagName};
use crate::task::{chrono_secs_ok, parse_uuid, tag_key_prefix, task_entries, task_properties, uuid_parse};
use crate::text::{
    chars_of, chars_start_with, split_whitespace, split_ws, starts_with, string_of, string_views,
    sub_chars, trim, trim_chars, word_views,
};

verus! {

/// The statuses that an edit can give a task.
#[derive(Clone, Copy, Debug, PartialEq, Eq, Structural)]
pub enum TaskStatus {
    Pending,
    Completed,
    Deleted,
}

/// One change to a task. Times are UTC seconds and nanoseconds.
pub enum TaskEdit {
    SetStatus(TaskStatus),
    SetDescription(String),
    SetDue(Option<(i64, u32)>),
    SetWait(Option<(i64, u32)>),
    Start,
    Stop,
    SetPriority(String),
    AddTag(TagName),
    RemoveTag(TagName),
    /// Sets the `project` property as a plain value.
    SetProject(String),
    /// Sets the `project` property as a user-defined attribute.
    SetProjectAttribute(String),
}

/// What an edit does, with its texts as character sequences.
pub enum Edit {
    SetStatus(TaskStatus),
    SetDescription(Seq<char>),
    SetDue(Option<(i64, u32)>),
    SetWait(Option<(i64, u32)>),
    Start,
    Stop,
    SetPriority(Seq<char>),
    AddTag(Seq<char>),
    RemoveTag(Seq<char>),
    SetProject(Seq<char>),
    SetProjectAttribute(Seq<char>),
}

impl View for TaskEdit {
    type V = Edit;

    open spec fn view(&self) -> Edit {
        match self {
            TaskEdit::SetStatus(s) => Edit::SetStatus(*s),
            TaskEdit::SetDescription(s) => Edit::SetDescription(s@),
            TaskEdit::SetDue(t) => Edit::SetDue(*t),
            TaskEdit::SetWait(t) => Edit::SetWait(*t),
            TaskEdit::Start => Edit::Start,
            TaskEdit::Stop => Edit::Stop,
            TaskEdit::SetPriority(s) => Edit::SetPriority(s@),
            TaskEdit::AddTag(t) => Edit::AddTag(t@),
            TaskEdit::RemoveTag(t) => Edit::RemoveTag(t@),
            TaskEdit::SetProject(s) => Edit::SetProject(s@),
            TaskEdit::SetProjectAttribute(s) => Edit::SetProjectAttribute(s@),
        }
    }
}

/// The edits that a list holds.
pub open spec fn edit_views(es: Seq<TaskEdit>) -> Seq<Edit> {
    es.map_values(|e: TaskEdit| e@)
}

/// Why a request cannot be carried out.
#[derive(Debug)]
pub enum PlanError {
    /// The request names no task (`uuid` is missing).
    MissingUuid,
    /// The UUID does not parse.
    InvalidUuid,
    /// A tag name is not a valid tag.
    InvalidTag(String),
}

/// The reasons of `PlanError`, with the tag name as a character sequence.
pub enum PlanFailure {
    MissingUuid,
    InvalidUuid,
    InvalidTag(Seq<char>),
}

impl View for PlanError {
    type V = PlanFailure;

    open spec fn view(&self) -> PlanFailure {
        match self {
            PlanError::MissingUuid => PlanFailure::MissingUuid,
            PlanError::InvalidUuid => PlanFailure::InvalidUuid,
            PlanError::InvalidTag(n) => PlanFailure::InvalidTag(n@),
        }
    }
}

/// A new task: its UUID and the edits that fill it in.
pub struct AddPlan {
    pub uuid: u128,
    pub edits: Vec<TaskEdit>,
}

/// What `<DateTime<Utc> as FromStr>` makes of a text (seconds and
/// nanoseconds since the epoch), if it parses.
pub uninterp spec fn datetime_parse(s: Seq<char>) -> Option<(i64, u32)>;

/// Whether `DateTime::<Utc>::from_timestamp` accepts seconds and nanoseconds
/// since the epoch: the seconds must lie in chrono's range, and the
/// nanoseconds be under a second, or under two seconds in the last second
/// of a minute (a leap second).
pub open spec fn timestamp_valid(secs: i64, nanos: u32) -> bool {
    &&& chrono_secs_ok(secs as int)
    &&& (nanos < 1_000_000_000 || (nanos < 2_000_000_000 && (secs as int) % 60 == 59))
}

/// Parses a date and time (`<DateTime<Utc> as FromStr>::from_str`, chrono).
/// Trusted: the result is what the parser makes of the text, a function of
/// the text alone named `datetime_parse`; the formats it accepts are not
/// written out here. A parsed time is one that `DateTime::from_timestamp`
/// accepts: chrono's documentation has it round-trip through `timestamp`
/// and `timestamp_subsec_nanos`.
#[verifier::external_body]
fn parse_utc(s: &str) -> (r: Option<(i64, u32)>)
    ensures
        r == datetime_parse(s@),
        r matches Some((secs, nanos)) ==> timestamp_valid(secs, nanos),
{
    match DateTime::<Utc>::from_str(s) {
        Ok(d) => Some((d.timestamp(), d.timestamp_subsec_nanos())),
        Err(_) => None,
    }
}

/// The time that a field value names: none for a blank value, else what the
/// value parses to, if anything. (A time that the parser gives back is
/// always one that chrono accepts; the last test states it.)
pub open spec fn datetime_of(s: Seq<char>) -> Option<(i64, u32)> {
    if trim(s).len() == 0 {
        None
    } else {
        match datetime_parse(s) {
            Some((secs, nanos)) => if timestamp_valid(secs, nanos) {
                Some((secs, nanos))
            } else {
                None
            },
            None => None,
        }
    }
}

/// The time that a field value names: none for a blank value, else what the
/// value parses to as a UTC date and time, if anything.
pub fn parse_datetime(input: &str) -> (r: Option<(i64, u32)>)
    ensures
        r == datetime_of(input@),
{
    let cs = chars_of(input);
    let t = trim_chars(&cs);
    if t.len() == 0 {
        return None;
    }
    parse_utc(input)
}

/// The status that a value names: `completed` and `deleted` name theirs,
/// anything else is pending.
pub open spec fn status_of(v: Seq<char>) -> TaskStatus {
    if v == "completed"@ {
        TaskStatus::Completed
    } else if v == "deleted"@ {
        TaskStatus::Deleted
    } else {
        TaskStatus::Pending
    }
}

/// Whether a string holds the characters of a literal.
fn is(s: &String, lit: &str) -> (r: bool)
    ensures
        r == (s@ == lit@),
{
    *s == lit.to_owned()
}

/// The status that a value names: `completed` and `deleted` name theirs,
/// anything else is pending.
pub fn status_from_str(v: &String) -> (r: TaskStatus)
    ensures
        r == status_of(v@),
{
    if is(v, "completed") {
        TaskStatus::Completed
    } else if is(v, "deleted") {
        TaskStatus::Deleted
    } else {
        TaskStatus::Pending
    }
}

/// The edits that add (or remove) the named tags in turn; the first name that
/// is no valid tag, if any.
pub open spec fn tag_edits(names: Seq<Seq<char>>, add: bool) -> Result<Seq<Edit>, Seq<char>>
    decreases names.len(),
{
    if names.len() == 0 {
        Ok(seq![])
    } else {
        match tag_edits(names.drop_last(), add) {
            Err(e) => Err(e),
            Ok(es) => if valid_tag(names.last()) {
                Ok(
                    es.push(
                        if add {
                            Edit::AddTag(names.last())
                        } else {
                            Edit::RemoveTag(names.last())
                        },
                    ),
                )
            } else {
                Err(names.last())
            },
        }
    }
}

/// The edits for one field of a request. `existing` is none for a new task,
/// and for an existing one the names of the tags it has.
pub open spec fn entry_edits(existing: Option<Seq<Seq<char>>>, key: Seq<char>, value: Seq<char>) -> Result<
    Seq<Edit>,
    Seq<char>,
> {
    if key == "description"@ {
        Ok(seq![Edit::SetDescription(value)])
    } else if key == "due"@ {
        Ok(seq![Edit::SetDue(datetime_of(value))])
    } else if key == "start"@ {
        Ok(
            seq![
                if existing is Some && value == "stop"@ {
                    Edit::Stop
                } else {
                    Edit::Start
                },
            ],
        )
    } else if key == "wait"@ {
        Ok(seq![Edit::SetWait(datetime_of(value))])
    } else if key == "priority"@ {
        Ok(seq![Edit::SetPriority(value)])
    } else if key == "tags"@ {
        match existing {
            None => tag_edits(split_ws(value), true),
            Some(names) => match tag_edits(names, false) {
                Err(e) => Err(e),
                Ok(removed) => match tag_edits(split_ws(value), true) {
                    Err(e) => Err(e),
                    Ok(added) => Ok(removed + added),
                },
            },
        }
    } else if key == "project"@ {
        Ok(
            seq![
                if existing is Some {
                    Edit::SetProject(value)
                } else {
                    Edit::SetProjectAttribute(value)
                },
            ],
        )
    } else if key == "status"@ && existing is Some {
        Ok(seq![Edit::SetStatus(status_of(value))])
    } else {
        Ok(seq![])
    }
}

/// The edits for all fields of a request, in order; the first tag name that
/// fails, if any.
pub open spec fn entries_edits(existing: Option<Seq<Seq<char>>>, es: Seq<(Seq<char>, Seq<char>)>) -> Result<
    Seq<Edit>,
    Seq<char>,
>
    decreases es.len(),
{
    if es.len() == 0 {
        Ok(seq![])
    } else {
        match entries_edits(existing, es.drop_last()) {
            Err(e) => Err(e),
            Ok(acc) => match entry_edits(existing, es.last().0, es.last().1) {
                Err(e) => Err(e),
                Ok(x) => Ok(acc + x),
            },
        }
    }
}

/// The names of the tags that a task's properties hold (`tag_<name>`), in
/// the order of the properties.
pub open spec fn existing_tag_names(ps: Seq<(Seq<char>, Seq<char>)>) -> Seq<Seq<char>>
    decreases ps.len(),
{
    if ps.len() == 0 {
        seq![]
    } else if starts_with(ps.last().0, tag_key_prefix()) {
        existing_tag_names(ps.drop_last()).push(ps.last().0.skip(4))
    } else {
        existing_tag_names(ps.drop_last())
    }
}

/// What adding a task for a request gives: its UUID and edits, the first
/// edit making it pending; or why it fails.
pub open spec fn add_plan(es: Seq<(Seq<char>, Seq<char>)>) -> Result<(u128, Seq<Edit>), PlanFailure> {
    match lookup(es, "uuid"@) {
        None => Err(PlanFailure::MissingUuid),
        Some(u) => match uuid_parse(u) {
            None => Err(PlanFailure::InvalidUuid),
            Some(id) => match entries_edits(None, es) {
                Err(n) => Err(PlanFailure::InvalidTag(n)),
                Ok(x) => Ok((id, seq![Edit::SetStatus(TaskStatus::Pending)] + x)),
            },
        },
    }
}

/// What updating a task with properties `ps` for a request gives: its edits,
/// the first making it pending; or the first tag name that fails.
pub open spec fn update_plan(ps: Seq<(Seq<char>, Seq<char>)>, es: Seq<(Seq<char>, Seq<char>)>) -> Result<
    Seq<Edit>,
    Seq<char>,
> {
    match entries_edits(Some(existing_tag_names(ps)), es) {
        Err(n) => Err(n),
        Ok(x) => Ok(seq![Edit::SetStatus(TaskStatus::Pending)] + x),
    }
}

/// The edits that add (or remove) the named tags, or the first name that is
/// no valid tag.
fn make_tag_edits(names: &Vec<String>, add: bool) -> (r: Result<Vec<TaskEdit>, String>)
    ensures
        match r {
            Ok(v) => tag_edits(string_views(names@), add) == Ok::<Seq<Edit>, Seq<char>>(edit_views(v@)),
            Err(n) => tag_edits(string_views(names@), add) == Err::<Seq<Edit>, Seq<char>>(n@),
        },
{
    let ghost ns = string_views(names@);
    let mut out: Vec<TaskEdit> = Vec::new();
    let mut i: usize = 0;
    assert(ns.take(0) =~= Seq::<Seq<char>>::empty());
    assert(edit_views(out@) =~= Seq::<Edit>::empty());
    while i < names.len()
        invariant
            ns == string_views(names@),
            i <= names@.len(),
            tag_edits(ns.take(i as int), add) == Ok::<Seq<Edit>, Seq<char>>(edit_views(out@)),
        decreases names@.len() - i,
    {
        assert(ns.take(i + 1).drop_last() =~= ns.take(i as int));
        assert(ns.take(i + 1).last() == names@[i as int]@);
        let ghost before = edit_views(out@);
        match parse_tag(names[i].as_str()) {
            None => {
                proof {
                    lemma_tag_edits_err_extends(ns, add, i as int + 1);
                }
                return Err(names[i].clone());
            },
            Some(tag) => {
                if add {
                    out.push(TaskEdit::AddTag(tag));
                } else {
                    out.push(TaskEdit::RemoveTag(tag));
                }
                assert(edit_views(out@) =~= before.push(out@.last()@));
            },
        }
        i += 1;
    }
    assert(ns.take(names@.len() as int) =~= ns);
    Ok(out)
}

/// Once a prefix of the names fails, the whole list fails the same way.
proof fn lemma_tag_edits_err_extends(ns: Seq<Seq<char>>, add: bool, n: int)
    requires
        0 <= n <= ns.len(),
        tag_edits(ns.take(n), add) is Err,
    ensures
        tag_edits(ns, add) == tag_edits(ns.take(n), add),
    decreases ns.len() - n,
{
    if n < ns.len() {
        assert(ns.take(n + 1).drop_last() =~= ns.take(n));
        lemma_tag_edits_err_extends(ns, add, n + 1);
    } else {
        assert(ns.take(n) =~= ns);
    }
}


/// The names that an optional list of strings holds.
pub open spec fn names_view(names: Option<Vec<String>>) -> Option<Seq<Seq<char>>> {
    match names {
        Some(v) => Some(string_views(v@)),
        None => None,
    }
}

/// The words of a text, as strings.
pub fn words_of(s: &str) -> (r: Vec<String>)
    ensures
        string_views(r@) == split_ws(s@),
{
    let cs = chars_of(s);
    let ws = split_whitespace(&cs);
    let mut out: Vec<String> = Vec::new();
    let mut i: usize = 0;
    while i < ws.len()
        invariant
            i <= ws@.len(),
            word_views(ws@) == split_ws(s@),
            string_views(out@) == word_views(ws@).take(i as int),
        decreases ws@.len() - i,
    {
        let ghost before = string_views(out@);
        out.push(string_of(ws[i].as_slice()));
        assert(string_views(out@) =~= before.push(ws@[i as int]@));
        assert(word_views(ws@).take(i + 1) =~= word_views(ws@).take(i as int).push(ws@[i as int]@));
        i += 1;
    }
    assert(word_views(ws@).take(ws@.len() as int) =~= word_views(ws@));
    out
}

/// The names of the tags that a task's properties hold (`tag_<name>`), in
/// the order of the properties.
pub fn tag_names(props: &Vec<(String, String)>) -> (r: Vec<String>)
    ensures
        string_views(r@) == existing_tag_names(pair_views(props@)),
{
    let ghost ps = pair_views(props@);
    let prefix = chars_of("tag_");
    proof {
        reveal_strlit("tag_");
    }
    assert(prefix@ =~= tag_key_prefix());
    let mut out: Vec<String> = Vec::new();
    let mut i: usize = 0;
    assert(ps.take(0) =~= Seq::<(Seq<char>, Seq<char>)>::empty());
    while i < props.len()
        invariant
            ps == pair_views(props@),
            prefix@ == tag_key_prefix(),
            i <= props@.len(),
            string_views(out@) == existing_tag_names(ps.take(i as int)),
        decreases props@.len() - i,
    {
        assert(ps.take(i + 1).drop_last() =~= ps.take(i as int));
        assert(ps.take(i + 1).last() == ps[i as int]);
        let kc = chars_of(props[i].0.as_str());
        assert(kc@ == ps[i as int].0);
        let ghost before = string_views(out@);
        if chars_start_with(&kc, &prefix) {
            let name = sub_chars(&kc, 4, kc.len());
            assert(name@ =~= kc@.skip(4));
            out.push(string_of(name.as_slice()));
            assert(string_views(out@) =~= before.push(name@));
        }
        i += 1;
    }
    assert(ps.take(props@.len() as int) =~= ps);
    out
}

/// A list with one edit.
fn one(e: TaskEdit) -> (r: Vec<TaskEdit>)
    ensures
        edit_views(r@) == seq![e@],
{
    let mut v: Vec<TaskEdit> = Vec::new();
    v.push(e);
    assert(edit_views(v@) =~= seq![e@]);
    v
}

/// The edits for one field of a request.
fn make_entry_edits(existing: &Option<Vec<String>>, key: &String, value: &String) -> (r: Result<
    Vec<TaskEdit>,
    String,
>)
    ensures
        match r {
            Ok(v) => entry_edits(names_view(*existing), key@, value@) == Ok::<Seq<Edit>, Seq<char>>(edit_views(v@)),
            Err(n) => entry_edits(names_view(*existing), key@, value@) == Err::<Seq<Edit>, Seq<char>>(n@),
        },
{
    if is(key, "description") {
        Ok(one(TaskEdit::SetDescription(value.clone())))
    } else if is(key, "due") {
        Ok(one(TaskEdit::SetDue(parse_datetime(value.as_str()))))
    } else if is(key, "start") {
        if existing.is_some() && is(value, "stop") {
            Ok(one(TaskEdit::Stop))
        } else {
            Ok(one(TaskEdit::Start))
        }
    } else if is(key, "wait") {
        Ok(one(TaskEdit::SetWait(parse_datetime(value.as_str()))))
    } else if is(key, "priority") {
        Ok(one(TaskEdit::SetPriority(value.clone())))
    } else if is(key, "tags") {
        let words = words_of(value.as_str());
        match existing {
            None => make_tag_edits(&words, true),
            Some(names) => {
                let mut removed = match make_tag_edits(names, false) {
                    Ok(v) => v,
                    Err(n) => {
                        return Err(n);
                    },
                };
                let mut added = match make_tag_edits(&words, true) {
                    Ok(v) => v,
                    Err(n) => {
                        return Err(n);
                    },
                };
                let ghost rv = edit_views(removed@);
                let ghost av = edit_views(added@);
                removed.append(&mut added);
                assert(edit_views(removed@) =~= rv + av);
                Ok(removed)
            },
        }
    } else if is(key, "project") {
        if existing.is_some() {
            Ok(one(TaskEdit::SetProject(value.clone())))
        } else {
            Ok(one(TaskEdit::SetProjectAttribute(value.clone())))
        }
    } else if is(key, "status") && existing.is_some() {
        Ok(one(TaskEdit::SetStatus(status_from_str(value))))
    } else {
        let v: Vec<TaskEdit> = Vec::new();
        assert(edit_views(v@) =~= Seq::<Edit>::empty());
        Ok(v)
    }
}

/// Once a prefix of the fields fails, the whole request fails the same way.
proof fn lemma_entries_edits_err_extends(
    existing: Option<Seq<Seq<char>>>,
    es: Seq<(Seq<char>, Seq<char>)>,
    n: int,
)
    requires
        0 <= n <= es.len(),
        entries_edits(existing, es.take(n)) is Err,
    ensures
        entries_edits(existing, es) == entries_edits(existing, es.take(n)),
    decreases es.len() - n,
{
    if n < es.len() {
        assert(es.take(n + 1).drop_last() =~= es.take(n));
        lemma_entries_edits_err_extends(existing, es, n + 1);
    } else {
        assert(es.take(n) =~= es);
    }
}

/// The edits for all fields of a request, in order.
fn make_entries_edits(existing: &Option<Vec<String>>, entries: &Vec<(String, String)>) -> (r: Result<
    Vec<TaskEdit>,
    String,
>)
    ensures
        match r {
            Ok(v) => entries_edits(names_view(*existing), pair_views(entries@)) == Ok::<Seq<Edit>, Seq<char>>(
                edit_views(v@),
            ),
            Err(n) => entries_edits(names_view(*existing), pair_views(entries@)) == Err::<Seq<Edit>, Seq<char>>(n@),
        },
{
    let ghost es = pair_views(entries@);
    let ghost ex = names_view(*existing);
    let mut out: Vec<TaskEdit> = Vec::new();
    let mut i: usize = 0;
    assert(es.take(0) =~= Seq::<(Seq<char>, Seq<char>)>::empty());
    assert(edit_views(out@) =~= Seq::<Edit>::empty());
    while i < entries.len()
        invariant
            es == pair_views(entries@),
            ex == names_view(*existing),
            i <= entries@.len(),
            entries_edits(ex, es.take(i as int)) == Ok::<Seq<Edit>, Seq<char>>(edit_views(out@)),
        decreases entries@.len() - i,
    {
        assert(es.take(i + 1).drop_last() =~= es.take(i as int));
        assert(es.take(i + 1).last() == es[i as int]);
        let ghost before = edit_views(out@);
        match make_entry_edits(existing, &entries[i].0, &entries[i].1) {
            Err(n) => {
                proof {
                    lemma_entries_edits_err_extends(ex, es, i as int + 1);
                }
                return Err(n);
            },
            Ok(mut more) => {
                let ghost mv = edit_views(more@);
                out.append(&mut more);
                assert(edit_views(out@) =~= before + mv);
            },
        }
        i += 1;
    }
    assert(es.take(entries@.len() as int) =~= es);
    Ok(out)
}

/// Plans a new task from a request's fields (in the order in which its map
/// yields them): the task's UUID (field `uuid`), and its edits, the first
/// making it pending, then one per field: `description`, `due` and `wait`
/// (a date and time, none when blank or unparsable), `start`, `priority`,
/// `tags` (each whitespace-separated word added as a tag) and `project`.
/// Fails when `uuid` is missing or does not parse, or when a tag is invalid.
/// The entry points that add a task panic on an unparsable UUID or an
/// invalid tag, before anything is stored; the error is that point.
pub fn plan_add(entries: &Vec<(String, String)>) -> (r: Result<AddPlan, PlanError>)
    ensures
        match r {
            Ok(p) => add_plan(pair_views(entries@)) == Ok::<(u128, Seq<Edit>), PlanFailure>(
                (p.uuid, edit_views(p.edits@)),
            ),
            Err(e) => add_plan(pair_views(entries@)) == Err::<(u128, Seq<Edit>), PlanFailure>(e@),
        },
{
    let uk = "uuid".to_owned();
    let u = match lookup_value(entries, &uk) {
        Some(u) => u,
        None => {
            return Err(PlanError::MissingUuid);
        },
    };
    let id = match parse_uuid(u.as_str()) {
        Some(id) => id,
        None => {
            return Err(PlanError::InvalidUuid);
        },
    };
    plan_add_for(id, entries)
}

/// Plans a new task with UUID `id` from a request's fields, as `plan_add`
/// does once the UUID is known: its edits, the first making it pending, then
/// those of each field; fails when a tag is invalid.
pub fn plan_add_for(id: u128, entries: &Vec<(String, String)>) -> (r: Result<AddPlan, PlanError>)
    ensures
        match r {
            Ok(p) => p.uuid == id && entries_edits(None, pair_views(entries@)) is Ok && edit_views(
                p.edits@,
            ) == seq![Edit::SetStatus(TaskStatus::Pending)] + entries_edits(
                None,
                pair_views(entries@),
            )->Ok_0,
            Err(e) => entries_edits(None, pair_views(entries@)) is Err && e@ == PlanFailure::InvalidTag(
                entries_edits(None, pair_views(entries@))->Err_0,
            ),
        },
{
    let none: Option<Vec<String>> = None;
    let mut rest = match make_entries_edits(&none, entries) {
        Ok(v) => v,
        Err(n) => {
            return Err(PlanError::InvalidTag(n));
        },
    };
    let mut edits = one(TaskEdit::SetStatus(TaskStatus::Pending));
    let ghost first = edit_views(edits@);
    let ghost rv = edit_views(rest@);
    edits.append(&mut rest);
    assert(edit_views(edits@) =~= first + rv);
    Ok(AddPlan { uuid: id, edits })
}

/// Plans the update of a task with properties `props` (in the order in which
/// its map yields them) from a request's fields: first making it pending,
/// then one set of edits per field, as `plan_add` has them, except that
/// `start` with the value `stop` stops the task, `tags` first removes every
/// tag the task has and then adds each word, `project` sets a plain value,
/// and `status` sets the status it names. Fails when a tag is invalid.
pub fn plan_update(props: &Vec<(String, String)>, entries: &Vec<(String, String)>) -> (r: Result<
    Vec<TaskEdit>,
    PlanError,
>)
    ensures
        match r {
            Ok(v) => update_plan(pair_views(props@), pair_views(entries@)) == Ok::<Seq<Edit>, Seq<char>>(
                edit_views(v@),
            ),
            Err(e) => exists|n: Seq<char>|
                e@ == PlanFailure::InvalidTag(n) && update_plan(pair_views(props@), pair_views(entries@))
                    == Err::<Seq<Edit>, Seq<char>>(n),
        },
{
    let names = tag_names(props);
    let existing = Some(names);
    let mut rest = match make_entries_edits(&existing, entries) {
        Ok(v) => v,
        Err(n) => {
            return Err(PlanError::InvalidTag(n));
        },
    };
    let mut edits = one(TaskEdit::SetStatus(TaskStatus::Pending));
    let ghost first = edit_views(edits@);
    let ghost rv = edit_views(rest@);
    edits.append(&mut rest);
    assert(edit_views(edits@) =~= first + rv);
    Ok(edits)
}

/// Plans the update of a task from a request's fields, as `plan_update`
/// does with the task's properties. The entry points that update a task
/// panic on an invalid tag, before anything is stored; the error is that
/// point.
pub fn plan_update_for_task(task: &Task, entries: &Vec<(String, String)>) -> (r: Result<
    Vec<TaskEdit>,
    PlanError,
>)
    ensures
        exists|ps: Seq<(Seq<char>, Seq<char>)>|
            enumerates(ps, task_properties(*task)) && match r {
                Ok(v) => update_plan(ps, pair_views(entries@)) == Ok::<Seq<Edit>, Seq<char>>(
                    edit_views(v@),
                ),
                Err(e) => exists|n: Seq<char>|
                    e@ == PlanFailure::InvalidTag(n) && update_plan(ps, pair_views(entries@)) == Err::<
                        Seq<Edit>,
                        Seq<char>,
                    >(n),
            },
{
    let props = task_entries(task);
    let r = plan_update(&props, entries);
    assert(enumerates(pair_views(props@), task_properties(*task)));
    r
}

/// The UUID that a text names, as a task identifier. The entry points that
/// update or delete a task panic on a text that is no UUID, before anything
/// is stored; the error is that point.
pub fn parse_task_uuid(s: &str) -> (r: Result<u128, PlanError>)
    ensures
        match r {
            Ok(u) => uuid_parse(s@) == Some(u),
            Err(e) => uuid_parse(s@) is None && e is InvalidUuid,
        },
{
    match parse_uuid(s) {
        Some(u) => Ok(u),
        None => Err(PlanError::InvalidUuid),
    }
}

/// Law: when every word of a `tags` field is a valid tag, the field adds
/// each word as a tag, in order, and nothing else.
pub proof fn lemma_tags_field_adds_each_word(words: Seq<Seq<char>>)
    requires
        forall|k: int| 0 <= k < words.len() ==> valid_tag(#[trigger] words[k]),
    ensures
        tag_edits(words, true) == Ok::<Seq<Edit>, Seq<char>>(
            words.map_values(|w: Seq<char>| Edit::AddTag(w)),
        ),
    decreases words.len(),
{
    if words.len() > 0 {
        assert forall|k: int| 0 <= k < words.drop_last().len() implies valid_tag(
            #[trigger] words.drop_last()[k],
        ) by {
            assert(words.drop_last()[k] == words[k]);
        }
        lemma_tags_field_adds_each_word(words.drop_last());
        assert(valid_tag(words[words.len() - 1]));
        assert(words.map_values(|w: Seq<char>| Edit::AddTag(w)) =~= words.drop_last().map_values(
            |w: Seq<char>| Edit::AddTag(w),
        ).push(Edit::AddTag(words.last())));
    } else {
        assert(words.map_values(|w: Seq<char>| Edit::AddTag(w)) =~= Seq::<Edit>::empty());
    }
}
} // verus!
