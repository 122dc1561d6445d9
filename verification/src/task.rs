use taskchampion::{Operation, Task};
use uuid::Uuid;
use vstd::prelude::*;

use crate::entries::{entries_map, keys_distinct, pair_views};
use crate::text::starts_with;

verus! {

#[verifier::external_type_specification]
#[verifier::external_body]
pub struct ExTask(Task);

#[verifier::external_type_specification]
#[verifier::external_body]
pub struct ExOperation(Operation);

/// The operations `new` begin with the operations `old`: a change only
/// appends to the record.
pub open spec fn appends(old: Seq<Operation>, new: Seq<Operation>) -> bool {
    old.len() <= new.len() && new.take(old.len() as int) == old
}

/// What an operation holds where it is an `Operation::Update` (taskchampion)
/// of one property of a task: the task's UUID, the property, and its new
/// value (none where it is removed); nothing for any other operation.
pub uninterp spec fn op_update(o: Operation) -> Option<(u128, Seq<char>, Option<Seq<char>>)>;

/// The properties `props` with the updates of `ops` made in turn; other
/// operations change nothing.
pub open spec fn replay(props: Map<Seq<char>, Seq<char>>, ops: Seq<Operation>) -> Map<Seq<char>, Seq<char>>
    decreases ops.len(),
{
    if ops.len() == 0 {
        props
    } else {
        let m = replay(props, ops.drop_last());
        match op_update(ops.last()) {
            Some((_, k, Some(v))) => m.insert(k, v),
            Some((_, k, None)) => m.remove(k),
            None => m,
        }
    }
}

/// Every operation of `ops` updates a property of the task with UUID `u`.
pub open spec fn updates_of(u: u128, ops: Seq<Operation>) -> bool {
    forall|i: int| 0 <= i < ops.len() ==> ((#[trigger] op_update(ops[i])) matches Some((w, _, _)) && w == u)
}

/// The operations `new` are `old` followed by updates of the task with UUID
/// `u` that, made in turn on the properties `before`, give `after`: the
/// record of that change.
pub open spec fn records(
    old: Seq<Operation>,
    new: Seq<Operation>,
    u: u128,
    before: Map<Seq<char>, Seq<char>>,
    after: Map<Seq<char>, Seq<char>>,
) -> bool {
    &&& appends(old, new)
    &&& updates_of(u, new.skip(old.len() as int))
    &&& replay(before, new.skip(old.len() as int)) == after
}

/// Replaying two lists of operations one after the other is replaying the
/// first, then the second.
pub proof fn lemma_replay_concat(m: Map<Seq<char>, Seq<char>>, x: Seq<Operation>, y: Seq<Operation>)
    ensures
        replay(m, x + y) == replay(replay(m, x), y),
    decreases y.len(),
{
    if y.len() == 0 {
        assert(x + y =~= x);
    } else {
        assert((x + y).drop_last() =~= x + y.drop_last());
        assert((x + y).last() == y.last());
        lemma_replay_concat(m, x, y.drop_last());
    }
}

/// Law: the records of two changes of a task, one after the other, are the
/// record of the whole change.
pub proof fn lemma_records_compose(
    a: Seq<Operation>,
    b: Seq<Operation>,
    c: Seq<Operation>,
    u: u128,
    m0: Map<Seq<char>, Seq<char>>,
    m1: Map<Seq<char>, Seq<char>>,
    m2: Map<Seq<char>, Seq<char>>,
)
    requires
        records(a, b, u, m0, m1),
        records(b, c, u, m1, m2),
    ensures
        records(a, c, u, m0, m2),
{
    let x = b.skip(a.len() as int);
    let y = c.skip(b.len() as int);
    assert(c.take(b.len() as int) == b);
    assert(c.take(a.len() as int) =~= c.take(b.len() as int).take(a.len() as int));
    assert(c.skip(a.len() as int) =~= x + y) by {
        assert forall|i: int| 0 <= i < x.len() implies #[trigger] c.skip(a.len() as int)[i] == x[i] by {
            assert(c[a.len() + i] == c.take(b.len() as int)[a.len() + i]);
        }
    }
    assert forall|i: int| 0 <= i < (x + y).len() implies ((#[trigger] op_update((x + y)[i])) matches Some((
        w,
        _,
        _,
    )) && w == u) by {
        if i < x.len() {
            assert((x + y)[i] == x[i]);
        } else {
            assert((x + y)[i] == y[i - x.len()]);
        }
    }
    lemma_replay_concat(m0, x, y);
}

/// Making no change records nothing.
pub proof fn lemma_records_nothing(ops: Seq<Operation>, u: u128, m: Map<Seq<char>, Seq<char>>)
    ensures
        records(ops, ops, u, m, m),
{
    assert(ops.take(ops.len() as int) =~= ops);
    assert(ops.skip(ops.len() as int) =~= Seq::<Operation>::empty());
}

/// `modified`, the property that records when a task last changed.
pub open spec fn modified_key() -> Seq<char> {
    seq!['m', 'o', 'd', 'i', 'f', 'i', 'e', 'd']
}

/// `description`, the property of a task's description.
pub open spec fn description_key() -> Seq<char> {
    seq!['d', 'e', 's', 'c', 'r', 'i', 'p', 't', 'i', 'o', 'n']
}

/// `due`, the property of a task's due time.
pub open spec fn due_key() -> Seq<char> {
    seq!['d', 'u', 'e']
}

/// `wait`, the property of the time until which a task waits.
pub open spec fn wait_key() -> Seq<char> {
    seq!['w', 'a', 'i', 't']
}

/// `start`, the property of the time at which a task was started.
pub open spec fn start_key() -> Seq<char> {
    seq!['s', 't', 'a', 'r', 't']
}

/// `priority`, the property of a task's priority.
pub open spec fn priority_key() -> Seq<char> {
    seq!['p', 'r', 'i', 'o', 'r', 'i', 't', 'y']
}

/// `status`, the property of a task's status.
pub open spec fn status_key() -> Seq<char> {
    seq!['s', 't', 'a', 't', 'u', 's']
}

/// `end`, the property of the time at which a task was completed or deleted.
pub open spec fn end_key() -> Seq<char> {
    seq!['e', 'n', 'd']
}

/// `project`, the property of a task's project.
pub open spec fn project_key() -> Seq<char> {
    seq!['p', 'r', 'o', 'j', 'e', 'c', 't']
}

/// The prefix of the property that records a user tag (`tag_<name>`).
pub open spec fn tag_key_prefix() -> Seq<char> {
    seq!['t', 'a', 'g', '_']
}

/// `pending`, how the status of a pending task is written.
pub open spec fn pending_text() -> Seq<char> {
    seq!['p', 'e', 'n', 'd', 'i', 'n', 'g']
}

/// `new` holds the same properties as `old`, except perhaps under the keys
/// `a`, `b` and `modified`.
pub open spec fn agree_outside(
    old: Map<Seq<char>, Seq<char>>,
    new: Map<Seq<char>, Seq<char>>,
    a: Seq<char>,
    b: Seq<char>,
) -> bool {
    forall|k: Seq<char>|
        k != a && k != b && k != modified_key() ==> (#[trigger] new.contains_key(k)
            == old.contains_key(k) && (old.contains_key(k) ==> new[k] == old[k]))
}

/// `new` is `old` with the property `key` set to `value` (removed for none),
/// and perhaps `modified` updated.
pub open spec fn set_to(
    old: Map<Seq<char>, Seq<char>>,
    new: Map<Seq<char>, Seq<char>>,
    key: Seq<char>,
    value: Option<Seq<char>>,
) -> bool {
    &&& agree_outside(old, new, key, key)
    &&& match value {
        Some(v) => new.contains_key(key) && new[key] == v,
        None => !new.contains_key(key),
    }
}

/// A decimal digit character.
pub open spec fn is_digit_char(c: char) -> bool {
    '0' <= c && c <= '9'
}

/// The value of a run of decimal digits.
pub open spec fn digits_value(s: Seq<char>) -> int
    decreases s.len(),
{
    if s.len() == 0 {
        0
    } else {
        digits_value(s.drop_last()) * 10 + ((s.last() as int) - ('0' as int))
    }
}

/// What `i64::from_str` gives for a text: an optional sign (`+` or `-`)
/// followed by one or more decimal digits, whose value lies within `i64`;
/// any other text gives nothing.
pub open spec fn i64_text(s: Seq<char>) -> Option<int> {
    let signed = s.len() > 0 && (s[0] == '+' || s[0] == '-');
    let body = if signed {
        s.drop_first()
    } else {
        s
    };
    if body.len() > 0 && forall|k: int| 0 <= k < body.len() ==> is_digit_char(#[trigger] body[k]) {
        let v = if s[0] == '-' {
            -digits_value(body)
        } else {
            digits_value(body)
        };
        if i64::MIN <= v && v <= i64::MAX {
            Some(v)
        } else {
            None
        }
    } else {
        None
    }
}

/// Parses a decimal integer (`<i64 as FromStr>::from_str`, std). Trusted:
/// as std documents `from_str_radix` in base 10: an optional `+` or `-`,
/// then one or more digits, whose value must fit in an `i64`; anything else
/// is refused.
#[verifier::external_body]
pub(crate) fn parse_i64(s: &str) -> (r: Option<i64>)
    ensures
        match r {
            Some(v) => i64_text(s@) == Some(v as int),
            None => i64_text(s@) is None,
        },
{
    s.parse::<i64>().ok()
}

/// Whether chrono can make a UTC date and time of so many seconds since the
/// epoch: from -262143-01-01T00:00:00 to +262142-12-31T23:59:59.
pub open spec fn chrono_secs_ok(secs: int) -> bool {
    -8334601228800 <= secs && secs <= 8210266876799
}

/// Whether a task's `wait` property can be read as a time without failing:
/// it is absent, or no integer, or an integer of seconds that chrono can
/// make a time of.
pub open spec fn wait_readable(props: Map<Seq<char>, Seq<char>>) -> bool {
    !props.contains_key(wait_key()) || match i64_text(props[wait_key()]) {
        Some(v) => chrono_secs_ok(v),
        None => true,
    }
}

/// Whether a task's `wait` property names a time at all (an integer).
pub open spec fn wait_is_time(props: Map<Seq<char>, Seq<char>>) -> bool {
    props.contains_key(wait_key()) && i64_text(props[wait_key()]) is Some
}

/// The properties (the task map) that a task holds, key by key.
pub uninterp spec fn task_properties(t: Task) -> Map<Seq<char>, Seq<char>>;

/// The UUID of a task, as a 128-bit number (most significant byte first).
pub uninterp spec fn task_uuid(t: Task) -> u128;

/// What `Uuid::parse_str` accepts and gives back, as a 128-bit number.
pub uninterp spec fn uuid_parse(s: Seq<char>) -> Option<u128>;

/// A lowercase hexadecimal digit.
pub open spec fn hex_digit(n: u128) -> char {
    seq!['0', '1', '2', '3', '4', '5', '6', '7', '8', '9', 'a', 'b', 'c', 'd', 'e', 'f'][n as int]
}

/// The `k`-th hexadecimal digit of `u`, counted from the most significant.
pub open spec fn nibble(u: u128, k: int) -> u128 {
    (u >> ((124 - 4 * k) as u128)) & 15u128
}

/// The positions of the hyphens in a hyphenated UUID.
pub open spec fn hyphen_at(j: int) -> bool {
    j == 8 || j == 13 || j == 18 || j == 23
}

/// Which hexadecimal digit stands at position `j` of a hyphenated UUID.
pub open spec fn digit_index(j: int) -> int {
    if j < 8 {
        j
    } else if j < 13 {
        j - 1
    } else if j < 18 {
        j - 2
    } else if j < 23 {
        j - 3
    } else {
        j - 4
    }
}

/// The hyphenated lowercase form of a UUID: 32 hexadecimal digits in groups
/// of 8, 4, 4, 4 and 12, joined by `-`.
pub open spec fn hyphenated(u: u128) -> Seq<char> {
    Seq::new(36, |j: int| if hyphen_at(j) { '-' } else { hex_digit(nibble(u, digit_index(j))) })
}

/// The keys of the task data model, other than those of tags, annotations and
/// dependencies.
pub open spec fn model_key(k: Seq<char>) -> bool {
    ||| k == seq!['d', 'e', 's', 'c', 'r', 'i', 'p', 't', 'i', 'o', 'n']
    ||| k == seq!['d', 'u', 'e']
    ||| k == seq!['m', 'o', 'd', 'i', 'f', 'i', 'e', 'd']
    ||| k == seq!['s', 't', 'a', 'r', 't']
    ||| k == seq!['s', 't', 'a', 't', 'u', 's']
    ||| k == seq!['p', 'r', 'i', 'o', 'r', 'i', 't', 'y']
    ||| k == seq!['w', 'a', 'i', 't']
    ||| k == seq!['e', 'n', 'd']
    ||| k == seq!['e', 'n', 't', 'r', 'y']
}

/// The keys that a user-defined attribute cannot have.
pub open spec fn known_key(k: Seq<char>) -> bool {
    ||| model_key(k)
    ||| starts_with(k, tag_key_prefix())
    ||| starts_with(k, seq!['a', 'n', 'n', 'o', 't', 'a', 't', 'i', 'o', 'n', '_'])
    ||| starts_with(k, seq!['d', 'e', 'p', '_'])
}

/// The properties of a task, in the order in which its map yields them
/// (`Task::get_taskmap`, taskchampion). Trusted: every property comes once,
/// and together they are the task's properties. The order is the walk order
/// of a hash map and is not stated.
#[verifier::external_body]
#[allow(deprecated)]
pub(crate) fn task_entries(t: &Task) -> (r: Vec<(String, String)>)
    ensures
        keys_distinct(pair_views(r@)),
        entries_map(pair_views(r@)) == task_properties(*t),
{
    t.get_taskmap().iter().map(|(k, v)| (k.clone(), v.clone())).collect()
}

/// The UUID of a task (`Task::get_uuid`, taskchampion), as a number. Trusted:
/// the result is the task's UUID, named `task_uuid`.
#[verifier::external_body]
pub(crate) fn task_uuid_value(t: &Task) -> (r: u128)
    ensures
        r == task_uuid(*t),
{
    t.get_uuid().as_u128()
}

/// The text of a UUID (`<Uuid as Display>`, uuid). Trusted: the text is the
/// hyphenated lowercase form of the number.
#[verifier::external_body]
pub(crate) fn uuid_text(u: u128) -> (r: String)
    ensures
        r@ == hyphenated(u),
{
    Uuid::from_u128(u).to_string()
}

/// Parses a UUID (`Uuid::parse_str`, uuid). Trusted: the result is what the
/// parser makes of the text, a function of the text alone named `uuid_parse`;
/// the formats that it accepts are not written out here.
#[verifier::external_body]
pub(crate) fn parse_uuid(s: &str) -> (r: Option<u128>)
    ensures
        r == uuid_parse(s@),
{
    match Uuid::parse_str(s) {
        Ok(u) => Some(u.as_u128()),
        Err(_) => None,
    }
}

/// A user-defined attribute of a task (`Task::get_user_defined_attribute`,
/// taskchampion). Trusted: nothing for a key of the task data model (or one
/// of a tag, annotation or dependency), else the task's property of that key.
#[verifier::external_body]
pub(crate) fn task_user_attribute(t: &Task, key: &str) -> (r: Option<String>)
    ensures
        r is Some <==> (!known_key(key@) && task_properties(*t).contains_key(key@)),
        r matches Some(v) ==> v@ == task_properties(*t)[key@],
{
    match t.get_user_defined_attribute(key) {
        Some(v) => Some(v.to_string()),
        None => None,
    }
}

} // verus!
