use std::str::FromStr;
use taskchampion::{Operations, Tag, Task};
use vstd::prelude::*;

use crate::task::{
    pending_text, records, set_to, start_key, status_key, tag_key_prefix, task_properties,
    task_uuid, wait_is_time, wait_readable,
};

use crate::text::{
    chars_of, is_word, is_ws, joined, lemma_split_at_space, lemma_split_joined,
    lemma_split_words_nonempty, split_whitespace, split_ws, string_of, string_views, sub_chars,
    word_views,
};

verus! {

#[verifier::external_type_specification]
#[verifier::external_body]
pub struct ExTag(Tag);

/// A word of a tag filter that names a required tag with a leading `+`.
pub open spec fn plus_word(w: Seq<char>) -> bool {
    w.len() > 1 && w[0] == '+'
}

/// A word of a tag filter that names an excluded tag with a leading `-`.
pub open spec fn minus_word(w: Seq<char>) -> bool {
    w.len() > 1 && w[0] == '-'
}

/// The required tags that a list of filter words names: `+tag` gives `tag`,
/// a bare word gives itself, `-tag` gives nothing.
pub open spec fn required_tags(words: Seq<Seq<char>>) -> Seq<Seq<char>>
    decreases words.len(),
{
    if words.len() == 0 {
        seq![]
    } else {
        let rest = required_tags(words.drop_last());
        let w = words.last();
        if plus_word(w) {
            rest.push(w.drop_first())
        } else if minus_word(w) {
            rest
        } else if w.len() > 0 {
            rest.push(w)
        } else {
            rest
        }
    }
}

/// The excluded tags that a list of filter words names: `-tag` gives `tag`.
pub open spec fn excluded_tags(words: Seq<Seq<char>>) -> Seq<Seq<char>>
    decreases words.len(),
{
    if words.len() == 0 {
        seq![]
    } else {
        let rest = excluded_tags(words.drop_last());
        let w = words.last();
        if minus_word(w) {
            rest.push(w.drop_first())
        } else {
            rest
        }
    }
}

/// The required and the excluded tags of a whitespace-separated tag filter.
pub open spec fn tag_filter(spec: Seq<char>) -> (Seq<Seq<char>>, Seq<Seq<char>>) {
    (required_tags(split_ws(spec)), excluded_tags(split_ws(spec)))
}

/// Splits a tag filter such as `"+work -home urgent"` into the tags it
/// requires (`+tag` or a bare `tag`) and the tags it excludes (`-tag`), each
/// list in the order of the filter's words.
pub fn parse_tag_filter(spec: &str) -> (r: (Vec<String>, Vec<String>))
    ensures
        string_views(r.0@) == tag_filter(spec@).0,
        string_views(r.1@) == tag_filter(spec@).1,
{
    let cs = chars_of(spec);
    let words = split_whitespace(&cs);
    let ghost ws = word_views(words@);
    let mut required: Vec<String> = Vec::new();
    let mut excluded: Vec<String> = Vec::new();
    let mut i: usize = 0;
    assert(ws.take(0) =~= Seq::<Seq<char>>::empty());
    while i < words.len()
        invariant
            ws == word_views(words@),
            ws == split_ws(spec@),
            i <= words@.len(),
            string_views(required@) == required_tags(ws.take(i as int)),
            string_views(excluded@) == excluded_tags(ws.take(i as int)),
        decreases words@.len() - i,
    {
        let w = &words[i];
        let ghost before_req = string_views(required@);
        let ghost before_exc = string_views(excluded@);
        assert(ws.take(i + 1).drop_last() =~= ws.take(i as int));
        assert(ws.take(i + 1).last() == w@);
        if w.len() > 1 && w[0] == '+' {
            let t = sub_chars(w, 1, w.len());
            assert(t@ =~= w@.drop_first());
            required.push(string_of(t.as_slice()));
            assert(string_views(required@) =~= before_req.push(t@));
            assert(string_views(excluded@) =~= before_exc);
        } else if w.len() > 1 && w[0] == '-' {
            let t = sub_chars(w, 1, w.len());
            assert(t@ =~= w@.drop_first());
            excluded.push(string_of(t.as_slice()));
            assert(string_views(excluded@) =~= before_exc.push(t@));
            assert(string_views(required@) =~= before_req);
        } else if w.len() > 0 {
            required.push(string_of(w.as_slice()));
            assert(string_views(required@) =~= before_req.push(w@));
            assert(string_views(excluded@) =~= before_exc);
        }
        i += 1;
    }
    assert(ws.take(words@.len() as int) =~= ws);
    (required, excluded)
}

/// Every word of a filter lands in exactly one of the two lists, provided
/// that no word is empty.
pub proof fn lemma_words_partition(words: Seq<Seq<char>>)
    requires
        forall|k: int| 0 <= k < words.len() ==> #[trigger] words[k].len() > 0,
    ensures
        required_tags(words).len() + excluded_tags(words).len() == words.len(),
    decreases words.len(),
{
    if words.len() > 0 {
        assert(words[words.len() - 1].len() > 0);
        lemma_words_partition(words.drop_last());
    }
}

/// Law: each word of a tag filter is counted once, as a required tag or as an
/// excluded one.
pub proof fn lemma_tag_filter_classifies_every_word(spec: Seq<char>)
    ensures
        tag_filter(spec).0.len() + tag_filter(spec).1.len() == split_ws(spec).len(),
{
    lemma_split_words_nonempty(spec, seq![]);
    lemma_words_partition(split_ws(spec));
}

/// The required and the excluded tags of two lists of words, one after the
/// other, are those of the first followed by those of the second.
proof fn lemma_tags_of_concat(a: Seq<Seq<char>>, b: Seq<Seq<char>>)
    ensures
        required_tags(a + b) == required_tags(a) + required_tags(b),
        excluded_tags(a + b) == excluded_tags(a) + excluded_tags(b),
    decreases b.len(),
{
    if b.len() == 0 {
        assert(a + b =~= a);
        assert(required_tags(a) + required_tags(b) =~= required_tags(a));
        assert(excluded_tags(a) + excluded_tags(b) =~= excluded_tags(a));
    } else {
        assert((a + b).drop_last() =~= a + b.drop_last());
        assert((a + b).last() == b.last());
        lemma_tags_of_concat(a, b.drop_last());
        let ra = required_tags(a);
        let rb = required_tags(b.drop_last());
        let ea = excluded_tags(a);
        let eb = excluded_tags(b.drop_last());
        let w = b.last();
        assert((ra + rb).push(w.drop_first()) =~= ra + rb.push(w.drop_first()));
        assert((ra + rb).push(w) =~= ra + rb.push(w));
        assert((ea + eb).push(w.drop_first()) =~= ea + eb.push(w.drop_first()));
    }
}

/// Law: the tag filter of two filters joined by a space requires the tags of
/// the first and then those of the second, and excludes likewise.
pub proof fn lemma_tag_filter_of_joined_filters(a: Seq<char>, b: Seq<char>)
    ensures
        tag_filter(a + seq![' '] + b) == (tag_filter(a).0 + tag_filter(b).0, tag_filter(a).1
            + tag_filter(b).1),
{
    lemma_split_at_space(a, b, seq![]);
    lemma_tags_of_concat(split_ws(a), split_ws(b));
}

/// Each name with a sign character in front.
pub open spec fn signed(names: Seq<Seq<char>>, sign: char) -> Seq<Seq<char>> {
    names.map_values(|t: Seq<char>| seq![sign] + t)
}

/// Names with `+` in front are all required, those with `-` in front all
/// excluded, provided that no name is empty.
proof fn lemma_signed_tags(names: Seq<Seq<char>>)
    requires
        forall|i: int| 0 <= i < names.len() ==> (#[trigger] names[i]).len() > 0,
    ensures
        required_tags(signed(names, '+')) == names,
        excluded_tags(signed(names, '+')) == Seq::<Seq<char>>::empty(),
        required_tags(signed(names, '-')) == Seq::<Seq<char>>::empty(),
        excluded_tags(signed(names, '-')) == names,
    decreases names.len(),
{
    if names.len() > 0 {
        let n = names.drop_last();
        assert forall|i: int| 0 <= i < n.len() implies (#[trigger] n[i]).len() > 0 by {
            assert(n[i] == names[i]);
        }
        lemma_signed_tags(n);
        assert(signed(names, '+').drop_last() =~= signed(n, '+'));
        assert(signed(names, '-').drop_last() =~= signed(n, '-'));
        let t = names.last();
        assert(names[names.len() - 1].len() > 0);
        assert((seq!['+'] + t).drop_first() =~= t);
        assert((seq!['-'] + t).drop_first() =~= t);
        assert(n.push(t) =~= names);
    } else {
        assert(signed(names, '+') =~= Seq::<Seq<char>>::empty());
        assert(signed(names, '-') =~= Seq::<Seq<char>>::empty());
    }
}

/// Law: a filter written as `+tag` for each required tag and `-tag` for each
/// excluded one, joined by spaces, gives back those tags, provided that each
/// is non-empty and holds no whitespace.
pub proof fn lemma_tag_filter_round_trip(required: Seq<Seq<char>>, excluded: Seq<Seq<char>>)
    requires
        forall|i: int| 0 <= i < required.len() ==> is_word(#[trigger] required[i]),
        forall|i: int| 0 <= i < excluded.len() ==> is_word(#[trigger] excluded[i]),
    ensures
        tag_filter(joined(signed(required, '+') + signed(excluded, '-'))) == (required, excluded),
{
    let ws = signed(required, '+') + signed(excluded, '-');
    assert forall|i: int| 0 <= i < ws.len() implies is_word(#[trigger] ws[i]) by {
        let sign = if i < required.len() {
            '+'
        } else {
            '-'
        };
        let t = if i < required.len() {
            required[i]
        } else {
            excluded[i - required.len()]
        };
        assert(ws[i] == seq![sign] + t);
        assert(is_word(t));
        assert forall|k: int| 0 <= k < ws[i].len() implies !is_ws(#[trigger] ws[i][k]) by {
            if k > 0 {
                assert(ws[i][k] == t[k - 1]);
            }
        }
    }
    lemma_split_joined(ws);
    assert forall|i: int| 0 <= i < required.len() implies (#[trigger] required[i]).len() > 0 by {
        assert(is_word(required[i]));
    }
    assert forall|i: int| 0 <= i < excluded.len() implies (#[trigger] excluded[i]).len() > 0 by {
        assert(is_word(excluded[i]));
    }
    lemma_signed_tags(required);
    lemma_signed_tags(excluded);
    lemma_tags_of_concat(signed(required, '+'), signed(excluded, '-'));
    assert(required + Seq::<Seq<char>>::empty() =~= required);
    assert(Seq::<Seq<char>>::empty() + excluded =~= excluded);
}

/// An ASCII capital letter.
pub open spec fn is_ascii_upper(c: char) -> bool {
    'A' <= c && c <= 'Z'
}

/// An ASCII digit.
pub open spec fn is_ascii_digit(c: char) -> bool {
    '0' <= c && c <= '9'
}

/// The characters that a tag may hold nowhere: `+-*/(<>^! %=~`.
pub open spec fn forbidden_in_tag(c: char) -> bool {
    ||| c == '+'
    ||| c == '-'
    ||| c == '*'
    ||| c == '/'
    ||| c == '('
    ||| c == '<'
    ||| c == '>'
    ||| c == '^'
    ||| c == '!'
    ||| c == ' '
    ||| c == '%'
    ||| c == '='
    ||| c == '~'
}

/// The names of the synthetic tags, all in capitals.
pub open spec fn synthetic_tag_name(s: Seq<char>) -> bool {
    ||| s == seq!['W', 'A', 'I', 'T', 'I', 'N', 'G']
    ||| s == seq!['A', 'C', 'T', 'I', 'V', 'E']
    ||| s == seq!['P', 'E', 'N', 'D', 'I', 'N', 'G']
    ||| s == seq!['C', 'O', 'M', 'P', 'L', 'E', 'T', 'E', 'D']
    ||| s == seq!['D', 'E', 'L', 'E', 'T', 'E', 'D']
    ||| s == seq!['B', 'L', 'O', 'C', 'K', 'E', 'D']
    ||| s == seq!['U', 'N', 'B', 'L', 'O', 'C', 'K', 'E', 'D']
    ||| s == seq!['B', 'L', 'O', 'C', 'K', 'I', 'N', 'G']
}

/// Whether a string names a tag: a word of capitals must be a synthetic tag's
/// name; any other is a user tag, non-empty, whose first character is no
/// whitespace, digit or forbidden character, and whose other characters are
/// no whitespace, `:` or forbidden character.
pub open spec fn valid_tag(s: Seq<char>) -> bool {
    if forall|k: int| 0 <= k < s.len() ==> #[trigger] is_ascii_upper(s[k]) {
        synthetic_tag_name(s)
    } else {
        &&& s.len() > 0
        &&& !is_ws(s[0])
        &&& !is_ascii_digit(s[0])
        &&& !forbidden_in_tag(s[0])
        &&& forall|k: int|
            1 <= k < s.len() ==> !(is_ws(#[trigger] s[k]) || s[k] == ':' || forbidden_in_tag(s[k]))
    }
}

/// A name made of capitals only: the form of a synthetic tag's name.
pub open spec fn all_capitals(s: Seq<char>) -> bool {
    forall|k: int| 0 <= k < s.len() ==> #[trigger] is_ascii_upper(s[k])
}

/// A tag, together with the name that it was parsed from. `parse_tag` is the
/// only place that makes one, so the tag is what `Tag::from_str` makes of the
/// name; the name is a valid tag name (the type invariant).
pub struct TagName {
    name: String,
    tag: Tag,
}

impl View for TagName {
    type V = Seq<char>;

    closed spec fn view(&self) -> Seq<char> {
        self.name@
    }
}

impl TagName {
    /// Every `TagName` holds a valid tag name.
    #[verifier::type_invariant]
    spec fn name_is_valid(self) -> bool {
        valid_tag(self.name@)
    }

    /// The name of the tag, a valid tag name.
    pub fn name(&self) -> (r: &String)
        ensures
            r@ == self@,
            valid_tag(r@),
    {
        proof {
            use_type_invariant(self);
        }
        &self.name
    }
}

/// Parses a tag with `<Tag as FromStr>::from_str` (taskchampion) and keeps
/// the name beside it. Trusted: a tag comes back exactly when the string is a
/// valid tag name, as the rules in taskchampion's `Tag` documentation and
/// source give them, and its name is the string. This is the only place that
/// makes a `TagName`, so every `TagName` holds the tag parsed from its name.
#[verifier::external_body]
pub(crate) fn parse_tag(s: &str) -> (r: Option<TagName>)
    ensures
        r is Some <==> valid_tag(s@),
        r matches Some(t) ==> t@ == s@,
{
    match Tag::from_str(s) {
        Ok(tag) => Some(TagName { name: s.to_string(), tag }),
        Err(_) => None,
    }
}

/// `WAITING`, the synthetic tag of a task whose wait time lies ahead.
pub open spec fn waiting_name() -> Seq<char> {
    seq!['W', 'A', 'I', 'T', 'I', 'N', 'G']
}

/// `BLOCKED`, the synthetic tag of a task with an unresolved dependency.
pub open spec fn blocked_name() -> Seq<char> {
    seq!['B', 'L', 'O', 'C', 'K', 'E', 'D']
}

/// `BLOCKING`, the synthetic tag of a task that another unresolved task
/// depends on.
pub open spec fn blocking_name() -> Seq<char> {
    seq!['B', 'L', 'O', 'C', 'K', 'I', 'N', 'G']
}

/// What `Task::has_tag` answers for the synthetic tags that rest on the
/// replica's dependency map, which the task value carries (`BLOCKED` and
/// `BLOCKING`).
pub uninterp spec fn dependency_tag(t: Task, name: Seq<char>) -> bool;

/// Whether the status in a task's properties is `s` (a task without a status
/// is pending).
pub open spec fn status_is(props: Map<Seq<char>, Seq<char>>, s: Seq<char>) -> bool {
    if props.contains_key(status_key()) {
        props[status_key()] == s
    } else {
        s == pending_text()
    }
}

/// Whether task `t` carries the tag `name`, for every tag but `WAITING`: a
/// user tag where the property `tag_<name>` is present; `PENDING`,
/// `COMPLETED` and `DELETED` by the status; `ACTIVE` where `start` is
/// present; `BLOCKED`, `UNBLOCKED` (the opposite of `BLOCKED`) and `BLOCKING`
/// by the dependency map.
pub open spec fn carries_tag(t: Task, name: Seq<char>) -> bool {
    let props = task_properties(t);
    if !all_capitals(name) {
        props.contains_key(tag_key_prefix() + name)
    } else if name == seq!['P', 'E', 'N', 'D', 'I', 'N', 'G'] {
        status_is(props, pending_text())
    } else if name == seq!['C', 'O', 'M', 'P', 'L', 'E', 'T', 'E', 'D'] {
        status_is(props, seq!['c', 'o', 'm', 'p', 'l', 'e', 't', 'e', 'd'])
    } else if name == seq!['D', 'E', 'L', 'E', 'T', 'E', 'D'] {
        status_is(props, seq!['d', 'e', 'l', 'e', 't', 'e', 'd'])
    } else if name == seq!['A', 'C', 'T', 'I', 'V', 'E'] {
        props.contains_key(start_key())
    } else if name == blocked_name() || name == blocking_name() {
        dependency_tag(t, name)
    } else if name == seq!['U', 'N', 'B', 'L', 'O', 'C', 'K', 'E', 'D'] {
        !dependency_tag(t, blocked_name())
    } else {
        false
    }
}

/// Whether a task carries a tag (`Task::has_tag`, taskchampion). Trusted, for
/// a valid tag name, from the source: a user tag (a name not all in
/// capitals) is carried where the property `tag_<name>` is present;
/// `PENDING`, `COMPLETED` and `DELETED` compare the status (`pending` where
/// there is none); `ACTIVE` tests for `start`; `BLOCKED`, `UNBLOCKED` and
/// `BLOCKING` ask the dependency map inside the task value, whose answer is
/// named `dependency_tag`. `WAITING` reads `wait` as an integer of seconds
/// and compares that time with the clock: a task whose `wait` is absent or
/// no integer is not waiting; beyond that only that a waiting task has such
/// a `wait` is stated. Reading a `wait` outside chrono's range panics in
/// taskchampion, so that input is left out.
#[verifier::external_body]
pub(crate) fn task_has_tag(t: &Task, tag: &TagName) -> (r: bool)
    requires
        tag@ == waiting_name() ==> wait_readable(task_properties(*t)),
    ensures
        valid_tag(tag@) && tag@ != waiting_name() ==> r == carries_tag(*t, tag@),
        tag@ == blocked_name() || tag@ == blocking_name() ==> r == dependency_tag(*t, tag@),
        tag@ == waiting_name() && r ==> wait_is_time(task_properties(*t)),
{
    t.has_tag(&tag.tag)
}

/// Adds a tag to a task (`Task::add_tag`, taskchampion). Trusted: a synthetic
/// tag (a name all in capitals) is refused and nothing changes; a user tag
/// sets the property `tag_<name>` to the empty string, and may set
/// `modified` to the current time; no other property changes, nor the UUID.
/// Every change goes through `TaskData::update`, which pushes onto `ops` one
/// `Operation::Update` naming the task, a property and its new value; so
/// `ops` gains exactly those updates, in order (`records`); their timestamps
/// are not stated.
#[verifier::external_body]
pub(crate) fn task_add_tag(t: &mut Task, tag: &TagName, ops: &mut Operations)
    ensures
        task_uuid(*final(t)) == task_uuid(*old(t)),
        records(
            old(ops)@,
            final(ops)@,
            task_uuid(*old(t)),
            task_properties(*old(t)),
            task_properties(*final(t)),
        ),
        all_capitals(tag@) ==> task_properties(*final(t)) == task_properties(*old(t)),
        !all_capitals(tag@) ==> set_to(
            task_properties(*old(t)),
            task_properties(*final(t)),
            tag_key_prefix() + tag@,
            Some(Seq::<char>::empty()),
        ),
{
    let _ = t.add_tag(&tag.tag, ops);
}

/// Removes a tag from a task (`Task::remove_tag`, taskchampion). Trusted: a
/// synthetic tag is refused and nothing changes; a user tag removes the
/// property `tag_<name>`, and may set `modified` to the current time; no
/// other property changes, nor the UUID.
/// every change goes through `TaskData::update`, which pushes onto `ops` one
/// `Operation::Update` naming the task, a property and its new value; so
/// `ops` gains exactly those updates, in order (`records`); their timestamps
/// are not stated.
#[verifier::external_body]
pub(crate) fn task_remove_tag(t: &mut Task, tag: &TagName, ops: &mut Operations)
    ensures
        task_uuid(*final(t)) == task_uuid(*old(t)),
        records(
            old(ops)@,
            final(ops)@,
            task_uuid(*old(t)),
            task_properties(*old(t)),
            task_properties(*final(t)),
        ),
        all_capitals(tag@) ==> task_properties(*final(t)) == task_properties(*old(t)),
        !all_capitals(tag@) ==> set_to(
            task_properties(*old(t)),
            task_properties(*final(t)),
            tag_key_prefix() + tag@,
            None,
        ),
{
    let _ = t.remove_tag(&tag.tag, ops);
}

} // verus!
