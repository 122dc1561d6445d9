use taskchampion::Task;
use vstd::prelude::*;

use crate::entries::{
    entries_map, enumerates, find_key, keys_distinct, lemma_entries_map_keys,
    lemma_entries_map_value, pair_views, put_entry,
};
use crate::tags::{is_ascii_upper, valid_tag};
use crate::task::{
    hyphenated, pending_text, status_key, tag_key_prefix, task_entries, task_properties, task_uuid,
    task_uuid_value, uuid_text,
};
use crate::text::{
    chars_contain, chars_of, chars_start_with, owned_text, contains, is_ws, lemma_trim_keeps_inner, occurs_at,
    starts_with, string_of, sub_chars, trim, trim_chars,
};

verus! {

/// `tags`, the row key of a task's tags.
pub open spec fn tags_key() -> Seq<char> {
    seq!['t', 'a', 'g', 's']
}

/// `uuid`, the row key of a task's UUID.
pub open spec fn uuid_key() -> Seq<char> {
    seq!['u', 'u', 'i', 'd']
}

/// The properties that a row copies: all but those whose key holds `tag_`.
pub open spec fn plain_properties(ps: Seq<(Seq<char>, Seq<char>)>) -> Map<Seq<char>, Seq<char>>
    decreases ps.len(),
{
    if ps.len() == 0 {
        Map::empty()
    } else {
        let m = plain_properties(ps.drop_last());
        let p = ps.last();
        if contains(p.0, tag_key_prefix()) {
            m
        } else {
            m.insert(p.0, p.1)
        }
    }
}

/// The names of the tag properties (`tag_<name>`), each followed by a space,
/// in the order of the properties.
pub open spec fn tag_text(ps: Seq<(Seq<char>, Seq<char>)>) -> Seq<char>
    decreases ps.len(),
{
    if ps.len() == 0 {
        seq![]
    } else {
        tag_text(ps.drop_last()) + if starts_with(ps.last().0, tag_key_prefix()) {
            ps.last().0.skip(4).push(' ')
        } else {
            seq![]
        }
    }
}

/// The row of a task with UUID text `uuid` and properties `ps`: its plain
/// properties, `tags` (the tag names, separated by spaces), `uuid`, and
/// `status`, `pending` where the task records none.
pub open spec fn row_map(uuid: Seq<char>, ps: Seq<(Seq<char>, Seq<char>)>) -> Map<
    Seq<char>,
    Seq<char>,
> {
    let m = plain_properties(ps).insert(tags_key(), trim(tag_text(ps))).insert(uuid_key(), uuid);
    if m.contains_key(status_key()) {
        m
    } else {
        m.insert(status_key(), pending_text())
    }
}

/// One row of the task list: a map from keys to string values.
pub struct TaskRow {
    entries: Vec<(String, String)>,
}

impl TaskRow {
    #[verifier::type_invariant]
    spec fn keys_unique(self) -> bool {
        keys_distinct(pair_views(self.entries@))
    }

    /// The map that the row holds.
    pub closed spec fn as_map(self) -> Map<Seq<char>, Seq<char>> {
        entries_map(pair_views(self.entries@))
    }

    /// The value stored under `key`.
    pub fn get(&self, key: &str) -> (r: Option<String>)
        ensures
            r is Some <==> self@.contains_key(key@),
            r matches Some(v) ==> v@ == self@[key@],
    {
        proof {
            use_type_invariant(self);
        }
        let k = key.to_owned();
        let ghost ps = pair_views(self.entries@);
        match find_key(&self.entries, &k) {
            Some(i) => {
                proof {
                    lemma_entries_map_value(ps, i as int);
                }
                Some(self.entries[i].1.clone())
            },
            None => {
                proof {
                    lemma_entries_map_keys(ps, k@);
                }
                None
            },
        }
    }

    /// The row's pairs, each key once.
    pub fn pairs(&self) -> (r: &Vec<(String, String)>)
        ensures
            enumerates(pair_views(r@), self@),
    {
        proof {
            use_type_invariant(self);
        }
        &self.entries
    }

    /// The row's pairs, each key once.
    pub fn into_pairs(self) -> (r: Vec<(String, String)>)
        ensures
            enumerates(pair_views(r@), self@),
    {
        proof {
            use_type_invariant(&self);
        }
        self.entries
    }
}

impl View for TaskRow {
    type V = Map<Seq<char>, Seq<char>>;

    open spec fn view(&self) -> Map<Seq<char>, Seq<char>> {
        self.as_map()
    }
}

/// The row of a task with UUID text `uuid` and properties `props` (in the
/// order in which the task's map yields them).
pub fn row_from_properties(uuid: &str, props: &Vec<(String, String)>) -> (r: TaskRow)
    ensures
        r@ == row_map(uuid@, pair_views(props@)),
{
    let ghost ps = pair_views(props@);
    let prefix = chars_of("tag_");
    proof {
        reveal_strlit("tag_");
    }
    assert(prefix@ =~= tag_key_prefix());
    let mut es: Vec<(String, String)> = Vec::new();
    let mut tags: Vec<char> = Vec::new();
    let mut i: usize = 0;
    assert(ps.take(0) =~= Seq::<(Seq<char>, Seq<char>)>::empty());
    assert(pair_views(es@) =~= Seq::<(Seq<char>, Seq<char>)>::empty());
    while i < props.len()
        invariant
            ps == pair_views(props@),
            prefix@ == tag_key_prefix(),
            i <= props@.len(),
            keys_distinct(pair_views(es@)),
            entries_map(pair_views(es@)) == plain_properties(ps.take(i as int)),
            tags@ == tag_text(ps.take(i as int)),
        decreases props@.len() - i,
    {
        let kc = chars_of(props[i].0.as_str());
        assert(ps.take(i + 1).drop_last() =~= ps.take(i as int));
        assert(ps.take(i + 1).last() == ps[i as int]);
        let ghost before = tags@;
        assert(kc@ == ps[i as int].0);
        if chars_contain(&kc, &prefix) {
            if chars_start_with(&kc, &prefix) {
                let mut name = sub_chars(&kc, 4, kc.len());
                assert(name@ =~= kc@.skip(4));
                tags.append(&mut name);
                tags.push(' ');
                assert(tags@ =~= before + kc@.skip(4).push(' '));
            } else {
                assert(tags@ =~= before + Seq::<char>::empty());
            }
        } else {
            assert(!starts_with(kc@, prefix@)) by {
                if starts_with(kc@, prefix@) {
                    assert(kc@.subrange(0, 4) =~= kc@.take(4));
                    assert(occurs_at(kc@, prefix@, 0));
                }
            }
            put_entry(&mut es, props[i].0.clone(), props[i].1.clone());
            assert(tags@ =~= before + Seq::<char>::empty());
        }
        i += 1;
    }
    assert(ps.take(props@.len() as int) =~= ps);
    let trimmed = trim_chars(&tags);
    let tk = owned_text("tags");
    proof {
        reveal_strlit("tags");
    }
    assert(tk@ =~= tags_key());
    put_entry(&mut es, tk, string_of(trimmed.as_slice()));
    let uk = owned_text("uuid");
    proof {
        reveal_strlit("uuid");
    }
    assert(uk@ =~= uuid_key());
    put_entry(&mut es, uk, owned_text(uuid));
    let sk = owned_text("status");
    proof {
        reveal_strlit("status");
    }
    assert(sk@ =~= status_key());
    let ghost m = entries_map(pair_views(es@));
    match find_key(&es, &sk) {
        Some(j) => {
            proof {
                lemma_entries_map_keys(pair_views(es@), sk@);
            }
        },
        None => {
            proof {
                lemma_entries_map_keys(pair_views(es@), sk@);
            }
            let pv = owned_text("pending");
            proof {
                reveal_strlit("pending");
            }
            assert(pv@ =~= pending_text());
            put_entry(&mut es, sk, pv);
        },
    }
    TaskRow { entries: es }
}

/// The row of a task, as the task list shows it.
pub fn task_row_from_task(task: &Task) -> (r: TaskRow)
    ensures
        exists|ps: Seq<(Seq<char>, Seq<char>)>|
            enumerates(ps, task_properties(*task)) && r@ == row_map(
                hyphenated(task_uuid(*task)),
                ps,
            ),
{
    let props = task_entries(task);
    let id = uuid_text(task_uuid_value(task));
    let r = row_from_properties(id.as_str(), &props);
    assert(enumerates(pair_views(props@), task_properties(*task)));
    r
}


/// Law: every row holds `tags`, `uuid` and `status`; `uuid` is the task's
/// UUID text, `tags` its tag names, trimmed; `status` is `pending` unless the
/// task records a status.
pub proof fn lemma_row_fields(uuid: Seq<char>, ps: Seq<(Seq<char>, Seq<char>)>)
    ensures
        row_map(uuid, ps).contains_key(tags_key()),
        row_map(uuid, ps).contains_key(uuid_key()),
        row_map(uuid, ps).contains_key(status_key()),
        row_map(uuid, ps)[uuid_key()] == uuid,
        row_map(uuid, ps)[tags_key()] == trim(tag_text(ps)),
        !plain_properties(ps).contains_key(status_key()) ==> row_map(uuid, ps)[status_key()]
            == pending_text(),
{
    assert(tags_key() != uuid_key());
    assert(status_key() != uuid_key());
    assert(status_key() != tags_key());
}

/// The tag text of two lists of properties in a row is that of the first
/// followed by that of the second.
proof fn lemma_tag_text_append(a: Seq<(Seq<char>, Seq<char>)>, b: Seq<(Seq<char>, Seq<char>)>)
    ensures
        tag_text(a + b) == tag_text(a) + tag_text(b),
    decreases b.len(),
{
    if b.len() == 0 {
        assert(a + b =~= a);
    } else {
        assert((a + b).drop_last() =~= a + b.drop_last());
        lemma_tag_text_append(a, b.drop_last());
        assert((a + b).last() == b.last());
    }
}

/// A valid tag's name neither begins nor ends with whitespace.
proof fn lemma_valid_tag_trimmed(name: Seq<char>)
    requires
        valid_tag(name),
    ensures
        name.len() > 0,
        !is_ws(name[0]),
        !is_ws(name.last()),
{
    if forall|k: int| 0 <= k < name.len() ==> #[trigger] is_ascii_upper(name[k]) {
        assert(name.len() > 0);
        assert(is_ascii_upper(name[0]));
        assert(is_ascii_upper(name[name.len() - 1]));
    } else if name.len() > 1 {
        assert(!is_ws(name[name.len() - 1]));
    }
}

/// Law: every tag that a task's properties hold (`tag_<name>`, with a valid
/// tag name) appears in the `tags` field of its row.
pub proof fn lemma_row_lists_tags(uuid: Seq<char>, ps: Seq<(Seq<char>, Seq<char>)>, i: int)
    requires
        0 <= i < ps.len(),
        starts_with(ps[i].0, tag_key_prefix()),
        valid_tag(ps[i].0.skip(4)),
    ensures
        contains(row_map(uuid, ps)[tags_key()], ps[i].0.skip(4)),
{
    let name = ps[i].0.skip(4);
    lemma_valid_tag_trimmed(name);
    let a = ps.take(i);
    let b = ps.skip(i + 1);
    assert(ps =~= a + seq![ps[i]] + b);
    lemma_tag_text_append(a + seq![ps[i]], b);
    lemma_tag_text_append(a, seq![ps[i]]);
    assert(seq![ps[i]].drop_last() =~= Seq::<(Seq<char>, Seq<char>)>::empty());
    let one = seq![ps[i]];
    assert(one.last() == ps[i]);
    assert(tag_text(one.drop_last()) =~= Seq::<char>::empty());
    assert(tag_text(one) =~= Seq::<char>::empty() + name.push(' '));
    assert(tag_text(one) =~= name.push(' '));
    let x = tag_text(a);
    let y = seq![' '] + tag_text(b);
    assert(tag_text(ps) =~= x + name + y);
    lemma_trim_keeps_inner(x, name, y);
    lemma_row_fields(uuid, ps);
}
/// The maps that a list of rows holds.
pub open spec fn row_views(rs: Seq<TaskRow>) -> Seq<Map<Seq<char>, Seq<char>>> {
    rs.map_values(|r: TaskRow| r@)
}

/// The JSON text that `serde_json::to_string` writes for a list of rows, each
/// an object from its keys to their string values.
pub uninterp spec fn rows_json_text(rows: Seq<Map<Seq<char>, Seq<char>>>) -> Seq<char>;

/// Writes rows as JSON (`serde_json::to_string`, serde_json). Trusted: each
/// row becomes a `serde_json::Map`, which orders its keys itself, so the
/// text rests on the rows' maps alone and is named `rows_json_text`;
/// serde_json documents that writing fails only where a `Serialize` impl
/// fails or a map has keys that are no strings, neither of which can happen
/// to string maps, so a text always comes back.
#[verifier::external_body]
fn write_rows_json(rows: &Vec<TaskRow>) -> (r: Result<String, String>)
    ensures
        r is Ok,
        r matches Ok(text) ==> text@ == rows_json_text(row_views(rows@)),
{
    let objects: Vec<serde_json::Value> = rows.iter().map(|row| {
        serde_json::Value::Object(row.entries.iter().map(|(k, v)| (k.clone(), serde_json::Value::String(v.clone()))).collect())
    }).collect();
    serde_json::to_string(&objects).map_err(|e| e.to_string())
}

/// The JSON text of a list of rows: an array with one object per row, from
/// each key to its string value.
pub fn rows_to_json(rows: &Vec<TaskRow>) -> (r: String)
    ensures
        r@ == rows_json_text(row_views(rows@)),
{
    match write_rows_json(rows) {
        Ok(text) => text,
        Err(_) => String::new(),
    }
}

/// A key without `tag_` in it is copied to the row's plain properties as it
/// stands in the task's properties.
pub proof fn lemma_plain_key(ps: Seq<(Seq<char>, Seq<char>)>, k: Seq<char>)
    requires
        !contains(k, tag_key_prefix()),
    ensures
        plain_properties(ps).contains_key(k) == entries_map(ps).contains_key(k),
        plain_properties(ps).contains_key(k) ==> plain_properties(ps)[k] == entries_map(ps)[k],
    decreases ps.len(),
{
    if ps.len() > 0 {
        lemma_plain_key(ps.drop_last(), k);
    }
}

/// Law: every property whose key holds no `tag_` (other than `tags` and
/// `uuid`) stands in the row with its own value; in particular a recorded
/// `status` is the row's status.
pub proof fn lemma_row_keeps_plain_properties(uuid: Seq<char>, ps: Seq<(Seq<char>, Seq<char>)>, k: Seq<char>)
    requires
        entries_map(ps).contains_key(k),
        !contains(k, tag_key_prefix()),
        k != tags_key(),
        k != uuid_key(),
    ensures
        row_map(uuid, ps).contains_key(k),
        row_map(uuid, ps)[k] == entries_map(ps)[k],
{
    lemma_plain_key(ps, k);
}

} // verus!
