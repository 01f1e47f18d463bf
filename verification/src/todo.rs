//! The JSON texts of the to-do service.
use vstd::prelude::*;
use crate::text::{decimal_i64, signed_decimal};

verus! {

/// A stored to-do item: its id, its text and its `completed` column.
#[derive(Debug)]
pub struct TodoRow {
    pub id: i64,
    pub text: String,
    pub completed: i64,
}

/// The JSON word for a stored `completed` column: `0` is `false` and `1` is
/// `true`.
pub open spec fn completed_word(flag: int) -> Seq<char> {
    if flag == 0 {
        "false"@
    } else {
        "true"@
    }
}

/// The JSON word for the stored `completed` column `flag`, which is 0 or 1.
pub fn completed_text(flag: i64) -> (w: &'static str)
    requires
        flag == 0 || flag == 1,
    ensures
        w@ == completed_word(flag as int),
{
    if flag == 0 {
        "false"
    } else {
        "true"
    }
}

/// The `completed` column stored for a `completed` value.
pub open spec fn completed_value(done: bool) -> int {
    if done {
        1
    } else {
        0
    }
}

/// The `completed` column to store for `done`.
pub fn completed_flag(done: bool) -> (f: i64)
    ensures
        f == completed_value(done),
{
    if done {
        1
    } else {
        0
    }
}

/// The JSON object of one item.
pub open spec fn item_text(id: int, text: Seq<char>, completed: Seq<char>) -> Seq<char> {
    "{\"id\": "@ + signed_decimal(id) + ", \"text\": \""@ + text + "\", \"completed\": "@ + completed
        + "}"@
}

/// The JSON object of the item `id` with `text`, completed as the JSON word
/// `completed` says.
pub fn item_json(id: i64, text: &str, completed: &str) -> (s: String)
    ensures
        s@ == item_text(id as int, text@, completed@),
{
    let mut s = String::from_str("{\"id\": ");
    let n = decimal_i64(id);
    s.append(n.as_str());
    s.append(", \"text\": \"");
    s.append(text);
    s.append("\", \"completed\": ");
    s.append(completed);
    s.append("}");
    s
}

/// The answer about a single item: the item's object under `todo`.
pub open spec fn single_text(id: int, text: Seq<char>, completed: Seq<char>) -> Seq<char> {
    "{\"todo\": "@ + item_text(id, text, completed) + "}"@
}

/// The answer about the item `id` with `text`, completed as `completed` says.
pub fn todo_json(id: i64, text: &str, completed: &str) -> (s: String)
    ensures
        s@ == single_text(id as int, text@, completed@),
{
    let mut s = String::from_str("{\"todo\": ");
    let item = item_json(id, text, completed);
    s.append(item.as_str());
    s.append("}");
    s
}

/// Every row's `completed` column is 0 or 1.
pub open spec fn flags_ok(rows: Seq<TodoRow>) -> bool {
    forall|i: int| 0 <= i < rows.len() ==> (#[trigger] rows[i]).completed == 0 || rows[i].completed
        == 1
}

/// Each row's object followed by a comma, in order.
pub open spec fn items_text(rows: Seq<TodoRow>) -> Seq<char>
    decreases rows.len(),
{
    if rows.len() == 0 {
        Seq::empty()
    } else {
        items_text(rows.drop_last()) + item_text(
            rows.last().id as int,
            rows.last().text@,
            completed_word(rows.last().completed as int),
        ) + ","@
    }
}

/// The answer that lists the rows: the list is built with a comma after
/// each item, then its last character is dropped (the last comma, or the
/// opening bracket of an empty list) before the closing brackets.
pub open spec fn list_text(rows: Seq<TodoRow>) -> Seq<char> {
    ("{\"todo\": ["@ + items_text(rows)).drop_last() + "]}"@
}

/// Drops the last character of `s`, as `String::pop` does.
#[verifier::external_body]
fn pop_char(s: &mut String)
    requires
        old(s)@.len() > 0,
    ensures
        final(s)@ == old(s)@.drop_last(),
{
    s.pop();
}

/// The answer that lists the stored items `rows`.
pub fn todo_list_json(rows: &Vec<TodoRow>) -> (s: String)
    requires
        flags_ok(rows@),
    ensures
        s@ == list_text(rows@),
{
    let mut msg = String::from_str("{\"todo\": [");
    let ghost start = msg@;
    let mut i: usize = 0;
    while i < rows.len()
        invariant
            i <= rows@.len(),
            flags_ok(rows@),
            msg@ == start + items_text(rows@.take(i as int)),
        decreases rows@.len() - i,
    {
        let r = &rows[i];
        assert(r.completed == 0 || r.completed == 1);
        let word = completed_text(r.completed);
        let item = item_json(r.id, r.text.as_str(), word);
        msg.append(item.as_str());
        msg.append(",");
        assert(rows@.take(i + 1).drop_last() =~= rows@.take(i as int));
        assert(rows@.take(i + 1).last() == rows@[i as int]);
        i = i + 1;
    }
    assert(rows@.take(rows@.len() as int) =~= rows@);
    proof {
        reveal_strlit("{\"todo\": [");
    }
    assert(msg@.len() > 0);
    pop_char(&mut msg);
    msg.append("]}");
    msg
}

/// The `completed` value that an update stores reads back as the same JSON
/// boolean.
pub proof fn law_completed_round_trip(done: bool)
    ensures
        completed_word(completed_value(done)) == (if done {
            "true"@
        } else {
            "false"@
        }),
{
}

} // verus!
