use vstd::prelude::*;

use crate::text::{int_text, push_char, push_i32};

verus! {

/// A task as the contracts see it.
pub ghost struct ItemView {
    pub id: i32,
    pub task: Seq<char>,
    pub completed: bool,
}

/// One to-do record.
pub struct TodoItem {
    pub id: i32,
    pub task: String,
    pub completed: bool,
}

impl View for TodoItem {
    type V = ItemView;

    open spec fn view(&self) -> ItemView {
        ItemView { id: self.id, task: self.task@, completed: self.completed }
    }
}

/// The words `true` and `false`.
pub open spec fn bool_text(b: bool) -> Seq<char> {
    if b {
        seq!['t', 'r', 'u', 'e']
    } else {
        seq!['f', 'a', 'l', 's', 'e']
    }
}

/// The line that shows an item to the user, without its line break:
/// `id: <id>, task: <task>, completed: <true|false>`.
pub open spec fn display_line(it: ItemView) -> Seq<char> {
    seq!['i', 'd', ':', ' '] + int_text(it.id as int) + seq![',', ' ', 't', 'a', 's', 'k', ':', ' ']
        + it.task + seq![',', ' ', 'c', 'o', 'm', 'p', 'l', 'e', 't', 'e', 'd', ':', ' ']
        + bool_text(it.completed)
}

/// The listing of a sequence of items: one display line each, each ended by a
/// line break.
pub open spec fn display_text(s: Seq<ItemView>) -> Seq<char>
    decreases s.len(),
{
    if s.len() == 0 {
        Seq::empty()
    } else {
        display_text(s.drop_last()) + display_line(s.last()).push('\n')
    }
}

/// Appends `lit`, a string literal, to `s`.
pub(crate) fn push_lit(s: &mut String, lit: &str)
    ensures
        final(s)@ == old(s)@ + lit@,
{
    s.append(lit);
}

/// Appends `true` or `false` to `s`.
pub fn push_bool(s: &mut String, b: bool)
    ensures
        final(s)@ == old(s)@ + bool_text(b),
{
    if b {
        proof {
            reveal_strlit("true");
        }
        push_lit(s, "true");
    } else {
        proof {
            reveal_strlit("false");
        }
        push_lit(s, "false");
    }
}

impl TodoItem {
    /// A separate item with the same fields.
    pub fn duplicate(&self) -> (r: TodoItem)
        ensures
            r@ == self@,
    {
        TodoItem { id: self.id, task: self.task.clone(), completed: self.completed }
    }

    /// Marks the item as done.
    pub fn complete(&mut self)
        ensures
            final(self)@ == (ItemView { completed: true, ..old(self)@ }),
    {
        self.completed = true;
    }

    /// The line that shows this item to the user.
    pub fn pretty_print(&self) -> (r: String)
        ensures
            r@ == display_line(self@),
    {
        let mut s = String::new();
        proof {
            reveal_strlit("id: ");
            reveal_strlit(", task: ");
            reveal_strlit(", completed: ");
        }
        push_lit(&mut s, "id: ");
        push_i32(&mut s, self.id);
        push_lit(&mut s, ", task: ");
        s.append(self.task.as_str());
        push_lit(&mut s, ", completed: ");
        push_bool(&mut s, self.completed);
        assert(s@ =~= display_line(self@));
        s
    }
}

/// The items after `complete_item(id)`: the matching ones marked done.
pub open spec fn completed_where(s: Seq<ItemView>, id: i32) -> Seq<ItemView> {
    s.map_values(|it: ItemView| mark_done(it, id))
}

/// The item after `complete_item(id)`.
pub open spec fn mark_done(it: ItemView, id: i32) -> ItemView {
    if it.id == id {
        ItemView { completed: true, ..it }
    } else {
        it
    }
}

/// Does the item not carry `id`?
pub open spec fn keeps(id: i32) -> spec_fn(ItemView) -> bool {
    |it: ItemView| it.id != id
}

/// The items after `delete_item(id)`: those with another id, in order.
pub open spec fn deleted_where(s: Seq<ItemView>, id: i32) -> Seq<ItemView> {
    s.filter(keeps(id))
}

/// The list of to-do records, in the order they were stored or added.
pub struct TodoList {
    pub items: Vec<TodoItem>,
}

impl View for TodoList {
    type V = Seq<ItemView>;

    open spec fn view(&self) -> Seq<ItemView> {
        self.items@.map_values(|it: TodoItem| it@)
    }
}

impl TodoList {
    /// An empty list.
    pub fn new_list() -> (r: Self)
        ensures
            r@ == Seq::<ItemView>::empty(),
    {
        let r = TodoList { items: Vec::new() };
        assert(r@ =~= Seq::<ItemView>::empty());
        r
    }

    /// Appends a new, not yet completed task whose id is the number of items
    /// the list held before.
    pub fn new_item(&mut self, task: String)
        requires
            old(self)@.len() <= i32::MAX,
        ensures
            final(self)@ == old(self)@.push(
                ItemView { id: old(self)@.len() as i32, task: task@, completed: false },
            ),
    {
        let next_id = self.items.len() as i32;
        let item = TodoItem { id: next_id, task, completed: false };
        self.items.push(item);
        assert(self@ =~= old(self)@.push(
            ItemView { id: old(self)@.len() as i32, task: task@, completed: false },
        ));
    }

    /// Marks every item whose id is `task_id` as done; the others are left as
    /// they were.
    pub fn complete_item(&mut self, task_id: i32)
        ensures
            final(self)@ == completed_where(old(self)@, task_id),
    {
        let ghost start = self@;
        let n = self.items.len();
        for i in 0..n
            invariant
                n == self.items.len(),
                start == old(self)@,
                start.len() == n,
                forall|k: int| 0 <= k < i ==> #[trigger] self.items@[k]@ == mark_done(start[k], task_id),
                forall|k: int| i <= k < n ==> #[trigger] self.items@[k]@ == start[k],
        {
            if self.items[i].id == task_id {
                let mut item = self.items[i].duplicate();
                item.complete();
                self.items.set(i, item);
            }
        }
        assert(self@ =~= completed_where(start, task_id));
    }

    /// Removes every item whose id is `task_id`, keeping the others in order.
    pub fn delete_item(&mut self, task_id: i32)
        ensures
            final(self)@ == deleted_where(old(self)@, task_id),
    {
        let ghost start = self@;
        let mut kept: Vec<TodoItem> = Vec::new();
        let n = self.items.len();
        for i in 0..n
            invariant
                n == self.items.len(),
                start == self@,
                kept@.map_values(|it: TodoItem| it@) == deleted_where(start.take(i as int), task_id),
        {
            proof {
                reveal(Seq::filter);
            }
            assert(start.take(i + 1).drop_last() =~= start.take(i as int));
            assert(start.take(i + 1).last() == self.items@[i as int]@);
            let ghost before = kept@.map_values(|it: TodoItem| it@);
            if self.items[i].id != task_id {
                let copy = self.items[i].duplicate();
                kept.push(copy);
                assert(kept@.map_values(|it: TodoItem| it@) =~= before.push(start[i as int]));
                assert(deleted_where(start.take(i + 1), task_id) == before.push(start[i as int]));
            } else {
                assert(deleted_where(start.take(i + 1), task_id) == before);
            }
        }
        assert(start.take(n as int) =~= start);
        self.items = kept;
    }

    /// The listing of all items, one display line each.
    pub fn print_items(&self) -> (r: String)
        ensures
            r@ == display_text(self@),
    {
        let mut s = String::new();
        for i in 0..self.items.len()
            invariant
                s@ == display_text(self@.take(i as int)),
        {
            let line = self.items[i].pretty_print();
            s.append(line.as_str());
            push_char(&mut s, '\n');
            assert(self@.take(i + 1).drop_last() =~= self@.take(i as int));
        }
        assert(self@.take(self.items.len() as int) =~= self@);
        s
    }
}

/// One user request.
pub enum Command {
    /// Add a task with this text.
    Add(String),
    /// Mark the tasks with this id as done.
    Complete(i32),
    /// Remove the tasks with this id.
    Delete(i32),
    /// Show the tasks; nothing changes.
    List,
}

impl TodoList {
    /// Carries out one request on the list.
    pub fn apply(&mut self, cmd: Command)
        requires
            cmd is Add ==> old(self)@.len() <= i32::MAX,
        ensures
            match cmd {
                Command::Add(task) => final(self)@ == old(self)@.push(
                    ItemView { id: old(self)@.len() as i32, task: task@, completed: false },
                ),
                Command::Complete(id) => final(self)@ == completed_where(old(self)@, id),
                Command::Delete(id) => final(self)@ == deleted_where(old(self)@, id),
                Command::List => final(self)@ == old(self)@,
            },
    {
        match cmd {
            Command::Add(task) => self.new_item(task),
            Command::Complete(id) => self.complete_item(id),
            Command::Delete(id) => self.delete_item(id),
            Command::List => {},
        }
    }
}

/// The item that adding `task` to `s` appends.
pub open spec fn added_item(s: Seq<ItemView>, task: Seq<char>) -> ItemView {
    ItemView { id: s.len() as i32, task, completed: false }
}

/// After a task is added, the listing is the former listing followed by the
/// new task's line, which shows it as not completed.
pub proof fn lemma_add_then_list(s: Seq<ItemView>, task: Seq<char>)
    ensures
        display_text(s.push(added_item(s, task))) == display_text(s) + display_line(
            added_item(s, task),
        ).push('\n'),
        display_line(added_item(s, task)) == seq!['i', 'd', ':', ' '] + int_text(s.len() as i32 as int)
            + seq![',', ' ', 't', 'a', 's', 'k', ':', ' '] + task + seq![
            ',',
            ' ',
            'c',
            'o',
            'm',
            'p',
            'l',
            'e',
            't',
            'e',
            'd',
            ':',
            ' ',
        ] + seq!['f', 'a', 'l', 's', 'e'],
{
    assert(s.push(added_item(s, task)).drop_last() =~= s);
}

/// Completing an id marks exactly the items with that id as done and changes
/// nothing else; when no item has that id the list is unchanged.
pub proof fn lemma_complete_marks(s: Seq<ItemView>, id: i32)
    ensures
        completed_where(s, id).len() == s.len(),
        forall|k: int|
            0 <= k < s.len() ==> {
                let r = #[trigger] completed_where(s, id)[k];
                &&& r.id == s[k].id
                &&& r.task == s[k].task
                &&& r.completed == (s[k].completed || s[k].id == id)
            },
        (forall|k: int| 0 <= k < s.len() ==> #[trigger] s[k].id != id) ==> completed_where(s, id)
            == s,
{
    if forall|k: int| 0 <= k < s.len() ==> #[trigger] s[k].id != id {
        assert(completed_where(s, id) =~= s);
    }
}

proof fn lemma_delete_absent(s: Seq<ItemView>, id: i32)
    requires
        forall|k: int| 0 <= k < s.len() ==> #[trigger] s[k].id != id,
    ensures
        deleted_where(s, id) == s,
    decreases s.len(),
{
    reveal(Seq::filter);
    if s.len() > 0 {
        let init = s.drop_last();
        assert forall|k: int| 0 <= k < init.len() implies #[trigger] init[k].id != id by {
            assert(init[k] == s[k]);
        }
        lemma_delete_absent(init, id);
        assert(init.push(s.last()) =~= s);
    }
}

/// Deleting an id leaves no item with that id and keeps every other item,
/// in order; when no item has that id the list is unchanged.
pub proof fn lemma_delete_removes(s: Seq<ItemView>, id: i32)
    ensures
        forall|k: int|
            0 <= k < deleted_where(s, id).len() ==> #[trigger] deleted_where(s, id)[k].id != id,
        forall|k: int| 0 <= k < s.len() && s[k].id != id ==> deleted_where(s, id).contains(#[trigger] s[k]),
        (forall|k: int| 0 <= k < s.len() ==> #[trigger] s[k].id != id) ==> deleted_where(s, id)
            == s,
{
    broadcast use Seq::lemma_filter_pred, Seq::lemma_filter_contains;

    if forall|k: int| 0 <= k < s.len() ==> #[trigger] s[k].id != id {
        lemma_delete_absent(s, id);
    }
    assert forall|k: int|
        0 <= k < deleted_where(s, id).len() implies #[trigger] deleted_where(s, id)[k].id != id by {
        assert(keeps(id)(s.filter(keeps(id))[k]));
    }
    assert forall|k: int| 0 <= k < s.len() && s[k].id != id implies deleted_where(s, id).contains(
        #[trigger] s[k],
    ) by {
        assert(keeps(id)(s[k]));
    }
}

} // verus!
