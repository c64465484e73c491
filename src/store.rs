use vstd::prelude::*;

use crate::text::{
    chars_of, int_text, lacks, lemma_parse_int_text, lemma_split_on_append, lemma_split_on_sep,
    lemma_split_on_whole, parse_i32, parse_i32_chars, push_char, push_i32, split_chars,
    split_on, string_of,
};
use crate::todo::{bool_text, push_bool, ItemView, TodoItem, TodoList};

verus! {

/// A stored record, without its line break: `<id>,<task>,<true|false>`.
pub open spec fn record_text(it: ItemView) -> Seq<char> {
    int_text(it.id as int) + seq![','] + it.task + seq![','] + bool_text(it.completed)
}

/// The stored form of a list: one record per line, each ended by a line break.
pub open spec fn list_text(s: Seq<ItemView>) -> Seq<char>
    decreases s.len(),
{
    if s.len() == 0 {
        Seq::empty()
    } else {
        list_text(s.drop_last()) + record_text(s.last()).push('\n')
    }
}

/// A line without the carriage return that may end it.
pub open spec fn strip_cr(line: Seq<char>) -> Seq<char> {
    if line.len() > 0 && line.last() == '\r' {
        line.drop_last()
    } else {
        line
    }
}

/// The lines of a text: the pieces between line breaks, without a last empty
/// piece after a final line break, each without a trailing carriage return.
pub open spec fn lines_of(t: Seq<char>) -> Seq<Seq<char>> {
    let pieces = split_on(t, '\n');
    let kept = if pieces.last().len() == 0 {
        pieces.drop_last()
    } else {
        pieces
    };
    kept.map_values(|l: Seq<char>| strip_cr(l))
}

/// What one stored line reads as: the first field is the id, the second the
/// task, the third is `true` or anything else for not done; later fields are
/// ignored. Fewer than three fields, or an id that is no `i32`, read as
/// nothing.
pub open spec fn parse_record(line: Seq<char>) -> Option<ItemView> {
    let fields = split_on(line, ',');
    if fields.len() >= 3 && parse_i32(fields[0]) is Some {
        Some(
            ItemView {
                id: parse_i32(fields[0])->0,
                task: fields[1],
                completed: fields[2] == bool_text(true),
            },
        )
    } else {
        None
    }
}

/// What a sequence of stored lines reads as: the items in order, or the
/// index of the first line that reads as nothing.
pub open spec fn parse_records(lines: Seq<Seq<char>>) -> Result<Seq<ItemView>, int>
    decreases lines.len(),
{
    if lines.len() == 0 {
        Ok(Seq::empty())
    } else {
        match parse_records(lines.drop_last()) {
            Err(k) => Err(k),
            Ok(s) => match parse_record(lines.last()) {
                Some(it) => Ok(s.push(it)),
                None => Err(lines.len() - 1),
            },
        }
    }
}

/// A stored line that does not read as a record.
pub struct LoadError {
    /// Index of the line, counted from zero.
    pub line: usize,
}

/// Once a prefix of the lines fails, the whole fails at the same line.
proof fn lemma_parse_records_fails_early(lines: Seq<Seq<char>>, j: int)
    requires
        0 <= j <= lines.len(),
        parse_records(lines.take(j)) is Err,
    ensures
        parse_records(lines) == parse_records(lines.take(j)),
    decreases lines.len(),
{
    if j < lines.len() {
        assert(lines.drop_last().take(j) =~= lines.take(j));
        lemma_parse_records_fails_early(lines.drop_last(), j);
    } else {
        assert(lines.take(j) =~= lines);
    }
}

/// A task that survives storing: its text holds no comma and no line break.
pub open spec fn storable(it: ItemView) -> bool {
    lacks(it.task, ',') && lacks(it.task, '\n')
}

/// The stored lines of a list, without their line breaks.
pub open spec fn records_of(s: Seq<ItemView>) -> Seq<Seq<char>> {
    s.map_values(|it: ItemView| record_text(it))
}

proof fn lemma_lacks_concat(a: Seq<char>, b: Seq<char>, c: char)
    requires
        lacks(a, c),
        lacks(b, c),
    ensures
        lacks(a + b, c),
{
    assert forall|k: int| 0 <= k < (a + b).len() implies #[trigger] (a + b)[k] != c by {
        if k < a.len() {
            assert((a + b)[k] == a[k]);
        } else {
            assert((a + b)[k] == b[k - a.len()]);
        }
    }
}

proof fn lemma_bool_text(b: bool)
    ensures
        lacks(bool_text(b), ','),
        lacks(bool_text(b), '\n'),
        bool_text(b).len() > 0,
        bool_text(b).last() == 'e',
        (bool_text(b) == bool_text(true)) == b,
{
    let t = bool_text(b);
    assert forall|k: int| 0 <= k < t.len() implies #[trigger] t[k] != ',' && t[k] != '\n' by {}
    if !b {
        assert(t.len() != bool_text(true).len());
    }
}

/// A stored record of a storable item splits into its three fields and
/// reads back as the item.
proof fn lemma_record_reads_back(it: ItemView)
    requires
        storable(it),
    ensures
        lacks(record_text(it), '\n'),
        record_text(it).len() > 0,
        record_text(it).last() == 'e',
        parse_record(record_text(it)) == Some(it),
{
    let a = int_text(it.id as int);
    let b = bool_text(it.completed);
    lemma_parse_int_text(it.id);
    lemma_bool_text(it.completed);
    let comma = seq![','];
    let nl = seq!['\n'];
    assert(lacks(comma, '\n')) by {
        assert forall|k: int| 0 <= k < comma.len() implies #[trigger] comma[k] != '\n' by {}
    }
    lemma_split_on_whole(a, ',');
    lemma_split_on_sep(a, ',');
    assert(a + comma =~= a.push(','));
    lemma_split_on_append(a.push(','), it.task, ',');
    assert(Seq::<char>::empty() + it.task =~= it.task);
    let x = a.push(',') + it.task;
    lemma_split_on_sep(x, ',');
    lemma_split_on_append(x.push(','), b, ',');
    assert(Seq::<char>::empty() + b =~= b);
    assert(record_text(it) =~= x.push(',') + b);
    let fields = split_on(record_text(it), ',');
    assert(fields =~= seq![a, it.task, b]);
    lemma_lacks_concat(a, comma, '\n');
    lemma_lacks_concat(a + comma, it.task, '\n');
    lemma_lacks_concat(a + comma + it.task, comma, '\n');
    lemma_lacks_concat(a + comma + it.task + comma, b, '\n');
}

proof fn lemma_split_list_text(s: Seq<ItemView>)
    requires
        forall|k: int| 0 <= k < s.len() ==> storable(#[trigger] s[k]),
    ensures
        split_on(list_text(s), '\n') == records_of(s).push(Seq::empty()),
    decreases s.len(),
{
    if s.len() == 0 {
        assert(split_on(list_text(s), '\n') =~= records_of(s).push(Seq::empty()));
    } else {
        let init = s.drop_last();
        assert forall|k: int| 0 <= k < init.len() implies storable(#[trigger] init[k]) by {
            assert(init[k] == s[k]);
        }
        lemma_split_list_text(init);
        let rec = record_text(s.last());
        lemma_record_reads_back(s.last());
        let x = list_text(init) + rec;
        assert(list_text(s) =~= x.push('\n'));
        lemma_split_on_sep(x, '\n');
        lemma_split_on_append(list_text(init), rec, '\n');
        assert(Seq::<char>::empty() + rec =~= rec);
        assert(records_of(init).push(Seq::empty()).drop_last() =~= records_of(init));
        assert(records_of(init).push(rec) =~= records_of(s));
    }
}

proof fn lemma_parse_records_of(s: Seq<ItemView>)
    requires
        forall|k: int| 0 <= k < s.len() ==> storable(#[trigger] s[k]),
    ensures
        parse_records(records_of(s)) == Ok::<Seq<ItemView>, int>(s),
    decreases s.len(),
{
    if s.len() > 0 {
        let init = s.drop_last();
        assert forall|k: int| 0 <= k < init.len() implies storable(#[trigger] init[k]) by {
            assert(init[k] == s[k]);
        }
        lemma_parse_records_of(init);
        lemma_record_reads_back(s.last());
        assert(records_of(s).drop_last() =~= records_of(init));
        assert(init.push(s.last()) =~= s);
    } else {
        assert(s =~= Seq::<ItemView>::empty());
    }
}

/// Storing a list and reading the stored text back gives the same items,
/// field by field, provided no task holds a comma or a line break.
pub proof fn lemma_round_trip(s: Seq<ItemView>)
    requires
        forall|k: int| 0 <= k < s.len() ==> storable(#[trigger] s[k]),
    ensures
        parse_records(lines_of(list_text(s))) == Ok::<Seq<ItemView>, int>(s),
{
    lemma_split_list_text(s);
    let recs = records_of(s);
    assert forall|k: int| 0 <= k < recs.len() implies strip_cr(#[trigger] recs[k]) == recs[k] by {
        lemma_record_reads_back(s[k]);
    }
    assert(recs.push(Seq::empty()).drop_last() =~= recs);
    assert(lines_of(list_text(s)) =~= recs);
    lemma_parse_records_of(s);
}

/// Is `cs` the word `true`?
fn is_true_word(cs: &Vec<char>) -> (r: bool)
    ensures
        r == (cs@ == bool_text(true)),
{
    let r = cs.len() == 4 && cs[0] == 't' && cs[1] == 'r' && cs[2] == 'u' && cs[3] == 'e';
    assert(r ==> cs@ =~= bool_text(true));
    r
}

/// Reads one stored line.
pub fn parse_line(line: &Vec<char>) -> (r: Option<TodoItem>)
    ensures
        match parse_record(line@) {
            Some(it) => r is Some && r->0@ == it,
            None => r is None,
        },
{
    let fields = split_chars(line, ',');
    if fields.len() < 3 {
        return None;
    }
    match parse_i32_chars(&fields[0]) {
        Some(id) => {
            let task = string_of(&fields[1]);
            let completed = is_true_word(&fields[2]);
            Some(TodoItem { id, task, completed })
        },
        None => None,
    }
}

/// `line` without a carriage return at its end.
fn without_cr(line: &Vec<char>) -> (r: Vec<char>)
    ensures
        r@ == strip_cr(line@),
{
    let n: usize = if line.len() > 0 && line[line.len() - 1] == '\r' {
        line.len() - 1
    } else {
        line.len()
    };
    let mut out: Vec<char> = Vec::new();
    for i in 0..n
        invariant
            n <= line.len(),
            out@ == line@.take(i as int),
    {
        out.push(line[i]);
        assert(line@.take(i + 1) =~= line@.take(i as int).push(line@[i as int]));
    }
    assert(out@ =~= strip_cr(line@));
    out
}

impl TodoItem {
    /// The stored line of this item, with its line break.
    pub fn db_print(&self) -> (r: String)
        ensures
            r@ == record_text(self@).push('\n'),
    {
        let mut s = String::new();
        push_i32(&mut s, self.id);
        push_char(&mut s, ',');
        s.append(self.task.as_str());
        push_char(&mut s, ',');
        push_bool(&mut s, self.completed);
        push_char(&mut s, '\n');
        assert(s@ =~= record_text(self@).push('\n'));
        s
    }
}

impl TodoList {
    /// Reads stored text and appends its records to the list. On a line that
    /// does not read as a record, the list is left as it was and the error
    /// gives that line's index.
    pub fn read_items(&mut self, text: &str) -> (r: Result<(), LoadError>)
        ensures
            match parse_records(lines_of(text@)) {
                Ok(items) => r is Ok && final(self)@ == old(self)@ + items,
                Err(k) => r is Err && r->Err_0.line == k && final(self)@ == old(self)@,
            },
    {
        let cs = chars_of(text);
        let pieces = split_chars(&cs, '\n');
        let ghost sp = split_on(text@, '\n');
        proof {
            crate::text::lemma_split_on_len(text@, '\n');
        }
        let count: usize = if pieces[pieces.len() - 1].len() == 0 {
            pieces.len() - 1
        } else {
            pieces.len()
        };
        let ghost lines = lines_of(text@);
        assert(lines.len() == count);
        let mut parsed: Vec<TodoItem> = Vec::new();
        assert(lines.take(0) =~= Seq::<Seq<char>>::empty());
        assert(parsed@.map_values(|it: TodoItem| it@) =~= Seq::<ItemView>::empty());
        assert forall|k: int| 0 <= k < count implies #[trigger] lines[k] == strip_cr(sp[k]) by {}
        for i in 0..count
            invariant
                count <= pieces.len(),
                pieces.len() == sp.len(),
                forall|k: int| 0 <= k < pieces.len() ==> #[trigger] pieces[k]@ == sp[k],
                lines == lines_of(text@),
                lines.len() == count,
                forall|k: int| 0 <= k < count ==> #[trigger] lines[k] == strip_cr(sp[k]),
                parse_records(lines.take(i as int)) == Ok::<Seq<ItemView>, int>(
                    parsed@.map_values(|it: TodoItem| it@),
                ),
                self@ == old(self)@,
        {
            assert(lines.take(i + 1).drop_last() =~= lines.take(i as int));
            let line = without_cr(&pieces[i]);
            assert(line@ == lines[i as int]);
            let ghost before = parsed@.map_values(|it: TodoItem| it@);
            match parse_line(&line) {
                Some(item) => {
                    parsed.push(item);
                    assert(parsed@.map_values(|it: TodoItem| it@) =~= before.push(item@));
                },
                None => {
                    proof {
                        lemma_parse_records_fails_early(lines, i + 1);
                    }
                    return Err(LoadError { line: i });
                },
            }
        }
        assert(lines.take(count as int) =~= lines);
        let ghost added = parsed@.map_values(|it: TodoItem| it@);
        let ghost first = self@;
        self.items.append(&mut parsed);
        assert(self@ =~= first + added);
        Ok(())
    }

    /// The stored form of the list: one `<id>,<task>,<true|false>` line per
    /// item, in order.
    pub fn save_items(&self) -> (r: String)
        ensures
            r@ == list_text(self@),
    {
        let mut s = String::new();
        for i in 0..self.items.len()
            invariant
                s@ == list_text(self@.take(i as int)),
        {
            let line = self.items[i].db_print();
            s.append(line.as_str());
            assert(self@.take(i + 1).drop_last() =~= self@.take(i as int));
            assert(s@ =~= list_text(self@.take(i + 1)));
        }
        assert(self@.take(self.items.len() as int) =~= self@);
        s
    }
}

} // verus!
