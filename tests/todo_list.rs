use todo_list::store::{parse_line, LoadError};
use todo_list::text::{chars_of, parse_i32_chars, push_i32, split_chars, string_of};
use todo_list::todo::{Command, TodoItem, TodoList};

fn list_of(text: &str) -> TodoList {
    let mut list = TodoList::new_list();
    assert!(list.read_items(text).is_ok());
    list
}

fn fields(list: &TodoList) -> Vec<(i32, String, bool)> {
    list.items
        .iter()
        .map(|it| (it.id, it.task.clone(), it.completed))
        .collect()
}

#[test]
fn new_list_is_empty() {
    let list = TodoList::new_list();
    assert!(list.items.is_empty());
    assert_eq!(list.save_items(), "");
    assert_eq!(list.print_items(), "");
}

#[test]
fn add_then_list_shows_task_not_completed() {
    let mut list = TodoList::new_list();
    list.new_item(String::from("buy milk"));
    assert_eq!(fields(&list), vec![(0, String::from("buy milk"), false)]);
    assert_eq!(
        list.print_items(),
        "id: 0, task: buy milk, completed: false\n"
    );
}

#[test]
fn add_uses_count_as_id() {
    let mut list = TodoList::new_list();
    list.new_item(String::from("a"));
    list.new_item(String::from("b"));
    list.delete_item(0);
    list.new_item(String::from("c"));
    // the id of a new task is the count, so it can repeat one still in use
    assert_eq!(
        fields(&list),
        vec![(1, String::from("b"), false), (1, String::from("c"), false)]
    );
}

#[test]
fn complete_marks_matching_items() {
    let mut list = list_of("0,a,false\n1,b,false\n1,c,false\n");
    list.complete_item(1);
    assert_eq!(
        fields(&list),
        vec![
            (0, String::from("a"), false),
            (1, String::from("b"), true),
            (1, String::from("c"), true)
        ]
    );
}

#[test]
fn complete_missing_id_changes_nothing() {
    let mut list = list_of("0,a,false\n1,b,true\n");
    list.complete_item(7);
    assert_eq!(
        fields(&list),
        vec![(0, String::from("a"), false), (1, String::from("b"), true)]
    );
}

#[test]
fn complete_twice_stays_completed() {
    let mut item = TodoItem { id: 3, task: String::from("x"), completed: false };
    item.complete();
    item.complete();
    assert!(item.completed);
    assert_eq!(item.id, 3);
    assert_eq!(item.task, "x");
}

#[test]
fn delete_removes_all_matching() {
    let mut list = list_of("0,a,false\n1,b,false\n0,c,true\n2,d,false\n");
    list.delete_item(0);
    assert_eq!(
        fields(&list),
        vec![(1, String::from("b"), false), (2, String::from("d"), false)]
    );
}

#[test]
fn delete_missing_id_changes_nothing() {
    let mut list = list_of("0,a,false\n1,b,true\n");
    list.delete_item(5);
    assert_eq!(
        fields(&list),
        vec![(0, String::from("a"), false), (1, String::from("b"), true)]
    );
}

#[test]
fn round_trip_keeps_every_field() {
    let mut list = TodoList::new_list();
    list.new_item(String::from("buy milk"));
    list.new_item(String::from("walk the dog"));
    list.new_item(String::new());
    list.complete_item(1);
    let text = list.save_items();
    let back = list_of(&text);
    assert_eq!(fields(&back), fields(&list));
}

#[test]
fn round_trip_negative_and_extreme_ids() {
    let list = list_of("-2147483648,lo,true\n2147483647,hi,false\n-7,neg,false\n");
    let back = list_of(&list.save_items());
    assert_eq!(
        fields(&back),
        vec![
            (i32::MIN, String::from("lo"), true),
            (i32::MAX, String::from("hi"), false),
            (-7, String::from("neg"), false)
        ]
    );
}

#[test]
fn buy_milk_scenario() {
    let mut list = list_of("");
    list.apply(Command::Add(String::from("buy milk")));
    assert_eq!(list.save_items(), "0,buy milk,false\n");
    let mut list = list_of(&list.save_items());
    list.apply(Command::Complete(0));
    assert_eq!(list.save_items(), "0,buy milk,true\n");
    let mut list = list_of(&list.save_items());
    list.apply(Command::Delete(0));
    assert_eq!(list.save_items(), "");
    list.apply(Command::List);
    assert_eq!(list.save_items(), "");
}

#[test]
fn read_appends_to_existing_items() {
    let mut list = TodoList::new_list();
    list.new_item(String::from("first"));
    assert!(list.read_items("4,second,true\n").is_ok());
    assert_eq!(
        fields(&list),
        vec![(0, String::from("first"), false), (4, String::from("second"), true)]
    );
}

#[test]
fn read_handles_crlf_and_missing_final_break() {
    let list = list_of("0,a,true\r\n1,b,false");
    assert_eq!(
        fields(&list),
        vec![(0, String::from("a"), true), (1, String::from("b"), false)]
    );
}

#[test]
fn read_only_exact_true_is_completed() {
    let list = list_of("0,a,True\n1,b, true\n2,c,true,extra\n3,d,\n");
    assert_eq!(
        fields(&list),
        vec![
            (0, String::from("a"), false),
            (1, String::from("b"), false),
            (2, String::from("c"), true),
            (3, String::from("d"), false)
        ]
    );
}

#[test]
fn read_rejects_short_line() {
    let mut list = TodoList::new_list();
    let r = list.read_items("0,a,false\n1,b\n");
    match r {
        Err(LoadError { line }) => assert_eq!(line, 1),
        Ok(()) => panic!("a line of two fields was accepted"),
    }
    assert!(list.items.is_empty());
}

#[test]
fn read_rejects_bad_id() {
    let mut list = TodoList::new_list();
    assert_eq!(list.read_items("x,a,false\n").err().map(|e| e.line), Some(0));
    assert_eq!(list.read_items("0,a,true\n\n").err().map(|e| e.line), Some(1));
    assert_eq!(
        list.read_items("2147483648,a,false\n").err().map(|e| e.line),
        Some(0)
    );
    assert_eq!(list.read_items(" 1,a,false\n").err().map(|e| e.line), Some(0));
    assert!(list.items.is_empty());
}

#[test]
fn parse_line_reads_fields() {
    let item = parse_line(&chars_of("+12,x y,true")).unwrap();
    assert_eq!((item.id, item.task.as_str(), item.completed), (12, "x y", true));
    assert!(parse_line(&chars_of("12,x")).is_none());
}

#[test]
fn decimal_text_of_ids() {
    let mut s = String::from("n=");
    push_i32(&mut s, 0);
    push_i32(&mut s, -45);
    push_i32(&mut s, 1230);
    push_i32(&mut s, i32::MIN);
    assert_eq!(s, "n=0-451230-2147483648");
}

#[test]
fn decimal_ids_parse() {
    assert_eq!(parse_i32_chars(&chars_of("0042")), Some(42));
    assert_eq!(parse_i32_chars(&chars_of("-2147483648")), Some(i32::MIN));
    assert_eq!(parse_i32_chars(&chars_of("-2147483649")), None);
    assert_eq!(parse_i32_chars(&chars_of("99999999999999999999")), None);
    assert_eq!(parse_i32_chars(&chars_of("-")), None);
    assert_eq!(parse_i32_chars(&chars_of("")), None);
    assert_eq!(parse_i32_chars(&chars_of("1e3")), None);
}

#[test]
fn split_keeps_empty_pieces() {
    let parts = split_chars(&chars_of(",a,,bé,"), ',');
    let texts: Vec<String> = parts.iter().map(|p| string_of(p)).collect();
    assert_eq!(texts, vec!["", "a", "", "bé", ""]);
}

#[test]
fn pretty_print_formats_item() {
    let item = TodoItem { id: -3, task: String::from("tea"), completed: true };
    assert_eq!(item.pretty_print(), "id: -3, task: tea, completed: true");
    let copy = item.duplicate();
    assert_eq!((copy.id, copy.task, copy.completed), (-3, String::from("tea"), true));
}
