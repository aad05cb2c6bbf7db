use todo_list::model::TodoEntry;
use todo_list::model::TodoError;
use todo_list::model::TodoList;
use todo_list::server;
use todo_list::server::ListParams;
use todo_list::server::ServerError;

fn entry(title: &str, body: &str) -> TodoEntry {
    TodoEntry { title: title.to_string(), body: body.to_string() }
}

fn titles(list: &TodoList) -> Vec<String> {
    list.entries().iter().map(|e| e.title.clone()).collect()
}

#[test]
fn adds_append_in_order() {
    let mut list = TodoList::new();
    assert_eq!(list.entries().len(), 0);
    for i in 0..5 {
        list.add_entry(entry(&format!("t{}", i), "b"));
        assert_eq!(list.entries().len(), i + 1);
    }
    assert_eq!(titles(&list), vec!["t0", "t1", "t2", "t3", "t4"]);
}

#[test]
fn remove_valid_shifts_later_entries() {
    let mut list = TodoList::new();
    for t in ["a", "b", "c", "d"] {
        list.add_entry(entry(t, "body"));
    }
    let r = list.remove_entry(1);
    assert_eq!(r, Ok(()));
    assert_eq!(list.entries().len(), 3);
    assert_eq!(titles(&list), vec!["a", "c", "d"]);
}

#[test]
fn remove_out_of_range_reports_not_found() {
    let mut list = TodoList::new();
    list.add_entry(entry("a", "1"));
    list.add_entry(entry("b", "2"));
    let r = list.remove_entry(2);
    assert_eq!(r, Err(TodoError::NoSuchEntry));
    assert_eq!(titles(&list), vec!["a", "b"]);
    let r = list.remove_entry(usize::MAX);
    assert_eq!(r, Err(TodoError::NoSuchEntry));
    assert_eq!(list.entries().len(), 2);
}

#[test]
fn save_load_round_trip() {
    let mut list = TodoList::new();
    list.add_entry(entry("plain", "text"));
    list.add_entry(entry("qu\"ote", "back\\slash"));
    list.add_entry(entry("line\nbreak", "tab\tand\rreturn"));
    list.add_entry(entry("caf\u{e9} \u{1f600}", ""));
    list.add_entry(entry("", "only body"));
    let doc = list.save();
    let loaded = TodoList::load(Some(&doc)).expect("round trip parses");
    assert_eq!(loaded.entries().len(), list.entries().len());
    for (a, b) in list.entries().iter().zip(loaded.entries().iter()) {
        assert_eq!(a.title, b.title);
        assert_eq!(a.body, b.body);
    }
}

#[test]
fn load_missing_document_is_empty_list() {
    let loaded = TodoList::load(None).expect("no document is not an error");
    assert_eq!(loaded.entries().len(), 0);
}

#[test]
fn save_empty_list_exact_text() {
    let list = TodoList::new();
    assert_eq!(list.save(), "{\"entries\":[]}");
}

#[test]
fn save_escapes_exact_text() {
    let mut list = TodoList::new();
    list.add_entry(entry("a\"b", "c\\d"));
    list.add_entry(entry("x\ny", "z"));
    assert_eq!(
        list.save(),
        "{\"entries\":[{\"title\":\"a\\\"b\",\"body\":\"c\\\\d\"},{\"title\":\"x\\u000ay\",\"body\":\"z\"}]}"
    );
}

#[test]
fn load_accepts_short_and_hex_escapes() {
    let doc = "{\"entries\":[{\"title\":\"a\\nb\\u0041\",\"body\":\"\\t\\r\\b\\f\\/\\\"\\\\\"}]}";
    let loaded = TodoList::load(Some(doc)).expect("escapes parse");
    assert_eq!(loaded.entries().len(), 1);
    assert_eq!(loaded.entries()[0].title, "a\nbA");
    assert_eq!(loaded.entries()[0].body, "\t\r\u{8}\u{c}/\"\\");
}

#[test]
fn load_rejects_malformed_documents() {
    for doc in [
        "",
        "garbage",
        "{\"entries\":",
        "{\"entries\":[",
        "{\"entries\":[]",
        "{\"entries\":[]}x",
        "{\"entries\":[{\"title\":\"a\"}]}",
        "{\"entries\":[{\"title\":\"a\",\"body\":\"b\"},]}",
        "{\"entries\":[{\"title\":\"a\",\"body\":\"b\"]}",
        "{\"entries\":[{\"title\":\"unterminated\",\"body\":\"b}]}",
        "{\"entries\":[{\"title\":\"bad\\u12\",\"body\":\"b\"}]}",
        "{\"entries\":[{\"title\":\"bad\\x\",\"body\":\"b\"}]}",
        "{\"entries\":[{\"title\":\"\\ud800\",\"body\":\"b\"}]}",
        "{\"entries\":[{\"title\":\"\\udc00\",\"body\":\"b\"}]}",
        "{\"entries\":[{\"title\":\"a\",\"title\":\"b\"}]}",
    ] {
        let r = TodoList::load(Some(doc));
        assert!(matches!(r, Err(TodoError::Serialization)), "doc: {}", doc);
    }
}

#[test]
fn load_accepts_whitespace_between_tokens() {
    let doc = "  {\n  \"entries\" : [\n    { \"title\" : \"a\" , \"body\" : \"b\" } ,\n    { \"body\" : \"d\" , \"title\" : \"c\" }\n  ]\n}\n";
    let loaded = TodoList::load(Some(doc)).expect("whitespace-formatted document parses");
    assert_eq!(loaded.entries().len(), 2);
    assert_eq!(loaded.entries()[0].title, "a");
    assert_eq!(loaded.entries()[0].body, "b");
    assert_eq!(loaded.entries()[1].title, "c");
    assert_eq!(loaded.entries()[1].body, "d");
}

#[test]
fn load_accepts_spaced_empty_document() {
    let loaded = TodoList::load(Some("{ \"entries\": [] }")).expect("spaced document parses");
    assert_eq!(loaded.entries().len(), 0);
    let loaded = TodoList::load(Some("{\"entries\":[]}\n")).expect("trailing newline parses");
    assert_eq!(loaded.entries().len(), 0);
}

#[test]
fn load_accepts_full_unicode_escapes() {
    let doc = "{\"entries\":[{\"title\":\"\\u20ac\\u00e9\",\"body\":\"\\ud83d\\ude00\"}]}";
    let loaded = TodoList::load(Some(doc)).expect("unicode escapes parse");
    assert_eq!(loaded.entries().len(), 1);
    assert_eq!(loaded.entries()[0].title, "\u{20ac}\u{e9}");
    assert_eq!(loaded.entries()[0].body, "\u{1f600}");
}

#[test]
fn page_from_middle() {
    let mut list = TodoList::new();
    for i in 0..10 {
        list.add_entry(entry(&format!("t{}", i), "b"));
    }
    let page = server::list(&list, &ListParams { from: 2, size: 3 });
    let got: Vec<String> = page.iter().map(|e| e.title.clone()).collect();
    assert_eq!(got, vec!["t2", "t3", "t4"]);
}

#[test]
fn page_past_end_is_empty() {
    let mut list = TodoList::new();
    for i in 0..10 {
        list.add_entry(entry(&format!("t{}", i), "b"));
    }
    let page = server::list(&list, &ListParams { from: 100, size: 5 });
    assert!(page.is_empty());
    let page = server::list(&list, &ListParams { from: 10, size: 5 });
    assert!(page.is_empty());
}

#[test]
fn page_clipped_at_end() {
    let mut list = TodoList::new();
    for i in 0..4 {
        list.add_entry(entry(&format!("t{}", i), "b"));
    }
    let page = server::list(&list, &ListParams { from: 3, size: 10 });
    let got: Vec<String> = page.iter().map(|e| e.title.clone()).collect();
    assert_eq!(got, vec!["t3"]);
}

#[test]
fn list_params_defaults() {
    assert_eq!(ListParams::default_from(), 0);
    assert_eq!(ListParams::default_size(), 10);
    let p = ListParams::new(None, None);
    assert_eq!(p, ListParams { from: 0, size: 10 });
    let p = ListParams::new(Some(7), Some(2));
    assert_eq!(p, ListParams { from: 7, size: 2 });
}

#[test]
fn add_handler_appends_and_acknowledges() {
    let mut list = TodoList::new();
    let ack = server::add_entry(&mut list, "title".to_string(), "body".to_string());
    assert_eq!(ack, "ok");
    assert_eq!(list.entries().len(), 1);
    assert_eq!(list.entries()[0].title, "title");
    assert_eq!(list.entries()[0].body, "body");
}

#[test]
fn remove_handler_maps_missing_index_to_not_found() {
    let mut list = TodoList::new();
    list.add_entry(entry("a", "b"));
    let r = server::remove_entry(&mut list, 0);
    assert_eq!(r.unwrap(), "ok");
    let r = server::remove_entry(&mut list, 0);
    assert!(matches!(r, Err(ServerError::NoSuchEntry)));
}

#[test]
fn server_error_status_and_message() {
    let e = ServerError::NoSuchEntry;
    assert_eq!(e.status_code(), 404);
    assert_eq!(e.into_message(), "No such entry found");
    let e = ServerError::InternalError { message: "lock poisoned".to_string() };
    assert_eq!(e.status_code(), 500);
    assert_eq!(e.into_message(), "lock poisoned");
}

#[test]
fn scenario_add_add_remove() {
    let mut list = TodoList::new();
    list.add_entry(entry("buy milk", "Some body"));
    list.add_entry(entry("walk dog", "Some body"));
    list.remove_entry(0).expect("index 0 exists");
    assert_eq!(list.entries().len(), 1);
    assert_eq!(list.entries()[0].title, "walk dog");
    assert_eq!(list.entries()[0].body, "Some body");
    assert_eq!(
        list.save(),
        "{\"entries\":[{\"title\":\"walk dog\",\"body\":\"Some body\"}]}"
    );
}
