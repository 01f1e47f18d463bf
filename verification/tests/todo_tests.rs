use goose_http::todo::{completed_flag, completed_text, todo_json, todo_list_json, TodoRow};

#[test]
fn empty_list_loses_its_bracket() {
    assert_eq!(todo_list_json(&vec![]), "{\"todo\": ]}");
}

#[test]
fn list_of_items() {
    let rows = vec![
        TodoRow { id: 1, text: "milk".to_string(), completed: 0 },
        TodoRow { id: 2, text: "eggs".to_string(), completed: 1 },
    ];
    assert_eq!(todo_list_json(&rows),
        "{\"todo\": [{\"id\": 1, \"text\": \"milk\", \"completed\": false},{\"id\": 2, \"text\": \"eggs\", \"completed\": true}]}");
}

#[test]
fn single_item() {
    assert_eq!(todo_json(7, "walk", "false"), "{\"todo\": {\"id\": 7, \"text\": \"walk\", \"completed\": false}}");
    assert_eq!(todo_json(-3, "x", "true"), "{\"todo\": {\"id\": -3, \"text\": \"x\", \"completed\": true}}");
}

#[test]
fn completed_round_trip() {
    assert_eq!(completed_text(completed_flag(true)), "true");
    assert_eq!(completed_text(completed_flag(false)), "false");
}
