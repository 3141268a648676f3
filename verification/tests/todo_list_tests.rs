use todo_list::codec::{decode_items, encode_items};
use todo_list::items::{clone_items, default_list, zip_items};
use todo_list::store::TodoList;

fn strings(texts: &[&str]) -> Vec<String> {
    texts.iter().map(|t| t.to_string()).collect()
}

#[test]
fn set_then_get_todo_list() {
    let mut contract = TodoList::default();
    let todo_list = vec!["Do homework", "Buy some vegetables", "Make table"];
    let check_list = vec![false, true, true];
    contract.set_todo_list(
        "bob_near".to_string(),
        todo_list
            .iter()
            .map(|todo_item| todo_item.to_string())
            .collect(),
        check_list,
    );
    assert_eq!(
        vec![
            ("Do homework".to_string(), false),
            ("Buy some vegetables".to_string(), true),
            ("Make table".to_string(), true),
        ],
        contract.get_todo_list("bob_near".to_string()).to_vec()
    );
}

#[test]
fn get_default_todo_list() {
    let contract = TodoList::default();
    assert_eq!(
        ("List is empty".to_string(), false),
        contract
            .get_todo_list("francis.near".to_string())
            .pop()
            .unwrap()
    );
}

#[test]
fn overwrite_replaces_previous_list() {
    let mut contract = TodoList::default();
    contract.set_todo_list(
        "ann".to_string(),
        strings(&["first", "second"]),
        vec![false, false],
    );
    contract.set_todo_list("ann".to_string(), strings(&["third"]), vec![true]);
    assert_eq!(
        vec![("third".to_string(), true)],
        contract.get_todo_list("ann".to_string())
    );
}

#[test]
fn writes_do_not_touch_other_accounts() {
    let mut contract = TodoList::default();
    contract.set_todo_list("ann".to_string(), strings(&["hers"]), vec![false]);
    contract.set_todo_list("ben".to_string(), strings(&["his"]), vec![true]);
    assert_eq!(
        vec![("hers".to_string(), false)],
        contract.get_todo_list("ann".to_string())
    );
    assert_eq!(
        vec![("his".to_string(), true)],
        contract.get_todo_list("ben".to_string())
    );
    assert_eq!(
        vec![("List is empty".to_string(), false)],
        contract.get_todo_list("carol".to_string())
    );
}

#[test]
fn overwrite_of_a_middle_account_leaves_neighbours_alone() {
    let mut contract = TodoList::default();
    contract.set_todo_list("a1".to_string(), strings(&["one"]), vec![false]);
    contract.set_todo_list("a2".to_string(), strings(&["two"]), vec![false]);
    contract.set_todo_list("a3".to_string(), strings(&["three"]), vec![false]);
    contract.set_todo_list("a2".to_string(), strings(&["\u{4e8c}"]), vec![true]);
    assert_eq!(
        vec![("one".to_string(), false)],
        contract.get_todo_list("a1".to_string())
    );
    assert_eq!(
        vec![("\u{4e8c}".to_string(), true)],
        contract.get_todo_list("a2".to_string())
    );
    assert_eq!(
        vec![("three".to_string(), false)],
        contract.get_todo_list("a3".to_string())
    );
}

#[test]
fn zip_truncate_drops_excess_texts() {
    let mut contract = TodoList::default();
    contract.set_todo_list("ann".to_string(), strings(&["x", "y", "z"]), vec![true]);
    assert_eq!(
        vec![("x".to_string(), true)],
        contract.get_todo_list("ann".to_string())
    );
}

#[test]
fn zip_truncate_drops_excess_flags() {
    let mut contract = TodoList::default();
    contract.set_todo_list("ann".to_string(), strings(&["x"]), vec![true, false, true]);
    assert_eq!(
        vec![("x".to_string(), true)],
        contract.get_todo_list("ann".to_string())
    );
}

#[test]
fn empty_list_differs_from_never_written() {
    let mut contract = TodoList::default();
    contract.set_todo_list("ann".to_string(), Vec::new(), Vec::new());
    assert_eq!(
        Vec::<(String, bool)>::new(),
        contract.get_todo_list("ann".to_string())
    );
}

#[test]
fn zip_items_pairs_positionally() {
    let pairs = zip_items(&strings(&["a", "b"]), &vec![true, false]);
    assert_eq!(vec![("a".to_string(), true), ("b".to_string(), false)], pairs);
}

#[test]
fn default_list_holds_the_marker() {
    assert_eq!(vec![("List is empty".to_string(), false)], default_list());
}

#[test]
fn clone_items_copies_every_item() {
    let items = vec![("a".to_string(), true), ("b".to_string(), false)];
    assert_eq!(items, clone_items(&items));
}

#[test]
fn codec_round_trip() {
    let items = vec![
        ("Do homework".to_string(), false),
        ("d\u{e9}j\u{e0} vu \u{2713}".to_string(), true),
        ("".to_string(), false),
    ];
    let bytes = encode_items(&items);
    assert_eq!(Some(items), decode_items(&bytes));
}

#[test]
fn codec_round_trip_empty_list() {
    let bytes = encode_items(&Vec::new());
    assert_eq!(vec![0u8; 8], bytes);
    assert_eq!(Some(Vec::new()), decode_items(&bytes));
}

#[test]
fn codec_exact_bytes() {
    let bytes = encode_items(&vec![("A".to_string(), true)]);
    assert_eq!(
        vec![
            1u8, 0, 0, 0, 0, 0, 0, 0, // one item
            1, 0, 0, 0, 0, 0, 0, 0, // one text byte
            0x41, // "A"
            1,    // flag set
        ],
        bytes
    );
}

#[test]
fn codec_rejects_short_input() {
    assert_eq!(None, decode_items(&vec![1u8, 2, 3]));
}

#[test]
fn codec_rejects_truncated_input() {
    let mut bytes = encode_items(&vec![("A".to_string(), true)]);
    bytes.pop();
    assert_eq!(None, decode_items(&bytes));
}

#[test]
fn codec_rejects_trailing_bytes() {
    let mut bytes = encode_items(&vec![("A".to_string(), true)]);
    bytes.push(0);
    assert_eq!(None, decode_items(&bytes));
}

#[test]
fn codec_rejects_bad_flag_byte() {
    let mut bytes = encode_items(&vec![("A".to_string(), true)]);
    let last = bytes.len() - 1;
    bytes[last] = 2;
    assert_eq!(None, decode_items(&bytes));
}

#[test]
fn codec_rejects_invalid_utf8() {
    let mut bytes = encode_items(&vec![("A".to_string(), true)]);
    let text = bytes.len() - 2;
    bytes[text] = 0xFF;
    assert_eq!(None, decode_items(&bytes));
}
