use bahmod::items::{validate_command, Applied, Command, CommandError, Item, Items};

fn item(name: &str, price: i64, rarity: &str) -> Item {
    Item::new(name.to_string(), price, rarity.to_string())
}

fn command(word: &str, name: &str, price: &str, rarity: &str) -> Command {
    Command {
        command: word.to_string(),
        item: name.to_string(),
        price: price.to_string(),
        rarity: rarity.to_string(),
    }
}

fn names(list: &Items) -> Vec<String> {
    list.items.iter().map(|i| i.item.clone()).collect()
}

#[test]
fn item_new_keeps_fields() {
    let i = item("Aspect of the End", 500_000, "RARE");
    assert_eq!(i.item, "Aspect of the End");
    assert_eq!(i.price, 500_000);
    assert_eq!(i.rarity, "RARE");
}

#[test]
fn add_turns_underscores_into_spaces() {
    let mut list = Items::new();
    let added = list.add(item("Hyperion_Sword_x", 100, "legendary"));
    assert_eq!(added, item("Hyperion Sword x", 100, "legendary"));
    assert_eq!(list.items, vec![item("Hyperion Sword x", 100, "legendary")]);
}

#[test]
fn remove_keeps_other_items_in_order() {
    let mut list = Items {
        items: vec![
            item("A B", 1, "X"),
            item("C", 2, "Y"),
            item("A B", 3, "Z"),
            item("D", 4, "W"),
        ],
    };
    list.remove("A_B");
    assert_eq!(names(&list), vec!["C".to_string(), "D".to_string()]);
    assert_eq!(list.items[1].price, 4);
}

#[test]
fn remove_of_absent_name_changes_nothing() {
    let mut list = Items { items: vec![item("C", 2, "Y")] };
    list.remove("Q");
    assert_eq!(list.items, vec![item("C", 2, "Y")]);
}

#[test]
fn remove_right_after_add_undoes_it() {
    let start = vec![item("C", 2, "Y"), item("E", 5, "V")];
    let mut with_add = Items { items: start.clone() };
    with_add.add(item("New_One", 9, "R"));
    with_add.remove("New_One");
    let mut without = Items { items: start.clone() };
    without.remove("New_One");
    assert_eq!(with_add.items, without.items);
    assert_eq!(with_add.items, start);
}

#[test]
fn add_command_normalizes_the_item() {
    let mut list = Items { items: vec![item("C", 2, "Y")] };
    let cmd = command("add", "Giant_Sword", "1500", "legendary");
    assert_eq!(validate_command(&cmd), Ok(()));
    match list.apply(&cmd) {
        Applied::Added(i) => assert_eq!(i, item("Giant Sword", 1500, "LEGENDARY")),
        Applied::Deleted => panic!("expected an addition"),
    }
    assert_eq!(list.items, vec![item("C", 2, "Y"), item("Giant Sword", 1500, "LEGENDARY")]);
}

#[test]
fn add_command_accepts_signs() {
    let mut list = Items::new();
    let cmd = command("add", "x", "+7", "epic");
    assert_eq!(validate_command(&cmd), Ok(()));
    list.apply(&cmd);
    assert_eq!(list.items[0].price, 7);
    let cmd = command("add", "y", "-9223372036854775808", "epic");
    assert_eq!(validate_command(&cmd), Ok(()));
    list.apply(&cmd);
    assert_eq!(list.items[1].price, i64::MIN);
}

#[test]
fn del_command_removes_by_spaced_name() {
    let mut list = Items {
        items: vec![item("Giant Sword", 1, "L"), item("C", 2, "Y")],
    };
    let cmd = command("del", "Giant_Sword", "", "");
    assert_eq!(validate_command(&cmd), Ok(()));
    assert!(matches!(list.apply(&cmd), Applied::Deleted));
    assert_eq!(list.items, vec![item("C", 2, "Y")]);
}

#[test]
fn unknown_command_is_refused() {
    assert_eq!(
        validate_command(&command("list", "a", "1", "b")),
        Err(CommandError::UnknownCommand)
    );
    assert_eq!(
        validate_command(&command("ADD", "a", "1", "b")),
        Err(CommandError::UnknownCommand)
    );
}

#[test]
fn add_with_bad_price_is_refused() {
    for bad in ["", "12x", "-", "+", " 12", "9223372036854775808", "1.5"] {
        assert_eq!(
            validate_command(&command("add", "a", bad, "b")),
            Err(CommandError::InvalidPrice),
            "price {:?}",
            bad
        );
    }
}

#[test]
fn del_ignores_the_price() {
    assert_eq!(validate_command(&command("del", "a", "not a number", "b")), Ok(()));
}
