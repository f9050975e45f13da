//! The watch list: configured items and the commands that change it.

use vstd::prelude::*;

use crate::text::{
    ascii_uppercase, parse_price, parsed_i64, spaced, underscores_to_spaces, upper,
};

verus! {

/// An item to watch: its name, the highest price worth reporting, and its rarity tier.
#[derive(Debug, Clone, PartialEq)]
pub struct Item {
    pub item: String,
    pub price: i64,
    pub rarity: String,
}

impl Item {
    /// An item with the given name, price limit and rarity.
    pub fn new(item: String, price: i64, rarity: String) -> (r: Self)
        ensures
            r.item == item,
            r.price == price,
            r.rarity == rarity,
    {
        Item { item, price, rarity }
    }
}

/// The configured items, in the order they were added.
pub struct Items {
    pub items: Vec<Item>,
}

/// A text command received from the controlling side.
pub struct Command {
    pub command: String,
    pub item: String,
    pub price: String,
    pub rarity: String,
}

/// Why a command cannot be carried out.
#[derive(Debug, Clone, Copy, PartialEq, Eq)]
pub enum CommandError {
    /// The command word is neither `add` nor `del`.
    UnknownCommand,
    /// An `add` whose price is not a decimal `i64`.
    InvalidPrice,
}

/// What a carried-out command did.
pub enum Applied {
    /// The item that was appended to the list.
    Added(Item),
    /// Items were removed by name.
    Deleted,
}

/// Item `i` has the name `name`.
pub open spec fn named(i: Item, name: Seq<char>) -> bool {
    i.item@ == name
}

/// The list without the items whose name is `name`, order kept.
pub open spec fn without_name(s: Seq<Item>, name: Seq<char>) -> Seq<Item> {
    s.filter(|i: Item| !named(i, name))
}

/// The error a command meets, if any.
pub open spec fn command_error(cmd: &Command) -> Option<CommandError> {
    if cmd.command@ == "add"@ {
        if parsed_i64(cmd.price@) is Some {
            None
        } else {
            Some(CommandError::InvalidPrice)
        }
    } else if cmd.command@ == "del"@ {
        None
    } else {
        Some(CommandError::UnknownCommand)
    }
}

/// The item an accepted `add` command appends.
pub open spec fn commanded_item(i: Item, cmd: &Command) -> bool {
    &&& i.item@ == spaced(cmd.item@)
    &&& Some(i.price) == parsed_i64(cmd.price@)
    &&& i.rarity@ == upper(cmd.rarity@)
}

/// After a removal by name no item of that name is left, every item left was
/// in the list, and every item of another name is kept.
pub proof fn lemma_removal_exact(s: Seq<Item>, name: Seq<char>)
    ensures
        forall|k: int|
            0 <= k < without_name(s, name).len() ==> (#[trigger] without_name(s, name)[k]).item@
                != name,
        forall|k: int|
            0 <= k < without_name(s, name).len() ==> s.contains(
                #[trigger] without_name(s, name)[k],
            ),
        forall|k: int|
            0 <= k < s.len() && s[k].item@ != name ==> without_name(s, name).contains(
                #[trigger] s[k],
            ),
{
    let pred = |i: Item| !named(i, name);
    assert forall|k: int| 0 <= k < without_name(s, name).len() implies (#[trigger] without_name(
        s,
        name,
    )[k]).item@ != name by {
        s.lemma_filter_pred(pred, k);
    }
    assert forall|k: int| 0 <= k < without_name(s, name).len() implies s.contains(
        #[trigger] without_name(s, name)[k],
    ) by {
        assert(s.filter(pred).contains(s.filter(pred)[k]));
        s.lemma_filter_contains_rev(pred, s.filter(pred)[k]);
    }
    assert forall|k: int| 0 <= k < s.len() && s[k].item@ != name implies without_name(
        s,
        name,
    ).contains(#[trigger] s[k]) by {
        s.lemma_filter_contains(pred, k);
    }
}

/// Removing a name right after adding an item of that name leaves the list
/// as removing the name from the list before the addition does.
pub proof fn lemma_remove_undoes_add(s: Seq<Item>, added: Item)
    ensures
        without_name(s.push(added), added.item@) == without_name(s, added.item@),
{
    s.lemma_filter_push(added, |i: Item| !named(i, added.item@));
}

/// Checks a command before it is carried out: `Ok` exactly when
/// `command_error` finds nothing.
pub fn validate_command(cmd: &Command) -> (r: Result<(), CommandError>)
    ensures
        r matches Err(e) ==> command_error(cmd) == Some(e),
        r is Ok <==> command_error(cmd) is None,
{
    let add = "add".to_owned();
    let del = "del".to_owned();
    if cmd.command == add {
        match parse_price(cmd.price.as_str()) {
            Some(_) => Ok(()),
            None => Err(CommandError::InvalidPrice),
        }
    } else if cmd.command == del {
        Ok(())
    } else {
        Err(CommandError::UnknownCommand)
    }
}

impl Items {
    /// An empty list.
    pub fn new() -> (r: Self)
        ensures
            r.items@ == Seq::<Item>::empty(),
    {
        Items { items: Vec::new() }
    }

    /// Appends `item` with every `_` of its name turned into a space, and
    /// returns a copy of what was appended.
    pub fn add(&mut self, item: Item) -> (added: Item)
        ensures
            added.item@ == spaced(item.item@),
            added.price == item.price,
            added.rarity@ == item.rarity@,
            final(self).items@.len() == old(self).items@.len() + 1,
            final(self).items@.drop_last() == old(self).items@,
            final(self).items@.last().item@ == added.item@,
            final(self).items@.last().price == added.price,
            final(self).items@.last().rarity@ == added.rarity@,
    {
        let name = underscores_to_spaces(item.item.as_str());
        let copy = Item::new(name.clone(), item.price, item.rarity.clone());
        self.items.push(Item::new(name, item.price, item.rarity));
        assert(self.items@.drop_last() =~= old(self).items@);
        copy
    }

    /// Removes every item named `name` once each `_` of `name` is turned
    /// into a space; the other items stay, in their order.
    pub fn remove(&mut self, name: &str)
        ensures
            final(self).items@ == without_name(old(self).items@, spaced(name@)),
    {
        let target = underscores_to_spaces(name);
        let mut old_items: Vec<Item> = Vec::new();
        std::mem::swap(&mut old_items, &mut self.items);
        let ghost before = old_items@;
        let mut kept: Vec<Item> = Vec::new();
        for it in iter: old_items.into_iter()
            invariant
                iter.seq() == before,
                kept@ == without_name(before.take(iter.index() as int), target@),
        {
            let ghost k = iter.index();
            proof {
                assert(before.take(k + 1) == before.take(k as int).push(it));
                before.take(k as int).lemma_filter_push(it, |i: Item| !named(i, target@));
            }
            if it.item != target {
                kept.push(it);
            }
        }
        assert(before.take(before.len() as int) == before);
        self.items = kept;
    }

    /// Carries out an `add` or `del` command: `add` appends the item named
    /// by the command (`_` turned into spaces, rarity in ASCII upper case, the
    /// price parsed); `del` removes the items of that name.
    pub fn apply(&mut self, cmd: &Command) -> (r: Applied)
        requires
            command_error(cmd) is None,
        ensures
            cmd.command@ == "add"@ ==> (r matches Applied::Added(i) && commanded_item(i, cmd)),
            cmd.command@ == "add"@ ==> final(self).items@.len() == old(self).items@.len() + 1,
            cmd.command@ == "add"@ ==> final(self).items@.drop_last() == old(self).items@,
            cmd.command@ == "add"@ ==> commanded_item(final(self).items@.last(), cmd),
            cmd.command@ == "del"@ ==> r is Deleted && final(self).items@ == without_name(
                old(self).items@,
                spaced(cmd.item@),
            ),
    {
        proof {
            reveal_strlit("add");
            reveal_strlit("del");
            assert("add"@[0] != "del"@[0]);
        }
        let add = "add".to_owned();
        if cmd.command == add {
            let price = match parse_price(cmd.price.as_str()) {
                Some(p) => p,
                None => 0,
            };
            let name = underscores_to_spaces(cmd.item.as_str());
            let rarity = ascii_uppercase(cmd.rarity.as_str());
            let item = Item::new(name.clone(), price, rarity.clone());
            self.items.push(Item::new(name, price, rarity));
            assert(self.items@.drop_last() =~= old(self).items@);
            Applied::Added(item)
        } else {
            self.remove(cmd.item.as_str());
            Applied::Deleted
        }
    }
}

} // verus!
