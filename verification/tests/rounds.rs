use bahmod::auction::{
    page_findings, page_is_readable, pages_to_fetch, sortpage, Auction, AuctionPage, ValidItem,
};
use bahmod::items::{Item, Items};
use bahmod::report::{cheapest_per_item, report_message, Channel, Watcher};

fn item(name: &str, price: i64, rarity: &str) -> Item {
    Item::new(name.to_string(), price, rarity.to_string())
}

fn listing(name: &str, bid: i64, tier: &str, claimed: bool) -> Option<Auction> {
    Some(Auction {
        bin: true,
        claimed: Some(claimed),
        item_name: Some(name.to_string()),
        starting_bid: Some(bid),
        tier: Some(tier.to_string()),
    })
}

fn found(name: &str, price: i64) -> ValidItem {
    ValidItem { item: name.to_string(), price }
}

fn page(auctions: Vec<Option<Auction>>) -> AuctionPage {
    AuctionPage { total_pages: Some(1), auctions: Some(auctions) }
}

fn watch() -> Items {
    Items {
        items: vec![item("Hyperion", 1000, "LEGENDARY"), item("Sword", 50, "RARE")],
    }
}

#[test]
fn sortpage_selects_open_offers_that_match() {
    let mut not_bin = listing("Hyperion", 10, "LEGENDARY", false).unwrap();
    not_bin.bin = false;
    not_bin.claimed = None;
    let p = page(vec![
        None,
        listing("Heroic Hyperion", 900, "LEGENDARY", false),
        listing("Hyperion", 10, "LEGENDARY", true),
        Some(not_bin),
        listing("Hyperion", 1001, "LEGENDARY", false),
        listing("Hyperion", 5, "EPIC", false),
        listing("Hyperion Sword", 40, "RARE", false),
        listing("Hyperion Sword", 40, "LEGENDARY", false),
    ]);
    let items = watch();
    assert!(page_is_readable(&items, &p));
    assert_eq!(
        sortpage(&items, &p),
        vec![found("Hyperion", 900), found("Sword", 40), found("Hyperion", 40)]
    );
}

#[test]
fn readability_follows_what_is_read() {
    let items = watch();
    assert!(!page_is_readable(&items, &AuctionPage { total_pages: Some(1), auctions: None }));
    let mut no_claim = listing("Hyperion", 1, "LEGENDARY", false).unwrap();
    no_claim.claimed = None;
    assert!(!page_is_readable(&items, &page(vec![Some(no_claim)])));
    let mut no_name = listing("Hyperion", 1, "LEGENDARY", false).unwrap();
    no_name.item_name = None;
    assert!(!page_is_readable(&items, &page(vec![Some(no_name)])));
    let mut no_name_claimed = listing("Hyperion", 1, "LEGENDARY", true).unwrap();
    no_name_claimed.item_name = None;
    assert!(page_is_readable(&items, &page(vec![Some(no_name_claimed)])));
    let mut no_bid = listing("Hyperion", 1, "LEGENDARY", false).unwrap();
    no_bid.starting_bid = None;
    assert!(!page_is_readable(&items, &page(vec![Some(no_bid)])));
    let mut no_bid_other = listing("Boots", 1, "LEGENDARY", false).unwrap();
    no_bid_other.starting_bid = None;
    assert!(page_is_readable(&items, &page(vec![Some(no_bid_other)])));
    let mut no_tier_pricey = listing("Hyperion", 5000, "LEGENDARY", false).unwrap();
    no_tier_pricey.tier = None;
    assert!(page_is_readable(&items, &page(vec![Some(no_tier_pricey)])));
    let mut no_tier = listing("Hyperion", 5, "LEGENDARY", false).unwrap();
    no_tier.tier = None;
    assert!(!page_is_readable(&items, &page(vec![Some(no_tier)])));
    let mut empty_name = listing("Hyperion", 5, "LEGENDARY", false).unwrap();
    empty_name.item_name = None;
    assert!(page_is_readable(&Items::new(), &page(vec![Some(empty_name)])));
}

#[test]
fn page_findings_is_none_without_findings() {
    let items = watch();
    assert_eq!(page_findings(&items, &page(vec![None])), None);
    assert_eq!(
        page_findings(&items, &page(vec![listing("Sword", 1, "RARE", false)])),
        Some(vec![found("Sword", 1)])
    );
}

#[test]
fn pages_after_the_first() {
    let first = |n| AuctionPage { total_pages: Some(n), auctions: None };
    assert_eq!(pages_to_fetch(&first(5)), vec![1, 2, 3, 4]);
    assert_eq!(pages_to_fetch(&first(1)), Vec::<usize>::new());
    assert_eq!(pages_to_fetch(&first(0)), Vec::<usize>::new());
}

#[test]
fn cheapest_per_item_keeps_first_order_and_lowest_price() {
    let all = vec![
        found("B", 30),
        found("A", 20),
        found("B", 10),
        found("C", 5),
        found("A", 25),
        found("B", 10),
    ];
    assert_eq!(
        cheapest_per_item(&all),
        vec![found("B", 10), found("A", 20), found("C", 5)]
    );
    assert_eq!(cheapest_per_item(&vec![]), vec![]);
}

#[test]
fn report_text_on_each_channel() {
    let lowest = vec![found("Hyperion", 900), found("Sword", -4)];
    assert_eq!(
        report_message(Channel::Stream, &lowest),
        "Found item: Hyperion for 900, Sword for -4\r\n"
    );
    assert_eq!(
        report_message(Channel::Chat, &lowest),
        "Found item\\s: Hyperion for 900, Sword for -4\r\n"
    );
    assert_eq!(report_message(Channel::Stream, &vec![found("A", 1)]), "Found item: A for 1\r\n");
}

#[test]
fn repeated_report_is_not_sent_again() {
    let mut w = Watcher::new(Channel::Stream);
    let round = vec![found("A", 3), found("A", 2)];
    let first = w.review(&round).unwrap();
    assert_eq!(first.message, "Found item: A for 2\r\n");
    assert!(first.send);
    let second = w.review(&round).unwrap();
    assert_eq!(second.message, first.message);
    assert!(!second.send);
    assert!(w.review(&vec![]).is_none());
    assert_eq!(w.last_report, "Found item: A for 2\r\n");
    let third = w.review(&round).unwrap();
    assert!(!third.send);
    let changed = w.review(&vec![found("A", 1)]).unwrap();
    assert!(changed.send);
    assert_eq!(w.last_report, "Found item: A for 1\r\n");
}
