use bahmod::auction::{page_findings_of_text, page_of_text, PageError, ValidItem};
use bahmod::items::{Item, Items};

fn watch() -> Items {
    Items {
        items: vec![Item::new("Hyperion".to_string(), 1000, "LEGENDARY".to_string())],
    }
}

const PAGE: &str = r#"{
  "success": true,
  "totalPages": 3,
  "auctions": [
    5,
    {"bin": true, "claimed": false, "item_name": "Heroic Hyperion", "starting_bid": 900, "tier": "LEGENDARY"},
    {"claimed": "no", "item_name": 7, "starting_bid": 1.5, "tier": null},
    {"bin": false, "claimed": true, "item_name": "Hyperion", "starting_bid": 10, "tier": "LEGENDARY"}
  ]
}"#;

#[test]
fn page_of_text_reads_the_entries() {
    let page = page_of_text(PAGE).unwrap();
    assert_eq!(page.total_pages, Some(3));
    let auctions = page.auctions.unwrap();
    assert_eq!(auctions.len(), 4);
    assert!(auctions[0].is_none());
    let a = auctions[1].as_ref().unwrap();
    assert!(a.bin);
    assert_eq!(a.claimed, Some(false));
    assert_eq!(a.item_name.as_deref(), Some("Heroic Hyperion"));
    assert_eq!(a.starting_bid, Some(900));
    assert_eq!(a.tier.as_deref(), Some("LEGENDARY"));
    let b = auctions[2].as_ref().unwrap();
    assert!(!b.bin);
    assert_eq!(b.claimed, None);
    assert_eq!(b.item_name, None);
    assert_eq!(b.starting_bid, None);
    assert_eq!(b.tier, None);
    let c = auctions[3].as_ref().unwrap();
    assert!(c.bin);
    assert_eq!(c.claimed, Some(true));
}

#[test]
fn page_of_text_refuses_other_text() {
    assert!(page_of_text("not json").is_none());
    assert!(page_of_text("").is_none());
    let page = page_of_text("{}").unwrap();
    assert_eq!(page.total_pages, None);
    assert!(page.auctions.is_none());
}

#[test]
fn page_findings_of_text_selects() {
    let found = page_findings_of_text(&watch(), PAGE).unwrap();
    assert_eq!(
        found,
        Some(vec![ValidItem { item: "Hyperion".to_string(), price: 900 }])
    );
}

#[test]
fn page_findings_of_text_errors() {
    assert_eq!(page_findings_of_text(&watch(), "[1,"), Err(PageError::NotJson));
    assert_eq!(
        page_findings_of_text(&watch(), r#"{"totalPages": 1}"#),
        Err(PageError::MissingEntry)
    );
    assert_eq!(
        page_findings_of_text(&watch(), r#"{"auctions": [{"bin": true, "item_name": "x"}]}"#),
        Err(PageError::MissingEntry)
    );
    assert_eq!(
        page_findings_of_text(&watch(), r#"{"auctions": [{"bin": true, "claimed": true}]}"#),
        Ok(None)
    );
    assert_eq!(page_findings_of_text(&watch(), r#"{"auctions": []}"#), Ok(None));
}
