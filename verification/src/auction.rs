//! Auction listings as read from a page of the auction house, and the
//! selection of the listings that match the watch list.

use serde_json::{Map as JsonMap, Value};
use vstd::prelude::*;

use crate::items::{Item, Items};
use crate::text::{contains_seq, contains_text};

verus! {

/// What the selection reads of one listing of a page.
pub struct Auction {
    /// The listing carries a `bin` entry (a buy-it-now offer).
    pub bin: bool,
    /// The `claimed` entry when it is a boolean.
    pub claimed: Option<bool>,
    /// The `item_name` entry when it is text.
    pub item_name: Option<String>,
    /// The `starting_bid` entry when it is an `i64`.
    pub starting_bid: Option<i64>,
    /// The `tier` entry when it is text.
    pub tier: Option<String>,
}

/// What is read of one page of listings.
pub struct AuctionPage {
    /// The `totalPages` entry when it is an `i64`.
    pub total_pages: Option<i64>,
    /// The `auctions` entry when it is a list; an element is `None` when it
    /// is not a JSON object.
    pub auctions: Option<Vec<Option<Auction>>>,
}

/// A listing that matches a watched item: the item's name and the asking price.
#[derive(Debug, Clone, PartialEq, Eq, PartialOrd, Ord)]
pub struct ValidItem {
    pub item: String,
    pub price: i64,
}

impl View for ValidItem {
    type V = (Seq<char>, i64);

    open spec fn view(&self) -> (Seq<char>, i64) {
        (self.item@, self.price)
    }
}

impl ValidItem {
    /// A copy with the same name and price.
    pub fn duplicate(&self) -> (r: ValidItem)
        ensures
            r@ == self@,
    {
        ValidItem { item: self.item.clone(), price: self.price }
    }
}

/// The names and prices of a sequence of findings.
pub open spec fn views(s: Seq<ValidItem>) -> Seq<(Seq<char>, i64)> {
    s.map_values(|v: ValidItem| v@)
}

/// What is read of one listing: whether it has a `bin` entry, then its
/// `claimed`, `item_name`, `starting_bid` and `tier` entries where they have
/// the expected type.
pub type Listing = (bool, Option<bool>, Option<Seq<char>>, Option<i64>, Option<Seq<char>>);

/// What is read of a page: its `totalPages` entry, and its `auctions` list
/// with `None` for every element that is not an object.
pub type PageView = (Option<i64>, Option<Seq<Option<Listing>>>);

/// The characters of an optional text.
pub open spec fn text_of(t: Option<String>) -> Option<Seq<char>> {
    match t {
        Some(s) => Some(s@),
        None => None,
    }
}

impl View for Auction {
    type V = Listing;

    open spec fn view(&self) -> Listing {
        (self.bin, self.claimed, text_of(self.item_name), self.starting_bid, text_of(self.tier))
    }
}

/// What is read of one element of a page's list.
pub open spec fn listing_of(e: Option<Auction>) -> Option<Listing> {
    match e {
        Some(a) => Some(a@),
        None => None,
    }
}

impl View for AuctionPage {
    type V = PageView;

    open spec fn view(&self) -> PageView {
        (
            self.total_pages,
            match self.auctions {
                Some(v) => Some(v@.map_values(|e: Option<Auction>| listing_of(e))),
                None => None,
            },
        )
    }
}

/// The listing offers the watched item: its name holds the item's name, it
/// asks no more than the item's price limit, and its tier is the item's rarity.
pub open spec fn item_matches(i: Item, a: Listing) -> bool {
    &&& contains_seq(a.2->0, i.item@)
    &&& a.3->0 <= i.price
    &&& i.rarity@ == a.4->0
}

/// The findings one listing gives, one per matching watched item, in the
/// order of the watch list.
pub open spec fn hits(items: Seq<Item>, a: Listing) -> Seq<(Seq<char>, i64)>
    decreases items.len(),
{
    if items.len() == 0 {
        seq![]
    } else {
        let rest = hits(items.drop_last(), a);
        let i = items.last();
        if item_matches(i, a) {
            rest.push((i.item@, a.3->0))
        } else {
            rest
        }
    }
}

/// The listing is an unclaimed buy-it-now object.
pub open spec fn open_offer(e: Option<Listing>) -> bool {
    &&& e is Some
    &&& (e->0).0
    &&& (e->0).1 == Some(false)
}

/// The findings of one element of a page: none unless it is an open offer.
pub open spec fn listing_hits(items: Seq<Item>, e: Option<Listing>) -> Seq<(Seq<char>, i64)> {
    if open_offer(e) {
        hits(items, e->0)
    } else {
        seq![]
    }
}

/// The findings of a page, listing by listing.
pub open spec fn page_hits(items: Seq<Item>, es: Seq<Option<Listing>>) -> Seq<(Seq<char>, i64)>
    decreases es.len(),
{
    if es.len() == 0 {
        seq![]
    } else {
        page_hits(items, es.drop_last()) + listing_hits(items, es.last())
    }
}

/// Comparing the listing with the item reads only entries that are there.
pub open spec fn item_readable(i: Item, a: Listing) -> bool {
    &&& a.2 is Some
    &&& contains_seq(a.2->0, i.item@) ==> a.3 is Some
    &&& (contains_seq(a.2->0, i.item@) && a.3->0 <= i.price) ==> a.4 is Some
}

/// Reading the listing against the watch list finds every entry it needs.
pub open spec fn listing_readable(items: Seq<Item>, e: Option<Listing>) -> bool {
    e is Some && (e->0).0 ==> {
        &&& (e->0).1 is Some
        &&& (e->0).1 == Some(false) ==> forall|k: int|
            0 <= k < items.len() ==> item_readable(#[trigger] items[k], e->0)
    }
}

/// Every entry that selecting from the page reads is there.
pub open spec fn page_readable(items: Seq<Item>, page: PageView) -> bool {
    &&& page.1 is Some
    &&& forall|k: int|
        0 <= k < page.1->0.len() ==> listing_readable(items, #[trigger] page.1->0[k])
}

/// `f` is the finding of watched item `j` on the listing `a`.
pub open spec fn found_by(items: Seq<Item>, a: Listing, f: (Seq<char>, i64), j: int) -> bool {
    &&& 0 <= j < items.len()
    &&& item_matches(items[j], a)
    &&& f == (items[j].item@, a.3->0)
}

/// The watched item whose finding on listing `a` is finding `k`.
proof fn hit_source(items: Seq<Item>, a: Listing, k: int) -> (j: int)
    requires
        0 <= k < hits(items, a).len(),
    ensures
        found_by(items, a, hits(items, a)[k], j),
    decreases items.len(),
{
    let rest = items.drop_last();
    if k < hits(rest, a).len() {
        let j = hit_source(rest, a, k);
        assert(rest[j] == items[j]);
        j
    } else {
        items.len() - 1
    }
}

/// The listing and the watched item that finding `k` of a page comes from.
proof fn finding_source(items: Seq<Item>, es: Seq<Option<Listing>>, k: int) -> (qj: (int, int))
    requires
        0 <= k < page_hits(items, es).len(),
    ensures
        0 <= qj.0 < es.len(),
        open_offer(es[qj.0]),
        found_by(items, es[qj.0]->0, page_hits(items, es)[k], qj.1),
    decreases es.len(),
{
    let rest = es.drop_last();
    let before = page_hits(items, rest);
    if k < before.len() {
        let (q, j) = finding_source(items, rest, k);
        assert(es[q] == rest[q]);
        (q, j)
    } else {
        let e = es.last();
        let j = hit_source(items, e->0, k - before.len());
        (es.len() - 1, j)
    }
}

/// `f` comes from an unclaimed buy-it-now listing among `es` and a watched
/// item that the listing matches.
pub open spec fn has_source(items: Seq<Item>, es: Seq<Option<Listing>>, f: (Seq<char>, i64)) -> bool {
    exists|q: int, j: int| 0 <= q < es.len() && open_offer(es[q]) && found_by(items, es[q]->0, f, j)
}

/// Every finding of a page comes from an unclaimed buy-it-now listing of the
/// page and a watched item that the listing matches: the listing's name holds
/// the item's name, its tier is the item's rarity, and the finding's price is
/// the listing's starting bid, which is within the item's price limit.
pub proof fn lemma_findings_sound(items: Seq<Item>, es: Seq<Option<Listing>>)
    ensures
        forall|k: int|
            0 <= k < page_hits(items, es).len() ==> has_source(
                items,
                es,
                #[trigger] page_hits(items, es)[k],
            ),
{
    assert forall|k: int| 0 <= k < page_hits(items, es).len() implies has_source(
        items,
        es,
        #[trigger] page_hits(items, es)[k],
    ) by {
        let (q, j) = finding_source(items, es, k);
    }
}

/// Finding `f` comes from listing `q` and watched item `j`: the listing is
/// an object that carries a `bin` entry and is not claimed, its name contains
/// the item's name, its starting bid is at most the item's price limit, its
/// tier is exactly the item's rarity, and `f` is the item's name with the
/// listing's starting bid.
pub open spec fn sourced_by(
    items: Seq<Item>,
    es: Seq<Option<Listing>>,
    f: (Seq<char>, i64),
    q: int,
    j: int,
) -> bool {
    &&& 0 <= q < es.len()
    &&& 0 <= j < items.len()
    &&& es[q] is Some
    &&& (es[q]->0).0
    &&& (es[q]->0).1 == Some(false)
    &&& contains_seq((es[q]->0).2->0, items[j].item@)
    &&& (es[q]->0).3->0 <= items[j].price
    &&& (es[q]->0).4->0 == items[j].rarity@
    &&& f == (items[j].item@, (es[q]->0).3->0)
}

/// Some listing and watched item give finding `f` (see `sourced_by`).
pub open spec fn bin_offer_source(items: Seq<Item>, es: Seq<Option<Listing>>, f: (Seq<char>, i64)) -> bool {
    exists|q: int, j: int| sourced_by(items, es, f, q, j)
}

/// Only unclaimed listings that carry a `bin` entry give findings, and only
/// for watched items whose name their name contains, whose price limit their
/// starting bid does not exceed, and whose rarity is exactly their tier.
pub proof fn lemma_findings_from_bin_offers(items: Seq<Item>, es: Seq<Option<Listing>>)
    ensures
        forall|k: int|
            0 <= k < page_hits(items, es).len() ==> bin_offer_source(
                items,
                es,
                #[trigger] page_hits(items, es)[k],
            ),
{
    assert forall|k: int| 0 <= k < page_hits(items, es).len() implies bin_offer_source(
        items,
        es,
        #[trigger] page_hits(items, es)[k],
    ) by {
        let (q, j) = finding_source(items, es, k);
        assert(sourced_by(items, es, page_hits(items, es)[k], q, j));
    }
}


proof fn lemma_hits_complete(items: Seq<Item>, a: Listing, j: int)
    requires
        0 <= j < items.len(),
        item_matches(items[j], a),
    ensures
        hits(items, a).contains((items[j].item@, a.3->0)),
    decreases items.len(),
{
    let rest = items.drop_last();
    if j < items.len() - 1 {
        lemma_hits_complete(rest, a, j);
        assert(rest[j] == items[j]);
        let k = choose|k: int| 0 <= k < hits(rest, a).len() && hits(rest, a)[k] == (
            rest[j].item@,
            a.3->0,
        );
        assert(hits(items, a)[k] == hits(rest, a)[k]);
    } else {
        assert(hits(items, a)[hits(items, a).len() - 1] == (items[j].item@, a.3->0));
    }
}

/// Nothing is missed: every unclaimed buy-it-now listing of the page that
/// matches a watched item gives a finding of that item at the listing's
/// starting bid.
pub proof fn lemma_findings_complete(items: Seq<Item>, es: Seq<Option<Listing>>, q: int, j: int)
    requires
        0 <= q < es.len(),
        open_offer(es[q]),
        0 <= j < items.len(),
        item_matches(items[j], es[q]->0),
    ensures
        page_hits(items, es).contains((items[j].item@, (es[q]->0).3->0)),
    decreases es.len(),
{
    let rest = es.drop_last();
    let f = (items[j].item@, (es[q]->0).3->0);
    if q < es.len() - 1 {
        assert(rest[q] == es[q]);
        lemma_findings_complete(items, rest, q, j);
        let k = choose|k: int| 0 <= k < page_hits(items, rest).len() && page_hits(items, rest)[k] == f;
        assert(page_hits(items, es)[k] == page_hits(items, rest)[k]);
    } else {
        lemma_hits_complete(items, es[q]->0, j);
        let h = hits(items, es[q]->0);
        let k = choose|k: int| 0 <= k < h.len() && h[k] == f;
        let n = page_hits(items, rest).len();
        assert(listing_hits(items, es.last()) == h);
        assert(page_hits(items, es)[n + k] == f);
    }
}

/// Appends to `out` the findings of one open offer.
fn push_hits(items: &Vec<Item>, a: &Auction, out: &mut Vec<ValidItem>)
    requires
        forall|k: int| 0 <= k < items@.len() ==> item_readable(#[trigger] items@[k], a@),
    ensures
        views(final(out)@) == views(old(out)@) + hits(items@, a@),
{
    let ghost start = views(out@);
    for j in 0..items.len()
        invariant
            forall|k: int| 0 <= k < items@.len() ==> item_readable(#[trigger] items@[k], a@),
            views(out@) == start + hits(items@.take(j as int), a@),
    {
        let i = &items[j];
        assert(item_readable(items@[j as int], a@));
        assert(items@.take(j + 1).drop_last() == items@.take(j as int));
        assert(items@.take(j + 1).last() == items@[j as int]);
        let name = match &a.item_name {
            Some(n) => n,
            None => {
                return;
            },
        };
        if contains_text(name.as_str(), i.item.as_str()) {
            let bid = match a.starting_bid {
                Some(b) => b,
                None => {
                    return;
                },
            };
            if bid <= i.price {
                let tier = match &a.tier {
                    Some(t) => t,
                    None => {
                        return;
                    },
                };
                if i.rarity == *tier {
                    let found = ValidItem { item: i.item.clone(), price: bid };
                    proof {
                        out@.lemma_push_map_commute(|v: ValidItem| v@, found);
                    }
                    out.push(found);
                }
            }
        }
    }
    assert(items@.take(items@.len() as int) == items@);
}

/// The listings of a page that match the watch list: for each unclaimed
/// buy-it-now listing in page order, one finding per watched item, in list
/// order, whose name the listing's name contains, whose price limit the
/// starting bid does not exceed and whose rarity is the listing's tier.
pub fn sortpage(items: &Items, page: &AuctionPage) -> (r: Vec<ValidItem>)
    requires
        page_readable(items.items@, page@),
    ensures
        views(r@) == page_hits(items.items@, page@.1->0),
{
    let mut out: Vec<ValidItem> = Vec::new();
    let auctions = match &page.auctions {
        Some(v) => v,
        None => {
            return out;
        },
    };
    let ghost es = page@.1->0;
    for k in 0..auctions.len()
        invariant
            page.auctions == Some(*auctions),
            es == page@.1->0,
            es == auctions@.map_values(|e: Option<Auction>| listing_of(e)),
            page_readable(items.items@, page@),
            views(out@) == page_hits(items.items@, es.take(k as int)),
    {
        assert(es.take(k + 1).drop_last() == es.take(k as int));
        assert(es.take(k + 1).last() == es[k as int]);
        assert(es[k as int] == listing_of(auctions@[k as int]));
        assert(listing_readable(items.items@, es[k as int]));
        match &auctions[k] {
            Some(a) => {
                if a.bin {
                    if a.claimed == Some(false) {
                        push_hits(&items.items, a, &mut out);
                    }
                }
            },
            None => {},
        }
        assert(views(out@) == page_hits(items.items@, es.take(k + 1)));
    }
    assert(es.take(es.len() as int) == es);
    out
}

/// Whether comparing the listing with the item finds every entry it reads.
fn item_is_readable(i: &Item, a: &Auction) -> (r: bool)
    ensures
        r == item_readable(*i, a@),
{
    match &a.item_name {
        None => false,
        Some(name) => {
            if contains_text(name.as_str(), i.item.as_str()) {
                match a.starting_bid {
                    None => false,
                    Some(bid) => bid > i.price || a.tier.is_some(),
                }
            } else {
                true
            }
        },
    }
}

/// Whether reading the listing against the watch list finds every entry it needs.
fn listing_is_readable(items: &Vec<Item>, e: &Option<Auction>) -> (r: bool)
    ensures
        r == listing_readable(items@, listing_of(*e)),
{
    match e {
        None => true,
        Some(a) => {
            if !a.bin {
                return true;
            }
            match a.claimed {
                None => false,
                Some(true) => true,
                Some(false) => {
                    for k in 0..items.len()
                        invariant
                            *e == Some(*a),
                            a.bin,
                            a.claimed == Some(false),
                            forall|q: int| 0 <= q < k ==> item_readable(#[trigger] items@[q], a@),
                    {
                        if !item_is_readable(&items[k], a) {
                            assert(!item_readable(items@[k as int], a@));
                            return false;
                        }
                    }
                    true
                },
            }
        },
    }
}

/// Whether `sortpage` can read the page against the watch list: the
/// `auctions` list is there, and so is every entry the selection reads.
pub fn page_is_readable(items: &Items, page: &AuctionPage) -> (r: bool)
    ensures
        r == page_readable(items.items@, page@),
{
    match &page.auctions {
        None => false,
        Some(auctions) => {
            let ghost es = page@.1->0;
            for k in 0..auctions.len()
                invariant
                    page.auctions == Some(*auctions),
                    es == page@.1->0,
                    es == auctions@.map_values(|e: Option<Auction>| listing_of(e)),
                    forall|q: int| 0 <= q < k ==> listing_readable(items.items@, #[trigger] es[q]),
            {
                assert(es[k as int] == listing_of(auctions@[k as int]));
                if !listing_is_readable(&items.items, &auctions[k]) {
                    assert(!listing_readable(items.items@, es[k as int]));
                    return false;
                }
            }
            true
        },
    }
}

/// The findings of a page fetched after the first: `None` when it has none.
pub fn page_findings(items: &Items, page: &AuctionPage) -> (r: Option<Vec<ValidItem>>)
    requires
        page_readable(items.items@, page@),
    ensures
        page_hits(items.items@, page@.1->0).len() == 0 <==> r is None,
        r matches Some(v) ==> views(v@) == page_hits(items.items@, page@.1->0),
{
    let found = sortpage(items, page);
    if found.len() == 0 {
        None
    } else {
        Some(found)
    }
}

/// The numbers of the pages to fetch after the first one: `1` up to, not
/// including, the page count that the first page gives.
pub fn pages_to_fetch(first: &AuctionPage) -> (r: Vec<usize>)
    requires
        first.total_pages is Some,
        0 <= first.total_pages->0 <= usize::MAX,
    ensures
        first.total_pages->0 <= 1 ==> r@.len() == 0,
        first.total_pages->0 > 1 ==> r@.len() == first.total_pages->0 - 1,
        forall|k: int| 0 <= k < r@.len() ==> r@[k] == k + 1,
{
    let total: i64 = match first.total_pages {
        Some(t) => t,
        None => 0,
    };
    let mut r: Vec<usize> = Vec::new();
    let mut x: i64 = 1;
    while x < total
        invariant
            first.total_pages == Some(total),
            0 <= total <= usize::MAX,
            1 <= x,
            x <= total || x == 1,
            r@.len() == x - 1,
            forall|k: int| 0 <= k < r@.len() ==> r@[k] == k + 1,
        decreases total - x,
    {
        r.push(x as usize);
        x = x + 1;
    }
    r
}

// ---------------------------------------------------------------------------
// Reading a page from its text
// ---------------------------------------------------------------------------

/// The page that the text of a page of the auction house gives, read as
/// `read_page` reads it; `None` when the text is not JSON.
pub uninterp spec fn json_page(text: Seq<char>) -> Option<
    (
        Option<i64>,
        Option<Seq<Option<(bool, Option<bool>, Option<Seq<char>>, Option<i64>, Option<Seq<char>>)>>>,
    ),
>;

/// Parses the text of a page with `simd_json::from_slice` into a
/// `serde_json::Value` and reads, one for one, what the selection uses:
/// `totalPages` and `starting_bid` as `i64`, `claimed` as a boolean,
/// `item_name` and `tier` as text, whether a `bin` key is present, and each
/// element of the `auctions` list that is an object. The contract names the
/// outcome (`json_page`) without saying how JSON text maps to it.
#[verifier::external_body]
fn read_page(text: &str) -> (r: Option<AuctionPage>)
    ensures
        r is None <==> json_page(text@) is None,
        r matches Some(p) ==> json_page(text@) == Some(p@),
{
    let mut bytes = text.as_bytes().to_vec();
    let v: Value = simd_json::from_slice(&mut bytes).ok()?;
    let text_at = |o: &JsonMap<String, Value>, k: &str| o.get(k)?.as_str().map(String::from);
    let listing = |e: &Value| e.as_object().map(|o| Auction {
        bin: o.contains_key("bin"),
        claimed: o.get("claimed").and_then(Value::as_bool),
        item_name: text_at(o, "item_name"),
        starting_bid: o.get("starting_bid").and_then(Value::as_i64),
        tier: text_at(o, "tier"),
    });
    let auctions = v["auctions"].as_array().map(|a| a.iter().map(listing).collect());
    Some(AuctionPage { total_pages: v["totalPages"].as_i64(), auctions })
}

/// Why the text of a page cannot be selected from.
#[derive(Debug, Clone, Copy, PartialEq, Eq)]
pub enum PageError {
    /// The text is not JSON.
    NotJson,
    /// An entry that the selection reads is missing or of another type.
    MissingEntry,
}

/// The page read from its text: `None` exactly when the text is not JSON.
pub fn page_of_text(text: &str) -> (r: Option<AuctionPage>)
    ensures
        r is None <==> json_page(text@) is None,
        r matches Some(p) ==> json_page(text@) == Some(p@),
{
    read_page(text)
}

/// What the findings of a page read from its text are, for a page that can
/// be selected from: `None` when there are none, else exactly the findings.
pub open spec fn findings_of(items: Seq<Item>, page: PageView, r: Option<Vec<ValidItem>>) -> bool {
    &&& page_hits(items, page.1->0).len() == 0 <==> r is None
    &&& r matches Some(v) ==> views(v@) == page_hits(items, page.1->0)
}

/// The findings of a page, fetched after the first, from its text: an error
/// when the text is not JSON or lacks an entry that the selection reads,
/// else `None` when the page has no finding, else its findings.
pub fn page_findings_of_text(items: &Items, text: &str) -> (r: Result<Option<Vec<ValidItem>>, PageError>)
    ensures
        json_page(text@) is None <==> r matches Err(PageError::NotJson),
        json_page(text@) matches Some(p) ==> (r matches Err(PageError::MissingEntry)
            <==> !page_readable(items.items@, p)),
        r matches Ok(f) ==> json_page(text@) is Some && findings_of(
            items.items@,
            json_page(text@)->0,
            f,
        ),
{
    let page = match page_of_text(text) {
        Some(p) => p,
        None => {
            return Err(PageError::NotJson);
        },
    };
    if !page_is_readable(items, &page) {
        return Err(PageError::MissingEntry);
    }
    Ok(page_findings(items, &page))
}

} // verus!
