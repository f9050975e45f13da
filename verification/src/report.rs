//! From the findings of one round to the report that is shown and sent.

use vstd::prelude::*;
use vstd::seq_lib::{lemma_flatten_concat, lemma_multiset_commutative};

use crate::auction::{views, ValidItem};
use crate::text::{decimal, decimal_text};

verus! {

// ---------------------------------------------------------------------------
// The cheapest finding of each item
// ---------------------------------------------------------------------------

/// The lower of two prices.
pub open spec fn lower(a: i64, b: i64) -> i64 {
    if a <= b {
        a
    } else {
        b
    }
}

/// Some entry of `acc` has the name `name`.
pub open spec fn has_name(acc: Seq<(Seq<char>, i64)>, name: Seq<char>) -> bool {
    exists|k: int| 0 <= k < acc.len() && acc[k].0 == name
}

/// Adds a finding to a table of the lowest price per name: a name already
/// there keeps the lower of the two prices, a new name goes at the end.
pub open spec fn insert_lowest(acc: Seq<(Seq<char>, i64)>, e: (Seq<char>, i64)) -> Seq<
    (Seq<char>, i64),
> {
    if has_name(acc, e.0) {
        let k = choose|k: int| 0 <= k < acc.len() && acc[k].0 == e.0;
        acc.update(k, (e.0, lower(acc[k].1, e.1)))
    } else {
        acc.push(e)
    }
}

/// The lowest price found for each name, names in the order in which they
/// were first found.
pub open spec fn lowest_per_item(s: Seq<(Seq<char>, i64)>) -> Seq<(Seq<char>, i64)>
    decreases s.len(),
{
    if s.len() == 0 {
        seq![]
    } else {
        insert_lowest(lowest_per_item(s.drop_last()), s.last())
    }
}

/// No two entries share a name.
pub open spec fn distinct_names(acc: Seq<(Seq<char>, i64)>) -> bool {
    forall|i: int, j: int| 0 <= i < j < acc.len() ==> acc[i].0 != acc[j].0
}

/// Inserting keeps the names distinct.
proof fn lemma_insert_distinct(acc: Seq<(Seq<char>, i64)>, e: (Seq<char>, i64))
    requires
        distinct_names(acc),
    ensures
        distinct_names(insert_lowest(acc, e)),
{
}

/// The table of lowest prices never holds a name twice.
pub proof fn lemma_lowest_distinct(s: Seq<(Seq<char>, i64)>)
    ensures
        distinct_names(lowest_per_item(s)),
    decreases s.len(),
{
    if s.len() > 0 {
        lemma_lowest_distinct(s.drop_last());
        lemma_insert_distinct(lowest_per_item(s.drop_last()), s.last());
    }
}

/// Entry `k` of the table is one of the findings, and no finding of that
/// name is cheaper.
pub open spec fn cheapest_entry(s: Seq<(Seq<char>, i64)>, r: Seq<(Seq<char>, i64)>, k: int) -> bool {
    &&& exists|i: int| 0 <= i < s.len() && s[i] == r[k]
    &&& forall|i: int| 0 <= i < s.len() && s[i].0 == r[k].0 ==> r[k].1 <= s[i].1
}

/// The table of lowest prices holds, for every name found, one entry: one of
/// the findings of that name, and none of them is cheaper.
pub proof fn lemma_lowest_sound(s: Seq<(Seq<char>, i64)>)
    ensures
        forall|k: int|
            0 <= k < lowest_per_item(s).len() ==> cheapest_entry(s, lowest_per_item(s), k),
        forall|i: int| 0 <= i < s.len() ==> has_name(lowest_per_item(s), #[trigger] s[i].0),
    decreases s.len(),
{
    if s.len() > 0 {
        let s0 = s.drop_last();
        let e = s.last();
        let r0 = lowest_per_item(s0);
        let r = lowest_per_item(s);
        lemma_lowest_sound(s0);
        lemma_lowest_distinct(s0);
        assert(r == insert_lowest(r0, e));
        assert forall|i: int| 0 <= i < s0.len() implies s[i] == s0[i] by {}
        if has_name(r0, e.0) {
            let k0 = choose|k: int| 0 <= k < r0.len() && r0[k].0 == e.0;
            assert(r == r0.update(k0, (e.0, lower(r0[k0].1, e.1))));
            assert forall|k: int| 0 <= k < r.len() implies cheapest_entry(s, r, k) by {
                assert(cheapest_entry(s0, r0, k));
                let w = choose|i: int| 0 <= i < s0.len() && s0[i] == r0[k];
                assert(s[w] == r0[k]);
                if k == k0 {
                    if lower(r0[k0].1, e.1) == e.1 {
                        assert(s[s.len() - 1] == r[k]);
                    } else {
                        assert(r[k] == r0[k]);
                    }
                    assert forall|i: int| 0 <= i < s.len() && s[i].0 == r[k].0 implies r[k].1
                        <= s[i].1 by {
                        if i < s.len() - 1 {
                            assert(s0[i].0 == r0[k].0);
                        }
                    }
                } else {
                    assert(r[k] == r0[k]);
                    assert(r0[k].0 != r0[k0].0);
                    assert forall|i: int| 0 <= i < s.len() && s[i].0 == r[k].0 implies r[k].1
                        <= s[i].1 by {
                        if i < s.len() - 1 {
                            assert(s0[i].0 == r0[k].0);
                        }
                    }
                }
            }
            assert forall|i: int| 0 <= i < s.len() implies has_name(r, #[trigger] s[i].0) by {
                if i < s.len() - 1 {
                    assert(has_name(r0, s0[i].0));
                    let k = choose|k: int| 0 <= k < r0.len() && r0[k].0 == s0[i].0;
                    assert(r[k].0 == r0[k].0);
                } else {
                    assert(r[k0].0 == e.0);
                }
            }
        } else {
            assert(r == r0.push(e));
            assert forall|k: int| 0 <= k < r.len() implies cheapest_entry(s, r, k) by {
                if k < r0.len() {
                    assert(cheapest_entry(s0, r0, k));
                    let w = choose|i: int| 0 <= i < s0.len() && s0[i] == r0[k];
                    assert(s[w] == r[k]);
                    assert forall|i: int| 0 <= i < s.len() && s[i].0 == r[k].0 implies r[k].1
                        <= s[i].1 by {
                        if i < s.len() - 1 {
                            assert(s0[i].0 == r0[k].0);
                        } else {
                            assert(r0[k].0 != e.0);
                        }
                    }
                } else {
                    assert(s[s.len() - 1] == r[k]);
                    assert forall|i: int| 0 <= i < s.len() && s[i].0 == r[k].0 implies r[k].1
                        <= s[i].1 by {
                        if i < s.len() - 1 {
                            assert(has_name(r0, s0[i].0));
                        }
                    }
                }
            }
            assert forall|i: int| 0 <= i < s.len() implies has_name(r, #[trigger] s[i].0) by {
                if i < s.len() - 1 {
                    assert(has_name(r0, s0[i].0));
                    let k = choose|k: int| 0 <= k < r0.len() && r0[k].0 == s0[i].0;
                    assert(r[k].0 == r0[k].0);
                } else {
                    assert(r[r.len() - 1].0 == e.0);
                }
            }
        }
    }
}

/// The findings, one per name, each at the lowest price found for that name;
/// names keep the order in which they were first found.
pub fn cheapest_per_item(found: &Vec<ValidItem>) -> (r: Vec<ValidItem>)
    ensures
        views(r@) == lowest_per_item(views(found@)),
{
    let ghost all = views(found@);
    let mut acc: Vec<ValidItem> = Vec::new();
    for i in 0..found.len()
        invariant
            all == views(found@),
            views(acc@) == lowest_per_item(all.take(i as int)),
    {
        let e = &found[i];
        let ghost before = views(acc@);
        proof {
            assert(all.take(i + 1).drop_last() == all.take(i as int));
            assert(all.take(i + 1).last() == e@);
            lemma_lowest_distinct(all.take(i as int));
        }
        let mut pos: usize = 0;
        let mut hit = false;
        while pos < acc.len()
            invariant_except_break
                !hit,
            invariant
                before == views(acc@),
                pos <= acc.len(),
                forall|q: int| 0 <= q < pos ==> acc@[q].item@ != e.item@,
            ensures
                hit ==> pos < acc.len() && acc@[pos as int].item@ == e.item@,
                !hit ==> forall|q: int| 0 <= q < acc.len() ==> acc@[q].item@ != e.item@,
            decreases acc.len() - pos,
        {
            if acc[pos].item == e.item {
                hit = true;
                break;
            }
            pos = pos + 1;
        }
        if hit {
            proof {
                assert(before[pos as int].0 == e@.0);
                assert(has_name(before, e@.0));
                let k = choose|k: int| 0 <= k < before.len() && before[k].0 == e@.0;
                assert(k == pos);
            }
            if e.price < acc[pos].price {
                acc.set(pos, e.duplicate());
            }
            assert(views(acc@) =~= insert_lowest(before, e@));
        } else {
            let d = e.duplicate();
            proof {
                assert(!has_name(before, e@.0));
                acc@.lemma_push_map_commute(|v: ValidItem| v@, d);
            }
            acc.push(d);
            assert(views(acc@) =~= insert_lowest(before, e@));
        }
    }
    assert(all.take(all.len() as int) == all);
    acc
}

// ---------------------------------------------------------------------------
// A round does not depend on the order in which later pages arrive
// ---------------------------------------------------------------------------

/// `e` is one of the findings, and no finding of its name is cheaper.
pub open spec fn cheapest_in(s: Seq<(Seq<char>, i64)>, e: (Seq<char>, i64)) -> bool {
    &&& s.contains(e)
    &&& forall|x: (Seq<char>, i64)| s.contains(x) && x.0 == e.0 ==> e.1 <= x.1
}

/// The table of lowest prices holds exactly the findings that no finding of
/// the same name undercuts.
pub proof fn lemma_lowest_exactly(s: Seq<(Seq<char>, i64)>, e: (Seq<char>, i64))
    ensures
        lowest_per_item(s).contains(e) <==> cheapest_in(s, e),
{
    let r = lowest_per_item(s);
    lemma_lowest_sound(s);
    if r.contains(e) {
        let k = choose|k: int| 0 <= k < r.len() && r[k] == e;
        assert(cheapest_entry(s, r, k));
        assert forall|x: (Seq<char>, i64)| s.contains(x) && x.0 == e.0 implies e.1 <= x.1 by {
            let i = choose|i: int| 0 <= i < s.len() && s[i] == x;
        }
    }
    if cheapest_in(s, e) {
        let i0 = choose|i: int| 0 <= i < s.len() && s[i] == e;
        assert(has_name(r, s[i0].0));
        let k = choose|k: int| 0 <= k < r.len() && r[k].0 == s[i0].0;
        assert(cheapest_entry(s, r, k));
        let w = choose|i: int| 0 <= i < s.len() && s[i] == r[k];
        assert(s.contains(s[w]));
        assert(r[k] == e);
    }
}

/// Inserting into the table keeps every entry's name where it was.
proof fn lemma_insert_keeps_names(acc: Seq<(Seq<char>, i64)>, e: (Seq<char>, i64))
    ensures
        acc.len() <= insert_lowest(acc, e).len(),
        forall|k: int| 0 <= k < acc.len() ==> #[trigger] insert_lowest(acc, e)[k].0 == acc[k].0,
{
}

/// The names found in the first findings open the table, in the same order,
/// whatever is found after them.
pub proof fn lemma_lowest_prefix(first: Seq<(Seq<char>, i64)>, rest: Seq<(Seq<char>, i64)>)
    ensures
        lowest_per_item(first).len() <= lowest_per_item(first + rest).len(),
        forall|k: int|
            0 <= k < lowest_per_item(first).len() ==> #[trigger] lowest_per_item(first + rest)[k].0
                == lowest_per_item(first)[k].0,
    decreases rest.len(),
{
    if rest.len() == 0 {
        assert(first + rest =~= first);
    } else {
        let r0 = rest.drop_last();
        lemma_lowest_prefix(first, r0);
        assert((first + rest).drop_last() =~= first + r0);
        assert((first + rest).last() == rest.last());
        lemma_insert_keeps_names(lowest_per_item(first + r0), rest.last());
    }
}

/// Reordering the pages reorders their findings and nothing more.
proof fn lemma_flatten_reordered<A>(a: Seq<Seq<A>>, b: Seq<Seq<A>>)
    requires
        a.to_multiset() == b.to_multiset(),
    ensures
        a.flatten().to_multiset() == b.flatten().to_multiset(),
    decreases a.len(),
{
    broadcast use vstd::seq_lib::group_to_multiset_ensures;
    broadcast use vstd::multiset::group_multiset_axioms;

    a.to_multiset_ensures();
    b.to_multiset_ensures();
    if a.len() == 0 {
        assert(b.len() == 0);
        assert(a =~= b);
    } else {
        let x = a[0];
        assert(a.contains(x));
        assert(a.to_multiset().count(x) > 0);
        assert(b.to_multiset().count(x) > 0);
        assert(b.contains(x));
        let idx = choose|i: int| 0 <= i < b.len() && b[i] == x;
        let a2 = a.drop_first();
        let b2 = b.remove(idx);
        assert(a2 =~= a.remove(0));
        lemma_flatten_reordered(a2, b2);
        let t = b.take(idx);
        let u = b.skip(idx + 1);
        assert(b =~= t + (seq![x] + u));
        assert(b2 =~= t + u);
        lemma_flatten_concat(t, seq![x] + u);
        lemma_flatten_concat(seq![x], u);
        lemma_flatten_concat(t, u);
        seq![x].lemma_flatten_singleton();
        assert(a.flatten() == x + a2.flatten());
        lemma_multiset_commutative(x, a2.flatten());
        lemma_multiset_commutative(t.flatten(), x + u.flatten());
        lemma_multiset_commutative(x, u.flatten());
        lemma_multiset_commutative(t.flatten(), u.flatten());
        assert(b.flatten().to_multiset() =~= a.flatten().to_multiset());
    }
}

/// A round's report does not depend on the order in which the results of the
/// later pages arrive: with the same first page and the same later pages in
/// any order, the table holds the same (name, price) pairs, and the names
/// found on the first page open it in the same order.
pub proof fn lemma_round_order_independent(
    first: Seq<(Seq<char>, i64)>,
    later_a: Seq<Seq<(Seq<char>, i64)>>,
    later_b: Seq<Seq<(Seq<char>, i64)>>,
)
    requires
        later_a.to_multiset() == later_b.to_multiset(),
    ensures
        forall|e: (Seq<char>, i64)|
            lowest_per_item(first + later_a.flatten()).contains(e) <==> lowest_per_item(
                first + later_b.flatten(),
            ).contains(e),
        lowest_per_item(first).len() <= lowest_per_item(first + later_a.flatten()).len(),
        lowest_per_item(first).len() <= lowest_per_item(first + later_b.flatten()).len(),
        forall|k: int|
            0 <= k < lowest_per_item(first).len() ==> lowest_per_item(first + later_a.flatten())[k].0
                == lowest_per_item(first)[k].0 && lowest_per_item(first + later_b.flatten())[k].0
                == lowest_per_item(first)[k].0,
{
    broadcast use vstd::multiset::group_multiset_axioms;

    let s1 = first + later_a.flatten();
    let s2 = first + later_b.flatten();
    lemma_flatten_reordered(later_a, later_b);
    lemma_multiset_commutative(first, later_a.flatten());
    lemma_multiset_commutative(first, later_b.flatten());
    assert(s1.to_multiset() =~= s2.to_multiset());
    s1.to_multiset_ensures();
    s2.to_multiset_ensures();
    assert forall|x: (Seq<char>, i64)| s1.contains(x) <==> s2.contains(x) by {
        assert(s1.to_multiset().count(x) == s2.to_multiset().count(x));
    }
    assert forall|e: (Seq<char>, i64)|
        lowest_per_item(s1).contains(e) <==> lowest_per_item(s2).contains(e) by {
        lemma_lowest_exactly(s1, e);
        lemma_lowest_exactly(s2, e);
    }
    lemma_lowest_prefix(first, later_a.flatten());
    lemma_lowest_prefix(first, later_b.flatten());
}

// ---------------------------------------------------------------------------
// The report text
// ---------------------------------------------------------------------------

/// Where reports go; each has its own first words.
#[derive(Debug, Clone, Copy, PartialEq, Eq)]
pub enum Channel {
    /// The line written to the controlling stream.
    Stream,
    /// The message shown in the game chat.
    Chat,
}

/// The words that open a report on the channel.
pub open spec fn header(channel: Channel) -> Seq<char> {
    match channel {
        Channel::Stream => "Found item: "@,
        Channel::Chat => "Found item\\s: "@,
    }
}

/// One finding as text: `<name> for <price>`.
pub open spec fn entry_text(v: (Seq<char>, i64)) -> Seq<char> {
    v.0 + " for "@ + decimal(v.1 as int)
}

/// The findings as text, separated by `, `.
pub open spec fn joined(s: Seq<(Seq<char>, i64)>) -> Seq<char>
    decreases s.len(),
{
    if s.len() == 0 {
        seq![]
    } else if s.len() == 1 {
        entry_text(s[0])
    } else {
        joined(s.drop_last()) + ", "@ + entry_text(s.last())
    }
}

/// Joining two non-empty lists of findings puts exactly one `, ` between
/// the text of the first and the text of the second; so every two
/// consecutive findings of a report are separated by `, `.
pub proof fn lemma_joined_concat(s: Seq<(Seq<char>, i64)>, t: Seq<(Seq<char>, i64)>)
    requires
        s.len() > 0,
        t.len() > 0,
    ensures
        joined(s + t) == joined(s) + ", "@ + joined(t),
    decreases t.len(),
{
    let st = s + t;
    assert(st.last() == t.last());
    if t.len() == 1 {
        assert(st.drop_last() =~= s);
        assert(joined(t) == entry_text(t[0]));
        assert(joined(st) == joined(s) + ", "@ + entry_text(t.last()));
    } else {
        let t0 = t.drop_last();
        assert(st.drop_last() =~= s + t0);
        lemma_joined_concat(s, t0);
        assert(joined(st) =~= joined(s) + ", "@ + joined(t));
    }
}

/// A single finding is written alone, without any separator.
pub proof fn lemma_joined_single(v: (Seq<char>, i64))
    ensures
        joined(seq![v]) == v.0 + " for "@ + decimal(v.1 as int),
{
}

/// A report: the channel's header, the findings, and a `\r\n` line end.
pub open spec fn report_text(header: Seq<char>, s: Seq<(Seq<char>, i64)>) -> Seq<char> {
    header + joined(s) + "\r\n"@
}

/// The text of the report of the given findings on the channel.
pub fn report_message(channel: Channel, lowest: &Vec<ValidItem>) -> (m: String)
    ensures
        m@ == report_text(header(channel), views(lowest@)),
{
    let mut m = match channel {
        Channel::Stream => "Found item: ".to_owned(),
        Channel::Chat => "Found item\\s: ".to_owned(),
    };
    let ghost h = m@;
    let ghost all = views(lowest@);
    for i in 0..lowest.len()
        invariant
            h == header(channel),
            all == views(lowest@),
            m@ == h + joined(all.take(i as int)),
    {
        let v = &lowest[i];
        let price = decimal_text(v.price);
        let ghost before = m@;
        if i > 0 {
            m.append(", ");
        }
        m.append(v.item.as_str());
        m.append(" for ");
        m.append(price.as_str());
        proof {
            assert(all.take(i + 1).drop_last() =~= all.take(i as int));
            assert(all.take(i + 1).last() == v@);
            if i == 0 {
                assert(joined(all.take(i as int)) =~= Seq::<char>::empty());
                assert(m@ =~= h + joined(all.take(i + 1)));
            } else {
                assert(m@ =~= h + joined(all.take(i + 1)));
            }
        }
    }
    m.append("\r\n");
    assert(all.take(all.len() as int) == all);
    m
}

// ---------------------------------------------------------------------------
// Deciding what to show and what to send, round after round
// ---------------------------------------------------------------------------

/// What a round reports: the text, and whether it is sent because it differs
/// from the last report; nothing when the round found nothing.
pub open spec fn review_outcome(last: Seq<char>, channel: Channel, found: Seq<(Seq<char>, i64)>) -> Option<
    (Seq<char>, bool),
> {
    let low = lowest_per_item(found);
    if low.len() == 0 {
        None
    } else {
        let m = report_text(header(channel), low);
        Some((m, m != last))
    }
}

/// The last report after a round: the round's report, or the earlier one
/// when the round found nothing.
pub open spec fn next_last(last: Seq<char>, channel: Channel, found: Seq<(Seq<char>, i64)>) -> Seq<
    char,
> {
    match review_outcome(last, channel, found) {
        Some((m, _)) => m,
        None => last,
    }
}

/// A report of a round: the text to show, and whether to send it.
pub struct Report {
    pub message: String,
    pub send: bool,
}

/// The state kept from round to round: the channel and the last report.
pub struct Watcher {
    pub channel: Channel,
    pub last_report: String,
}

impl Watcher {
    /// A watcher for the channel that has reported nothing yet.
    pub fn new(channel: Channel) -> (w: Watcher)
        ensures
            w.channel == channel,
            w.last_report@ == Seq::<char>::empty(),
    {
        Watcher { channel, last_report: String::new() }
    }

    /// One round: keeps the cheapest finding of each item; when there is
    /// any, reports them, to be sent only if the text differs from the last
    /// report, and remembers the text.
    pub fn review(&mut self, found: &Vec<ValidItem>) -> (r: Option<Report>)
        ensures
            final(self).channel == old(self).channel,
            final(self).last_report@ == next_last(
                old(self).last_report@,
                old(self).channel,
                views(found@),
            ),
            r is None <==> review_outcome(old(self).last_report@, old(self).channel, views(found@))
                is None,
            r matches Some(rep) ==> review_outcome(
                old(self).last_report@,
                old(self).channel,
                views(found@),
            ) == Some((rep.message@, rep.send)),
    {
        let lowest = cheapest_per_item(found);
        if lowest.len() == 0 {
            return None;
        }
        let message = report_message(self.channel, &lowest);
        let send = message != self.last_report;
        self.last_report = message.clone();
        Some(Report { message, send })
    }
}

/// A round that finds what the round before found is reported again but not
/// sent, and leaves the last report as it was.
pub proof fn lemma_repeat_not_sent(last: Seq<char>, channel: Channel, found: Seq<(Seq<char>, i64)>)
    requires
        review_outcome(last, channel, found) is Some,
    ensures
        review_outcome(next_last(last, channel, found), channel, found) == Some(
            (next_last(last, channel, found), false),
        ),
        next_last(next_last(last, channel, found), channel, found) == next_last(last, channel, found),
{
}

} // verus!
