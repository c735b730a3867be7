//! The output line: `{name=min/mean/max, ...}` in byte-wise name order.
use crate::aggregated_data::AggregatedData;
use crate::codec::{push_tenths, tenths_text};
use crate::input::NEWLINE;
use crate::order::{
    is_sorted_listing, lemma_lex_asymmetric, lemma_lex_irreflexive, lex_lt, listing_view,
};
use crate::stats::{is_station_summary, mean_tenths, Stats, Summary};
use vstd::prelude::*;

verus! {

pub const OPEN_BRACE: u8 = 123;

pub const CLOSE_BRACE: u8 = 125;

pub const EQUALS: u8 = 61;

pub const SLASH: u8 = 47;

pub const COMMA: u8 = 44;

pub const SPACE: u8 = 32;

/// `name=min/mean/max`, each value with one digit after the dot.
pub open spec fn entry_text(name: Seq<u8>, s: Summary) -> Seq<u8> {
    name + seq![EQUALS] + tenths_text(s.min) + seq![SLASH] + tenths_text(mean_tenths(s)) + seq![
        SLASH,
    ] + tenths_text(s.max)
}

/// The entries, separated by `", "`.
pub open spec fn entries_text(l: Seq<(Seq<u8>, Summary)>) -> Seq<u8>
    decreases l.len(),
{
    if l.len() == 0 {
        Seq::empty()
    } else if l.len() == 1 {
        entry_text(l[0].0, l[0].1)
    } else {
        entries_text(l.drop_last()) + seq![COMMA, SPACE] + entry_text(l.last().0, l.last().1)
    }
}

/// The whole line: the entries in braces, then a newline.
pub open spec fn output_text(l: Seq<(Seq<u8>, Summary)>) -> Seq<u8> {
    seq![OPEN_BRACE] + entries_text(l) + seq![CLOSE_BRACE, NEWLINE]
}

/// The stations of `t` in byte-wise order of their names (the one such
/// listing, see `lemma_sorted_listing_unique`).
pub open spec fn sorted_listing_of(t: Stats) -> Seq<(Seq<u8>, Summary)> {
    choose|l: Seq<(Seq<u8>, Summary)>| is_sorted_listing(l, t)
}

/// The output line for the stats `t`.
pub open spec fn report(t: Stats) -> Seq<u8> {
    output_text(sorted_listing_of(t))
}

/// A table has at most one sorted listing.
pub proof fn lemma_sorted_listing_unique(
    l1: Seq<(Seq<u8>, Summary)>,
    l2: Seq<(Seq<u8>, Summary)>,
    t: Stats,
)
    requires
        is_sorted_listing(l1, t),
        is_sorted_listing(l2, t),
    ensures
        l1 == l2,
    decreases l1.len(),
{
    if l1.len() == 0 {
        if l2.len() > 0 {
            assert(t.contains_key(l2[0].0));
        }
        assert(l1 =~= l2);
    } else {
        assert(t.contains_key(l1[0].0));
        assert(l2.len() > 0);
        let h1 = l1[0].0;
        let h2 = l2[0].0;
        if h1 != h2 {
            assert(t.contains_key(h2));
            let i = choose|i: int| 0 <= i < l1.len() && l1[i].0 == h2;
            let j = choose|j: int| 0 <= j < l2.len() && l2[j].0 == h1;
            assert(i != 0 && j != 0);
            assert(lex_lt(l1[0].0, l1[i].0));
            assert(lex_lt(l2[0].0, l2[j].0));
            lemma_lex_asymmetric(h1, h2);
        }
        let k = h1;
        let t2 = t.remove(k);
        let r1 = l1.drop_first();
        let r2 = l2.drop_first();
        lemma_tail_listing(l1, t);
        lemma_tail_listing(l2, t);
        lemma_sorted_listing_unique(r1, r2, t2);
        assert(l1[0] == l2[0]);
        assert(l1 =~= seq![l1[0]] + r1);
        assert(l2 =~= seq![l2[0]] + r2);
    }
}

/// Without its first entry, a sorted listing lists the rest of the table.
proof fn lemma_tail_listing(l: Seq<(Seq<u8>, Summary)>, t: Stats)
    requires
        is_sorted_listing(l, t),
        l.len() > 0,
    ensures
        is_sorted_listing(l.drop_first(), t.remove(l[0].0)),
{
    let k = l[0].0;
    let r = l.drop_first();
    let t2 = t.remove(k);
    assert forall|i: int, j: int| 0 <= i < j < r.len() implies lex_lt(
        #[trigger] r[i].0,
        #[trigger] r[j].0,
    ) by {
        assert(r[i] == l[i + 1] && r[j] == l[j + 1]);
    }
    assert forall|i: int| 0 <= i < r.len() implies t2.contains_key(#[trigger] r[i].0) && t2[r[i].0]
        == r[i].1 by {
        assert(r[i] == l[i + 1]);
        assert(lex_lt(l[0].0, l[i + 1].0));
        lemma_lex_irreflexive(k);
    }
    assert forall|key: Seq<u8>| #[trigger] t2.contains_key(key) implies exists|i: int|
        0 <= i < r.len() && r[i].0 == key by {
        assert(t.contains_key(key));
        let i = choose|i: int| 0 <= i < l.len() && l[i].0 == key;
        assert(i != 0);
        assert(r[i - 1] == l[i]);
    }
}

/// Appends the bytes of `b`.
fn push_bytes(out: &mut Vec<u8>, b: &[u8])
    ensures
        final(out)@ == old(out)@ + b@,
{
    let mut i: usize = 0;
    while i < b.len()
        invariant
            i <= b@.len(),
            out@ == old(out)@ + b@.take(i as int),
        decreases b@.len() - i,
    {
        out.push(b[i]);
        assert(b@.take(i + 1) =~= b@.take(i as int).push(b@[i as int]));
        i = i + 1;
    }
    assert(b@.take(b@.len() as int) =~= b@);
}

/// Appends `name=min/mean/max` for one station.
fn push_entry(out: &mut Vec<u8>, name: &[u8], d: &AggregatedData)
    requires
        is_station_summary(d@),
    ensures
        final(out)@ == old(out)@ + entry_text(name@, d@),
{
    push_bytes(out, name);
    out.push(EQUALS);
    push_tenths(out, d.min_scaled() as i64);
    out.push(SLASH);
    push_tenths(out, d.avg_scaled() as i64);
    out.push(SLASH);
    push_tenths(out, d.max_scaled() as i64);
    assert(out@ =~= old(out)@ + entry_text(name@, d@));
}

proof fn lemma_entries_step(l: Seq<(Seq<u8>, Summary)>, i: int)
    requires
        0 <= i < l.len(),
    ensures
        entries_text(l.take(i + 1)) == if i == 0 {
            entry_text(l[0].0, l[0].1)
        } else {
            entries_text(l.take(i)) + seq![COMMA, SPACE] + entry_text(l[i].0, l[i].1)
        },
{
    assert(l.take(i + 1).drop_last() =~= l.take(i));
    assert(l.take(i + 1).last() == l[i]);
    if i == 0 {
        assert(l.take(1)[0] == l[0]);
    }
}

/// Writes the output line for entries already in order.
pub fn format_results(stats: &Vec<(&[u8], AggregatedData)>) -> (r: Vec<u8>)
    requires
        forall|i: int| 0 <= i < stats@.len() ==> is_station_summary(#[trigger] stats@[i].1@),
    ensures
        r@ == output_text(listing_view(stats@)),
{
    let ghost l = listing_view(stats@);
    let mut out: Vec<u8> = Vec::new();
    out.push(OPEN_BRACE);
    let n = stats.len();
    let mut i: usize = 0;
    assert(l.take(0) =~= Seq::<(Seq<u8>, Summary)>::empty());
    assert(out@ =~= seq![OPEN_BRACE] + entries_text(l.take(0)));
    while i < n
        invariant
            n == stats@.len(),
            l == listing_view(stats@),
            i <= n,
            forall|i: int| 0 <= i < stats@.len() ==> is_station_summary(#[trigger] stats@[i].1@),
            out@ == seq![OPEN_BRACE] + entries_text(l.take(i as int)),
        decreases n - i,
    {
        let (city, measurements) = &stats[i];
        let ghost before = out@;
        proof {
            assert(l[i as int] == (city@, measurements@));
            lemma_entries_step(l, i as int);
        }
        if i > 0 {
            out.push(COMMA);
            out.push(SPACE);
        }
        push_entry(&mut out, city, measurements);
        proof {
            if i > 0 {
                assert(out@ =~= before + seq![COMMA, SPACE] + entry_text(city@, measurements@));
            }
            assert(out@ =~= seq![OPEN_BRACE] + entries_text(l.take(i + 1)));
        }
        i = i + 1;
    }
    out.push(CLOSE_BRACE);
    out.push(NEWLINE);
    assert(l.take(n as int) =~= l);
    assert(out@ =~= output_text(l));
    out
}

} // verus!
