//! Per-station minimum, mean and maximum over lines of `<station>;<temperature>\n`.
use vstd::prelude::*;

pub mod aggregated_data;
pub mod chunk_iter;
pub mod codec;
pub mod input;
pub mod order;
pub mod output;
pub mod station_table;
pub mod stats;

use crate::chunk_iter::concat_chunks;
use crate::input::{
    find_byte, lemma_find_byte, lemma_find_byte_at, lemma_first_line, lemma_row_count_bound,
    lemma_rows_append, lemma_rows_readings, lemma_valid_split, row_of, rows_of, valid_input,
    NEWLINE, SEMICOLON,
};
use crate::order::listing_view;
use crate::output::{format_results, lemma_sorted_listing_unique, report, sorted_listing_of};
use crate::station_table::StationTable;
use crate::stats::{
    counts_fit, is_reading, lemma_counts_fit_prefix, lemma_mean_between, lemma_merge_empty,
    lemma_stats_of_append, lemma_stats_of_readings, lemma_stats_of_valid, mean_tenths, merge_all,
    stats_of, Stats,
};

verus! {

/// The least number of bytes of a station name.
pub const MIN_STATION_LEN: usize = 1;

/// The least number of bytes of a temperature (for example `6.6`).
pub const MIN_MEASUREMENT_LEN: usize = 3;

/// Reads the line that starts at `bytes[0]` and advances
/// `consumed_bytes_count` past its newline, so that the next call starts on
/// the next line.
pub fn process_line<'a>(bytes: &'a [u8], consumed_bytes_count: &mut usize) -> (r: (&'a [u8], i16))
    requires
        bytes@.len() > 0,
        valid_input(bytes@),
        *old(consumed_bytes_count) + bytes@.len() <= usize::MAX,
    ensures
        ({
            let e = find_byte(bytes@, NEWLINE) as int;
            &&& e < bytes@.len()
            &&& r.0@ == row_of(bytes@.take(e)).0
            &&& r.1 as int == row_of(bytes@.take(e)).1
            &&& *final(consumed_bytes_count) == *old(consumed_bytes_count) + e + 1
        }),
{
    let ghost b = bytes@;
    let ghost e = find_byte(b, NEWLINE) as int;
    let ghost line = b.take(e);
    let ghost semi = find_byte(line, SEMICOLON) as int;
    proof {
        lemma_first_line(b);
        lemma_find_byte(b, NEWLINE);
        lemma_find_byte(line, SEMICOLON);
        lemma_find_byte_at(b, SEMICOLON, semi);
    }
    // Look for ";", and skip bytes that cannot hold it.
    let search_offset: usize = MIN_STATION_LEN;
    let haystack = &bytes[search_offset..bytes.len()];
    proof {
        assert(b[semi] == line[semi]);
        assert(haystack@[semi - 1] == b[semi]);
    }
    let delimiter = memchr::memchr(SEMICOLON, haystack).unwrap() + search_offset;
    proof {
        let h = haystack@;
        assert(b[delimiter as int] == SEMICOLON);
        assert forall|j: int| 0 <= j < delimiter implies b[j] != SEMICOLON by {
            if j > 0 {
                assert(b[j] == h[j - 1]);
            }
        }
        lemma_find_byte_at(b, SEMICOLON, delimiter as int);
    }
    // Look for "\n", and skip bytes that cannot hold it.
    let search_offset: usize = delimiter + 1 + MIN_MEASUREMENT_LEN;
    proof {
        assert(line.skip(semi + 1).len() >= 3);
    }
    let haystack = &bytes[search_offset..bytes.len()];
    proof {
        assert(haystack@[e - search_offset] == b[e]);
    }
    let newline = memchr::memchr(NEWLINE, haystack).unwrap() + search_offset;
    proof {
        let h = haystack@;
        assert(b[newline as int] == NEWLINE);
        assert forall|j: int| 0 <= j < newline implies b[j] != NEWLINE by {
            if j >= search_offset {
                assert(b[j] == h[j - search_offset]);
            }
        }
        lemma_find_byte_at(b, NEWLINE, newline as int);
    }

    let station = &bytes[0..delimiter];
    let measurement = &bytes[delimiter + 1..newline];
    assert(station@ =~= line.take(semi));
    assert(measurement@ =~= line.skip(semi + 1));

    let measurement = codec::fast_f32_parse_encoded(measurement);

    // Ensure the next iteration works on the next line.
    *consumed_bytes_count += newline + 1;

    (station, measurement)
}

/// Processes a chunk of the input: whole lines, the last one ended by a
/// newline. Station names in the returned table borrow from `bytes`.
pub fn process_file_chunk<'a>(bytes: &'a [u8]) -> (r: StationTable<'a>)
    requires
        bytes@.len() > 0,
        bytes@.last() == NEWLINE,
        valid_input(bytes@),
        rows_of(bytes@).len() <= u32::MAX,
    ensures
        r.wf(),
        r@ == stats_of(rows_of(bytes@)),
{
    let mut stats = StationTable::new();
    let mut consumed_bytes_count: usize = 0;
    proof {
        lemma_rows_readings(bytes@);
        assert(bytes@.take(0) =~= Seq::<u8>::empty());
        assert(bytes@.skip(0) =~= bytes@);
        assert(rows_of(bytes@.take(0)) =~= Seq::<(Seq<u8>, int)>::empty());
        assert(rows_of(bytes@) =~= rows_of(bytes@.take(0)) + rows_of(bytes@.skip(0)));
    }
    while consumed_bytes_count < bytes.len()
        invariant
            consumed_bytes_count <= bytes@.len(),
            valid_input(bytes@.take(consumed_bytes_count as int)),
            valid_input(bytes@.skip(consumed_bytes_count as int)),
            rows_of(bytes@) == rows_of(bytes@.take(consumed_bytes_count as int)) + rows_of(
                bytes@.skip(consumed_bytes_count as int),
            ),
            rows_of(bytes@).len() <= u32::MAX,
            forall|i: int|
                0 <= i < rows_of(bytes@).len() ==> is_reading(#[trigger] rows_of(bytes@)[i].1),
            stats.wf(),
            stats@ == stats_of(rows_of(bytes@.take(consumed_bytes_count as int))),
        decreases bytes@.len() - consumed_bytes_count,
    {
        let ghost c0 = consumed_bytes_count as int;
        let ghost done = rows_of(bytes@.take(c0));
        let remaining = &bytes[consumed_bytes_count..bytes.len()];
        assert(remaining@ =~= bytes@.skip(c0));
        let (station, measurement) = process_line(remaining, &mut consumed_bytes_count);
        proof {
            let rest = remaining@;
            let e = find_byte(rest, NEWLINE) as int;
            let c = consumed_bytes_count as int;
            lemma_first_line(rest);
            assert(bytes@.take(c) =~= bytes@.take(c0) + rest.take(e + 1));
            assert(bytes@.skip(c) =~= rest.skip(e + 1));
            lemma_rows_append(bytes@.take(c0), rest.take(e + 1));
            assert(rows_of(bytes@.take(c)) == done.push(row_of(rest.take(e))));
            assert(rows_of(bytes@) =~= rows_of(bytes@.take(c)) + rows_of(bytes@.skip(c)));
            assert forall|i: int| 0 <= i < done.len() implies is_reading(#[trigger] done[i].1) by {
                assert(done[i] == rows_of(bytes@)[i]);
            }
            lemma_stats_of_valid(done);
            assert(done.push(row_of(rest.take(e))).drop_last() =~= done);
        }
        stats.insert_measurement(station, measurement);
    }
    assert(bytes@.take(bytes@.len() as int) =~= bytes@);
    stats
}

/// The stats of each table.
pub open spec fn table_views(ts: Seq<StationTable>) -> Seq<Stats> {
    ts.map_values(|t: StationTable| t@)
}

/// The stats of each chunk.
pub open spec fn chunk_stats(cs: Seq<Seq<u8>>) -> Seq<Stats> {
    cs.map_values(|c: Seq<u8>| stats_of(rows_of(c)))
}

/// Every chunk is empty or ends with a newline.
pub open spec fn line_aligned(cs: Seq<Seq<u8>>) -> bool {
    forall|i: int| 0 <= i < cs.len() ==> (#[trigger] cs[i]).len() == 0 || cs[i].last() == NEWLINE
}

/// Merges the tables of all workers, sorts the stations by name and writes
/// the output line.
pub fn finalize<'a>(stats: Vec<StationTable<'a>>) -> (r: Vec<u8>)
    requires
        stats@.len() >= 1,
        forall|i: int| 0 <= i < stats@.len() ==> (#[trigger] stats@[i]).wf(),
        counts_fit(merge_all(table_views(stats@))),
    ensures
        r@ == report(merge_all(table_views(stats@))),
{
    let ghost views = table_views(stats@);
    let ghost n = stats@.len() as int;
    let mut stats = stats;
    let mut acc = stats.remove(0);
    let ghost mut k: int = 1;
    proof {
        assert(views.take(1).drop_last() =~= Seq::<Stats>::empty());
        assert(views.take(1).last() == views[0]);
        assert(merge_all(Seq::<Stats>::empty()) == Map::<Seq<u8>, crate::stats::Summary>::empty());
        lemma_merge_empty(views[0]);
        assert(merge_all(views.take(1)) == views[0]);
        assert(forall|i: int| 0 <= i < stats@.len() ==> (#[trigger] stats@[i])@ == views[1 + i]);
    }
    while stats.len() > 0
        invariant
            views.len() == n,
            1 <= k <= n,
            stats@.len() == n - k,
            forall|i: int| 0 <= i < stats@.len() ==> (#[trigger] stats@[i]).wf(),
            forall|i: int| 0 <= i < stats@.len() ==> (#[trigger] stats@[i])@ == views[k + i],
            acc.wf(),
            acc@ == merge_all(views.take(k)),
            counts_fit(merge_all(views)),
        decreases stats@.len(),
    {
        let next = stats.remove(0);
        proof {
            lemma_counts_fit_prefix(views, k);
            assert(views.take(k + 1).drop_last() =~= views.take(k));
            assert(forall|i: int|
                0 <= i < stats@.len() ==> (#[trigger] stats@[i])@ == views[k + 1 + i]);
        }
        acc.merge(next);
        proof {
            k = k + 1;
        }
    }
    let ghost t = acc@;
    proof {
        assert(views.take(n) =~= views);
        acc.lemma_stations_valid();
    }
    let entries = acc.into_sorted_entries();
    proof {
        let l = listing_view(entries@);
        assert forall|i: int| 0 <= i < entries@.len() implies crate::stats::is_station_summary(
            #[trigger] entries@[i].1@,
        ) by {
            assert(l[i] == (entries@[i].0@, entries@[i].1@));
            assert(t.contains_key(l[i].0));
        }
        lemma_sorted_listing_unique(l, sorted_listing_of(t), t);
    }
    format_results(&entries)
}

/// Processes a whole input on one worker: the output line.
pub fn process_single_chunk(bytes: &[u8]) -> (r: Vec<u8>)
    requires
        bytes@.len() > 0,
        valid_input(bytes@),
        rows_of(bytes@).len() <= u32::MAX,
    ensures
        r@ == report(stats_of(rows_of(bytes@))),
{
    proof {
        crate::input::lemma_valid_ends_with_newline(bytes@);
        lemma_rows_readings(bytes@);
        lemma_stats_of_valid(rows_of(bytes@));
    }
    let table = process_file_chunk(bytes);
    let ghost v = table@;
    let tables = vec![table];
    proof {
        assert(table_views(tables@) =~= seq![v]);
        assert(seq![v].drop_last() =~= Seq::<Stats>::empty());
        assert(seq![v].last() == v);
        assert(merge_all(Seq::<Stats>::empty()) == Map::<Seq<u8>, crate::stats::Summary>::empty());
        lemma_merge_empty(v);
        assert(merge_all(seq![v]) == v);
    }
    finalize(tables)
}

/// For every station of a valid input: at least one reading, and the mean
/// (exact, and rounded to tenths) lies between the lowest and the highest
/// reading.
pub proof fn lemma_station_bounds(bytes: Seq<u8>)
    requires
        valid_input(bytes),
    ensures
        forall|k: Seq<u8>| #[trigger]
            stats_of(rows_of(bytes)).contains_key(k) ==> {
                let s = stats_of(rows_of(bytes))[k];
                &&& s.count >= 1
                &&& s.min * s.count <= s.sum <= s.max * s.count
                &&& s.min <= mean_tenths(s) <= s.max
            },
{
    lemma_rows_readings(bytes);
    lemma_stats_of_readings(rows_of(bytes));
    assert forall|k: Seq<u8>| #[trigger] stats_of(rows_of(bytes)).contains_key(k) implies {
        let s = stats_of(rows_of(bytes))[k];
        &&& s.count >= 1
        &&& s.min * s.count <= s.sum <= s.max * s.count
        &&& s.min <= mean_tenths(s) <= s.max
    } by {
        lemma_mean_between(stats_of(rows_of(bytes))[k]);
    }
}

/// Cutting a valid input into chunks at line ends: each chunk is valid, and
/// merging the chunks' stats, first to last, gives the stats of all rows of
/// the whole input in order.
pub proof fn lemma_chunked_stats(chunks: Seq<Seq<u8>>)
    requires
        valid_input(concat_chunks(chunks)),
        line_aligned(chunks),
    ensures
        forall|i: int| 0 <= i < chunks.len() ==> valid_input(#[trigger] chunks[i]),
        merge_all(chunk_stats(chunks)) == stats_of(rows_of(concat_chunks(chunks))),
    decreases chunks.len(),
{
    if chunks.len() > 0 {
        let init = chunks.drop_last();
        let last = chunks.last();
        let a = concat_chunks(init);
        assert(concat_chunks(chunks) == a + last);
        assert(line_aligned(init)) by {
            assert forall|i: int| 0 <= i < init.len() implies (#[trigger] init[i]).len() == 0
                || init[i].last() == NEWLINE by {
                assert(init[i] == chunks[i]);
            }
        }
        lemma_aligned_concat(init);
        lemma_valid_split(a, last);
        lemma_rows_append(a, last);
        lemma_chunked_stats(init);
        lemma_stats_of_append(rows_of(a), rows_of(last));
        assert(chunk_stats(chunks).drop_last() =~= chunk_stats(init));
        assert forall|i: int| 0 <= i < chunks.len() implies valid_input(#[trigger] chunks[i]) by {
            if i < init.len() {
                assert(chunks[i] == init[i]);
            }
        }
    } else {
        assert(rows_of(concat_chunks(chunks)) =~= Seq::<(Seq<u8>, int)>::empty());
    }
}

/// Line-aligned chunks concatenate to something empty or ending in a newline.
proof fn lemma_aligned_concat(cs: Seq<Seq<u8>>)
    requires
        line_aligned(cs),
    ensures
        concat_chunks(cs).len() == 0 || concat_chunks(cs).last() == NEWLINE,
    decreases cs.len(),
{
    if cs.len() > 0 {
        let init = cs.drop_last();
        assert(line_aligned(init)) by {
            assert forall|i: int| 0 <= i < init.len() implies (#[trigger] init[i]).len() == 0
                || init[i].last() == NEWLINE by {
                assert(init[i] == cs[i]);
            }
        }
        lemma_aligned_concat(init);
        assert(cs[cs.len() - 1] == cs.last());
    }
}

/// The output line depends on the input alone: however a valid input is cut
/// at line ends, the merged stats, and so the line that `finalize` writes for
/// them, are the same.
pub proof fn lemma_output_deterministic(c1: Seq<Seq<u8>>, c2: Seq<Seq<u8>>)
    requires
        concat_chunks(c1) == concat_chunks(c2),
        valid_input(concat_chunks(c1)),
        line_aligned(c1),
        line_aligned(c2),
    ensures
        report(merge_all(chunk_stats(c1))) == report(merge_all(chunk_stats(c2))),
{
    lemma_chunked_stats(c1);
    lemma_chunked_stats(c2);
}

/// An input of at most `6 * u32::MAX` bytes has few enough rows that every
/// count fits in a `u32`.
pub proof fn lemma_input_counts_fit(bytes: Seq<u8>)
    requires
        valid_input(bytes),
        bytes.len() <= 6 * u32::MAX,
    ensures
        rows_of(bytes).len() <= u32::MAX,
        counts_fit(stats_of(rows_of(bytes))),
{
    lemma_row_count_bound(bytes);
    lemma_rows_readings(bytes);
    lemma_stats_of_valid(rows_of(bytes));
}

/// Number of workers to use for an input of `size` bytes, given the
/// parallelism the machine offers.
pub fn cpu_count(size: usize, available: usize) -> (r: usize)
    ensures
        r == if size < 10000 {
            1
        } else {
            available
        },
{
    if size < 10000 {
        1
    } else {
        available
    }
}

} // verus!
