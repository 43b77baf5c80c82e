use vstd::prelude::*;

use crate::calendar::{timestamp_get_year, year_of, MAX_EPOCH};
use crate::extract::{candidate_views, extract_candidates, line_candidates};
use crate::record::{
    all_wf, key_index, lemma_key_index_bounds, merge, save_record, tallies, CandidateView, Record,
    Tally,
};
use crate::text::{chars_of, split_chars, split_on, trim, trim_chars, views};

verus! {

/// The candidates of the lines `ps`, each line trimmed, in order.
pub open spec fn lines_candidates(ps: Seq<Seq<char>>, year: u32) -> Seq<CandidateView>
    decreases ps.len(),
{
    if ps.len() == 0 {
        Seq::<CandidateView>::empty()
    } else {
        lines_candidates(ps.drop_last(), year) + line_candidates(trim(ps.last()), year)
    }
}

/// The candidates of one decoded log text.
pub open spec fn text_candidates(text: Seq<char>, year: u32) -> Seq<CandidateView> {
    lines_candidates(split_on(text, '\n'), year)
}

/// The candidates of all texts, text after text.
pub open spec fn run_candidates(texts: Seq<Seq<char>>, year: u32) -> Seq<CandidateView>
    decreases texts.len(),
{
    if texts.len() == 0 {
        Seq::<CandidateView>::empty()
    } else {
        run_candidates(texts.drop_last(), year) + text_candidates(texts.last(), year)
    }
}

/// The tallies after merging the candidates `cs`, in order, into `ts`.
pub open spec fn merge_all(ts: Seq<Tally>, cs: Seq<CandidateView>) -> Seq<Tally>
    decreases cs.len(),
{
    if cs.len() == 0 {
        ts
    } else {
        merge(merge_all(ts, cs.drop_last()), cs.last())
    }
}

/// Where a tally of epoch `e` goes in a list ordered by recency: before
/// the first older one, so after all that are as recent.
pub open spec fn insert_pos(s: Seq<Tally>, e: u64, j: int) -> int
    decreases s.len() - j,
{
    if j >= s.len() || j < 0 {
        s.len() as int
    } else if s[j].epoch < e {
        j
    } else {
        insert_pos(s, e, j + 1)
    }
}

/// `s` ordered by epoch, most recent first; equal epochs keep their order.
pub open spec fn sort_desc(s: Seq<Tally>) -> Seq<Tally>
    decreases s.len(),
{
    if s.len() == 0 {
        s
    } else {
        let p = sort_desc(s.drop_last());
        p.insert(insert_pos(p, s.last().epoch, 0), s.last())
    }
}

pub open spec fn texts_view(texts: Seq<String>) -> Seq<Seq<char>> {
    texts.map_values(|t: String| t@)
}

/// What a run reports: the candidates of all texts merged into an empty
/// set, most recent first.
pub open spec fn report(texts: Seq<Seq<char>>, year: u32) -> Seq<Tally> {
    sort_desc(merge_all(Seq::<Tally>::empty(), run_candidates(texts, year)))
}

pub open spec fn sorted_desc(s: Seq<Tally>) -> bool {
    forall|i: int, j: int| 0 <= i < j < s.len() ==> #[trigger] s[i].epoch >= #[trigger] s[j].epoch
}

proof fn lemma_insert_pos(s: Seq<Tally>, e: u64, j: int)
    requires
        0 <= j <= s.len(),
    ensures
        j <= insert_pos(s, e, j) <= s.len(),
        forall|i: int| j <= i < insert_pos(s, e, j) ==> (#[trigger] s[i]).epoch >= e,
        insert_pos(s, e, j) < s.len() ==> s[insert_pos(s, e, j)].epoch < e,
    decreases s.len() - j,
{
    if j < s.len() && s[j].epoch >= e {
        lemma_insert_pos(s, e, j + 1);
    }
}

/// Ordering by recency yields a list whose epochs never increase.
pub proof fn lemma_sort_desc_sorted(s: Seq<Tally>)
    ensures
        sorted_desc(sort_desc(s)),
        sort_desc(s).len() == s.len(),
    decreases s.len(),
{
    if s.len() > 0 {
        let p = sort_desc(s.drop_last());
        lemma_sort_desc_sorted(s.drop_last());
        let e = s.last().epoch;
        let k = insert_pos(p, e, 0);
        lemma_insert_pos(p, e, 0);
        let q = p.insert(k, s.last());
        assert forall|i: int, j: int| 0 <= i < j < q.len() implies #[trigger] q[i].epoch >= #[trigger] q[j].epoch by {
            if j < k {
            } else if j == k {
                assert(q[i] == p[i]);
            } else if i < k {
                assert(q[j] == p[j - 1]);
                assert(p[k].epoch < e);
                if j - 1 > k {
                    assert(p[k].epoch >= p[j - 1].epoch);
                }
            } else if i == k {
                assert(q[j] == p[j - 1]);
                if j - 1 > k {
                    assert(p[k].epoch >= p[j - 1].epoch);
                }
            } else {
                assert(q[i] == p[i - 1] && q[j] == p[j - 1]);
            }
        }
    }
}

/// Orders records by their last epoch, most recent first; records with
/// equal epochs keep their order.
pub fn sort_by_recency(rs: Vec<Record>) -> (r: Vec<Record>)
    requires
        all_wf(rs@),
    ensures
        all_wf(r@),
        tallies(r@) == sort_desc(tallies(rs@)),
        sorted_desc(tallies(r@)),
{
    let ghost input = rs@;
    let mut rest = rs;
    let mut out: Vec<Record> = Vec::new();
    let ghost mut k: int = 0;
    while rest.len() > 0
        invariant
            0 <= k <= input.len(),
            rest@ == input.subrange(k, input.len() as int),
            all_wf(input),
            all_wf(out@),
            tallies(out@) == sort_desc(tallies(input.subrange(0, k))),
        decreases rest.len(),
    {
        let x = rest.remove(0);
        let ghost t = tallies(out@);
        let e = x.last_seen_epoch;
        let mut j: usize = 0;
        while j < out.len() && out[j].last_seen_epoch >= e
            invariant
                0 <= j <= out.len(),
                t == tallies(out@),
                insert_pos(t, e, 0) == insert_pos(t, e, j as int),
            decreases out.len() - j,
        {
            assert(t[j as int].epoch == out@[j as int].last_seen_epoch);
            j += 1;
        }
        proof {
            if j < out.len() {
                assert(t[j as int].epoch == out@[j as int].last_seen_epoch);
            }
            assert(x == input[k]);
            assert(input.subrange(0, k + 1).drop_last() =~= input.subrange(0, k));
            assert(tallies(input.subrange(0, k + 1)).drop_last() =~= tallies(input.subrange(0, k)));
        }
        let ghost prev = out@;
        proof {
            assert(input[k].wf());
        }
        out.insert(j, x);
        proof {
            assert(tallies(out@) =~= t.insert(j as int, x@));
            k = k + 1;
            assert(rest@ =~= input.subrange(k, input.len() as int));
            assert forall|i: int| 0 <= i < out@.len() implies (#[trigger] out@[i]).wf() by {
                if i < j {
                    assert(out@[i] == prev[i]);
                } else if i > j {
                    assert(out@[i] == prev[i - 1]);
                }
            }
        }
    }
    proof {
        assert(input.subrange(0, k) =~= input);
        lemma_sort_desc_sorted(tallies(input));
    }
    out
}

/// Merging two runs of candidates one after the other is merging both.
pub proof fn lemma_merge_all_concat(ts: Seq<Tally>, a: Seq<CandidateView>, b: Seq<CandidateView>)
    ensures
        merge_all(ts, a + b) == merge_all(merge_all(ts, a), b),
    decreases b.len(),
{
    if b.len() == 0 {
        assert(a + b =~= a);
    } else {
        lemma_merge_all_concat(ts, a, b.drop_last());
        assert((a + b).drop_last() =~= a + b.drop_last());
    }
}

proof fn lemma_line_epochs(line: Seq<char>, year: u32)
    ensures
        forall|i: int|
            0 <= i < line_candidates(line, year).len() ==> (#[trigger] line_candidates(
                line,
                year,
            )[i]).epoch <= MAX_EPOCH,
{
}

/// Merges the candidates of one trimmed line into the records.
fn merge_line(records: &mut Vec<Record>, line: &Vec<char>, year: u32)
    requires
        all_wf(old(records)@),
    ensures
        all_wf(final(records)@),
        tallies(final(records)@) == merge_all(tallies(old(records)@), line_candidates(line@, year)),
{
    let mut cands = extract_candidates(line, year);
    let ghost all = cands@;
    let ghost cs = candidate_views(cands@);
    let ghost start = tallies(records@);
    let ghost mut k: int = 0;
    proof {
        lemma_line_epochs(line@, year);
        assert(cs.subrange(0, 0) =~= Seq::<CandidateView>::empty());
    }
    while cands.len() > 0
        invariant
            0 <= k <= all.len(),
            cs == candidate_views(all),
            cs == line_candidates(line@, year),
            forall|i: int| 0 <= i < cs.len() ==> (#[trigger] cs[i]).epoch <= MAX_EPOCH,
            cands@ == all.subrange(k, all.len() as int),
            all_wf(records@),
            tallies(records@) == merge_all(start, cs.subrange(0, k)),
        decreases cands.len(),
    {
        let c = cands.remove(0);
        proof {
            assert(c == all[k]);
            assert(cs[k] == c@);
            assert(cs.subrange(0, k + 1).drop_last() =~= cs.subrange(0, k));
        }
        save_record(records, c);
        proof {
            k = k + 1;
            assert(cands@ =~= all.subrange(k, all.len() as int));
        }
    }
    proof {
        assert(cs.subrange(0, k) =~= cs);
    }
}

/// Merges the candidates of one decoded log text into the records.
fn merge_text(records: &mut Vec<Record>, text: &String, year: u32)
    requires
        all_wf(old(records)@),
    ensures
        all_wf(final(records)@),
        tallies(final(records)@) == merge_all(tallies(old(records)@), text_candidates(text@, year)),
{
    let chars = chars_of(text.as_str());
    let pieces = split_chars(&chars, '\n');
    let ghost ps = views(pieces@);
    let ghost start = tallies(records@);
    let mut i: usize = 0;
    while i < pieces.len()
        invariant
            0 <= i <= pieces.len(),
            ps == views(pieces@),
            ps == split_on(text@, '\n'),
            all_wf(records@),
            tallies(records@) == merge_all(start, lines_candidates(ps.subrange(0, i as int), year)),
        decreases pieces.len() - i,
    {
        let line = trim_chars(&pieces[i]);
        let ghost before = tallies(records@);
        proof {
            assert(ps[i as int] == pieces@[i as int]@);
            assert(ps.subrange(0, i + 1).drop_last() =~= ps.subrange(0, i as int));
            lemma_merge_all_concat(
                start,
                lines_candidates(ps.subrange(0, i as int), year),
                line_candidates(line@, year),
            );
        }
        if line.len() > 0 {
            merge_line(records, &line, year);
        } else {
            assert(line_candidates(line@, year) =~= Seq::<CandidateView>::empty());
            assert(merge_all(before, line_candidates(line@, year)) == before);
        }
        i += 1;
    }
    proof {
        assert(ps.subrange(0, pieces.len() as int) =~= ps);
    }
}

/// Parses decoded log texts into records, most recent first. `now` is the
/// current epoch: its year stands in for the year that log lines leave out.
pub fn parse_sources(texts: &Vec<String>, now: u64) -> (r: Vec<Record>)
    requires
        now <= MAX_EPOCH,
    ensures
        all_wf(r@),
        tallies(r@) == report(texts_view(texts@), year_of(now as int) as u32),
        sorted_desc(tallies(r@)),
{
    let year = timestamp_get_year(now);
    let ghost tv = texts_view(texts@);
    let mut records: Vec<Record> = Vec::new();
    let mut i: usize = 0;
    proof {
        assert(tallies(records@) =~= Seq::<Tally>::empty());
    }
    while i < texts.len()
        invariant
            0 <= i <= texts.len(),
            tv == texts_view(texts@),
            all_wf(records@),
            tallies(records@) == merge_all(Seq::<Tally>::empty(), run_candidates(tv.subrange(0, i as int), year)),
        decreases texts.len() - i,
    {
        proof {
            assert(tv[i as int] == texts@[i as int]@);
            assert(tv.subrange(0, i + 1).drop_last() =~= tv.subrange(0, i as int));
            lemma_merge_all_concat(
                Seq::<Tally>::empty(),
                run_candidates(tv.subrange(0, i as int), year),
                text_candidates(texts@[i as int]@, year),
            );
        }
        merge_text(&mut records, &texts[i], year);
        i += 1;
    }
    proof {
        assert(tv.subrange(0, texts.len() as int) =~= tv);
    }
    sort_by_recency(records)
}

/// The candidate `c`, `n` times.
pub open spec fn repeated(c: CandidateView, n: nat) -> Seq<CandidateView> {
    Seq::new(n, |i: int| c)
}

/// Merging the same candidate `n` times into tallies that lack its
/// (method, URL) pair leaves exactly one tally of that pair, appended, with
/// a count of `n` and the candidate's epoch; the other tallies stay as
/// they were.
pub proof fn lemma_merge_repeated(ts: Seq<Tally>, c: CandidateView, n: nat)
    requires
        key_index(ts, c.method, c.url) < 0,
        1 <= n < u64::MAX,
    ensures
        merge_all(ts, repeated(c, n)).len() == ts.len() + 1,
        merge_all(ts, repeated(c, n)).subrange(0, ts.len() as int) == ts,
        merge_all(ts, repeated(c, n))[ts.len() as int] == (Tally {
            method: c.method,
            url: c.url,
            epoch: c.epoch,
            count: n as u64,
        }),
        forall|j: int|
            0 <= j < ts.len() + 1 && (#[trigger] merge_all(ts, repeated(c, n))[j]).method
                == c.method && merge_all(ts, repeated(c, n))[j].url == c.url ==> j
                == ts.len(),
    decreases n,
{
    let r = merge_all(ts, repeated(c, n));
    lemma_key_index_bounds(ts, c.method, c.url);
    if n == 1 {
        assert(repeated(c, 1).drop_last() =~= Seq::<CandidateView>::empty());
        assert(repeated(c, 1).last() == c);
        assert(merge_all(ts, Seq::<CandidateView>::empty()) == ts);
        assert(r == merge(ts, c));
        assert(r =~= ts.push(Tally { method: c.method, url: c.url, epoch: c.epoch, count: 1 }));
    } else {
        let m = (n - 1) as nat;
        lemma_merge_repeated(ts, c, m);
        let p = merge_all(ts, repeated(c, m));
        assert(repeated(c, n).drop_last() =~= repeated(c, m));
        lemma_key_index_bounds(p, c.method, c.url);
        assert(p[ts.len() as int].method == c.method && p[ts.len() as int].url == c.url);
        let k = key_index(p, c.method, c.url);
        if k != ts.len() {
            assert(p[k].method == c.method && p[k].url == c.url);
        }
        assert(r == merge(p, c));
        assert(r.subrange(0, ts.len() as int) =~= p.subrange(0, ts.len() as int));
        assert forall|j: int|
            0 <= j < ts.len() + 1 && (#[trigger] r[j]).method == c.method && r[j].url == c.url
                implies j == ts.len() by {
            if j < ts.len() {
                assert(r[j] == p[j]);
            }
        }
    }
}

/// The text that lossy UTF-8 decoding makes of the bytes `b`.
pub uninterp spec fn lossy_text(b: Seq<u8>) -> Seq<char>;

/// Relies on `String::from_utf8_lossy`: the bytes decoded as UTF-8, each
/// invalid sequence replaced; the text depends on the bytes alone.
#[verifier::external_body]
fn decode_lossy(b: &Vec<u8>) -> (r: String)
    ensures
        r@ == lossy_text(b@),
{
    String::from_utf8_lossy(b).into_owned()
}

pub open spec fn decoded(sources: Seq<Vec<u8>>) -> Seq<Seq<char>> {
    sources.map_values(|b: Vec<u8>| lossy_text(b@))
}

/// Parses log buffers, already decompressed, into records, most recent
/// first. Each buffer is decoded leniently, so no buffer fails the run.
pub fn parse_logs(sources: &Vec<Vec<u8>>, now: u64) -> (r: Vec<Record>)
    requires
        now <= MAX_EPOCH,
    ensures
        all_wf(r@),
        tallies(r@) == report(decoded(sources@), year_of(now as int) as u32),
        sorted_desc(tallies(r@)),
{
    let mut texts: Vec<String> = Vec::new();
    let mut i: usize = 0;
    while i < sources.len()
        invariant
            0 <= i <= sources.len(),
            texts@.len() == i,
            texts_view(texts@) == decoded(sources@).subrange(0, i as int),
        decreases sources.len() - i,
    {
        let t = decode_lossy(&sources[i]);
        assert(decoded(sources@)[i as int] == t@);
        let ghost prev = texts@;
        texts.push(t);
        proof {
            assert forall|j: int| 0 <= j < i implies texts_view(texts@)[j] == #[trigger] texts_view(
                prev,
            )[j] by {
                assert(texts@[j] == prev[j]);
            }
        }
        i += 1;
        assert(texts_view(texts@) =~= decoded(sources@).subrange(0, i as int));
    }
    assert(texts_view(texts@) =~= decoded(sources@));
    parse_sources(&texts, now)
}

/// Ordering by recency keeps exactly the tallies it is given, each as
/// often as it occurs.
pub proof fn lemma_sort_desc_perm(s: Seq<Tally>)
    ensures
        sort_desc(s).to_multiset() == s.to_multiset(),
    decreases s.len(),
{
    if s.len() == 0 {
    } else {
        let p = sort_desc(s.drop_last());
        lemma_sort_desc_perm(s.drop_last());
        lemma_sort_desc_sorted(s.drop_last());
        let k = insert_pos(p, s.last().epoch, 0);
        lemma_insert_pos(p, s.last().epoch, 0);
        vstd::seq_lib::to_multiset_insert(p, k, s.last());
        vstd::seq_lib::to_multiset_build(s.drop_last(), s.last());
        assert(s.drop_last().push(s.last()) =~= s);
    }
}

} // verus!
