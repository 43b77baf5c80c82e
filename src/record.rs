use vstd::prelude::*;

use crate::calendar::{date_text, timestamp_to_date_time, MAX_EPOCH};
use crate::text::string_of;

verus! {

/// The HTTP method of a request line.
#[derive(Debug, Clone, Copy, PartialEq, Eq, Structural)]
pub enum Method {
    Get,
    Post,
}

pub open spec fn method_name(m: Method) -> Seq<char> {
    match m {
        Method::Get => seq!['G', 'E', 'T'],
        Method::Post => seq!['P', 'O', 'S', 'T'],
    }
}

impl Method {
    /// The method as it is written in a request: `GET` or `POST`.
    pub fn name(&self) -> (r: String)
        ensures
            r@ == method_name(*self),
    {
        let v = match self {
            Method::Get => vec!['G', 'E', 'T'],
            Method::Post => vec!['P', 'O', 'S', 'T'],
        };
        assert(v@ =~= method_name(*self));
        string_of(&v)
    }
}

/// One request taken from one log line, before aggregation.
pub struct Candidate {
    pub epoch: u64,
    pub method: Method,
    pub url: String,
}

pub struct CandidateView {
    pub epoch: u64,
    pub method: Method,
    pub url: Seq<char>,
}

impl View for Candidate {
    type V = CandidateView;

    open spec fn view(&self) -> CandidateView {
        CandidateView { epoch: self.epoch, method: self.method, url: self.url@ }
    }
}

/// The requests of one (method, URL) pair, aggregated.
pub struct Record {
    /// The epoch of the most recent occurrence.
    pub last_seen_epoch: u64,
    /// `last_seen_epoch` as `Mon D HH:MM:SS YYYY`.
    pub last_seen_display: String,
    pub method: Method,
    pub url: String,
    /// `url`, shortened for display when it is long.
    pub url_display: String,
    pub occurrence_count: u64,
}

/// What a record says: its key, its latest epoch and how often it was seen.
pub struct Tally {
    pub method: Method,
    pub url: Seq<char>,
    pub epoch: u64,
    pub count: u64,
}

impl View for Record {
    type V = Tally;

    open spec fn view(&self) -> Tally {
        Tally {
            method: self.method,
            url: self.url@,
            epoch: self.last_seen_epoch,
            count: self.occurrence_count,
        }
    }
}

/// A URL as displayed: in full up to 100 characters, else its first 50,
/// `...` and its last 50.
pub open spec fn shorten(u: Seq<char>) -> Seq<char> {
    if u.len() <= 100 {
        u
    } else {
        u.subrange(0, 50) + seq!['.', '.', '.'] + u.subrange(u.len() - 50, u.len() as int)
    }
}

impl Record {
    /// The displays follow the epoch and the URL; the count is at least one.
    pub open spec fn wf(&self) -> bool {
        &&& self.last_seen_epoch <= MAX_EPOCH
        &&& self.last_seen_display@ == date_text(self.last_seen_epoch as int)
        &&& self.url_display@ == shorten(self.url@)
        &&& self.occurrence_count >= 1
    }
}

pub open spec fn all_wf(rs: Seq<Record>) -> bool {
    forall|i: int| 0 <= i < rs.len() ==> (#[trigger] rs[i]).wf()
}

pub open spec fn tallies(rs: Seq<Record>) -> Seq<Tally> {
    rs.map_values(|r: Record| r@)
}

/// The first tally of the pair (`m`, `u`), or -1.
pub open spec fn key_index(ts: Seq<Tally>, m: Method, u: Seq<char>) -> int
    decreases ts.len(),
{
    if ts.len() == 0 {
        -1
    } else if key_index(ts.drop_last(), m, u) >= 0 {
        key_index(ts.drop_last(), m, u)
    } else if ts.last().method == m && ts.last().url == u {
        ts.len() - 1
    } else {
        -1
    }
}

/// Folds one candidate into the tallies: the tally of its pair counts one
/// more (saturating) and keeps the later epoch; a new pair is appended.
pub open spec fn merge(ts: Seq<Tally>, c: CandidateView) -> Seq<Tally> {
    let k = key_index(ts, c.method, c.url);
    if k >= 0 {
        let t = ts[k];
        ts.update(
            k,
            Tally {
                method: t.method,
                url: t.url,
                epoch: if c.epoch > t.epoch {
                    c.epoch
                } else {
                    t.epoch
                },
                count: if t.count < u64::MAX {
                    (t.count + 1) as u64
                } else {
                    t.count
                },
            },
        )
    } else {
        ts.push(Tally { method: c.method, url: c.url, epoch: c.epoch, count: 1 })
    }
}

pub proof fn lemma_key_index_bounds(ts: Seq<Tally>, m: Method, u: Seq<char>)
    ensures
        -1 <= key_index(ts, m, u) < ts.len(),
        key_index(ts, m, u) >= 0 ==> ts[key_index(ts, m, u)].method == m && ts[key_index(
            ts,
            m,
            u,
        )].url == u,
        forall|j: int|
            0 <= j < ts.len() && (key_index(ts, m, u) < 0 || j < key_index(ts, m, u)) ==> !(
            #[trigger] ts[j].method == m && ts[j].url == u),
    decreases ts.len(),
{
    if ts.len() > 0 {
        let p = ts.drop_last();
        lemma_key_index_bounds(p, m, u);
        assert forall|j: int|
            0 <= j < ts.len() && (key_index(ts, m, u) < 0 || j < key_index(
                ts,
                m,
                u,
            )) implies !(#[trigger] ts[j].method == m && ts[j].url == u) by {
            if j < ts.len() - 1 {
                assert(ts[j] == p[j]);
            }
        }
    }
}

/// Shortens a URL for display.
pub fn shorten_url(url: &Vec<char>) -> (r: Vec<char>)
    ensures
        r@ == shorten(url@),
{
    let n = url.len();
    if n <= 100 {
        return url.clone();
    }
    let mut r: Vec<char> = Vec::new();
    let mut i: usize = 0;
    while i < 50
        invariant
            n == url.len(),
            n > 100,
            i <= 50,
            r@ == url@.subrange(0, i as int),
        decreases 50 - i,
    {
        r.push(url[i]);
        i += 1;
        assert(r@ =~= url@.subrange(0, i as int));
    }
    r.push('.');
    r.push('.');
    r.push('.');
    let mut j: usize = n - 50;
    while j < n
        invariant
            n == url.len(),
            n > 100,
            n - 50 <= j <= n,
            r@ == url@.subrange(0, 50) + seq!['.', '.', '.'] + url@.subrange(
                n - 50,
                j as int,
            ),
        decreases n - j,
    {
        r.push(url[j]);
        j += 1;
        assert(r@ =~= url@.subrange(0, 50) + seq!['.', '.', '.'] + url@.subrange(
            n - 50,
            j as int,
        ));
    }
    r
}

/// Makes the record of a pair seen for the first time.
pub fn new_record(c: Candidate) -> (r: Record)
    requires
        c.epoch <= MAX_EPOCH,
    ensures
        r.wf(),
        r@ == (Tally { method: c.method, url: c.url@, epoch: c.epoch, count: 1 }),
{
    let chars = crate::text::chars_of(c.url.as_str());
    let short = shorten_url(&chars);
    Record {
        last_seen_epoch: c.epoch,
        last_seen_display: timestamp_to_date_time(c.epoch),
        method: c.method,
        url: c.url,
        url_display: string_of(&short),
        occurrence_count: 1,
    }
}

/// Merges a candidate into the records of a run: the record of its
/// (method, URL) pair counts one more and keeps the most recent epoch, or a
/// new record with a count of one is appended.
pub fn save_record(records: &mut Vec<Record>, c: Candidate)
    requires
        c.epoch <= MAX_EPOCH,
        all_wf(old(records)@),
    ensures
        all_wf(final(records)@),
        tallies(final(records)@) == merge(tallies(old(records)@), c@),
{
    let ghost before = tallies(records@);
    proof {
        lemma_key_index_bounds(before, c.method, c.url@);
    }
    let mut i: usize = 0;
    while i < records.len()
        invariant
            records@ == old(records)@,
            all_wf(old(records)@),
            before == tallies(records@),
            c.epoch <= MAX_EPOCH,
            0 <= i <= records.len(),
            forall|j: int|
                0 <= j < i ==> !(#[trigger] before[j].method == c.method && before[j].url
                    == c.url@),
        decreases records.len() - i,
    {
        if records[i].method == c.method && records[i].url == c.url {
            proof {
                assert(key_index(before, c.method, c.url@) == i) by {
                    lemma_key_index_bounds(before, c.method, c.url@);
                    let k = key_index(before, c.method, c.url@);
                    if k >= 0 && k != i {
                        assert(before[k].method == c.method && before[k].url == c.url@);
                    }
                    assert(before[i as int] == records@[i as int]@);
                    if k < 0 || k > i {
                        assert(before[i as int].method == c.method);
                    }
                }
            }
            let mut r = records.remove(i);
            if r.occurrence_count < u64::MAX {
                r.occurrence_count = r.occurrence_count + 1;
            }
            if r.last_seen_epoch < c.epoch {
                r.last_seen_epoch = c.epoch;
                r.last_seen_display = timestamp_to_date_time(c.epoch);
            }
            records.insert(i, r);
            proof {
                assert(tallies(records@) =~= merge(before, c@));
                assert forall|j: int| 0 <= j < records@.len() implies (#[trigger] records@[j]).wf() by {
                    assert(old(records)@[j].wf());
                    if j != i {
                        assert(records@[j] == old(records)@[j]);
                    }
                }
            }
            return;
        }
        i += 1;
    }
    proof {
        lemma_key_index_bounds(before, c.method, c.url@);
        if key_index(before, c.method, c.url@) >= 0 {
            let k = key_index(before, c.method, c.url@);
            assert(before[k].method == c.method && before[k].url == c.url@);
        }
    }
    let r = new_record(c);
    records.push(r);
    proof {
        assert(tallies(records@) =~= merge(before, c@));
        assert forall|j: int| 0 <= j < records@.len() implies (#[trigger] records@[j]).wf() by {
            if j < old(records)@.len() {
                assert(records@[j] == old(records)@[j]);
            }
        }
    }
}

/// A record shows a URL of up to 100 characters in full; a longer one as
/// its first 50 characters, `...` and its last 50, 103 characters in all.
pub proof fn lemma_url_display(r: Record)
    requires
        r.wf(),
    ensures
        r.url@.len() <= 100 ==> r.url_display@ == r.url@,
        r.url@.len() > 100 ==> r.url_display@.len() == 103 && r.url_display@.subrange(0, 50)
            == r.url@.subrange(0, 50) && r.url_display@.subrange(50, 53) == seq!['.', '.', '.']
            && r.url_display@.subrange(53, 103) == r.url@.subrange(
            r.url@.len() - 50,
            r.url@.len() as int,
        ),
{
    let u = r.url@;
    if u.len() > 100 {
        let d = r.url_display@;
        assert(d.subrange(0, 50) =~= u.subrange(0, 50));
        assert(d.subrange(50, 53) =~= seq!['.', '.', '.']);
        assert(d.subrange(53, 103) =~= u.subrange(u.len() - 50, u.len() as int));
    }
}

} // verus!
