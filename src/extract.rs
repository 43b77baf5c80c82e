use vstd::prelude::*;

use crate::calendar::{date_time_to_timestamp, parse_text, MAX_EPOCH};
use crate::record::{method_name, Candidate, CandidateView, Method};
use crate::text::{decimal_text, push_decimal, string_of, views, words, words_of};

verus! {

/// `pat` occurs in `s` at index `i`.
pub open spec fn occurs_at(s: Seq<char>, pat: Seq<char>, i: int) -> bool {
    0 <= i && i + pat.len() <= s.len() && s.subrange(i, i + pat.len()) == pat
}

/// The first index from `i` on at which `pat` occurs in `s`.
pub open spec fn find_from(s: Seq<char>, pat: Seq<char>, i: int) -> Option<int>
    decreases s.len() + 1 - i,
{
    if i < 0 || i + pat.len() > s.len() {
        None
    } else if occurs_at(s, pat, i) {
        Some(i)
    } else {
        find_from(s, pat, i + 1)
    }
}

/// The URL that starts at `start`: the text up to the next space, which
/// must exist.
pub open spec fn url_at(line: Seq<char>, start: int) -> Option<Seq<char>> {
    if start > line.len() {
        None
    } else {
        match find_from(line, seq![' '], start) {
            Some(e) => Some(line.subrange(start, e)),
            None => None,
        }
    }
}

/// The URL requested with method `m` on `line`: it follows the first
/// occurrence of the method's name and one more character.
pub open spec fn method_url(line: Seq<char>, m: Method) -> Option<Seq<char>> {
    match find_from(line, method_name(m), 0) {
        Some(p) => url_at(line, p + method_name(m).len() + 1),
        None => None,
    }
}

/// The date text of a log line: its second to fourth words and `year`.
pub open spec fn stamp_text(w: Seq<Seq<char>>, year: u32) -> Seq<char> {
    w[1] + seq![' '] + w[2] + seq![' '] + w[3] + seq![' '] + decimal_text(year as nat)
}

/// The epoch of a log line whose own text lacks the year.
pub open spec fn line_epoch(line: Seq<char>, year: u32) -> Option<u64> {
    let w = words(line);
    if w.len() < 4 {
        None
    } else {
        match parse_text(stamp_text(w, year)) {
            Ok(e) => if e <= MAX_EPOCH {
                Some(e)
            } else {
                None
            },
            Err(_) => None,
        }
    }
}

pub open spec fn method_candidate(line: Seq<char>, year: u32, m: Method) -> Seq<CandidateView> {
    match (line_epoch(line, year), method_url(line, m)) {
        (Some(e), Some(u)) => seq![CandidateView { epoch: e, method: m, url: u }],
        _ => Seq::<CandidateView>::empty(),
    }
}

/// What one line yields: a GET candidate, then a POST candidate, each where
/// its method occurs with a URL and the line's date reads.
pub open spec fn line_candidates(line: Seq<char>, year: u32) -> Seq<CandidateView> {
    method_candidate(line, year, Method::Get) + method_candidate(line, year, Method::Post)
}

pub open spec fn candidate_views(cs: Seq<Candidate>) -> Seq<CandidateView> {
    cs.map_values(|c: Candidate| c@)
}

fn occurs_here(s: &Vec<char>, pat: &Vec<char>, i: usize) -> (r: bool)
    requires
        i + pat.len() <= s.len(),
    ensures
        r == occurs_at(s@, pat@, i as int),
{
    let mut k: usize = 0;
    while k < pat.len()
        invariant
            i + pat.len() <= s.len(),
            0 <= k <= pat.len(),
            forall|j: int| 0 <= j < k ==> s@[i + j] == pat@[j],
        decreases pat.len() - k,
    {
        if s[i + k] != pat[k] {
            assert(s@.subrange(i as int, i + pat.len())[k as int] != pat@[k as int]);
            return false;
        }
        k += 1;
    }
    assert(s@.subrange(i as int, i + pat.len()) =~= pat@);
    true
}

/// The first index from `from` on at which `pat` occurs in `s`.
pub fn find_chars(s: &Vec<char>, pat: &Vec<char>, from: usize) -> (r: Option<usize>)
    ensures
        r matches Some(i) ==> find_from(s@, pat@, from as int) == Some(i as int),
        r is None ==> find_from(s@, pat@, from as int) is None,
        r matches Some(i) ==> from <= i && i + pat.len() <= s.len(),
{
    if from > s.len() || pat.len() > s.len() - from {
        return None;
    }
    let mut i: usize = from;
    loop
        invariant
            from <= i <= s.len() - pat.len(),
            pat.len() <= s.len(),
            find_from(s@, pat@, from as int) == find_from(s@, pat@, i as int),
        decreases s.len() - i,
    {
        if occurs_here(s, pat, i) {
            return Some(i);
        }
        if i == s.len() - pat.len() {
            assert(find_from(s@, pat@, i + 1) is None);
            return None;
        }
        i += 1;
    }
}

fn method_chars(m: Method) -> (r: Vec<char>)
    ensures
        r@ == method_name(m),
{
    let v = match m {
        Method::Get => vec!['G', 'E', 'T'],
        Method::Post => vec!['P', 'O', 'S', 'T'],
    };
    assert(v@ =~= method_name(m));
    v
}

/// The URL of method `m` on `line`.
pub fn find_method_url(line: &Vec<char>, m: Method) -> (r: Option<Vec<char>>)
    ensures
        r matches Some(u) ==> method_url(line@, m) == Some(u@),
        r is None ==> method_url(line@, m) is None,
{
    let name = method_chars(m);
    let p = match find_chars(line, &name, 0) {
        Some(p) => p,
        None => return None,
    };
    if p + name.len() >= line.len() {
        return None;
    }
    let start = p + name.len() + 1;
    let space = vec![' '];
    assert(space@ =~= seq![' ']);
    let e = match find_chars(line, &space, start) {
        Some(e) => e,
        None => return None,
    };
    let mut u: Vec<char> = Vec::new();
    let mut k: usize = start;
    while k < e
        invariant
            start <= k <= e <= line.len(),
            u@ == line@.subrange(start as int, k as int),
        decreases e - k,
    {
        u.push(line[k]);
        k += 1;
        assert(u@ =~= line@.subrange(start as int, k as int));
    }
    Some(u)
}

/// The epoch of `line`, its date read with `year` added.
pub fn read_line_epoch(line: &Vec<char>, year: u32) -> (r: Option<u64>)
    ensures
        r == line_epoch(line@, year),
{
    let w = words_of(line);
    if w.len() < 4 {
        return None;
    }
    let mut text: Vec<char> = w[1].clone();
    text.push(' ');
    text.extend_from_slice(w[2].as_slice());
    text.push(' ');
    text.extend_from_slice(w[3].as_slice());
    text.push(' ');
    push_decimal(&mut text, year as u64);
    assert(views(w@)[1] == w@[1]@ && views(w@)[2] == w@[2]@ && views(w@)[3] == w@[3]@);
    assert(text@ =~= stamp_text(views(w@), year));
    match date_time_to_timestamp(string_of(&text)) {
        Ok(e) => if e <= MAX_EPOCH {
            Some(e)
        } else {
            None
        },
        Err(_) => None,
    }
}

fn push_candidate(out: &mut Vec<Candidate>, line: &Vec<char>, year: u32, epoch: Option<u64>, m: Method)
    requires
        epoch == line_epoch(line@, year),
    ensures
        candidate_views(final(out)@) == candidate_views(old(out)@) + method_candidate(line@, year, m),
{
    let ghost before = candidate_views(out@);
    if let Some(e) = epoch {
        if let Some(u) = find_method_url(line, m) {
            out.push(Candidate { epoch: e, method: m, url: string_of(&u) });
            assert(candidate_views(out@) =~= before + method_candidate(line@, year, m));
            return;
        }
    }
    assert(candidate_views(out@) =~= before + method_candidate(line@, year, m));
}

/// The candidates of one trimmed log line; `year` stands in for the year
/// that the line's date leaves out.
pub fn extract_candidates(line: &Vec<char>, year: u32) -> (r: Vec<Candidate>)
    ensures
        candidate_views(r@) == line_candidates(line@, year),
{
    let mut out: Vec<Candidate> = Vec::new();
    if find_method_url(line, Method::Get).is_none() && find_method_url(line, Method::Post).is_none() {
        assert(candidate_views(out@) =~= line_candidates(line@, year));
        return out;
    }
    let epoch = read_line_epoch(line, year);
    push_candidate(&mut out, line, year, epoch, Method::Get);
    push_candidate(&mut out, line, year, epoch, Method::Post);
    assert(candidate_views(out@) =~= line_candidates(line@, year));
    out
}

/// A line on which both methods occur with a URL, and whose date reads,
/// yields two candidates: the GET one, then the POST one, with one epoch.
pub proof fn lemma_dual_method_line(line: Seq<char>, year: u32)
    requires
        line_epoch(line, year) is Some,
        method_url(line, Method::Get) is Some,
        method_url(line, Method::Post) is Some,
    ensures
        line_candidates(line, year) == seq![
            CandidateView {
                epoch: line_epoch(line, year)->0,
                method: Method::Get,
                url: method_url(line, Method::Get)->0,
            },
            CandidateView {
                epoch: line_epoch(line, year)->0,
                method: Method::Post,
                url: method_url(line, Method::Post)->0,
            },
        ],
{
    assert(line_candidates(line, year) =~= seq![
        CandidateView {
            epoch: line_epoch(line, year)->0,
            method: Method::Get,
            url: method_url(line, Method::Get)->0,
        },
        CandidateView {
            epoch: line_epoch(line, year)->0,
            method: Method::Post,
            url: method_url(line, Method::Post)->0,
        },
    ]);
}

} // verus!
