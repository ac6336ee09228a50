//! The Minneapolis flat-CSV ballot format: three ranks per row with a
//! repetition count, case-insensitive special tokens, and a write-in
//! aggregate candidate.

use vstd::prelude::*;

use crate::candidate_map::{add_id_to_choice_post, CandidateMap};
use crate::metadata::{spec_param, Params};
use crate::model::{Candidate, CandidateType, Choice};

verus! {

/// ASCII whitespace trimmed from CSV cells.
pub open spec fn is_space(c: char) -> bool {
    c == ' ' || c == '\t' || c == '\r' || c == '\n'
}

/// Leading whitespace length.
pub open spec fn lead_ws(s: Seq<char>) -> int
    decreases s.len(),
{
    if s.len() == 0 {
        0
    } else if is_space(s[0]) {
        1 + lead_ws(s.drop_first())
    } else {
        0
    }
}

/// Trailing whitespace length.
pub open spec fn trail_ws(s: Seq<char>) -> int
    decreases s.len(),
{
    if s.len() == 0 {
        0
    } else if is_space(s.last()) {
        1 + trail_ws(s.drop_last())
    } else {
        0
    }
}

/// The cell with surrounding ASCII whitespace removed.
pub open spec fn spec_trim(s: Seq<char>) -> Seq<char> {
    if lead_ws(s) == s.len() {
        Seq::empty()
    } else {
        s.subrange(lead_ws(s), s.len() - trail_ws(s))
    }
}

/// ASCII lowercase of one character.
pub open spec fn lower(c: char) -> char {
    if 'A' <= c && c <= 'Z' {
        ((c as int) + ('a' as int) - ('A' as int)) as char
    } else {
        c
    }
}

/// Case-insensitive (ASCII) equality.
pub open spec fn ci_eq(a: Seq<char>, b: Seq<char>) -> bool {
    a.len() == b.len() && forall|i: int| 0 <= i < a.len() ==> lower(#[trigger] a[i]) == lower(b[i])
}

/// What `parse_choice` does to the map and returns, for a trimmed cell.
pub open spec fn parse_choice_post(
    trimmed: Seq<char>,
    pre: CandidateMap<String>,
    post: CandidateMap<String>,
    r: Choice,
) -> bool {
    if ci_eq(trimmed, "undervote"@) || trimmed.len() == 0 {
        post == pre && r == Choice::Undervote
    } else if ci_eq(trimmed, "overvote"@) {
        post == pre && r == Choice::Overvote
    } else {
        exists|k: String, cand: Candidate|
            k@ == trimmed && (if ci_eq(trimmed, "uwi"@) {
                cand.name@ == "Undeclared Write-ins"@ && cand.kind == CandidateType::WriteIn
            } else {
                cand.name@ == trimmed && cand.kind == CandidateType::Regular
            }) && #[trigger] add_id_to_choice_post(pre, k, cand, post, r)
    }
}

/// Reader options for the Minneapolis flat-CSV format.
pub struct ReaderOptions {
    pub file: String,
}

impl ReaderOptions {
    /// Reads the required `file` parameter.
    pub fn from_params(params: &Params) -> (r: ReaderOptions)
        requires
            spec_param(params.entries@, "file"@) is Some,
        ensures
            Some(r.file@) == spec_param(params.entries@, "file"@),
    {
        let key = String::from_str("file");
        let got = params.get(&key);
        match got {
            Some(v) => ReaderOptions { file: v.clone() },
            None => {
                proof {
                    assert(false);
                }
                ReaderOptions { file: String::new() }
            },
        }
    }
}

/// Trims ASCII whitespace from both ends of a cell.
#[verifier::loop_isolation(false)]
pub fn trim_cell(s: &str) -> (r: String)
    ensures
        r@ == spec_trim(s@),
{
    let n = s.unicode_len();
    proof {
        lemma_lead_ws_nonneg(s@);
        lemma_trail_ws_nonneg(s@);
    }
    let mut a: usize = 0;
    while a < n && is_space_exec(s.get_char(a))
        invariant
            a <= n,
            n == s@.len(),
            forall|i: int| 0 <= i < a ==> is_space(#[trigger] s@[i]),
            lead_ws(s@) >= a,
        decreases n - a,
    {
        proof {
            lemma_lead_ws_step(s@, a as int + 1);
        }
        a = a + 1;
    }
    proof {
        if a < n {
            lemma_lead_ws_exact(s@, a as int);
        } else {
            lemma_lead_ws_full(s@, a as int);
        }
    }
    if a == n {
        proof {
            assert(spec_trim(s@) =~= Seq::<char>::empty());
        }
        return String::new();
    }
    let mut b: usize = n;
    while b > a && is_space_exec(s.get_char(b - 1))
        invariant
            a < n,
            a <= b <= n,
            n == s@.len(),
            forall|i: int| b <= i < n ==> is_space(#[trigger] s@[i]),
            trail_ws(s@) >= n - b,
            lead_ws(s@) == a,
        decreases b,
    {
        b = b - 1;
        proof {
            lemma_trail_ws_step(s@, b as int);
        }
    }
    proof {
        assert(!is_space(s@[a as int]));
        if b > a {
            assert(!is_space(s@[b - 1]));
            lemma_trail_ws_exact(s@, b as int);
        } else {
            assert(b == a);
            assert(!is_space(s@[b as int]));
            lemma_trail_ws_exact_at(s@, b as int);
        }
        assert(trail_ws(s@) == n - b);
    }
    let piece = s.substring_char(a, b);
    proof {
        assert(piece@ =~= spec_trim(s@));
    }
    piece.to_owned()
}

fn is_space_exec(c: char) -> (r: bool)
    ensures
        r == is_space(c),
{
    c == ' ' || c == '\t' || c == '\r' || c == '\n'
}

proof fn lemma_lead_ws_nonneg(s: Seq<char>)
    ensures
        lead_ws(s) >= 0,
    decreases s.len(),
{
    if s.len() > 0 && is_space(s[0]) {
        lemma_lead_ws_nonneg(s.drop_first());
    }
}

proof fn lemma_trail_ws_nonneg(s: Seq<char>)
    ensures
        trail_ws(s) >= 0,
    decreases s.len(),
{
    if s.len() > 0 && is_space(s.last()) {
        lemma_trail_ws_nonneg(s.drop_last());
    }
}

proof fn lemma_lead_ws_step(s: Seq<char>, k: int)
    requires
        0 < k <= s.len(),
        forall|i: int| 0 <= i < k ==> is_space(#[trigger] s[i]),
    ensures
        lead_ws(s) >= k,
    decreases k,
{
    if k > 1 {
        assert(forall|i: int|
            0 <= i < k - 1 ==> is_space(#[trigger] s.drop_first()[i]));
        lemma_lead_ws_step(s.drop_first(), k - 1);
    } else {
        lemma_lead_ws_nonneg(s.drop_first());
    }
}

proof fn lemma_lead_ws_exact(s: Seq<char>, k: int)
    requires
        0 <= k < s.len(),
        forall|i: int| 0 <= i < k ==> is_space(#[trigger] s[i]),
        !is_space(s[k]),
    ensures
        lead_ws(s) == k,
    decreases k,
{
    if k > 0 {
        assert(forall|i: int|
            0 <= i < k - 1 ==> is_space(#[trigger] s.drop_first()[i]));
        assert(s.drop_first()[k - 1] == s[k]);
        lemma_lead_ws_exact(s.drop_first(), k - 1);
    }
}

proof fn lemma_lead_ws_full(s: Seq<char>, k: int)
    requires
        k == s.len(),
        forall|i: int| 0 <= i < k ==> is_space(#[trigger] s[i]),
    ensures
        lead_ws(s) == k,
    decreases k,
{
    if k > 0 {
        assert(forall|i: int|
            0 <= i < k - 1 ==> is_space(#[trigger] s.drop_first()[i]));
        lemma_lead_ws_full(s.drop_first(), k - 1);
    }
}

proof fn lemma_trail_ws_step(s: Seq<char>, b: int)
    requires
        0 <= b <= s.len(),
        forall|i: int| b <= i < s.len() ==> is_space(#[trigger] s[i]),
    ensures
        trail_ws(s) >= s.len() - b,
    decreases s.len() - b,
{
    if b < s.len() {
        assert(is_space(s.last()));
        assert(forall|i: int|
            b <= i < s.drop_last().len() ==> is_space(#[trigger] s.drop_last()[i]));
        lemma_trail_ws_step(s.drop_last(), b);
    } else {
        lemma_trail_ws_nonneg(s);
    }
}

proof fn lemma_trail_ws_exact(s: Seq<char>, b: int)
    requires
        0 < b <= s.len(),
        forall|i: int| b <= i < s.len() ==> is_space(#[trigger] s[i]),
        !is_space(s[b - 1]),
    ensures
        trail_ws(s) == s.len() - b,
    decreases s.len() - b,
{
    if b < s.len() {
        assert(is_space(s.last()));
        assert(forall|i: int|
            b <= i < s.drop_last().len() ==> is_space(#[trigger] s.drop_last()[i]));
        assert(s.drop_last()[b - 1] == s[b - 1]);
        lemma_trail_ws_exact(s.drop_last(), b);
    } else {
        assert(!is_space(s.last()));
    }
}

proof fn lemma_trail_ws_exact_at(s: Seq<char>, b: int)
    requires
        0 <= b < s.len(),
        forall|i: int| b < i < s.len() ==> is_space(#[trigger] s[i]),
        !is_space(s[b]),
    ensures
        trail_ws(s) == s.len() - b - 1,
    decreases s.len() - b,
{
    if b < s.len() - 1 {
        assert(is_space(s.last()));
        assert(forall|i: int|
            b < i < s.drop_last().len() ==> is_space(#[trigger] s.drop_last()[i]));
        assert(s.drop_last()[b] == s[b]);
        lemma_trail_ws_exact_at(s.drop_last(), b);
    } else {
        assert(s.last() == s[b]);
        assert(!is_space(s.last()));
    }
}

/// Case-insensitive (ASCII) string comparison.
#[verifier::loop_isolation(false)]
pub fn str_ci_eq(a: &str, b: &str) -> (r: bool)
    ensures
        r == ci_eq(a@, b@),
{
    let na = a.unicode_len();
    let nb = b.unicode_len();
    if na != nb {
        return false;
    }
    let mut i: usize = 0;
    while i < na
        invariant
            i <= na,
            na == a@.len(),
            na == b@.len(),
            forall|k: int| 0 <= k < i ==> lower(#[trigger] a@[k]) == lower(b@[k]),
        decreases na - i,
    {
        let ca = lower_exec(a.get_char(i));
        let cb = lower_exec(b.get_char(i));
        if ca != cb {
            return false;
        }
        i = i + 1;
    }
    true
}

fn lower_exec(c: char) -> (r: char)
    ensures
        r == lower(c),
{
    if 'A' <= c && c <= 'Z' {
        let v = (c as u32) + ('a' as u32) - ('A' as u32);
        proof {
            assert(v == (c as int) + ('a' as int) - ('A' as int));
            assert(('a' as int) <= v <= ('z' as int));
        }
        (v as u8) as char
    } else {
        c
    }
}

/// Interprets one trimmed-on-demand CSV cell: special tokens become
/// undervotes and overvotes; anything else registers a candidate (with `UWI`
/// mapping to the aggregate write-in candidate) and votes for it.
pub fn parse_choice(candidate: &str, candidate_map: &mut CandidateMap<String>) -> (r: Choice)
    requires
        old(candidate_map).cands().len() < u32::MAX,
        old(candidate_map).wf(),
    ensures
        final(candidate_map).wf(),
        parse_choice_post(spec_trim(candidate@), *old(candidate_map), *final(candidate_map), r),
{
    let trimmed = trim_cell(candidate);
    let und = String::from_str("undervote");
    let ove = String::from_str("overvote");
    let uwi = String::from_str("uwi");
    if str_ci_eq(trimmed.as_str(), und.as_str()) {
        proof {
            reveal_strlit("undervote");
        }
        Choice::Undervote
    } else if str_ci_eq(trimmed.as_str(), ove.as_str()) {
        proof {
            reveal_strlit("overvote");
        }
        Choice::Overvote
    } else if trimmed.as_str().is_empty() {
        proof {
            assert(trimmed@.len() == 0);
        }
        Choice::Undervote
    } else {
        let is_uwi = str_ci_eq(trimmed.as_str(), uwi.as_str());
        let cand = if is_uwi {
            Candidate::new(String::from_str("Undeclared Write-ins"), CandidateType::WriteIn)
        } else {
            Candidate::new(trimmed.clone(), CandidateType::Regular)
        };
        let ghost key_g = trimmed;
        let ghost cand_g = cand;
        let r = candidate_map.add_id_to_choice(trimmed, cand);
        proof {
            reveal_strlit("undervote");
            reveal_strlit("overvote");
            reveal_strlit("uwi");
            assert(add_id_to_choice_post(
                *old(candidate_map),
                key_g,
                cand_g,
                *candidate_map,
                r,
            ));
        }
        r
    }
}

/// What one three-rank CSV row denotes: any explicit overvote collapses the
/// whole ballot to a single overvote; otherwise the three cells are
/// interpreted left to right, each one by the cell rule of `parse_choice`,
/// threading the candidate registrations through the map.
pub open spec fn row_choices_post(
    cells: Seq<Seq<char>>,
    pre: CandidateMap<String>,
    post: CandidateMap<String>,
    r: Seq<Choice>,
) -> bool {
    if exists|i: int| 0 <= i < cells.len() && ci_eq(#[trigger] cells[i], "overvote"@) {
        post == pre && r == seq![Choice::Overvote]
    } else {
        &&& cells.len() == 3
        &&& r.len() == 3
        &&& exists|m1: CandidateMap<String>, m2: CandidateMap<String>|
            parse_choice_post(spec_trim(cells[0]), pre, m1, r[0]) && #[trigger] parse_choice_post(
                spec_trim(cells[1]),
                m1,
                m2,
                r[1],
            ) && parse_choice_post(spec_trim(cells[2]), m2, post, r[2])
    }
}

/// Interprets the three ranked cells of one Minneapolis CSV row.
pub fn row_choices(
    cell1: &str,
    cell2: &str,
    cell3: &str,
    candidate_map: &mut CandidateMap<String>,
) -> (r: Vec<Choice>)
    requires
        old(candidate_map).cands().len() + 3 < u32::MAX,
        old(candidate_map).wf(),
    ensures
        final(candidate_map).wf(),
        row_choices_post(
            seq![cell1@, cell2@, cell3@],
            *old(candidate_map),
            *final(candidate_map),
            r@,
        ),
{
    let ghost cells = seq![cell1@, cell2@, cell3@];
    let ove = String::from_str("overvote");
    let over1 = str_ci_eq(cell1, ove.as_str());
    let over2 = str_ci_eq(cell2, ove.as_str());
    let over3 = str_ci_eq(cell3, ove.as_str());
    if over1 || over2 || over3 {
        let mut out: Vec<Choice> = Vec::new();
        out.push(Choice::Overvote);
        proof {
            if over1 {
                assert(ci_eq(cells[0], "overvote"@));
            } else if over2 {
                assert(ci_eq(cells[1], "overvote"@));
            } else {
                assert(ci_eq(cells[2], "overvote"@));
            }
            assert(out@ =~= seq![Choice::Overvote]);
        }
        out
    } else {
        let mut out: Vec<Choice> = Vec::new();
        let c0 = parse_choice(cell1, candidate_map);
        let ghost g1 = *candidate_map;
        let c1 = parse_choice(cell2, candidate_map);
        let ghost g2 = *candidate_map;
        let c2 = parse_choice(cell3, candidate_map);
        out.push(c0);
        out.push(c1);
        out.push(c2);
        proof {
            assert(forall|i: int|
                0 <= i < cells.len() ==> !ci_eq(#[trigger] cells[i], "overvote"@)) by {
                assert(cells[0] == cell1@ && cells[1] == cell2@ && cells[2] == cell3@);
            }
            assert(parse_choice_post(spec_trim(cells[0]), *old(candidate_map), g1, out@[0]));
            assert(parse_choice_post(spec_trim(cells[1]), g1, g2, out@[1]));
            assert(parse_choice_post(spec_trim(cells[2]), g2, *candidate_map, out@[2]));
        }
        out
    }
}

} // verus!
