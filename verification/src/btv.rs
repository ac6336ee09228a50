//! The BTV text-log ballot grammar: comma-separated ranks, `C<n>` votes
//! (1-based), and `=` marking an overvote at a rank.

use vstd::prelude::*;

use crate::model::{CandidateId, Choice};

verus! {

pub open spec fn is_digit(c: char) -> bool {
    '0' <= c && c <= '9'
}

pub open spec fn digit_val(c: char) -> int {
    c as int - '0' as int
}

pub open spec fn all_digits(s: Seq<char>) -> bool {
    forall|i: int| 0 <= i < s.len() ==> is_digit(#[trigger] s[i])
}

/// Value of a decimal digit string.
pub open spec fn digits_val(s: Seq<char>) -> int
    decreases s.len(),
{
    if s.len() == 0 {
        0
    } else {
        digits_val(s.drop_last()) * 10 + digit_val(s.last())
    }
}

/// The canonical decimal rendering of `n`.
pub open spec fn digits_of(n: int) -> Seq<char>
    decreases n,
{
    if n < 0 {
        Seq::empty()
    } else if n < 10 {
        seq![(('0' as int + n) as char)]
    } else {
        digits_of(n / 10).push((('0' as int + n % 10) as char))
    }
}

/// Splitting a string on commas: always at least one (possibly empty)
/// segment; a leading comma opens an empty segment.
pub open spec fn split_commas(s: Seq<char>) -> Seq<Seq<char>>
    decreases s.len(),
{
    if s.len() == 0 {
        seq![Seq::empty()]
    } else if s[0] == ',' {
        seq![Seq::<char>::empty()] + split_commas(s.drop_first())
    } else {
        let r = split_commas(s.drop_first());
        r.update(0, seq![s[0]] + r[0])
    }
}

/// Joining segments with commas (inverse of `split_commas` for comma-free
/// segments).
pub open spec fn join_commas(segs: Seq<Seq<char>>) -> Seq<char>
    decreases segs.len(),
{
    if segs.len() == 0 {
        Seq::empty()
    } else if segs.len() == 1 {
        segs[0]
    } else {
        segs[0] + seq![','] + join_commas(segs.drop_first())
    }
}

/// A well-formed rank: either an overvote (`=` anywhere in the rank) or a
/// `C`-prefixed 1-based candidate number that fits in `u32`.
pub open spec fn rank_valid(r: Seq<char>) -> bool {
    r.contains('=') || (r.len() >= 2 && r[0] == 'C' && all_digits(r.skip(1)) && 1 <= digits_val(
        r.skip(1),
    ) <= u32::MAX)
}

/// The choice a well-formed rank denotes.
pub open spec fn rank_choice(r: Seq<char>) -> Choice {
    if r.contains('=') {
        Choice::Overvote
    } else {
        Choice::Vote(CandidateId((digits_val(r.skip(1)) - 1) as u32))
    }
}

/// A well-formed ballot record: empty, or a comma-separated list of
/// well-formed ranks.
pub open spec fn btv_ballot_valid(s: Seq<char>) -> bool {
    s.len() == 0 || forall|i: int|
        0 <= i < split_commas(s).len() ==> rank_valid(#[trigger] split_commas(s)[i])
}

/// The choices a well-formed ballot record denotes.
pub open spec fn spec_parse_ballot(s: Seq<char>) -> Seq<Choice> {
    if s.len() == 0 {
        Seq::empty()
    } else {
        split_commas(s).map_values(|r: Seq<char>| rank_choice(r))
    }
}

/// The canonical rendering of a choice as a BTV rank.
pub open spec fn spec_render_rank(c: Choice) -> Seq<char> {
    match c {
        Choice::Overvote => seq!['='],
        Choice::Vote(id) => seq!['C'] + digits_of(id.0 as int + 1),
        Choice::Undervote => Seq::empty(),
    }
}

/// The canonical rendering of a choice list as a BTV ballot record.
pub open spec fn spec_render_ballot(choices: Seq<Choice>) -> Seq<char> {
    if choices.len() == 0 {
        Seq::empty()
    } else {
        join_commas(choices.map_values(|c: Choice| spec_render_rank(c)))
    }
}

pub proof fn lemma_digits_val_nonneg(s: Seq<char>)
    requires
        all_digits(s),
    ensures
        digits_val(s) >= 0,
    decreases s.len(),
{
    if s.len() > 0 {
        assert(forall|i: int|
            0 <= i < s.drop_last().len() ==> is_digit(#[trigger] s.drop_last()[i]));
        lemma_digits_val_nonneg(s.drop_last());
        assert(is_digit(s.last()));
    }
}

/// A digit string's prefixes never exceed its value.
pub proof fn lemma_digits_val_prefix_le(s: Seq<char>, j: int)
    requires
        all_digits(s),
        0 <= j <= s.len(),
    ensures
        digits_val(s.take(j)) <= digits_val(s),
        digits_val(s.take(j)) >= 0,
    decreases s.len() - j,
{
    assert(forall|i: int| 0 <= i < j ==> is_digit(#[trigger] s.take(j)[i]));
    lemma_digits_val_nonneg(s.take(j));
    if j == s.len() {
        assert(s.take(j) =~= s);
    } else {
        lemma_digits_val_prefix_le(s, j + 1);
        assert(s.take(j + 1).drop_last() =~= s.take(j));
        assert(s.take(j + 1).last() == s[j]);
        assert(digits_val(s.take(j + 1)) == digits_val(s.take(j)) * 10 + digit_val(s[j]));
        assert(is_digit(s[j]));
    }
}

pub proof fn lemma_digits_of_props(n: int)
    requires
        n >= 0,
    ensures
        all_digits(digits_of(n)),
        digits_of(n).len() >= 1,
        digits_val(digits_of(n)) == n,
        !digits_of(n).contains(','),
        !digits_of(n).contains('='),
    decreases n,
{
    if n < 10 {
        let d = digits_of(n);
        assert(d.len() == 1);
        assert(d[0] == ('0' as int + n) as char);
        assert(is_digit(d[0]));
        assert(d.drop_last() =~= Seq::<char>::empty());
        assert(digits_val(Seq::<char>::empty()) == 0);
        assert(d.last() == d[0]);
        assert(digits_val(d) == digit_val(d[0]));
        assert(!d.contains(',')) by {
            if d.contains(',') {
                let i = choose|i: int| 0 <= i < d.len() && d[i] == ',';
                assert(is_digit(d[i]));
            }
        }
        assert(!d.contains('=')) by {
            if d.contains('=') {
                let i = choose|i: int| 0 <= i < d.len() && d[i] == '=';
                assert(is_digit(d[i]));
            }
        }
    } else {
        lemma_digits_of_props(n / 10);
        let p = digits_of(n / 10);
        let d = digits_of(n);
        assert(d == p.push(('0' as int + n % 10) as char));
        assert(d.drop_last() =~= p);
        assert(d.last() == ('0' as int + n % 10) as char);
        assert(is_digit(d.last()));
        assert(digits_val(d) == digits_val(p) * 10 + (n % 10));
        assert(all_digits(d)) by {
            assert(forall|i: int| 0 <= i < p.len() ==> d[i] == p[i]);
        }
        assert(!d.contains(',')) by {
            if d.contains(',') {
                let i = choose|i: int| 0 <= i < d.len() && d[i] == ',';
                assert(is_digit(d[i]));
            }
        }
        assert(!d.contains('=')) by {
            if d.contains('=') {
                let i = choose|i: int| 0 <= i < d.len() && d[i] == '=';
                assert(is_digit(d[i]));
            }
        }
    }
}

/// A comma-free string splits into itself alone.
pub proof fn lemma_split_nocomma(s: Seq<char>)
    requires
        !s.contains(','),
    ensures
        split_commas(s) == seq![s],
    decreases s.len(),
{
    if s.len() == 0 {
        assert(split_commas(s) =~~= seq![s]);
    }
    if s.len() > 0 {
        assert(s[0] != ',');
        assert(!s.drop_first().contains(',')) by {
            if s.drop_first().contains(',') {
                let i = choose|i: int| 0 <= i < s.drop_first().len() && s.drop_first()[i] == ',';
                assert(s[i + 1] == ',');
            }
        }
        lemma_split_nocomma(s.drop_first());
        assert(seq![s[0]] + s.drop_first() =~= s);
        assert(split_commas(s) =~~= seq![s]);
    }
}

/// Splitting after joining comma-free segments returns the segments.
pub proof fn lemma_split_join(segs: Seq<Seq<char>>)
    requires
        segs.len() >= 1,
        forall|i: int| 0 <= i < segs.len() ==> !(#[trigger] segs[i]).contains(','),
    ensures
        split_commas(join_commas(segs)) == segs,
    decreases segs.len(), segs[0].len(),
{
    if segs.len() == 1 {
        lemma_split_nocomma(segs[0]);
    } else if segs[0].len() == 0 {
        let s = join_commas(segs);
        assert(s =~= seq![','] + join_commas(segs.drop_first()));
        assert(s[0] == ',');
        assert(s.drop_first() =~= join_commas(segs.drop_first()));
        assert(forall|i: int|
            0 <= i < segs.drop_first().len() ==> !(#[trigger] segs.drop_first()[i]).contains(','));
        lemma_split_join(segs.drop_first());
        assert(split_commas(s) =~~= segs);
    } else {
        let s = join_commas(segs);
        let segs2 = segs.update(0, segs[0].drop_first());
        assert(segs[0].contains(segs[0][0]) || true);
        assert(s =~= segs[0] + seq![','] + join_commas(segs.drop_first()));
        assert(s.len() > 0);
        assert(s[0] == segs[0][0]);
        assert(s[0] != ',') by {
            if s[0] == ',' {
                assert(segs[0].contains(','));
            }
        }
        assert(segs2.drop_first() =~= segs.drop_first());
        assert(join_commas(segs2) =~= segs2[0] + seq![','] + join_commas(segs2.drop_first()));
        assert(s.drop_first() =~= join_commas(segs2)) by {
            assert(segs2[0] =~= segs[0].drop_first());
            assert(s.drop_first() =~= segs[0].drop_first() + seq![','] + join_commas(
                segs.drop_first(),
            ));
        }
        assert(forall|i: int|
            0 <= i < segs2.len() ==> !(#[trigger] segs2[i]).contains(',')) by {
            assert(forall|i: int| 1 <= i < segs2.len() ==> segs2[i] == segs[i]);
            if segs2[0].contains(',') {
                let i = choose|i: int| 0 <= i < segs2[0].len() && segs2[0][i] == ',';
                assert(segs[0][i + 1] == ',');
            }
        }
        lemma_split_join(segs2);
        assert(split_commas(s) == split_commas(s.drop_first()).update(
            0,
            seq![s[0]] + split_commas(s.drop_first())[0],
        ));
        assert(split_commas(s.drop_first()) == segs2);
        assert(seq![s[0]] + segs2[0] =~= segs[0]);
        assert(split_commas(s) =~~= segs);
    }
}

/// A split always produces at least one segment.
pub proof fn lemma_split_len(s: Seq<char>)
    ensures
        split_commas(s).len() >= 1,
    decreases s.len(),
{
    if s.len() > 0 {
        lemma_split_len(s.drop_first());
    }
}

/// Appending one more segment to a join.
pub proof fn lemma_join_push(segs: Seq<Seq<char>>, x: Seq<char>)
    requires
        segs.len() >= 1,
    ensures
        join_commas(segs.push(x)) == join_commas(segs) + seq![','] + x,
    decreases segs.len(),
{
    if segs.len() == 1 {
        assert(segs.push(x).drop_first() =~= seq![x]);
        assert(join_commas(seq![x]) == x);
        assert(segs.push(x)[0] == segs[0]);
        assert(join_commas(segs.push(x)) =~= segs[0] + seq![','] + x);
    } else {
        assert(segs.push(x).drop_first() =~= segs.drop_first().push(x));
        lemma_join_push(segs.drop_first(), x);
        assert(join_commas(segs.push(x)) =~= join_commas(segs) + seq![','] + x);
    }
}

/// One parsed rank of a well-formed ballot round-trips through rendering.
pub proof fn lemma_render_rank_round_trip(r: Seq<char>)
    requires
        rank_valid(r),
    ensures
        !spec_render_rank(rank_choice(r)).contains(','),
        spec_render_rank(rank_choice(r)).len() >= 1,
        rank_valid(spec_render_rank(rank_choice(r))),
        rank_choice(spec_render_rank(rank_choice(r))) == rank_choice(r),
{
    if r.contains('=') {
        let seg = spec_render_rank(Choice::Overvote);
        assert(seg == seq!['=']);
        assert(seg[0] == '=');
        assert(seg.contains('='));
        assert(!seg.contains(',')) by {
            if seg.contains(',') {
                let i = choose|i: int| 0 <= i < seg.len() && seg[i] == ',';
                assert(seg[i] == '=');
            }
        }
    } else {
        let v = digits_val(r.skip(1));
        assert(1 <= v <= u32::MAX);
        let c = rank_choice(r);
        assert(c == Choice::Vote(CandidateId((v - 1) as u32)));
        let seg = spec_render_rank(c);
        lemma_digits_of_props(v);
        assert(seg =~= seq!['C'] + digits_of(v));
        assert(seg[0] == 'C');
        assert(seg.len() >= 2);
        assert(seg.skip(1) =~= digits_of(v));
        assert(!seg.contains(',')) by {
            if seg.contains(',') {
                let i = choose|i: int| 0 <= i < seg.len() && seg[i] == ',';
                assert(i >= 1);
                assert(digits_of(v)[i - 1] == ',');
                assert(digits_of(v).contains(','));
            }
        }
        assert(!seg.contains('=')) by {
            if seg.contains('=') {
                let i = choose|i: int| 0 <= i < seg.len() && seg[i] == '=';
                assert(i >= 1);
                assert(digits_of(v)[i - 1] == '=');
                assert(digits_of(v).contains('='));
            }
        }
        assert(rank_valid(seg));
        assert(rank_choice(seg) == Choice::Vote(CandidateId((v - 1) as u32)));
    }
}

/// Parsing is left inverse to rendering on parsed ballots: re-parsing the
/// rendering of a parse yields the same choices.
pub proof fn lemma_parse_render_round_trip(s: Seq<char>)
    requires
        btv_ballot_valid(s),
    ensures
        spec_parse_ballot(spec_render_ballot(spec_parse_ballot(s))) == spec_parse_ballot(s),
{
    if s.len() == 0 {
    } else {
        let segs = split_commas(s);
        let cs = spec_parse_ballot(s);
        assert(cs == segs.map_values(|r: Seq<char>| rank_choice(r)));
        assert(segs.len() >= 1) by {
            lemma_split_len(s);
        }
        assert(cs.len() == segs.len());
        let rendered = cs.map_values(|c: Choice| spec_render_rank(c));
        assert forall|i: int| 0 <= i < rendered.len() implies !(#[trigger] rendered[i]).contains(
            ',',
        ) && rendered[i].len() >= 1 && rank_valid(rendered[i]) && rank_choice(rendered[i])
            == cs[i] by {
            assert(rank_valid(segs[i]));
            assert(cs[i] == rank_choice(segs[i]));
            lemma_render_rank_round_trip(segs[i]);
        }
        let joined = spec_render_ballot(cs);
        assert(joined == join_commas(rendered));
        assert(joined.len() >= 1) by {
            if rendered.len() == 1 {
                assert(joined == rendered[0]);
            } else {
                assert(joined == rendered[0] + seq![','] + join_commas(rendered.drop_first()));
            }
        }
        lemma_split_join(rendered);
        assert(spec_parse_ballot(joined) == split_commas(joined).map_values(
            |r: Seq<char>| rank_choice(r),
        ));
        assert(spec_parse_ballot(joined) =~= cs);
    }
}

/// Peeling the first segment off a split at the first comma.
pub proof fn lemma_split_step(s: Seq<char>, p: int)
    requires
        0 <= p < s.len(),
        s[p] == ',',
        forall|j: int| 0 <= j < p ==> s[j] != ',',
    ensures
        split_commas(s) == seq![s.take(p)] + split_commas(s.skip(p + 1)),
    decreases p,
{
    if p == 0 {
        assert(s.take(0) =~= Seq::<char>::empty());
        assert(s.drop_first() =~= s.skip(1));
        assert(split_commas(s) =~~= seq![s.take(p)] + split_commas(s.skip(p + 1)));
    } else {
        assert(s[0] != ',');
        let t = s.drop_first();
        assert(t[p - 1] == ',');
        assert(forall|j: int| 0 <= j < p - 1 ==> t[j] != ',');
        lemma_split_step(t, p - 1);
        assert(t.take(p - 1) =~= s.take(p).drop_first());
        assert(t.skip(p) =~= s.skip(p + 1));
        assert(split_commas(s) == split_commas(t).update(0, seq![s[0]] + split_commas(t)[0]));
        assert(split_commas(t) == seq![t.take(p - 1)] + split_commas(t.skip(p)));
        assert(split_commas(t)[0] == s.take(p).drop_first());
        assert(seq![s[0]] + s.take(p).drop_first() =~= s.take(p));
        assert(split_commas(s) =~~= seq![s.take(p)] + split_commas(s.skip(p + 1)));
    }
}


/// Reader options for the BTV text-log format.
pub struct ReaderOptions {
    pub ballots: String,
    pub archive: Option<String>,
}

impl ReaderOptions {
    /// Reads the required `ballots` parameter and the optional `archive`
    /// parameter.
    pub fn from_params(params: &crate::metadata::Params) -> (r: ReaderOptions)
        requires
            crate::metadata::spec_param(params.entries@, "ballots"@) is Some,
        ensures
            Some(r.ballots@) == crate::metadata::spec_param(params.entries@, "ballots"@),
            match r.archive {
                Some(a) => Some(a@) == crate::metadata::spec_param(params.entries@, "archive"@),
                None => crate::metadata::spec_param(params.entries@, "archive"@) is None,
            },
    {
        let ballots_key = String::from_str("ballots");
        let archive_key = String::from_str("archive");
        let got = params.get(&ballots_key);
        let ballots = match got {
            Some(v) => v.clone(),
            None => {
                proof {
                    assert(false);
                }
                String::new()
            },
        };
        let archive = match params.get(&archive_key) {
            Some(v) => Some(v.clone()),
            None => None,
        };
        ReaderOptions { ballots, archive }
    }
}

/// Decides `rank_valid` for `source[from..to]` and returns the denoted
/// choice when well-formed.
#[verifier::loop_isolation(false)]
fn parse_rank_checked(source: &str, from: usize, to: usize) -> (r: Option<Choice>)
    requires
        from <= to <= source@.len(),
    ensures
        match r {
            Some(c) => rank_valid(source@.subrange(from as int, to as int)) && c == rank_choice(
                source@.subrange(from as int, to as int),
            ),
            None => !rank_valid(source@.subrange(from as int, to as int)),
        },
{
    let ghost seg = source@.subrange(from as int, to as int);
    // Any `=` makes the rank an overvote.
    let mut j: usize = from;
    while j < to
        invariant
            from <= j <= to <= source@.len(),
            forall|i: int| from <= i < j ==> source@[i] != '=',
        decreases to - j,
    {
        if source.get_char(j) == '=' {
            proof {
                assert(seg[j - from as int] == '=');
                assert(seg.contains('='));
            }
            return Some(Choice::Overvote);
        }
        j = j + 1;
    }
    proof {
        assert(!seg.contains('=')) by {
            if seg.contains('=') {
                let i = choose|i: int| 0 <= i < seg.len() && seg[i] == '=';
                assert(source@[from as int + i] == '=');
            }
        }
    }
    if to - from < 2 {
        return None;
    }
    if source.get_char(from) != 'C' {
        proof {
            assert(seg[0] != 'C');
        }
        return None;
    }
    // All remaining characters must be decimal digits.
    let ghost digits = seg.skip(1);
    let mut j2: usize = from + 1;
    while j2 < to
        invariant
            from + 1 <= j2 <= to <= source@.len(),
            forall|i: int| from + 1 <= i < j2 ==> is_digit(#[trigger] source@[i]),
        decreases to - j2,
    {
        let c = source.get_char(j2);
        let cv = c as u32;
        if cv < '0' as u32 || cv > '9' as u32 {
            proof {
                assert(!is_digit(source@[j2 as int]));
                assert(digits[j2 - from - 1] == source@[j2 as int]);
                assert(!all_digits(digits));
            }
            return None;
        }
        j2 = j2 + 1;
    }
    proof {
        assert(all_digits(digits)) by {
            assert(forall|i: int|
                0 <= i < digits.len() ==> #[trigger] digits[i] == source@[from + 1 + i]);
        }
    }
    // Accumulate the value, rejecting anything beyond `u32`.
    let mut val: u64 = 0;
    let mut j3: usize = from + 1;
    while j3 < to
        invariant
            from + 1 <= j3 <= to <= source@.len(),
            all_digits(digits),
            digits == seg.skip(1),
            seg == source@.subrange(from as int, to as int),
            val as int == digits_val(digits.take(j3 - from - 1)),
            val <= u32::MAX,
        decreases to - j3,
    {
        let c = source.get_char(j3);
        let d = (c as u32) - ('0' as u32);
        proof {
            assert(digits[j3 - from - 1] == source@[j3 as int]);
            assert(is_digit(digits[j3 - from - 1]));
            assert(digits.take(j3 - from as int) =~= digits.take(j3 - from - 1).push(
                digits[j3 - from - 1],
            ));
            assert(digits.take(j3 - from as int).drop_last() =~= digits.take(j3 - from - 1));
        }
        let next: u64 = val * 10 + d as u64;
        proof {
            assert(next as int == digits_val(digits.take(j3 - from as int)));
        }
        if next > u32::MAX as u64 {
            proof {
                lemma_digits_val_prefix_le(digits, j3 - from as int);
                assert(digits_val(digits) >= digits_val(digits.take(j3 - from as int)));
                assert(!(digits_val(seg.skip(1)) <= u32::MAX));
            }
            return None;
        }
        val = next;
        j3 = j3 + 1;
    }
    proof {
        assert(digits.take(to - from - 1) =~= digits);
    }
    if val == 0 {
        return None;
    }
    let v32 = val as u32;
    proof {
        assert(rank_valid(seg));
        assert(rank_choice(seg) == Choice::Vote(CandidateId((v32 - 1) as u32)));
    }
    Some(Choice::Vote(CandidateId(v32 - 1)))
}

/// Parses a BTV ballot record, deciding its well-formedness: `Some` exactly
/// on well-formed records, with the denoted choices.
#[verifier::loop_isolation(false)]
pub fn parse_ballot_checked(source: &str) -> (r: Option<Vec<Choice>>)
    ensures
        r is Some <==> btv_ballot_valid(source@),
        match r {
            Some(v) => v@ == spec_parse_ballot(source@),
            None => true,
        },
{
    let n = source.unicode_len();
    if n == 0 {
        let empty: Vec<Choice> = Vec::new();
        return Some(empty);
    }
    let ghost segs = split_commas(source@);
    proof {
        lemma_split_len(source@);
        assert(source@.skip(0) =~= source@);
    }
    let mut choices: Vec<Choice> = Vec::new();
    let mut start: usize = 0;
    let ghost mut seg_idx: int = 0;
    loop
        invariant
            start <= n,
            n == source@.len(),
            n > 0,
            segs == split_commas(source@),
            0 <= seg_idx < segs.len(),
            split_commas(source@.skip(start as int)) == segs.skip(seg_idx),
            choices@ =~= segs.take(seg_idx).map_values(|rr: Seq<char>| rank_choice(rr)),
            forall|i: int| 0 <= i < seg_idx ==> rank_valid(#[trigger] segs[i]),
        decreases n - start + 1,
    {
        // Find the end of the current segment.
        let mut j: usize = start;
        while j < n
            invariant
                start <= j <= n,
                n == source@.len(),
                forall|i: int| start <= i < j ==> source@[i] != ',',
            decreases n - j,
        {
            if source.get_char(j) == ',' {
                break;
            }
            j = j + 1;
        }
        let ghost tail = source@.skip(start as int);
        let ghost seg = source@.subrange(start as int, j as int);
        proof {
            if j < n {
                assert(source@[j as int] == ',');
                assert(tail[j - start as int] == ',');
                assert(forall|i: int| 0 <= i < j - start as int ==> tail[i] != ',');
                lemma_split_step(tail, j - start as int);
                assert(tail.take(j - start as int) =~= seg);
                assert(tail.skip(j - start as int + 1) =~= source@.skip(j as int + 1));
                assert(seq![tail.take(j - start as int)] =~= seq![seg]);
                assert(segs.skip(seg_idx) == seq![seg] + split_commas(source@.skip(j as int + 1)));
                assert(segs.skip(seg_idx)[0] == segs[seg_idx]);
                assert((seq![seg] + split_commas(source@.skip(j as int + 1)))[0] == seg);
                assert(segs[seg_idx] == seg);
                assert(segs.skip(seg_idx).drop_first() =~= segs.skip(seg_idx + 1));
                assert(split_commas(source@.skip(j as int + 1)) =~= segs.skip(seg_idx + 1));
            } else {
                assert(!tail.contains(',')) by {
                    if tail.contains(',') {
                        let i = choose|i: int| 0 <= i < tail.len() && tail[i] == ',';
                        assert(source@[start + i] == ',');
                    }
                }
                lemma_split_nocomma(tail);
                assert(tail =~= seg);
                assert(seq![tail] =~= seq![seg]);
                assert(segs.skip(seg_idx) == seq![seg]);
                assert(segs.skip(seg_idx)[0] == segs[seg_idx]);
                assert(segs[seg_idx] == seg);
                assert(seg_idx == segs.len() - 1);
            }
        }
        let parsed = parse_rank_checked(source, start, j);
        match parsed {
            Some(c) => {
                choices.push(c);
                proof {
                    assert(segs.take(seg_idx + 1) =~= segs.take(seg_idx).push(segs[seg_idx]));
                    assert(segs.take(seg_idx + 1).map_values(|rr: Seq<char>| rank_choice(rr))
                        =~= segs.take(seg_idx).map_values(|rr: Seq<char>| rank_choice(rr)).push(
                        rank_choice(segs[seg_idx]),
                    ));
                    seg_idx = seg_idx + 1;
                }
            },
            None => {
                proof {
                    assert(!rank_valid(segs[seg_idx]));
                    assert(!btv_ballot_valid(source@));
                }
                return None;
            },
        }
        if j == n {
            proof {
                assert(seg_idx == segs.len());
                assert(segs.take(seg_idx) =~= segs);
                assert(btv_ballot_valid(source@));
            }
            return Some(choices);
        }
        start = j + 1;
        proof {
            assert(seg_idx < segs.len()) by {
                lemma_split_len(source@.skip(start as int));
            }
        }
    }
}

/// Parses a well-formed BTV ballot record into its choices: `=` ranks become
/// overvotes, `C<n>` ranks become votes for candidate `n - 1`.
pub fn parse_ballot(source: &str) -> (r: Vec<Choice>)
    requires
        btv_ballot_valid(source@),
    ensures
        r@ == spec_parse_ballot(source@),
{
    let parsed = parse_ballot_checked(source);
    match parsed {
        Some(v) => v,
        None => {
            proof {
                assert(false);
            }
            Vec::new()
        },
    }
}

/// Appends the decimal rendering of `n` to `out`.
fn push_digits(out: &mut String, n: u32)
    ensures
        final(out)@ == old(out)@ + digits_of(n as int),
    decreases n,
{
    if n >= 10 {
        push_digits(out, n / 10);
    }
    let d = n % 10;
    let ghost before = out@;
    match d {
        0 => out.append("0"),
        1 => out.append("1"),
        2 => out.append("2"),
        3 => out.append("3"),
        4 => out.append("4"),
        5 => out.append("5"),
        6 => out.append("6"),
        7 => out.append("7"),
        8 => out.append("8"),
        _ => out.append("9"),
    }
    proof {
        reveal_strlit("0");
        reveal_strlit("1");
        reveal_strlit("2");
        reveal_strlit("3");
        reveal_strlit("4");
        reveal_strlit("5");
        reveal_strlit("6");
        reveal_strlit("7");
        reveal_strlit("8");
        reveal_strlit("9");
        assert(out@ =~= before.push((('0' as int + d as int) as char)));
        if n < 10 {
            assert(digits_of(n as int) =~= seq![(('0' as int + n as int) as char)]);
            assert(out@ =~= old(out)@ + digits_of(n as int));
        } else {
            assert(digits_of(n as int) == digits_of(n as int / 10).push(
                (('0' as int + n as int % 10) as char),
            ));
            assert(out@ =~= old(out)@ + digits_of(n as int));
        }
    }
}

/// Renders choices back into the BTV ballot grammar; the canonical right
/// inverse of `parse_ballot` (votes as `C<n+1>`, overvotes as `=`).
#[verifier::loop_isolation(false)]
pub fn render_ballot(choices: &Vec<Choice>) -> (r: String)
    requires
        forall|i: int| 0 <= i < choices@.len() ==> #[trigger] choices@[i] != Choice::Undervote,
        forall|i: int|
            0 <= i < choices@.len() ==> match #[trigger] choices@[i] {
                Choice::Vote(id) => id.0 < u32::MAX,
                _ => true,
            },
    ensures
        r@ == spec_render_ballot(choices@),
{
    let ghost rendered = choices@.map_values(|c: Choice| spec_render_rank(c));
    let mut out = String::new();
    let mut i: usize = 0;
    while i < choices.len()
        invariant
            i <= choices@.len(),
            rendered == choices@.map_values(|c: Choice| spec_render_rank(c)),
            forall|k: int| 0 <= k < choices@.len() ==> #[trigger] choices@[k] != Choice::Undervote,
            forall|k: int|
                0 <= k < choices@.len() ==> match #[trigger] choices@[k] {
                    Choice::Vote(id) => id.0 < u32::MAX,
                    _ => true,
                },
            i == 0 ==> out@ == Seq::<char>::empty(),
            i >= 1 ==> out@ == join_commas(rendered.take(i as int)),
        decreases choices@.len() - i,
    {
        let ghost before_seg = out@;
        if i > 0 {
            out.append(",");
            proof {
                reveal_strlit(",");
            }
        }
        let ghost mid = out@;
        match choices[i] {
            Choice::Overvote => {
                out.append("=");
                proof {
                    reveal_strlit("=");
                    assert(out@ =~= mid + spec_render_rank(choices@[i as int]));
                }
            },
            Choice::Vote(id) => {
                out.append("C");
                push_digits(&mut out, id.0 + 1);
                proof {
                    reveal_strlit("C");
                    assert(out@ =~= mid + spec_render_rank(choices@[i as int]));
                }
            },
            Choice::Undervote => {
                proof {
                    assert(false);
                }
            },
        }
        proof {
            assert(rendered[i as int] == spec_render_rank(choices@[i as int]));
            if i == 0 {
                assert(rendered.take(1) =~= seq![rendered[0]]);
                assert(join_commas(rendered.take(1)) == rendered[0]);
                assert(out@ =~= rendered[0]);
            } else {
                assert(rendered.take(i as int + 1) =~= rendered.take(i as int).push(
                    rendered[i as int],
                ));
                lemma_join_push(rendered.take(i as int), rendered[i as int]);
                assert(out@ =~= join_commas(rendered.take(i as int)) + seq![',']
                    + rendered[i as int]);
                assert(out@ =~= join_commas(rendered.take(i as int + 1)));
            }
        }
        i = i + 1;
    }
    proof {
        if choices@.len() == 0 {
            assert(out@ =~= spec_render_ballot(choices@));
        } else {
            assert(rendered.take(choices@.len() as int) =~= rendered);
            assert(out@ =~= spec_render_ballot(choices@));
        }
    }
    out
}

} // verus!
