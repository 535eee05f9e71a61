//! What the ephemeris tool's exit status and output mean: a distance, an
//! unknown location, or a list of candidates to pick from.
use vstd::prelude::*;
use vstd::string::*;
use crate::decimal::{is_distance, parse_decimal, parse_decimal_spec, Decimal, DistanceError};
use crate::text::{
    is_white, is_whitespace, line_bounds, line_ranges, lines, skip_white, trim, trim_bounds,
    trimmed,
};

verus! {

/// Most characters that a disambiguation reply may hold.
pub const MAX_REPLY_CHARS: usize = 280;

/// One entry of an ambiguous answer: the number to reply with and the name
/// it stands for.
#[derive(Clone, Debug, PartialEq, Eq)]
pub struct Candidate {
    pub id: String,
    pub label: String,
}

impl View for Candidate {
    type V = (Seq<char>, Seq<char>);

    open spec fn view(&self) -> (Seq<char>, Seq<char>) {
        (self.id@, self.label@)
    }
}

/// What one lookup resolved to.
#[derive(Clone, Debug, PartialEq, Eq)]
pub enum Classification {
    /// The one-way distance, in light-minutes.
    Resolved(Decimal),
    /// The tool did not know the location.
    Unrecognized,
    /// Several bodies match; the requester has to pick one.
    Ambiguous(Vec<Candidate>),
}

/// Why a lookup gave no usable answer.
#[derive(Clone, Copy, Debug, PartialEq, Eq, Structural)]
pub enum LookupError {
    /// The tool could not be run, or ended without an exit status.
    GatewayError,
    /// The output did not have the shape that its exit status announces.
    ParseError,
    /// The tool ended with a status other than 0, 1 or 2.
    UnrecognizedExitCode(i32),
    /// The distance is infinite, not a number, or too far for any deadline
    /// to be computed (see `INT_DIGITS`).
    DistanceOutOfRange,
}

/// First index from `i` on that holds whitespace, or the end.
pub open spec fn word_end(s: Seq<char>, i: int) -> int
    decreases s.len() - i,
{
    if 0 <= i < s.len() && !is_white(s[i]) {
        word_end(s, i + 1)
    } else {
        i
    }
}

/// Bounds of the third whitespace-separated token of `s`, if there is one.
pub open spec fn third_token(s: Seq<char>) -> Option<(int, int)> {
    let n = s.len() as int;
    let s0 = skip_white(s, 0, n);
    let s1 = skip_white(s, word_end(s, s0), n);
    let s2 = skip_white(s, word_end(s, s1), n);
    if s2 < n {
        Some((s2, word_end(s, s2)))
    } else {
        None
    }
}

/// The distance that a successful lookup reports: the third token of the
/// first line of the trimmed output, read as `parse_decimal_spec` says.
pub open spec fn resolved_parse(out: Seq<char>) -> Result<Decimal, LookupError> {
    let ls = lines(trimmed(out));
    if ls.len() == 0 {
        Err(LookupError::ParseError)
    } else {
        match third_token(ls[0]) {
            Some((a, b)) => match parse_decimal_spec(ls[0].subrange(a, b)) {
                Ok(d) => Ok(d),
                Err(DistanceError::Invalid) => Err(LookupError::ParseError),
                Err(DistanceError::OutOfRange) => Err(LookupError::DistanceOutOfRange),
            },
            None => Err(LookupError::ParseError),
        }
    }
}

/// The distance of a successful lookup, if it reports one.
pub open spec fn resolved_distance(out: Seq<char>) -> Option<Decimal> {
    match resolved_parse(out) {
        Ok(d) => Some(d),
        Err(_) => None,
    }
}

/// The pattern of a candidate line: optional whitespace, a number with an
/// optional minus sign, optional whitespace, then a label that ends at `(`,
/// at two spaces or at the end of the line. It may match anywhere in the
/// line; the first match counts.
pub const CANDIDATE_PATTERN: &'static str = "\\s*(-?\\d+)\\s*(.*?)(\\(|  |$)";

/// The text of each group of the leftmost-first match of the regular
/// expression `pattern` in `text`, group 0 being the whole match; `None`
/// where nothing matches or the pattern is invalid.
pub uninterp spec fn first_match_groups(pattern: Seq<char>, text: Seq<char>) -> Option<
    Seq<Seq<char>>,
>;

/// Relies on regex's `Regex::new` and `Regex::captures`: the groups of the
/// first match of `pattern` in `text` (an empty text for a group that took
/// no part), `None` where nothing matches or the pattern is invalid.
#[verifier::external_body]
fn regex_groups(pattern: &str, text: &str) -> (r: Option<Vec<String>>)
    ensures
        match r {
            Some(v) => first_match_groups(pattern@, text@) == Some(
                v@.map_values(|g: String| g@),
            ),
            None => first_match_groups(pattern@, text@).is_none(),
        },
{
    let re = match regex::Regex::new(pattern) {
        Ok(re) => re,
        Err(_) => return None,
    };
    match re.captures(text) {
        Some(caps) => Some(caps.iter().map(|g| g.map_or(String::new(), |m| m.as_str().to_string())).collect()),
        None => None,
    }
}

/// The number and label that the groups of a candidate match give: group 1,
/// and group 2 without surrounding whitespace.
pub open spec fn candidate_of_groups(g: Seq<Seq<char>>) -> Option<(Seq<char>, Seq<char>)> {
    if g.len() >= 3 {
        Some((g[1], trimmed(g[2])))
    } else {
        None
    }
}

/// The number and the label of a candidate line.
pub open spec fn candidate_of(s: Seq<char>) -> Option<(Seq<char>, Seq<char>)> {
    match first_match_groups(CANDIDATE_PATTERN@, s) {
        Some(g) => candidate_of_groups(g),
        None => None,
    }
}

/// The candidates of an ambiguous answer, one per line of the trimmed
/// output; `None` when some line is not a candidate line.
pub open spec fn candidates_of(out: Seq<char>) -> Option<Seq<(Seq<char>, Seq<char>)>> {
    let ls = lines(trimmed(out));
    if forall|k: int| 0 <= k < ls.len() ==> (#[trigger] candidate_of(ls[k])).is_some() {
        Some(ls.map_values(|l: Seq<char>| candidate_of(l).unwrap()))
    } else {
        None
    }
}

/// The line of a disambiguation reply for one candidate.
pub open spec fn piece(c: (Seq<char>, Seq<char>)) -> Seq<char> {
    c.0 + ": "@ + c.1 + "\n"@
}

/// The disambiguation reply: a header, then one line per candidate in
/// order, leaving out each line that would take the reply past
/// `MAX_REPLY_CHARS` characters.
pub open spec fn pick_message(cs: Seq<(Seq<char>, Seq<char>)>) -> Seq<char>
    decreases cs.len(),
{
    if cs.len() == 0 {
        "Pick a number:\n"@
    } else {
        let m = pick_message(cs.drop_last());
        let p = piece(cs.last());
        if m.len() + p.len() <= MAX_REPLY_CHARS {
            m + p
        } else {
            m
        }
    }
}

/// The reply to a location that the tool does not know.
pub open spec fn unrecognized_text() -> Seq<char> {
    "Sorry, I don't recognize that location.\n\nConsult JPL HORIZONS for valid options: https://ssd.jpl.nasa.gov/?horizons\n"@
}

/// What the classification of `(exit_code, out)` is, with candidates seen
/// through their views.
pub open spec fn classify_ok(exit_code: Option<i32>, out: Seq<char>, c: Classification) -> bool {
    match exit_code {
        Some(0) => resolved_distance(out) matches Some(d) && c == Classification::Resolved(d),
        Some(1) => c == Classification::Unrecognized,
        Some(2) => match c {
            Classification::Ambiguous(v) => candidates_of(out) == Some(
                v@.map_values(|x: Candidate| x@),
            ),
            _ => false,
        },
        _ => false,
    }
}

/// The error that `(exit_code, out)` gives, if any.
pub open spec fn classify_err(exit_code: Option<i32>, out: Seq<char>) -> Option<LookupError> {
    match exit_code {
        None => Some(LookupError::GatewayError),
        Some(0) => match resolved_parse(out) {
            Ok(_) => None,
            Err(e) => Some(e),
        },
        Some(1) => None,
        Some(2) => if candidates_of(out).is_some() {
            None
        } else {
            Some(LookupError::ParseError)
        },
        Some(code) => Some(LookupError::UnrecognizedExitCode(code)),
    }
}

/// The token of `s` that starts at or after `i`: its bounds.
fn next_token(s: &str, i: usize) -> (r: (usize, usize))
    requires
        i <= s@.len(),
    ensures
        r.0 == skip_white(s@, i as int, s@.len() as int),
        r.1 == word_end(s@, r.0 as int),
        i <= r.0 <= r.1 <= s@.len(),
{
    let n = s.unicode_len();
    let (a, _) = trim_bounds(s, i, n);
    let mut e = a;
    while e < n && !is_whitespace(s.get_char(e))
        invariant
            n == s@.len(),
            a <= e <= n,
            word_end(s@, e as int) == word_end(s@, a as int),
        decreases n - e,
    {
        e = e + 1;
    }
    (a, e)
}

/// The candidate that the groups of a candidate match give.
pub fn candidate_from_groups(groups: &Vec<String>) -> (r: Option<Candidate>)
    ensures
        match r {
            Some(c) => candidate_of_groups(groups@.map_values(|g: String| g@)) == Some(c@),
            None => candidate_of_groups(groups@.map_values(|g: String| g@)).is_none(),
        },
{
    if groups.len() >= 3 {
        let id = String::from_str(groups[1].as_str());
        let label = String::from_str(trim(groups[2].as_str()));
        Some(Candidate { id, label })
    } else {
        None
    }
}

/// Reads one candidate line.
pub fn parse_candidate(line: &str) -> (r: Option<Candidate>)
    ensures
        match r {
            Some(c) => candidate_of(line@) == Some(c@),
            None => candidate_of(line@).is_none(),
        },
{
    match regex_groups(CANDIDATE_PATTERN, line) {
        Some(g) => candidate_from_groups(&g),
        None => None,
    }
}

/// The distance on the first line of a successful lookup's output.
fn read_distance(out: &str) -> (r: Result<Decimal, LookupError>)
    ensures
        r == resolved_parse(out@),
        r matches Ok(d) ==> is_distance(d),
{
    let t = trim(out);
    let ranges = line_bounds(t);
    if ranges.len() == 0 {
        return Err(LookupError::ParseError);
    }
    let (lo, hi) = ranges[0];
    let line = t.substring_char(lo, hi);
    assert(line@ == lines(t@)[0]);
    let n = line.unicode_len();
    let (_, e0) = next_token(line, 0);
    let (_, e1) = next_token(line, e0);
    let (s2, e2) = next_token(line, e1);
    if s2 < n {
        match parse_decimal(line.substring_char(s2, e2)) {
            Ok(d) => Ok(d),
            Err(DistanceError::Invalid) => Err(LookupError::ParseError),
            Err(DistanceError::OutOfRange) => Err(LookupError::DistanceOutOfRange),
        }
    } else {
        Err(LookupError::ParseError)
    }
}

/// The candidates of an ambiguous lookup's output, one per line; `None` as
/// soon as a line is not a candidate line.
fn read_candidates(out: &str) -> (r: Option<Vec<Candidate>>)
    ensures
        match r {
            Some(v) => candidates_of(out@) == Some(v@.map_values(|x: Candidate| x@)),
            None => candidates_of(out@).is_none(),
        },
{
    let t = trim(out);
    let ranges = line_bounds(t);
    let ghost ls = lines(t@);
    let mut v: Vec<Candidate> = Vec::new();
    let mut k: usize = 0;
    while k < ranges.len()
        invariant
            t@ == trimmed(out@),
            ls == lines(t@),
            ranges@.len() == line_ranges(t@).len(),
            forall|j: int|
                0 <= j < ranges@.len() ==> (#[trigger] ranges@[j]).0 == line_ranges(t@)[j].0
                    && ranges@[j].1 == line_ranges(t@)[j].1 && ranges@[j].0 <= ranges@[j].1
                    <= t@.len(),
            0 <= k <= ranges@.len(),
            v@.len() == k,
            forall|j: int|
                0 <= j < k ==> candidate_of(ls[j]) == Some(#[trigger] v@[j]@),
        decreases ranges@.len() - k,
    {
        let (lo, hi) = ranges[k];
        let line = t.substring_char(lo, hi);
        assert(line@ == ls[k as int]);
        match parse_candidate(line) {
            Some(c) => {
                v.push(c);
            },
            None => {
                return None;
            },
        }
        k = k + 1;
    }
    assert(ls.len() == ranges@.len());
    assert forall|j: int| 0 <= j < ls.len() implies (#[trigger] candidate_of(ls[j])).is_some() by {
        assert(candidate_of(ls[j]) == Some(v@[j]@));
    }
    assert(v@.map_values(|x: Candidate| x@) =~= ls.map_values(
        |l: Seq<char>| candidate_of(l).unwrap(),
    ));
    Some(v)
}

/// Which candidates a disambiguation reply keeps: each one whose line still
/// fits once the earlier ones are in.
pub open spec fn kept(cs: Seq<(Seq<char>, Seq<char>)>) -> Seq<int>
    decreases cs.len(),
{
    if cs.len() == 0 {
        seq![]
    } else {
        let m = pick_message(cs.drop_last());
        if m.len() + piece(cs.last()).len() <= MAX_REPLY_CHARS {
            kept(cs.drop_last()).push(cs.len() - 1)
        } else {
            kept(cs.drop_last())
        }
    }
}

/// A disambiguation reply is its header followed by the lines of the kept
/// candidates, in their order.
pub proof fn lemma_pick_message_is_kept_lines(cs: Seq<(Seq<char>, Seq<char>)>)
    ensures
        forall|k: int| 0 <= k < kept(cs).len() ==> 0 <= #[trigger] kept(cs)[k] < cs.len(),
        forall|k: int, l: int| 0 <= k < l < kept(cs).len() ==> kept(cs)[k] < kept(cs)[l],
        pick_message(cs) == "Pick a number:\n"@ + kept(cs).map_values(|i: int| piece(cs[i])).flatten_alt(),
    decreases cs.len(),
{
    if cs.len() == 0 {
        assert(kept(cs).map_values(|i: int| piece(cs[i])) =~= Seq::<Seq<char>>::empty());
        assert("Pick a number:\n"@ + Seq::<char>::empty() =~= "Pick a number:\n"@);
    } else {
        let dl = cs.drop_last();
        lemma_pick_message_is_kept_lines(dl);
        let before = kept(dl).map_values(|i: int| piece(dl[i]));
        assert(before =~= kept(dl).map_values(|i: int| piece(cs[i])));
        let m = pick_message(dl);
        if m.len() + piece(cs.last()).len() <= MAX_REPLY_CHARS {
            let after = kept(cs).map_values(|i: int| piece(cs[i]));
            assert(after.drop_last() =~= before);
            assert(after.last() == piece(cs.last()));
            assert(after.flatten_alt() == after.drop_last().flatten_alt() + after.last());
            assert("Pick a number:\n"@ + before.flatten_alt() + piece(cs.last()) =~= "Pick a number:\n"@
                + (before.flatten_alt() + piece(cs.last())));
        }
    }
}

pub proof fn lemma_pick_message_len(cs: Seq<(Seq<char>, Seq<char>)>)
    ensures
        15 <= pick_message(cs).len() <= MAX_REPLY_CHARS,
    decreases cs.len(),
{
    reveal_strlit("Pick a number:\n");
    if cs.len() > 0 {
        lemma_pick_message_len(cs.drop_last());
    }
}

/// A disambiguation reply never exceeds `MAX_REPLY_CHARS` characters, and
/// each of its lines is the line of one candidate of the output, in order;
/// each candidate is the number and label of one line of the output, every
/// line matching the candidate pattern.
pub proof fn lemma_disambiguation_reply_bounded(
    out: Seq<char>,
    cs: Seq<(Seq<char>, Seq<char>)>,
)
    requires
        candidates_of(out) == Some(cs),
    ensures
        pick_message(cs).len() <= MAX_REPLY_CHARS,
        cs.len() == lines(trimmed(out)).len(),
        forall|k: int|
            0 <= k < cs.len() ==> candidate_of(lines(trimmed(out))[k]) == Some(#[trigger] cs[k]),
        forall|k: int| 0 <= k < kept(cs).len() ==> 0 <= #[trigger] kept(cs)[k] < cs.len(),
        forall|k: int, l: int| 0 <= k < l < kept(cs).len() ==> kept(cs)[k] < kept(cs)[l],
        pick_message(cs) == "Pick a number:\n"@ + kept(cs).map_values(|i: int| piece(cs[i])).flatten_alt(),
{
    lemma_pick_message_len(cs);
    lemma_pick_message_is_kept_lines(cs);
    let ls = lines(trimmed(out));
    assert forall|k: int| 0 <= k < cs.len() implies candidate_of(ls[k]) == Some(
        #[trigger] cs[k],
    ) by {
        assert(candidate_of(ls[k]).is_some());
    }
}

/// The reply that asks the requester to pick one of `cands`.
pub fn disambiguation_reply(cands: &Vec<Candidate>) -> (r: String)
    ensures
        r@ == pick_message(cands@.map_values(|x: Candidate| x@)),
{
    proof {
        reveal_strlit("Pick a number:\n");
        reveal_strlit(": ");
        reveal_strlit("\n");
    }
    let ghost cs = cands@.map_values(|x: Candidate| x@);
    let mut s = String::from_str("Pick a number:\n");
    let mut len: usize = 15;
    let mut k: usize = 0;
    proof {
        assert(cs.take(0) =~= Seq::<(Seq<char>, Seq<char>)>::empty());
    }
    while k < cands.len()
        invariant
            cs == cands@.map_values(|x: Candidate| x@),
            0 <= k <= cands@.len(),
            s@ == pick_message(cs.take(k as int)),
            len == s@.len(),
            len <= MAX_REPLY_CHARS,
        decreases cands@.len() - k,
    {
        let c = &cands[k];
        let idl = c.id.as_str().unicode_len();
        let lbl = c.label.as_str().unicode_len();
        let room = MAX_REPLY_CHARS - len;
        proof {
            reveal_strlit(": ");
            reveal_strlit("\n");
            assert(cs.take(k as int + 1).drop_last() =~= cs.take(k as int));
            assert(cs.take(k as int + 1).last() == c@);
        }
        if idl <= room && lbl <= room - idl && 3 <= room - idl - lbl {
            s.append(c.id.as_str());
            s.append(": ");
            s.append(c.label.as_str());
            s.append("\n");
            len = len + idl + lbl + 3;
            assert(s@ =~= pick_message(cs.take(k as int)) + piece(c@));
        }
        k = k + 1;
    }
    assert(cs.take(k as int) =~= cs);
    s
}

/// The reply to a location that the tool does not know.
pub fn unrecognized_reply() -> (r: String)
    ensures
        r@ == unrecognized_text(),
{
    String::from_str(
        "Sorry, I don't recognize that location.\n\nConsult JPL HORIZONS for valid options: https://ssd.jpl.nasa.gov/?horizons\n",
    )
}

/// Reads the tool's answer from its exit status and its output.
pub fn classify(exit_code: Option<i32>, out: &str) -> (r: Result<Classification, LookupError>)
    ensures
        match r {
            Ok(c) => classify_err(exit_code, out@).is_none() && classify_ok(exit_code, out@, c),
            Err(e) => classify_err(exit_code, out@) == Some(e),
        },
        r matches Ok(Classification::Resolved(d)) ==> is_distance(d),
{
    match exit_code {
        None => Err(LookupError::GatewayError),
        Some(0) => match read_distance(out) {
            Ok(d) => Ok(Classification::Resolved(d)),
            Err(e) => Err(e),
        },
        Some(1) => Ok(Classification::Unrecognized),
        Some(2) => match read_candidates(out) {
            Some(v) => Ok(Classification::Ambiguous(v)),
            None => Err(LookupError::ParseError),
        },
        Some(code) => Err(LookupError::UnrecognizedExitCode(code)),
    }
}

/// The reply that a classification calls for at once, if any: none for a
/// resolved distance, whose reply waits for its deadline.
pub open spec fn immediate_reply(c: Classification) -> Option<Seq<char>> {
    match c {
        Classification::Resolved(_) => None,
        Classification::Unrecognized => Some(unrecognized_text()),
        Classification::Ambiguous(v) => Some(pick_message(v@.map_values(|x: Candidate| x@))),
    }
}

impl Classification {
    /// The reply that this classification calls for at once, if any.
    pub fn reply(&self) -> (r: Option<String>)
        ensures
            match r {
                Some(s) => immediate_reply(*self) == Some(s@),
                None => immediate_reply(*self).is_none(),
            },
    {
        match self {
            Classification::Resolved(_) => None,
            Classification::Unrecognized => Some(unrecognized_reply()),
            Classification::Ambiguous(v) => Some(disambiguation_reply(v)),
        }
    }
}

} // verus!
